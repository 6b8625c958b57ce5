//! Entries and heads of linked queues whose nodes are linked by index.
use vstd::prelude::*;

verus! {

/// Operations of a list without a head node.  Every lookup hands back the
/// element or the error code `-1`.
pub trait RKlist<T> {
    /// The first entry.
    fn get_head(&self) -> Result<&T, i32>;

    /// The last entry.
    fn get_tail(&self) -> Result<&T, i32>;

    /// The entry after `base_elem`.
    fn get_after(&self, base_elem: &T) -> Result<&T, i32>;

    /// The entry before `base_elem`.
    fn get_prev(&self, base_elem: &T) -> Result<&T, i32>;

    /// Number of entries.
    fn get_length(&self) -> u32;

    /// Whether the list holds no entry.
    fn is_empty(&self) -> bool;

    /// Inserts at the head.
    fn insert_head(&mut self, elem: T) -> Result<(), i32>;

    /// Inserts after `base_elem`.
    fn insert_after(&mut self, elem: T, base_elem: &T) -> Result<(), i32>;

    /// Inserts at the tail.
    fn insert_tail(&mut self, elem: T) -> Result<(), i32>;

    /// Removes the first entry and hands it back.
    fn remove_first(&mut self) -> Result<T, i32>;

    /// Removes the entry after `base_elem` and hands it back.
    fn remove_after(&mut self, base_elem: &T) -> Result<T, i32>;

    /// Removes the last entry and hands it back.
    fn remove_tail(&mut self) -> Result<T, i32>;

    /// Exchanges two entries.
    fn swap(&mut self, elem1: &T, elem2: &T);
}

/// Entry of a singly linked tail queue: the element and the node after it.
pub struct STailQEntry<T> {
    pub entry: T,
    pub next: Option<usize>,
}

impl<T> STailQEntry<T> {
    /// An entry holding `entry`, linked to `next`.
    pub fn new(entry: T, next: Option<usize>) -> (e: STailQEntry<T>)
        ensures
            e.entry == entry,
            e.next == next,
    {
        STailQEntry { entry, next }
    }
}

/// Head of a singly linked tail queue.
pub struct STailQ {
    pub head: Option<usize>,
    pub length: u32,
}

impl STailQ {
    /// An empty queue.
    pub fn new() -> (q: STailQ)
        ensures
            q.head is None,
            q.length == 0,
    {
        STailQ { head: None, length: 0 }
    }

    /// The node of the first entry, or the error code `-1` when the queue
    /// is empty.
    pub fn get_head(&self) -> (r: Result<usize, i32>)
        ensures
            self.head matches Some(h) ==> r == Ok::<usize, i32>(h),
            self.head is None ==> r == Err::<usize, i32>(-1i32),
    {
        match self.head {
            Some(h) => Ok(h),
            None => Err(-1),
        }
    }
}

/// Entry of a doubly linked tail queue: the element and the nodes before
/// and after it.
pub struct TailQEntry<T> {
    pub entry: T,
    pub prev: Option<usize>,
    pub next: Option<usize>,
}

impl<T> TailQEntry<T> {
    /// An entry holding `entry`, linked to `prev` and `next`.
    pub fn new(entry: T, prev: Option<usize>, next: Option<usize>) -> (e: TailQEntry<T>)
        ensures
            e.entry == entry,
            e.prev == prev,
            e.next == next,
    {
        TailQEntry { entry, prev, next }
    }
}

/// Head of a doubly linked tail queue.
pub struct TailQ {
    pub head: Option<usize>,
    pub length: u32,
}

impl TailQ {
    /// An empty queue.
    pub fn new() -> (q: TailQ)
        ensures
            q.head is None,
            q.length == 0,
    {
        TailQ { head: None, length: 0 }
    }

    /// The node of the first entry, or the error code `-1` when the queue
    /// is empty.
    pub fn get_head(&self) -> (r: Result<usize, i32>)
        ensures
            self.head matches Some(h) ==> r == Ok::<usize, i32>(h),
            self.head is None ==> r == Err::<usize, i32>(-1i32),
    {
        match self.head {
            Some(h) => Ok(h),
            None => Err(-1),
        }
    }
}

} // verus!
