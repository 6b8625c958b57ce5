//! Doubly linked tail queue with positions that stay valid across
//! insertions and removals elsewhere.
use vstd::prelude::*;
use crate::chain::{Chain, seq_has_eq, first_of, last_of, next_in, prev_in};
use vstd::std_specs::cmp::PartialEqSpec;

verus! {

/// Message of the error given when no node can be allocated.
pub const ALLOC_FAILED: &'static str = "fail to allocate memory";

/// Message of the error given for the empty position.
pub const INVALID_POSITION: &'static str = "invalid position";

/// Doubly linked tail queue.
pub struct Tailq<T> {
    chain: Chain<T>,
}

/// Immutable iterator from the head.
pub struct TailqIter {
    head: Option<usize>,
    size: usize,
}

/// Iterator from the head that hands out mutable access.
pub struct TailqIterMut {
    head: Option<usize>,
    size: usize,
}

/// Iterator from the tail.
pub struct TailqIterRev {
    tail: Option<usize>,
    size: usize,
}

/// Iterator from the tail that hands out mutable access.
pub struct TailqIterRevMut {
    tail: Option<usize>,
    size: usize,
}

/// A position in a `Tailq`: one of its nodes, or the empty position.
#[derive(Clone, Copy)]
pub struct TailqPos {
    pos: Option<usize>,
}

/// A position in a `Tailq` through which the element may be changed.
#[derive(Clone, Copy)]
pub struct TailqPosMut {
    pos: Option<usize>,
}

impl<T> View for Tailq<T> {
    type V = Seq<T>;

    closed spec fn view(&self) -> Seq<T> {
        self.chain@
    }
}

impl<T> Tailq<T> {
    /// The list is well formed.
    pub closed spec fn wf(&self) -> bool {
        self.chain.wf()
    }

    /// The nodes of the list, from head to tail.
    pub closed spec fn nodes(&self) -> Seq<usize> {
        self.chain.ids()
    }

    /// No node can be allocated any more.
    pub closed spec fn full(&self) -> bool {
        self.chain.full()
    }

    /// `p` is the empty position or a node of the list.
    pub open spec fn valid(&self, p: Option<usize>) -> bool {
        match p {
            None => true,
            Some(id) => self.nodes().contains(id),
        }
    }

    /// Index of node `id` in the list.
    pub open spec fn index_of(&self, id: usize) -> int {
        self.nodes().index_of(id)
    }

    /// The nodes of a well-formed list are distinct, one per element, and
    /// fewer than `usize::MAX`; below `usize::MAX - 1` elements the list is
    /// not full, so an insertion succeeds.
    pub proof fn lemma_wf(&self)
        requires
            self.wf(),
        ensures
            self.nodes().len() == self@.len(),
            self.nodes().no_duplicates(),
            self@.len() < usize::MAX,
            self@.len() + 1 < usize::MAX ==> !self.full(),
    {
        self.chain.lemma_ids_distinct();
    }

    /// An empty list.
    pub fn new() -> (q: Self)
        ensures
            q.wf(),
            q@ == Seq::<T>::empty(),
            !q.full(),
    {
        Tailq { chain: Chain::new() }
    }

    /// Whether the list is empty.
    pub fn is_empty(&self) -> (b: bool)
        requires
            self.wf(),
        ensures
            b == (self@.len() == 0),
    {
        proof { self.chain.lemma_ids_distinct(); }
        self.chain.head().is_none()
    }

    /// Number of elements.
    pub fn len(&self) -> (n: usize)
        requires
            self.wf(),
        ensures
            n == self@.len(),
    {
        self.chain.len()
    }

    /// Whether some element equals `x`.
    pub fn contains(&self, x: &T) -> (b: bool)
        where T: PartialEq
        requires
            self.wf(),
        ensures
            T::obeys_eq_spec() ==> (b <==> seq_has_eq(self@, x)),
    {
        self.chain.contains(x)
    }

    /// The first element.
    pub fn front(&self) -> (r: Option<&T>)
        requires
            self.wf(),
        ensures
            self@.len() == 0 ==> r.is_none(),
            self@.len() > 0 ==> r == Some(&self@[0]),
    {
        proof { self.chain.lemma_ids_distinct(); }
        match self.chain.head() {
            None => None,
            Some(h) => {
                proof { assert(self.nodes().index_of(h) == 0) by { assert(self.nodes()[0] == h); } }
                Some(self.chain.get(h))
            },
        }
    }

    /// The first element, for change.
    pub fn front_mut(&mut self) -> (r: Option<&mut T>)
        requires
            old(self).wf(),
        ensures
            final(self).wf(),
            final(self).nodes() == old(self).nodes(),
            old(self)@.len() == 0 ==> r.is_none() && final(self)@ == old(self)@,
            old(self)@.len() > 0 ==> (r matches Some(e) && *e == old(self)@[0]
                && final(self)@ == old(self)@.update(0, *final(e))),
    {
        proof { self.chain.lemma_ids_distinct(); }
        match self.chain.head() {
            None => None,
            Some(h) => {
                proof { assert(self.nodes().index_of(h) == 0) by { assert(self.nodes()[0] == h); } }
                Some(self.chain.get_mut(h))
            },
        }
    }

    /// The last element.
    pub fn back(&self) -> (r: Option<&T>)
        requires
            self.wf(),
        ensures
            self@.len() == 0 ==> r.is_none(),
            self@.len() > 0 ==> r == Some(&self@.last()),
    {
        proof { self.chain.lemma_ids_distinct(); }
        match self.chain.tail() {
            None => None,
            Some(t) => {
                proof {
                    let n = self.nodes().len() - 1;
                    assert(self.nodes().index_of(t) == n) by { assert(self.nodes()[n] == t); }
                }
                Some(self.chain.get(t))
            },
        }
    }

    /// The last element, for change.
    pub fn back_mut(&mut self) -> (r: Option<&mut T>)
        requires
            old(self).wf(),
        ensures
            final(self).wf(),
            final(self).nodes() == old(self).nodes(),
            old(self)@.len() == 0 ==> r.is_none() && final(self)@ == old(self)@,
            old(self)@.len() > 0 ==> (r matches Some(e) && *e == old(self)@.last()
                && final(self)@ == old(self)@.update(old(self)@.len() - 1, *final(e))),
    {
        proof { self.chain.lemma_ids_distinct(); }
        match self.chain.tail() {
            None => None,
            Some(t) => {
                proof {
                    let n = self.nodes().len() - 1;
                    assert(self.nodes().index_of(t) == n) by { assert(self.nodes()[n] == t); }
                }
                Some(self.chain.get_mut(t))
            },
        }
    }

    /// Inserts `element` at the head.
    pub fn push_front(&mut self, element: T) -> (r: Result<(), &'static str>)
        requires
            old(self).wf(),
        ensures
            final(self).wf(),
            r is Err <==> old(self).full(),
            r is Err ==> r == Err::<(), &str>(ALLOC_FAILED) && final(self)@ == old(self)@
                && final(self).nodes() == old(self).nodes(),
            r is Ok ==> final(self)@ == seq![element] + old(self)@
                && final(self).nodes().len() == old(self).nodes().len() + 1
                && final(self).nodes().drop_first() == old(self).nodes(),
    {
        match self.chain.push_front(element) {
            None => Err(ALLOC_FAILED),
            Some(id) => {
                proof {
                    assert(old(self)@.insert(0, element) =~= seq![element] + old(self)@);
                    assert(old(self).nodes().insert(0, id).drop_first() =~= old(self).nodes());
                }
                Ok(())
            },
        }
    }

    /// Removes the head element.
    pub fn pop_front(&mut self) -> (r: Option<T>)
        requires
            old(self).wf(),
        ensures
            final(self).wf(),
            old(self)@.len() == 0 ==> r.is_none() && final(self)@ == old(self)@,
            old(self)@.len() > 0 ==> r == Some(old(self)@[0]) && final(self)@ == old(self)@.drop_first()
                && final(self).nodes() == old(self).nodes().drop_first(),
    {
        self.chain.pop_front()
    }

    /// Inserts `element` at the tail.
    pub fn push_back(&mut self, element: T) -> (r: Result<(), &'static str>)
        requires
            old(self).wf(),
        ensures
            final(self).wf(),
            r is Err <==> old(self).full(),
            r is Err ==> r == Err::<(), &str>(ALLOC_FAILED) && final(self)@ == old(self)@
                && final(self).nodes() == old(self).nodes(),
            r is Ok ==> final(self)@ == old(self)@.push(element)
                && final(self).nodes().len() == old(self).nodes().len() + 1
                && final(self).nodes().drop_last() == old(self).nodes(),
    {
        match self.chain.push_back(element) {
            None => Err(ALLOC_FAILED),
            Some(id) => {
                proof { assert(old(self).nodes().push(id).drop_last() =~= old(self).nodes()); }
                Ok(())
            },
        }
    }

    /// Removes the tail element.
    pub fn pop_back(&mut self) -> (r: Option<T>)
        requires
            old(self).wf(),
        ensures
            final(self).wf(),
            old(self)@.len() == 0 ==> r.is_none() && final(self)@ == old(self)@,
            old(self)@.len() > 0 ==> r == Some(old(self)@.last()) && final(self)@ == old(self)@.drop_last()
                && final(self).nodes() == old(self).nodes().drop_last(),
    {
        self.chain.pop_back()
    }

    /// Removes every element.
    pub fn clear(&mut self)
        ensures
            final(self).wf(),
            final(self)@ == Seq::<T>::empty(),
            !final(self).full(),
    {
        self.chain.clear();
    }

    /// Iterator from the head.
    pub fn iter(&self) -> (it: TailqIter)
        requires
            self.wf(),
        ensures
            it.node() == first_of(self.nodes()),
            it.len_spec() == self@.len(),
            it.rest(self) == self@,
    {
        proof { Self::lemma_ends(self); }
        TailqIter { head: self.chain.head(), size: self.chain.len() }
    }

    /// Iterator from the head, with mutable access.
    pub fn iter_mut(&mut self) -> (it: TailqIterMut)
        requires
            old(self).wf(),
        ensures
            *final(self) == *old(self),
            it.node() == first_of(old(self).nodes()),
            it.len_spec() == old(self)@.len(),
            it.rest(old(self)) == old(self)@,
    {
        proof { Self::lemma_ends(&*old(self)); }
        TailqIterMut { head: self.chain.head(), size: self.chain.len() }
    }

    /// Iterator from the tail.
    pub fn iter_rev(&self) -> (it: TailqIterRev)
        requires
            self.wf(),
        ensures
            it.node() == last_of(self.nodes()),
            it.len_spec() == self@.len(),
            it.rest(self) == self@.reverse(),
    {
        proof { Self::lemma_ends(self); }
        TailqIterRev { tail: self.chain.tail(), size: self.chain.len() }
    }

    /// Iterator from the tail, with mutable access.
    pub fn iter_rev_mut(&mut self) -> (it: TailqIterRevMut)
        requires
            old(self).wf(),
        ensures
            *final(self) == *old(self),
            it.node() == last_of(old(self).nodes()),
            it.len_spec() == old(self)@.len(),
            it.rest(old(self)) == old(self)@.reverse(),
    {
        proof { Self::lemma_ends(&*old(self)); }
        TailqIterRevMut { tail: self.chain.tail(), size: self.chain.len() }
    }

    /// Position of the head.
    pub fn head(&self) -> (p: TailqPos)
        requires
            self.wf(),
        ensures
            p.node() == first_of(self.nodes()),
    {
        TailqPos { pos: self.chain.head() }
    }

    /// Position of the head, for change.
    pub fn head_mut(&mut self) -> (p: TailqPosMut)
        requires
            old(self).wf(),
        ensures
            *final(self) == *old(self),
            p.node() == first_of(old(self).nodes()),
    {
        TailqPosMut { pos: self.chain.head() }
    }

    /// Position of the tail.
    pub fn tail(&self) -> (p: TailqPos)
        requires
            self.wf(),
        ensures
            p.node() == last_of(self.nodes()),
    {
        TailqPos { pos: self.chain.tail() }
    }

    /// Position of the tail, for change.
    pub fn tail_mut(&mut self) -> (p: TailqPosMut)
        requires
            old(self).wf(),
        ensures
            *final(self) == *old(self),
            p.node() == last_of(old(self).nodes()),
    {
        TailqPosMut { pos: self.chain.tail() }
    }

    /// The element at position `pos`.
    pub fn get(&self, pos: TailqPos) -> (e: &T)
        requires
            self.wf(),
            pos.node() is Some,
            self.valid(pos.node()),
        ensures
            *e == self@[self.index_of(pos.node()->0)],
    {
        self.chain.get(pos.pos.unwrap())
    }

    /// The element at position `pos`, for change.
    pub fn get_mut(&mut self, pos: TailqPosMut) -> (e: &mut T)
        requires
            old(self).wf(),
            pos.node() is Some,
            old(self).valid(pos.node()),
        ensures
            *e == old(self)@[old(self).index_of(pos.node()->0)],
            final(self).wf(),
            final(self).nodes() == old(self).nodes(),
            final(self)@ == old(self)@.update(old(self).index_of(pos.node()->0), *final(e)),
    {
        self.chain.get_mut(pos.pos.unwrap())
    }

    /// Inserts `element` just before position `pos`.
    pub fn insert_before(&mut self, pos: TailqPosMut, element: T) -> (r: Result<(), &'static str>)
        requires
            old(self).wf(),
            old(self).valid(pos.node()),
        ensures
            final(self).wf(),
            pos.node() is None ==> r == Err::<(), &str>(INVALID_POSITION) && *final(self) == *old(self),
            pos.node() is Some && old(self).full() ==> r == Err::<(), &str>(ALLOC_FAILED)
                && *final(self) == *old(self),
            !old(self).full() ==> (pos.node() matches Some(at) ==> {
                &&& r is Ok
                &&& final(self)@ == old(self)@.insert(old(self).index_of(at), element)
                &&& final(self).nodes().len() == old(self).nodes().len() + 1
                &&& final(self).nodes().remove(old(self).index_of(at)) == old(self).nodes()
            }),
    {
        match pos.pos {
            None => Err(INVALID_POSITION),
            Some(at) => match self.chain.insert_before(at, element) {
                None => Err(ALLOC_FAILED),
                Some(id) => {
                    proof {
                        let k = old(self).index_of(at);
                        old(self).nodes().insert_ensures(k, id);
                        assert(old(self).nodes().insert(k, id).remove(k) =~= old(self).nodes());
                    }
                    Ok(())
                },
            },
        }
    }

    /// Inserts `element` just after position `pos`.
    pub fn insert_after(&mut self, pos: TailqPosMut, element: T) -> (r: Result<(), &'static str>)
        requires
            old(self).wf(),
            old(self).valid(pos.node()),
        ensures
            final(self).wf(),
            pos.node() is None ==> r == Err::<(), &str>(INVALID_POSITION) && *final(self) == *old(self),
            pos.node() is Some && old(self).full() ==> r == Err::<(), &str>(ALLOC_FAILED)
                && *final(self) == *old(self),
            !old(self).full() ==> (pos.node() matches Some(at) ==> {
                &&& r is Ok
                &&& final(self)@ == old(self)@.insert(old(self).index_of(at) + 1, element)
                &&& final(self).nodes().len() == old(self).nodes().len() + 1
                &&& final(self).nodes().remove(old(self).index_of(at) + 1) == old(self).nodes()
            }),
    {
        match pos.pos {
            None => Err(INVALID_POSITION),
            Some(at) => match self.chain.insert_after(at, element) {
                None => Err(ALLOC_FAILED),
                Some(id) => {
                    proof {
                        let k = old(self).index_of(at) + 1;
                        self.chain.lemma_ids_distinct();
                        old(self).nodes().insert_ensures(k, id);
                        assert(old(self).nodes().insert(k, id).remove(k) =~= old(self).nodes());
                    }
                    Ok(())
                },
            },
        }
    }

    /// Removes the element just before position `pos`.
    pub fn remove_before(&mut self, pos: TailqPosMut) -> (r: Option<T>)
        requires
            old(self).wf(),
            pos.node() is Some,
            old(self).valid(pos.node()),
        ensures
            final(self).wf(),
            ({
                let k = old(self).index_of(pos.node()->0);
                &&& k == 0 ==> r.is_none() && *final(self) == *old(self)
                &&& k > 0 ==> r == Some(old(self)@[k - 1]) && final(self)@ == old(self)@.remove(k - 1)
                    && final(self).nodes() == old(self).nodes().remove(k - 1)
            }),
    {
        let at = pos.pos.unwrap();
        match self.chain.prev_of(at) {
            None => None,
            Some(p) => {
                proof {
                    let k = old(self).index_of(at);
                    assert(old(self).nodes().index_of(p) == k - 1) by {
                        self.chain.lemma_ids_distinct();
                        assert(old(self).nodes()[k - 1] == p);
                    }
                }
                Some(self.chain.remove(p))
            },
        }
    }

    /// Removes the element at position `pos`; hands back the element and
    /// the position after it, or else the one before it, or else the empty
    /// position.
    pub fn remove(&mut self, pos: TailqPosMut) -> (r: (T, TailqPosMut))
        requires
            old(self).wf(),
            pos.node() is Some,
            old(self).valid(pos.node()),
        ensures
            final(self).wf(),
            ({
                let k = old(self).index_of(pos.node()->0);
                let n = old(self)@.len();
                &&& r.0 == old(self)@[k]
                &&& final(self)@ == old(self)@.remove(k)
                &&& final(self).nodes() == old(self).nodes().remove(k)
                &&& r.1.node() == (if k + 1 < n { Some(old(self).nodes()[k + 1]) }
                    else if k > 0 { Some(old(self).nodes()[k - 1]) }
                    else { None::<usize> })
            }),
    {
        let at = pos.pos.unwrap();
        let next = self.chain.next_of(at);
        let prev = self.chain.prev_of(at);
        let e = self.chain.remove(at);
        let p = match next {
            Some(n) => Some(n),
            None => prev,
        };
        (e, TailqPosMut { pos: p })
    }

    /// Removes the element just after position `pos`.
    pub fn remove_after(&mut self, pos: TailqPosMut) -> (r: Option<T>)
        requires
            old(self).wf(),
            pos.node() is Some,
            old(self).valid(pos.node()),
        ensures
            final(self).wf(),
            ({
                let k = old(self).index_of(pos.node()->0);
                &&& k + 1 == old(self)@.len() ==> r.is_none() && *final(self) == *old(self)
                &&& k + 1 < old(self)@.len() ==> r == Some(old(self)@[k + 1]) && final(self)@ == old(self)@.remove(k + 1)
                    && final(self).nodes() == old(self).nodes().remove(k + 1)
            }),
    {
        let at = pos.pos.unwrap();
        proof { self.chain.lemma_ids_distinct(); }
        match self.chain.next_of(at) {
            None => None,
            Some(n) => {
                proof {
                    let k = old(self).index_of(at);
                    assert(old(self).nodes().index_of(n) == k + 1) by {
                        assert(old(self).nodes()[k + 1] == n);
                    }
                }
                Some(self.chain.remove(n))
            },
        }
    }
}

impl TailqPos {
    /// The node of this position, or `None` for the empty position.
    pub closed spec fn node(&self) -> Option<usize> {
        self.pos
    }

    /// Moves to the next position; fails at the empty position.
    pub fn next<T>(&mut self, list: &Tailq<T>) -> (r: Result<(), ()>)
        requires
            list.wf(),
            list.valid(old(self).node()),
        ensures
            list.valid(final(self).node()),
            old(self).node() is None ==> r is Err && final(self).node() is None,
            old(self).node() matches Some(id) ==> r is Ok
                && final(self).node() == next_in(list.nodes(), list.index_of(id)),
    {
        match self.pos {
            None => Err(()),
            Some(id) => {
                self.pos = list.chain.next_of(id);
                proof { lemma_next_valid(list, id); }
                Ok(())
            },
        }
    }

    /// Moves to the previous position; fails at the empty position.
    pub fn prev<T>(&mut self, list: &Tailq<T>) -> (r: Result<(), ()>)
        requires
            list.wf(),
            list.valid(old(self).node()),
        ensures
            list.valid(final(self).node()),
            old(self).node() is None ==> r is Err && final(self).node() is None,
            old(self).node() matches Some(id) ==> r is Ok
                && final(self).node() == prev_in(list.nodes(), list.index_of(id)),
    {
        match self.pos {
            None => Err(()),
            Some(id) => {
                self.pos = list.chain.prev_of(id);
                proof { lemma_prev_valid(list, id); }
                Ok(())
            },
        }
    }

    /// Moves `dis` positions towards the tail, or `-dis` towards the head.
    /// Walking off the list leaves the empty position; walking on from it
    /// fails.
    pub fn advance<T>(&mut self, list: &Tailq<T>, dis: isize) -> (r: Result<(), ()>)
        requires
            list.wf(),
            list.valid(old(self).node()),
        ensures
            list.valid(final(self).node()),
            ({
                let n = list@.len() as int;
                let k = pos_index(list, old(self).node());
                let t = k + dis;
                &&& old(self).node() is None && dis != 0 ==> r is Err && final(self).node() is None
                &&& old(self).node() is None && dis == 0 ==> r is Ok && final(self).node() is None
                &&& old(self).node() is Some && -1 <= t <= n ==> r is Ok && final(self).node() == node_at(list.nodes(), t)
                &&& old(self).node() is Some && !(-1 <= t <= n) ==> r is Err && final(self).node() is None
            }),
    {
        proof {
            list.lemma_wf();
            if let Some(id) = old(self).node() {
                lemma_next_valid(list, id);
            }
        }
        if dis > 0 {
            let mut i: isize = 0;
            while i < dis
                invariant
                    list.wf(),
                    0 <= i <= dis,
                    list.valid(self.node()),
                    list.valid(old(self).node()),
                    old(self).node() is None ==> i == 0 && self.node() is None,
                    old(self).node() is Some ==> {
                        let k = pos_index(list, old(self).node());
                        if k + i <= list@.len() {
                            self.node() == node_at(list.nodes(), k + i)
                        } else {
                            false
                        }
                    },
                decreases dis - i,
            {
                let ghost before = self.pos;
                let step = self.next(list);
                if step.is_err() {
                    proof {
                        if let Some(id0) = old(self).node() {
                            lemma_next_valid(list, id0);
                            let k = pos_index(list, old(self).node());
                            assert(before == node_at(list.nodes(), k + i));
                            assert(before is None);
                        }
                    }
                    return Err(());
                }
                proof {
                    if let Some(id) = before {
                        let k = pos_index(list, old(self).node());
                        lemma_index_of_node_at(list, k + i);
                    }
                }
                i = i + 1;
            }
            Ok(())
        } else if dis < 0 {
            let mut i: isize = 0;
            while i > dis
                invariant
                    list.wf(),
                    dis <= i <= 0,
                    list.valid(self.node()),
                    list.valid(old(self).node()),
                    old(self).node() is None ==> i == 0 && self.node() is None,
                    old(self).node() is Some ==> {
                        let k = pos_index(list, old(self).node());
                        if k + i >= -1 {
                            self.node() == node_at(list.nodes(), k + i)
                        } else {
                            false
                        }
                    },
                decreases i - dis,
            {
                let ghost before = self.pos;
                let step = self.prev(list);
                if step.is_err() {
                    proof {
                        if let Some(id0) = old(self).node() {
                            lemma_next_valid(list, id0);
                            let k = pos_index(list, old(self).node());
                            assert(before == node_at(list.nodes(), k + i));
                            assert(before is None);
                        }
                    }
                    return Err(());
                }
                proof {
                    if let Some(id) = before {
                        let k = pos_index(list, old(self).node());
                        lemma_index_of_node_at(list, k + i);
                    }
                }
                i = i - 1;
            }
            Ok(())
        } else {
            Ok(())
        }
    }

    /// Whether this position is the head; the position must be a node.
    pub fn is_head<T>(&self, list: &Tailq<T>) -> (b: bool)
        requires
            list.wf(),
            self.node() is Some,
            list.valid(self.node()),
        ensures
            b == (list.index_of(self.node()->0) == 0),
    {
        list.chain.prev_of(self.pos.unwrap()).is_none()
    }

    /// Whether this position is the tail; the position must be a node.
    pub fn is_tail<T>(&self, list: &Tailq<T>) -> (b: bool)
        requires
            list.wf(),
            self.node() is Some,
            list.valid(self.node()),
        ensures
            b == (list.index_of(self.node()->0) == list@.len() - 1),
    {
        proof { list.lemma_wf(); }
        list.chain.next_of(self.pos.unwrap()).is_none()
    }

    /// Whether this is the empty position.
    pub fn is_null(&self) -> (b: bool)
        ensures
            b == self.node() is None,
    {
        self.pos.is_none()
    }
}

impl TailqPosMut {
    /// The node of this position, or `None` for the empty position.
    pub closed spec fn node(&self) -> Option<usize> {
        self.pos
    }

    /// Moves to the next position; fails at the empty position.
    pub fn next<T>(&mut self, list: &Tailq<T>) -> (r: Result<(), ()>)
        requires
            list.wf(),
            list.valid(old(self).node()),
        ensures
            list.valid(final(self).node()),
            old(self).node() is None ==> r is Err && final(self).node() is None,
            old(self).node() matches Some(id) ==> r is Ok
                && final(self).node() == next_in(list.nodes(), list.index_of(id)),
    {
        match self.pos {
            None => Err(()),
            Some(id) => {
                self.pos = list.chain.next_of(id);
                proof { lemma_next_valid(list, id); }
                Ok(())
            },
        }
    }

    /// Moves to the previous position; fails at the empty position.
    pub fn prev<T>(&mut self, list: &Tailq<T>) -> (r: Result<(), ()>)
        requires
            list.wf(),
            list.valid(old(self).node()),
        ensures
            list.valid(final(self).node()),
            old(self).node() is None ==> r is Err && final(self).node() is None,
            old(self).node() matches Some(id) ==> r is Ok
                && final(self).node() == prev_in(list.nodes(), list.index_of(id)),
    {
        match self.pos {
            None => Err(()),
            Some(id) => {
                self.pos = list.chain.prev_of(id);
                proof { lemma_prev_valid(list, id); }
                Ok(())
            },
        }
    }

    /// Moves `dis` positions towards the tail, or `-dis` towards the head.
    /// Walking off the list leaves the empty position; walking on from it
    /// fails.
    pub fn advance<T>(&mut self, list: &Tailq<T>, dis: isize) -> (r: Result<(), ()>)
        requires
            list.wf(),
            list.valid(old(self).node()),
        ensures
            list.valid(final(self).node()),
            ({
                let n = list@.len() as int;
                let k = pos_index(list, old(self).node());
                let t = k + dis;
                &&& old(self).node() is None && dis != 0 ==> r is Err && final(self).node() is None
                &&& old(self).node() is None && dis == 0 ==> r is Ok && final(self).node() is None
                &&& old(self).node() is Some && -1 <= t <= n ==> r is Ok && final(self).node() == node_at(list.nodes(), t)
                &&& old(self).node() is Some && !(-1 <= t <= n) ==> r is Err && final(self).node() is None
            }),
    {
        proof {
            list.lemma_wf();
            if let Some(id) = old(self).node() {
                lemma_next_valid(list, id);
            }
        }
        if dis > 0 {
            let mut i: isize = 0;
            while i < dis
                invariant
                    list.wf(),
                    0 <= i <= dis,
                    list.valid(self.node()),
                    list.valid(old(self).node()),
                    old(self).node() is None ==> i == 0 && self.node() is None,
                    old(self).node() is Some ==> {
                        let k = pos_index(list, old(self).node());
                        if k + i <= list@.len() {
                            self.node() == node_at(list.nodes(), k + i)
                        } else {
                            false
                        }
                    },
                decreases dis - i,
            {
                let ghost before = self.pos;
                let step = self.next(list);
                if step.is_err() {
                    proof {
                        if let Some(id0) = old(self).node() {
                            lemma_next_valid(list, id0);
                            let k = pos_index(list, old(self).node());
                            assert(before == node_at(list.nodes(), k + i));
                            assert(before is None);
                        }
                    }
                    return Err(());
                }
                proof {
                    if let Some(id) = before {
                        let k = pos_index(list, old(self).node());
                        lemma_index_of_node_at(list, k + i);
                    }
                }
                i = i + 1;
            }
            Ok(())
        } else if dis < 0 {
            let mut i: isize = 0;
            while i > dis
                invariant
                    list.wf(),
                    dis <= i <= 0,
                    list.valid(self.node()),
                    list.valid(old(self).node()),
                    old(self).node() is None ==> i == 0 && self.node() is None,
                    old(self).node() is Some ==> {
                        let k = pos_index(list, old(self).node());
                        if k + i >= -1 {
                            self.node() == node_at(list.nodes(), k + i)
                        } else {
                            false
                        }
                    },
                decreases i - dis,
            {
                let ghost before = self.pos;
                let step = self.prev(list);
                if step.is_err() {
                    proof {
                        if let Some(id0) = old(self).node() {
                            lemma_next_valid(list, id0);
                            let k = pos_index(list, old(self).node());
                            assert(before == node_at(list.nodes(), k + i));
                            assert(before is None);
                        }
                    }
                    return Err(());
                }
                proof {
                    if let Some(id) = before {
                        let k = pos_index(list, old(self).node());
                        lemma_index_of_node_at(list, k + i);
                    }
                }
                i = i - 1;
            }
            Ok(())
        } else {
            Ok(())
        }
    }

    /// Whether this position is the head; the position must be a node.
    pub fn is_head<T>(&self, list: &Tailq<T>) -> (b: bool)
        requires
            list.wf(),
            self.node() is Some,
            list.valid(self.node()),
        ensures
            b == (list.index_of(self.node()->0) == 0),
    {
        list.chain.prev_of(self.pos.unwrap()).is_none()
    }

    /// Whether this position is the tail; the position must be a node.
    pub fn is_tail<T>(&self, list: &Tailq<T>) -> (b: bool)
        requires
            list.wf(),
            self.node() is Some,
            list.valid(self.node()),
        ensures
            b == (list.index_of(self.node()->0) == list@.len() - 1),
    {
        proof { list.lemma_wf(); }
        list.chain.next_of(self.pos.unwrap()).is_none()
    }

    /// Whether this is the empty position.
    pub fn is_null(&self) -> (b: bool)
        ensures
            b == self.node() is None,
    {
        self.pos.is_none()
    }
}

impl TailqIter {
    /// The node the iterator stands at, or `None` once it is past the end.
    pub closed spec fn node(&self) -> Option<usize> {
        self.head
    }

    /// The count the iterator reports as its length.
    pub closed spec fn len_spec(&self) -> usize {
        self.size
    }

    /// The iterator belongs to `list`: it stands at one of its nodes and
    /// its length counts the elements it has still to visit.
    pub open spec fn fits<T>(&self, list: &Tailq<T>) -> bool {
        list.valid(self.node()) && (self.node() matches Some(id) ==> self.len_spec() == list@.len() - list.index_of(id))
    }

    /// The elements the iterator has still to hand out, in order.
    pub open spec fn rest<T>(&self, list: &Tailq<T>) -> Seq<T> {
        match self.node() {
            None => Seq::empty(),
            Some(id) => list@.subrange(list.index_of(id), list@.len() as int),
        }
    }

    /// Hands out the current element and steps towards the tail.
    pub fn next<'a, T>(&mut self, list: &'a Tailq<T>) -> (r: Option<&'a T>)
        requires
            list.wf(),
            old(self).fits(list),
        ensures
            final(self).fits(list),
            old(self).rest(list).len() == 0 <==> r is None,
            r matches Some(x) ==> old(self).rest(list) == seq![*x] + final(self).rest(list),
            old(self).node() is None ==> r.is_none() && *final(self) == *old(self),
            old(self).node() matches Some(id) ==> {
                let k = list.index_of(id);
                &&& r == Some(&list@[k])
                &&& final(self).node() == next_in(list.nodes(), k)
                &&& final(self).len_spec() == old(self).len_spec() - 1
            },
    {
        match self.head {
            None => None,
            Some(id) => {
                proof { list.lemma_wf(); lemma_next_valid(list, id); lemma_rest_step(list, id); }
                self.head = list.chain.next_of(id);
                self.size = self.size - 1;
                proof { lemma_next_index(list, id); }
                Some(list.chain.get(id))
            },
        }
    }

    /// Hands out the current element and steps back towards the head.
    pub fn prev<'a, T>(&mut self, list: &'a Tailq<T>) -> (r: Option<&'a T>)
        requires
            list.wf(),
            old(self).fits(list),
        ensures
            final(self).fits(list),
            old(self).node() is None ==> r.is_none() && *final(self) == *old(self),
            old(self).node() matches Some(id) ==> {
                let k = list.index_of(id);
                &&& r == Some(&list@[k])
                &&& final(self).node() == prev_in(list.nodes(), k)
                &&& final(self).len_spec() == old(self).len_spec() + 1
            },
    {
        match self.head {
            None => None,
            Some(id) => {
                proof { list.lemma_wf(); lemma_prev_valid(list, id); }
                self.head = list.chain.prev_of(id);
                self.size = self.size + 1;
                proof { lemma_prev_index(list, id); }
                Some(list.chain.get(id))
            },
        }
    }

    /// Number of elements still to visit.
    pub fn len(&self) -> (n: usize)
        ensures
            n == self.len_spec(),
    {
        self.size
    }

    /// The position the iterator stands at.
    pub fn as_pos(&self) -> (p: TailqPos)
        ensures
            p.node() == self.node(),
    {
        TailqPos { pos: self.head }
    }
}

impl TailqIterMut {
    /// The node the iterator stands at, or `None` once it is past the end.
    pub closed spec fn node(&self) -> Option<usize> {
        self.head
    }

    /// The count the iterator reports as its length.
    pub closed spec fn len_spec(&self) -> usize {
        self.size
    }

    /// The iterator belongs to `list`: it stands at one of its nodes and
    /// its length counts the elements it has still to visit.
    pub open spec fn fits<T>(&self, list: &Tailq<T>) -> bool {
        list.valid(self.node()) && (self.node() matches Some(id) ==> self.len_spec() == list@.len() - list.index_of(id))
    }

    /// The elements the iterator has still to hand out, in order.
    pub open spec fn rest<T>(&self, list: &Tailq<T>) -> Seq<T> {
        match self.node() {
            None => Seq::empty(),
            Some(id) => list@.subrange(list.index_of(id), list@.len() as int),
        }
    }

    /// Hands out the current element and steps towards the tail.
    pub fn next<'a, T>(&mut self, list: &'a mut Tailq<T>) -> (r: Option<&'a mut T>)
        requires
            old(list).wf(),
            old(self).fits(old(list)),
        ensures
            final(list).wf(),
            final(list).nodes() == old(list).nodes(),
            final(self).fits(final(list)),
            old(self).rest(old(list)).len() == 0 <==> r is None,
            old(self).node() matches Some(id) ==> old(self).rest(old(list)) == seq![old(list)@[old(list).index_of(id)]] + final(self).rest(old(list)),
            old(self).node() is None ==> r.is_none() && *final(self) == *old(self) && final(list)@ == old(list)@,
            old(self).node() matches Some(id) ==> {
                let k = old(list).index_of(id);
                &&& r matches Some(e) && *e == old(list)@[k] && final(list)@ == old(list)@.update(k, *final(e))
                &&& final(self).node() == next_in(old(list).nodes(), k)
                &&& final(self).len_spec() == old(self).len_spec() - 1
            },
    {
        match self.head {
            None => None,
            Some(id) => {
                proof { old(list).lemma_wf(); lemma_next_valid(&*old(list), id); lemma_rest_step(&*old(list), id); }
                self.head = list.chain.next_of(id);
                self.size = self.size - 1;
                proof { lemma_next_index(&*old(list), id); }
                Some(list.chain.get_mut(id))
            },
        }
    }

    /// Hands out the current element and steps back towards the head.
    pub fn prev<'a, T>(&mut self, list: &'a mut Tailq<T>) -> (r: Option<&'a mut T>)
        requires
            old(list).wf(),
            old(self).fits(old(list)),
        ensures
            final(list).wf(),
            final(list).nodes() == old(list).nodes(),
            final(self).fits(final(list)),
            old(self).node() is None ==> r.is_none() && *final(self) == *old(self) && final(list)@ == old(list)@,
            old(self).node() matches Some(id) ==> {
                let k = old(list).index_of(id);
                &&& r matches Some(e) && *e == old(list)@[k] && final(list)@ == old(list)@.update(k, *final(e))
                &&& final(self).node() == prev_in(old(list).nodes(), k)
                &&& final(self).len_spec() == old(self).len_spec() + 1
            },
    {
        match self.head {
            None => None,
            Some(id) => {
                proof { old(list).lemma_wf(); lemma_prev_valid(&*old(list), id); }
                self.head = list.chain.prev_of(id);
                self.size = self.size + 1;
                proof { lemma_prev_index(&*old(list), id); }
                Some(list.chain.get_mut(id))
            },
        }
    }

    /// Number of elements still to visit.
    pub fn len(&self) -> (n: usize)
        ensures
            n == self.len_spec(),
    {
        self.size
    }

    /// The position the iterator stands at.
    pub fn as_pos(&self) -> (p: TailqPosMut)
        ensures
            p.node() == self.node(),
    {
        TailqPosMut { pos: self.head }
    }
}

impl TailqIterRev {
    /// The node the iterator stands at, or `None` once it is past the end.
    pub closed spec fn node(&self) -> Option<usize> {
        self.tail
    }

    /// The count the iterator reports as its length.
    pub closed spec fn len_spec(&self) -> usize {
        self.size
    }

    /// The iterator belongs to `list`: it stands at one of its nodes and
    /// its length counts the elements it has still to visit.
    pub open spec fn fits<T>(&self, list: &Tailq<T>) -> bool {
        list.valid(self.node()) && (self.node() matches Some(id) ==> self.len_spec() == list.index_of(id) + 1)
    }

    /// The elements the iterator has still to hand out, in order.
    pub open spec fn rest<T>(&self, list: &Tailq<T>) -> Seq<T> {
        match self.node() {
            None => Seq::empty(),
            Some(id) => list@.subrange(0, list.index_of(id) + 1).reverse(),
        }
    }

    /// Hands out the current element and steps towards the head.
    pub fn next<'a, T>(&mut self, list: &'a Tailq<T>) -> (r: Option<&'a T>)
        requires
            list.wf(),
            old(self).fits(list),
        ensures
            final(self).fits(list),
            old(self).rest(list).len() == 0 <==> r is None,
            r matches Some(x) ==> old(self).rest(list) == seq![*x] + final(self).rest(list),
            old(self).node() is None ==> r.is_none() && *final(self) == *old(self),
            old(self).node() matches Some(id) ==> {
                let k = list.index_of(id);
                &&& r == Some(&list@[k])
                &&& final(self).node() == prev_in(list.nodes(), k)
                &&& final(self).len_spec() == old(self).len_spec() - 1
            },
    {
        match self.tail {
            None => None,
            Some(id) => {
                proof { list.lemma_wf(); lemma_prev_valid(list, id); lemma_rest_step(list, id); }
                self.tail = list.chain.prev_of(id);
                self.size = self.size - 1;
                proof { lemma_prev_index(list, id); }
                Some(list.chain.get(id))
            },
        }
    }

    /// Hands out the current element and steps back towards the tail.
    pub fn prev<'a, T>(&mut self, list: &'a Tailq<T>) -> (r: Option<&'a T>)
        requires
            list.wf(),
            old(self).fits(list),
        ensures
            final(self).fits(list),
            old(self).node() is None ==> r.is_none() && *final(self) == *old(self),
            old(self).node() matches Some(id) ==> {
                let k = list.index_of(id);
                &&& r == Some(&list@[k])
                &&& final(self).node() == next_in(list.nodes(), k)
                &&& final(self).len_spec() == old(self).len_spec() + 1
            },
    {
        match self.tail {
            None => None,
            Some(id) => {
                proof { list.lemma_wf(); lemma_next_valid(list, id); }
                self.tail = list.chain.next_of(id);
                self.size = self.size + 1;
                proof { lemma_next_index(list, id); }
                Some(list.chain.get(id))
            },
        }
    }

    /// Number of elements still to visit.
    pub fn len(&self) -> (n: usize)
        ensures
            n == self.len_spec(),
    {
        self.size
    }

    /// The position the iterator stands at.
    pub fn as_pos(&self) -> (p: TailqPos)
        ensures
            p.node() == self.node(),
    {
        TailqPos { pos: self.tail }
    }
}

impl TailqIterRevMut {
    /// The node the iterator stands at, or `None` once it is past the end.
    pub closed spec fn node(&self) -> Option<usize> {
        self.tail
    }

    /// The count the iterator reports as its length.
    pub closed spec fn len_spec(&self) -> usize {
        self.size
    }

    /// The iterator belongs to `list`: it stands at one of its nodes and
    /// its length counts the elements it has still to visit.
    pub open spec fn fits<T>(&self, list: &Tailq<T>) -> bool {
        list.valid(self.node()) && (self.node() matches Some(id) ==> self.len_spec() == list.index_of(id) + 1)
    }

    /// The elements the iterator has still to hand out, in order.
    pub open spec fn rest<T>(&self, list: &Tailq<T>) -> Seq<T> {
        match self.node() {
            None => Seq::empty(),
            Some(id) => list@.subrange(0, list.index_of(id) + 1).reverse(),
        }
    }

    /// Hands out the current element and steps towards the head.
    pub fn next<'a, T>(&mut self, list: &'a mut Tailq<T>) -> (r: Option<&'a mut T>)
        requires
            old(list).wf(),
            old(self).fits(old(list)),
        ensures
            final(list).wf(),
            final(list).nodes() == old(list).nodes(),
            final(self).fits(final(list)),
            old(self).rest(old(list)).len() == 0 <==> r is None,
            old(self).node() matches Some(id) ==> old(self).rest(old(list)) == seq![old(list)@[old(list).index_of(id)]] + final(self).rest(old(list)),
            old(self).node() is None ==> r.is_none() && *final(self) == *old(self) && final(list)@ == old(list)@,
            old(self).node() matches Some(id) ==> {
                let k = old(list).index_of(id);
                &&& r matches Some(e) && *e == old(list)@[k] && final(list)@ == old(list)@.update(k, *final(e))
                &&& final(self).node() == prev_in(old(list).nodes(), k)
                &&& final(self).len_spec() == old(self).len_spec() - 1
            },
    {
        match self.tail {
            None => None,
            Some(id) => {
                proof { old(list).lemma_wf(); lemma_prev_valid(&*old(list), id); lemma_rest_step(&*old(list), id); }
                self.tail = list.chain.prev_of(id);
                self.size = self.size - 1;
                proof { lemma_prev_index(&*old(list), id); }
                Some(list.chain.get_mut(id))
            },
        }
    }

    /// Hands out the current element and steps back towards the tail.
    pub fn prev<'a, T>(&mut self, list: &'a mut Tailq<T>) -> (r: Option<&'a mut T>)
        requires
            old(list).wf(),
            old(self).fits(old(list)),
        ensures
            final(list).wf(),
            final(list).nodes() == old(list).nodes(),
            final(self).fits(final(list)),
            old(self).node() is None ==> r.is_none() && *final(self) == *old(self) && final(list)@ == old(list)@,
            old(self).node() matches Some(id) ==> {
                let k = old(list).index_of(id);
                &&& r matches Some(e) && *e == old(list)@[k] && final(list)@ == old(list)@.update(k, *final(e))
                &&& final(self).node() == next_in(old(list).nodes(), k)
                &&& final(self).len_spec() == old(self).len_spec() + 1
            },
    {
        match self.tail {
            None => None,
            Some(id) => {
                proof { old(list).lemma_wf(); lemma_next_valid(&*old(list), id); }
                self.tail = list.chain.next_of(id);
                self.size = self.size + 1;
                proof { lemma_next_index(&*old(list), id); }
                Some(list.chain.get_mut(id))
            },
        }
    }

    /// Number of elements still to visit.
    pub fn len(&self) -> (n: usize)
        ensures
            n == self.len_spec(),
    {
        self.size
    }

    /// The position the iterator stands at.
    pub fn as_pos(&self) -> (p: TailqPosMut)
        ensures
            p.node() == self.node(),
    {
        TailqPosMut { pos: self.tail }
    }
}

/// Index of a position in `list`: that of its node, or the length for the
/// empty position.
pub open spec fn pos_index<T>(list: &Tailq<T>, p: Option<usize>) -> int {
    match p {
        Some(id) => list.index_of(id),
        None => list@.len() as int,
    }
}

/// The node at index `j`, or the empty position outside the list.
pub open spec fn node_at(nodes: Seq<usize>, j: int) -> Option<usize> {
    if 0 <= j < nodes.len() {
        Some(nodes[j])
    } else {
        None
    }
}

proof fn lemma_next_valid<T>(list: &Tailq<T>, id: usize)
    requires
        list.wf(),
        list.nodes().contains(id),
    ensures
        list.valid(next_in(list.nodes(), list.index_of(id))),
        list.valid(prev_in(list.nodes(), list.index_of(id))),
        0 <= list.index_of(id) < list@.len(),
{
    list.lemma_wf();
    let k = list.index_of(id);
    if k + 1 < list.nodes().len() {
        assert(list.nodes().contains(list.nodes()[k + 1]));
    }
    if k > 0 {
        assert(list.nodes().contains(list.nodes()[k - 1]));
    }
}

proof fn lemma_prev_valid<T>(list: &Tailq<T>, id: usize)
    requires
        list.wf(),
        list.nodes().contains(id),
    ensures
        list.valid(next_in(list.nodes(), list.index_of(id))),
        list.valid(prev_in(list.nodes(), list.index_of(id))),
        0 <= list.index_of(id) < list@.len(),
{
    lemma_next_valid(list, id);
}

/// The index of the node at index `j` is `j`.
proof fn lemma_index_of_node_at<T>(list: &Tailq<T>, j: int)
    requires
        list.wf(),
        0 <= j < list@.len(),
    ensures
        list.index_of(list.nodes()[j]) == j,
        list.nodes().contains(list.nodes()[j]),
{
    list.lemma_wf();
    let id = list.nodes()[j];
    assert(list.nodes().contains(id));
    let i = list.nodes().index_of(id);
    assert(list.nodes()[i] == id);
}

proof fn lemma_next_index<T>(list: &Tailq<T>, id: usize)
    requires
        list.wf(),
        list.nodes().contains(id),
    ensures
        next_in(list.nodes(), list.index_of(id)) matches Some(n) ==> list.index_of(n) == list.index_of(id) + 1,
        prev_in(list.nodes(), list.index_of(id)) matches Some(p) ==> list.index_of(p) == list.index_of(id) - 1,
{
    lemma_next_valid(list, id);
    let k = list.index_of(id);
    if k + 1 < list@.len() {
        lemma_index_of_node_at(list, k + 1);
    }
    if k > 0 {
        lemma_index_of_node_at(list, k - 1);
    }
}

proof fn lemma_prev_index<T>(list: &Tailq<T>, id: usize)
    requires
        list.wf(),
        list.nodes().contains(id),
    ensures
        next_in(list.nodes(), list.index_of(id)) matches Some(n) ==> list.index_of(n) == list.index_of(id) + 1,
        prev_in(list.nodes(), list.index_of(id)) matches Some(p) ==> list.index_of(p) == list.index_of(id) - 1,
{
    lemma_next_index(list, id);
}

/// One step of a walk: what is left from node `id` on is its element
/// followed by what is left from the next node, and likewise backwards.
proof fn lemma_rest_step<T>(list: &Tailq<T>, id: usize)
    requires
        list.wf(),
        list.nodes().contains(id),
    ensures
        list@.subrange(list.index_of(id), list@.len() as int) == seq![list@[list.index_of(id)]] + match next_in(list.nodes(), list.index_of(id)) {
            None => Seq::<T>::empty(),
            Some(m) => list@.subrange(list.index_of(m), list@.len() as int),
        },
        list@.subrange(0, list.index_of(id) + 1).reverse() == seq![list@[list.index_of(id)]] + match prev_in(list.nodes(), list.index_of(id)) {
            None => Seq::<T>::empty(),
            Some(m) => list@.subrange(0, list.index_of(m) + 1).reverse(),
        },
{
    lemma_next_valid(list, id);
    lemma_next_index(list, id);
    let k = list.index_of(id);
    let n = list@.len() as int;
    match next_in(list.nodes(), k) {
        None => {
            assert(list@.subrange(k, n) =~= seq![list@[k]]);
        },
        Some(m) => {
            assert(list@.subrange(k, n) =~= seq![list@[k]] + list@.subrange(k + 1, n));
        },
    }
    match prev_in(list.nodes(), k) {
        None => {
            assert(list@.subrange(0, k + 1).reverse() =~= seq![list@[k]]);
        },
        Some(m) => {
            assert(list@.subrange(0, k + 1).reverse() =~= seq![list@[k]] + list@.subrange(0, k).reverse());
        },
    }
}

impl<T> Tailq<T> {
    /// Popping the front right after pushing `element` there gives the
    /// element back and leaves the list as it was.
    pub proof fn lemma_push_pop_front(l0: &Self, l1: &Self, l2: &Self, element: T, r: Option<T>)
        requires
            l1@ == seq![element] + l0@,
            r == Some(l1@[0]),
            l2@ == l1@.drop_first(),
        ensures
            r == Some(element),
            l2@ == l0@,
    {
        assert(l2@ =~= l0@);
    }

    /// Removing the element after position `k` right after inserting
    /// `element` there gives the element back and leaves the list as it was.
    pub proof fn lemma_insert_remove_after(l0: &Self, l1: &Self, l2: &Self, k: int, element: T, r: Option<T>)
        requires
            0 <= k < l0@.len(),
            l1@ == l0@.insert(k + 1, element),
            r == Some(l1@[k + 1]),
            l2@ == l1@.remove(k + 1),
        ensures
            r == Some(element),
            l2@ == l0@,
    {
        assert(l2@ =~= l0@);
    }

    /// Elements come out at the front in the order they went in at the
    /// back: after pushing `element` at the back, the front is what it was,
    /// or `element` if the list was empty.
    pub proof fn lemma_push_back_pop_front(l0: &Self, l1: &Self, l2: &Self, element: T, r: Option<T>)
        requires
            l1@ == l0@.push(element),
            r == Some(l1@[0]),
            l2@ == l1@.drop_first(),
        ensures
            l0@.len() == 0 ==> r == Some(element) && l2@.len() == 0,
            l0@.len() > 0 ==> r == Some(l0@[0]) && l2@ == l0@.drop_first().push(element),
    {
        if l0@.len() == 0 {
            assert(l2@.len() == 0);
        } else {
            assert(l2@ =~= l0@.drop_first().push(element));
        }
    }

    /// Popping the back right after pushing `element` there gives the
    /// element back and leaves the list as it was.
    pub proof fn lemma_push_pop_back(l0: &Self, l1: &Self, l2: &Self, element: T, r: Option<T>)
        requires
            l1@ == l0@.push(element),
            r == Some(l1@.last()),
            l2@ == l1@.drop_last(),
        ensures
            r == Some(element),
            l2@ == l0@,
    {
        assert(l2@ =~= l0@);
    }
}

impl<T> Tailq<T> {
    /// What is left of a walk from the head is the whole list, and what is
    /// left of a walk from the tail is the whole list reversed.
    proof fn lemma_ends(list: &Self)
        requires
            list.wf(),
        ensures
            match first_of(list.nodes()) {
                None => list@.len() == 0,
                Some(id) => list.index_of(id) == 0 && list@.subrange(0, list@.len() as int) == list@,
            },
            match last_of(list.nodes()) {
                None => list@.len() == 0,
                Some(id) => list.index_of(id) == list@.len() - 1 && list@.subrange(0, list.index_of(id) + 1).reverse() == list@.reverse(),
            },
    {
        list.lemma_wf();
        if list@.len() > 0 {
            lemma_index_of_node_at(list, 0);
            lemma_index_of_node_at(list, list@.len() - 1);
            assert(list@.subrange(0, list@.len() as int) =~= list@);
        } else {
            assert(list@.reverse() =~= Seq::<T>::empty());
        }
    }

    /// The two walks of a list.  A forward iterator at the head has the
    /// elements of the list still to hand out, in order, and a reverse
    /// iterator at the tail the same elements in reverse order; both report
    /// `len()` as their length, and both are at no node exactly when the
    /// list is empty.  (Each `next` hands out the first element still to
    /// hand out and leaves the others, and says `None` once none is left.)
    pub proof fn lemma_walks(list: &Self, it: TailqIter, rit: TailqIterRev)
        requires
            list.wf(),
            it.node() == first_of(list.nodes()),
            rit.node() == last_of(list.nodes()),
        ensures
            it.rest(list) == list@,
            rit.rest(list) == list@.reverse(),
            rit.rest(list) == it.rest(list).reverse(),
            it.rest(list).len() == list@.len(),
            rit.rest(list).len() == list@.len(),
            it.node() is None <==> list@.len() == 0,
            rit.node() is None <==> list@.len() == 0,
    {
        Self::lemma_ends(list);
        if list@.len() == 0 {
            assert(list@ =~= Seq::<T>::empty());
            assert(list@.reverse() =~= Seq::<T>::empty());
        }
    }
}

impl TailqIter {
    /// An iterator that belongs to a list and stands at one of its nodes
    /// reports as its length the number of elements it has still to hand out.
    pub proof fn lemma_len_left<T>(&self, list: &Tailq<T>)
        requires
            list.wf(),
            self.fits(list),
        ensures
            self.node() is Some ==> self.len_spec() == self.rest(list).len(),
    {
        list.lemma_wf();
        if let Some(id) = self.node() {
            lemma_next_valid(list, id);
        }
    }
}

impl TailqIterRev {
    /// An iterator that belongs to a list and stands at one of its nodes
    /// reports as its length the number of elements it has still to hand out.
    pub proof fn lemma_len_left<T>(&self, list: &Tailq<T>)
        requires
            list.wf(),
            self.fits(list),
        ensures
            self.node() is Some ==> self.len_spec() == self.rest(list).len(),
    {
        list.lemma_wf();
        if let Some(id) = self.node() {
            lemma_next_valid(list, id);
        }
    }
}

} // verus!
