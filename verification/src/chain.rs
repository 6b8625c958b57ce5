//! A doubly linked chain of elements kept in an arena of slots.
//!
//! Every element lives in a slot with a stable index (its *node*); the chain
//! links nodes through `prev` and `next`.  Slots freed by a removal are reused
//! by later insertions.  The lists of this crate are built on it: a node index
//! plays the part that a node pointer plays in an intrusive list.
use vstd::prelude::*;
use vstd::set_lib::{set_int_range, lemma_int_range, lemma_len_subset};
use vstd::relations::injective;
use vstd::std_specs::cmp::PartialEqSpec;

verus! {

/// Arena-backed doubly linked chain.
pub struct Chain<T> {
    elems: Vec<Option<T>>,
    nexts: Vec<Option<usize>>,
    prevs: Vec<Option<usize>>,
    free: Vec<usize>,
    head: Option<usize>,
    tail: Option<usize>,
    size: usize,
    /// Nodes of the chain, from head to tail.
    order: Ghost<Seq<usize>>,
}

/// The successor of position `i` in `ids`.
pub open spec fn next_in(ids: Seq<usize>, i: int) -> Option<usize> {
    if i + 1 < ids.len() {
        Some(ids[i + 1])
    } else {
        None
    }
}

/// The predecessor of position `i` in `ids`.
pub open spec fn prev_in(ids: Seq<usize>, i: int) -> Option<usize> {
    if i > 0 {
        Some(ids[i - 1])
    } else {
        None
    }
}

/// The first node of `ids`, if any.
pub open spec fn first_of(ids: Seq<usize>) -> Option<usize> {
    if ids.len() > 0 {
        Some(ids[0])
    } else {
        None
    }
}

/// The last node of `ids`, if any.
pub open spec fn last_of(ids: Seq<usize>) -> Option<usize> {
    if ids.len() > 0 {
        Some(ids[ids.len() - 1])
    } else {
        None
    }
}

/// A sequence of distinct indices below `n` has at most `n` entries.
proof fn lemma_distinct_below(s: Seq<usize>, n: int)
    requires
        s.no_duplicates(),
        0 <= n,
        forall|i: int| 0 <= i < s.len() ==> s[i] < n,
    ensures
        s.len() <= n,
{
    let f = |x: usize| x as int;
    assert(injective(f));
    let t = s.map_values(f);
    s.lemma_no_duplicates_injective(f);
    t.unique_seq_to_set();
    assert(t.to_set().subset_of(set_int_range(0, n)));
    lemma_int_range(0, n);
    lemma_len_subset(t.to_set(), set_int_range(0, n));
}

impl<T> Chain<T> {
    /// Nodes of the chain, from head to tail.
    pub closed spec fn ids(&self) -> Seq<usize> {
        self.order@
    }

    /// The element stored in node `id`.
    pub closed spec fn elem(&self, id: usize) -> T {
        self.elems@[id as int].unwrap()
    }

    /// The elements of the chain, from head to tail.
    pub open spec fn view(&self) -> Seq<T> {
        self.ids().map_values(|id: usize| self.elem(id))
    }

    /// Node `id` is in the chain.
    pub open spec fn has(&self, id: usize) -> bool {
        self.ids().contains(id)
    }

    /// Position of node `id` in the chain.
    pub open spec fn index_of(&self, id: usize) -> int {
        self.ids().index_of(id)
    }

    spec fn slot_ok(&self, i: int) -> bool {
        let id = self.order@[i];
        &&& id < self.elems@.len()
        &&& self.elems@[id as int].is_some()
        &&& self.nexts@[id as int] == next_in(self.order@, i)
        &&& self.prevs@[id as int] == prev_in(self.order@, i)
    }

    spec fn free_ok(&self, j: int) -> bool {
        let id = self.free@[j];
        &&& id < self.elems@.len()
        &&& self.elems@[id as int].is_none()
    }

    /// Every node of the order of `other` has the same slot in `self`.
    spec fn same_slots(&self, other: Self) -> bool {
        &&& other.elems@.len() <= self.elems@.len()
        &&& forall|i: int| 0 <= i < other.order@.len() ==> {
            let id = #[trigger] other.order@[i];
            &&& self.elems@[id as int] == other.elems@[id as int]
            &&& self.nexts@[id as int] == other.nexts@[id as int]
            &&& self.prevs@[id as int] == other.prevs@[id as int]
        }
    }

    /// The links, the end nodes, the length and the free slots agree with
    /// the order of the nodes, and every slot is either in the order or
    /// free.
    pub closed spec fn wf(&self) -> bool {
        &&& self.wf_core()
        &&& self.elems@.len() == self.order@.len() + self.free@.len()
    }

    /// `wf` but for the count of the slots.
    spec fn wf_core(&self) -> bool {
        &&& self.elems@.len() < usize::MAX
        &&& self.nexts@.len() == self.elems@.len()
        &&& self.prevs@.len() == self.elems@.len()
        &&& self.order@.no_duplicates()
        &&& forall|i: int| 0 <= i < self.order@.len() ==> #[trigger] self.slot_ok(i)
        &&& self.head == first_of(self.order@)
        &&& self.tail == last_of(self.order@)
        &&& self.size == self.order@.len()
        &&& self.free@.no_duplicates()
        &&& forall|j: int| 0 <= j < self.free@.len() ==> #[trigger] self.free_ok(j)
    }

    /// The nodes of a well-formed chain are distinct, one per element, and
    /// fewer than `usize::MAX`; below `usize::MAX - 1` elements the chain
    /// is not full, so an insertion succeeds.
    pub proof fn lemma_ids_distinct(&self)
        requires
            self.wf(),
        ensures
            self.ids().no_duplicates(),
            self.ids().len() == self@.len(),
            self@.len() < usize::MAX,
            self@.len() + 1 < usize::MAX ==> !self.full(),
    {
        assert forall|i: int| 0 <= i < self.order@.len() implies self.order@[i] < self.elems@.len() by {
            assert(self.slot_ok(i));
        }
        lemma_distinct_below(self.order@, self.elems@.len() as int);
    }

    /// A node whose slot is empty is not in the chain.
    proof fn lemma_empty_slot_not_in(&self, id: usize)
        requires
            self.wf(),
            id < self.elems@.len(),
            self.elems@[id as int].is_none(),
        ensures
            !self.order@.contains(id),
    {
        if self.order@.contains(id) {
            let i = self.order@.index_of(id);
            assert(self.slot_ok(i));
        }
    }

    /// An empty chain.
    pub fn new() -> (c: Self)
        ensures
            c.wf(),
            c@ == Seq::<T>::empty(),
            c.ids() == Seq::<usize>::empty(),
            !c.full(),
    {
        let c = Chain {
            elems: Vec::new(),
            nexts: Vec::new(),
            prevs: Vec::new(),
            free: Vec::new(),
            head: None,
            tail: None,
            size: 0,
            order: Ghost(Seq::empty()),
        };
        assert(c@ =~= Seq::<T>::empty());
        c
    }

    /// Number of elements.
    pub fn len(&self) -> (n: usize)
        requires
            self.wf(),
        ensures
            n == self@.len(),
    {
        self.size
    }

    /// The first node, if any.
    pub fn head(&self) -> (h: Option<usize>)
        requires
            self.wf(),
        ensures
            h == first_of(self.ids()),
    {
        self.head
    }

    /// The last node, if any.
    pub fn tail(&self) -> (t: Option<usize>)
        requires
            self.wf(),
        ensures
            t == last_of(self.ids()),
    {
        self.tail
    }

    /// The node after `id`.
    pub fn next_of(&self, id: usize) -> (n: Option<usize>)
        requires
            self.wf(),
            self.has(id),
        ensures
            n == next_in(self.ids(), self.index_of(id)),
    {
        proof {
            let i = self.order@.index_of(id);
            assert(self.slot_ok(i));
        }
        self.nexts[id]
    }

    /// The node before `id`.
    pub fn prev_of(&self, id: usize) -> (p: Option<usize>)
        requires
            self.wf(),
            self.has(id),
        ensures
            p == prev_in(self.ids(), self.index_of(id)),
    {
        proof {
            let i = self.order@.index_of(id);
            assert(self.slot_ok(i));
        }
        self.prevs[id]
    }

    /// The element of node `id`.
    pub fn get(&self, id: usize) -> (e: &T)
        requires
            self.wf(),
            self.has(id),
        ensures
            *e == self.elem(id),
            *e == self@[self.index_of(id)],
    {
        proof {
            let i = self.order@.index_of(id);
            assert(self.slot_ok(i));
        }
        self.elems[id].as_ref().unwrap()
    }

    /// Takes a slot for `e`, reusing a free one where there is one.  The
    /// order is unchanged; the new node is not in it.
    fn alloc_slot(&mut self, e: T) -> (id: usize)
        requires
            old(self).wf(),
            old(self).free@.len() > 0 || old(self).elems@.len() + 1 < usize::MAX,
        ensures
            final(self).wf_core(),
            final(self).elems@.len() == final(self).order@.len() + final(self).free@.len() + 1,
            final(self).order@ == old(self).order@,
            final(self).same_slots(*old(self)),
            id < final(self).elems@.len(),
            final(self).elems@[id as int] == Some(e),
            !old(self).order@.contains(id),
            final(self).head == old(self).head,
            final(self).tail == old(self).tail,
            final(self).size == old(self).size,
            final(self).elems@.len() <= old(self).elems@.len() + 1,
    {
        if self.free.len() > 0 {
            let ghost old_free = self.free@;
            let id = self.free.pop().unwrap();
            proof {
                assert(old(self).free_ok(old_free.len() - 1));
                old(self).lemma_empty_slot_not_in(id);
            }
            self.elems[id] = Some(e);
            proof {
                assert forall|i: int| 0 <= i < self.order@.len() implies #[trigger] self.slot_ok(i) by {
                    assert(old(self).slot_ok(i));
                }
                assert forall|j: int| 0 <= j < self.free@.len() implies #[trigger] self.free_ok(j) by {
                    assert(old(self).free_ok(j));
                    assert(old_free[j] != old_free[old_free.len() - 1]);
                }
                assert forall|i: int| 0 <= i < old(self).order@.len() implies {
                    let k = #[trigger] old(self).order@[i];
                    &&& self.elems@[k as int] == old(self).elems@[k as int]
                    &&& self.nexts@[k as int] == old(self).nexts@[k as int]
                    &&& self.prevs@[k as int] == old(self).prevs@[k as int]
                } by {
                    assert(old(self).slot_ok(i));
                }
            }
            id
        } else {
            let id = self.elems.len();
            self.elems.push(Some(e));
            self.nexts.push(None);
            self.prevs.push(None);
            proof {
                assert forall|i: int| 0 <= i < self.order@.len() implies #[trigger] self.slot_ok(i) by {
                    assert(old(self).slot_ok(i));
                }
                assert forall|j: int| 0 <= j < self.free@.len() implies #[trigger] self.free_ok(j) by {
                    assert(old(self).free_ok(j));
                }
                assert forall|i: int| 0 <= i < old(self).order@.len() implies {
                    let k = #[trigger] old(self).order@[i];
                    &&& self.elems@[k as int] == old(self).elems@[k as int]
                    &&& self.nexts@[k as int] == old(self).nexts@[k as int]
                    &&& self.prevs@[k as int] == old(self).prevs@[k as int]
                } by {
                    assert(old(self).slot_ok(i));
                }
                if old(self).order@.contains(id) {
                    let i = old(self).order@.index_of(id);
                    assert(old(self).slot_ok(i));
                }
            }
            id
        }
    }
}

impl<T> Chain<T> {
    /// Links the free node `id` into the chain at position `k`, between
    /// `prev` and `next`.
    fn link_at(&mut self, id: usize, prev: Option<usize>, next: Option<usize>, Ghost(k): Ghost<int>)
        requires
            old(self).wf_core(),
            old(self).elems@.len() == old(self).order@.len() + old(self).free@.len() + 1,
            id < old(self).elems@.len(),
            old(self).elems@[id as int].is_some(),
            !old(self).order@.contains(id),
            0 <= k <= old(self).order@.len(),
            prev == prev_in(old(self).order@, k),
            next == (if k < old(self).order@.len() { Some(old(self).order@[k]) } else { None::<usize> }),
        ensures
            final(self).wf(),
            final(self).order@ == old(self).order@.insert(k, id),
            final(self).elems@ == old(self).elems@,
    {
        proof {
            assert forall|i: int| 0 <= i < old(self).order@.len() implies old(self).order@[i] != id by {}
            assert(old(self).order@.push(id).no_duplicates()) by {
                assert forall|i: int, j: int| 0 <= i < j < old(self).order@.len() + 1 implies
                    old(self).order@.push(id)[i] != old(self).order@.push(id)[j] by {
                    if j < old(self).order@.len() as int {
                        assert(old(self).order@.push(id)[j] == old(self).order@[j]);
                    }
                }
            }
            assert forall|i: int| 0 <= i < old(self).order@.len() + 1 implies old(self).order@.push(id)[i] < old(self).elems@.len() by {
                if i < old(self).order@.len() {
                    assert(old(self).slot_ok(i));
                }
            }
            lemma_distinct_below(old(self).order@.push(id), old(self).elems@.len() as int);
            assert(old(self).elems.len() == old(self).elems@.len());
        }
        self.nexts[id] = next;
        self.prevs[id] = prev;
        match prev {
            Some(p) => {
                proof { assert(old(self).slot_ok(k - 1)); }
                self.nexts[p] = Some(id);
            },
            None => {
                self.head = Some(id);
            },
        }
        match next {
            Some(n) => {
                proof { assert(old(self).slot_ok(k)); }
                self.prevs[n] = Some(id);
            },
            None => {
                self.tail = Some(id);
            },
        }
        self.size = self.size + 1;
        let ghost old_order = self.order@;
        proof {
            self.order@ = old_order.insert(k, id);
            old_order.insert_ensures(k, id);
            let new_order = self.order@;
            assert forall|i: int| 0 <= i < new_order.len() implies #[trigger] self.slot_ok(i) by {
                if i < k {
                    assert(old(self).slot_ok(i));
                    assert(new_order[i] == old_order[i]);
                    if i + 1 < k {
                        assert(new_order[i + 1] == old_order[i + 1]);
                    }
                    if i > 0 {
                        assert(new_order[i - 1] == old_order[i - 1]);
                    }
                } else if i > k {
                    assert(old(self).slot_ok(i - 1));
                    assert(new_order[i] == old_order[i - 1]);
                    if i + 1 < new_order.len() {
                        assert(new_order[i + 1] == old_order[i]);
                    }
                    if i - 1 > k {
                        assert(new_order[i - 1] == old_order[i - 2]);
                    }
                }
            }
            assert(new_order.no_duplicates()) by {
                assert forall|a: int, b: int| 0 <= a < b < new_order.len() implies new_order[a] != new_order[b] by {
                    if a < k {
                        if b < k {} else if b == k {} else {}
                    }
                }
            }
            assert forall|j: int| 0 <= j < self.free@.len() implies #[trigger] self.free_ok(j) by {
                assert(old(self).free_ok(j));
            }
            if k == 0 {
                assert(new_order[0] == id);
            }
            if k == old_order.len() {
                assert(new_order[new_order.len() - 1] == id);
            } else {
                assert(new_order[new_order.len() - 1] == old_order[old_order.len() - 1]);
            }
            if k > 0 {
                assert(new_order[0] == old_order[0]);
            }
        }
    }
}

impl<T> Chain<T> {
    /// No slot is free and the arena cannot grow: an insertion cannot be
    /// served.
    pub closed spec fn full(&self) -> bool {
        self.free@.len() == 0 && self.elems@.len() + 1 == usize::MAX
    }

    /// Allocates a node for `e` and links it at position `k`.
    fn insert_at(&mut self, e: T, prev: Option<usize>, next: Option<usize>, Ghost(k): Ghost<int>) -> (r: Option<usize>)
        requires
            old(self).wf(),
            0 <= k <= old(self).ids().len(),
            prev == prev_in(old(self).ids(), k),
            next == (if k < old(self).ids().len() { Some(old(self).ids()[k]) } else { None::<usize> }),
        ensures
            final(self).wf(),
            r.is_none() <==> old(self).full(),
            r.is_none() ==> *final(self) == *old(self),
            r matches Some(id) ==> {
                &&& final(self).ids() == old(self).ids().insert(k, id)
                &&& final(self)@ == old(self)@.insert(k, e)
                &&& !old(self).has(id)
            },
    {
        if self.free.len() == 0 && self.elems.len() == usize::MAX - 1 {
            return None;
        }
        let ghost old_self = *self;
        let id = self.alloc_slot(e);
        let ghost mid = *self;
        self.link_at(id, prev, next, Ghost(k));
        proof {
            let ids = self.order@;
            old_self.order@.insert_ensures(k, id);
            assert forall|i: int| 0 <= i < ids.len() implies #[trigger] self@[i] == old_self@.insert(k, e)[i] by {
                if i < k {
                    assert(mid.same_slots(old_self));
                    assert(old_self.order@[i] == ids[i]);
                } else if i > k {
                    assert(mid.same_slots(old_self));
                    assert(old_self.order@[i - 1] == ids[i]);
                }
            }
            assert(self@ =~= old_self@.insert(k, e));
        }
        Some(id)
    }

    /// Inserts `e` at the front.
    pub fn push_front(&mut self, e: T) -> (r: Option<usize>)
        requires
            old(self).wf(),
        ensures
            final(self).wf(),
            r.is_none() <==> old(self).full(),
            r.is_none() ==> *final(self) == *old(self),
            r matches Some(id) ==> {
                &&& final(self).ids() == old(self).ids().insert(0, id)
                &&& final(self)@ == old(self)@.insert(0, e)
            },
    {
        let next = self.head;
        self.insert_at(e, None, next, Ghost(0))
    }

    /// Inserts `e` at the back.
    pub fn push_back(&mut self, e: T) -> (r: Option<usize>)
        requires
            old(self).wf(),
        ensures
            final(self).wf(),
            r.is_none() <==> old(self).full(),
            r.is_none() ==> *final(self) == *old(self),
            r matches Some(id) ==> {
                &&& final(self).ids() == old(self).ids().push(id)
                &&& final(self)@ == old(self)@.push(e)
            },
    {
        let prev = self.tail;
        let r = self.insert_at(e, prev, None, Ghost(self.order@.len() as int));
        proof {
            if let Some(id) = r {
                assert(old(self).ids().insert(old(self).ids().len() as int, id) =~= old(self).ids().push(id));
                assert(old(self)@.insert(old(self)@.len() as int, e) =~= old(self)@.push(e));
            }
        }
        r
    }

    /// Inserts `e` right after node `at`.
    pub fn insert_after(&mut self, at: usize, e: T) -> (r: Option<usize>)
        requires
            old(self).wf(),
            old(self).has(at),
        ensures
            final(self).wf(),
            r.is_none() <==> old(self).full(),
            r.is_none() ==> *final(self) == *old(self),
            r matches Some(id) ==> {
                &&& final(self).ids() == old(self).ids().insert(old(self).index_of(at) + 1, id)
                &&& final(self)@ == old(self)@.insert(old(self).index_of(at) + 1, e)
            },
    {
        let ghost k = self.order@.index_of(at);
        let next = self.next_of(at);
        self.insert_at(e, Some(at), next, Ghost(k + 1))
    }

    /// Inserts `e` right before node `at`.
    pub fn insert_before(&mut self, at: usize, e: T) -> (r: Option<usize>)
        requires
            old(self).wf(),
            old(self).has(at),
        ensures
            final(self).wf(),
            r.is_none() <==> old(self).full(),
            r.is_none() ==> *final(self) == *old(self),
            r matches Some(id) ==> {
                &&& final(self).ids() == old(self).ids().insert(old(self).index_of(at), id)
                &&& final(self)@ == old(self)@.insert(old(self).index_of(at), e)
            },
    {
        let ghost k = self.order@.index_of(at);
        let prev = self.prev_of(at);
        self.insert_at(e, prev, Some(at), Ghost(k))
    }
}

impl<T> Chain<T> {
    /// Unlinks node `id`, frees its slot and hands back its element.
    pub fn remove(&mut self, id: usize) -> (e: T)
        requires
            old(self).wf(),
            old(self).has(id),
        ensures
            final(self).wf(),
            final(self).ids() == old(self).ids().remove(old(self).index_of(id)),
            final(self)@ == old(self)@.remove(old(self).index_of(id)),
            e == old(self)@[old(self).index_of(id)],
            !final(self).has(id),
            !final(self).full(),
    {
        let ghost k = self.order@.index_of(id);
        let ghost old_order = self.order@;
        proof {
            assert(old(self).slot_ok(k));
        }
        let p = self.prevs[id];
        let n = self.nexts[id];
        match p {
            Some(pp) => {
                proof { assert(old(self).slot_ok(k - 1)); }
                self.nexts[pp] = n;
            },
            None => {
                self.head = n;
            },
        }
        match n {
            Some(nn) => {
                proof { assert(old(self).slot_ok(k + 1)); }
                self.prevs[nn] = p;
            },
            None => {
                self.tail = p;
            },
        }
        self.nexts[id] = None;
        self.prevs[id] = None;
        let e = self.elems[id].take().unwrap();
        proof {
            assert(self.elems@ == old(self).elems@.update(id as int, None));
            if self.free@.contains(id) {
                let j = self.free@.index_of(id);
                assert(old(self).free_ok(j));
            }
        }
        self.free.push(id);
        self.size = self.size - 1;
        proof {
            self.order@ = old_order.remove(k);
            old_order.remove_ensures(k);
            let new_order = self.order@;
            assert forall|i: int| 0 <= i < new_order.len() implies #[trigger] self.slot_ok(i) by {
                if i < k {
                    assert(old(self).slot_ok(i));
                    assert(new_order[i] == old_order[i]);
                    if i > 0 {
                        assert(new_order[i - 1] == old_order[i - 1]);
                    }
                    if i + 1 < k {
                        assert(new_order[i + 1] == old_order[i + 1]);
                    }
                    if i == k - 1 && k + 1 < old_order.len() {
                        assert(new_order[i + 1] == old_order[k + 1]);
                    }
                } else {
                    assert(old(self).slot_ok(i + 1));
                    assert(new_order[i] == old_order[i + 1]);
                    if i + 1 < new_order.len() {
                        assert(new_order[i + 1] == old_order[i + 2]);
                    }
                    if i > k {
                        assert(new_order[i - 1] == old_order[i]);
                    }
                    if i == k && k > 0 {
                        assert(new_order[i - 1] == old_order[k - 1]);
                    }
                }
            }
            assert forall|j: int| 0 <= j < self.free@.len() implies #[trigger] self.free_ok(j) by {
                if j < self.free@.len() - 1 {
                    assert(old(self).free_ok(j));
                    if old(self).free@[j] == id {
                        assert(old(self).elems@[id as int].is_some());
                    }
                }
            }
            assert(self.free@.no_duplicates()) by {
                assert forall|a: int, b: int| 0 <= a < b < self.free@.len() implies self.free@[a] != self.free@[b] by {
                    if b == self.free@.len() - 1 {
                        assert(old(self).free_ok(a));
                    }
                }
            }
            if new_order.len() > 0 {
                if k == 0 {
                    assert(new_order[0] == old_order[1]);
                } else {
                    assert(new_order[0] == old_order[0]);
                }
                if k == old_order.len() - 1 {
                    assert(new_order[new_order.len() - 1] == old_order[old_order.len() - 2]);
                } else {
                    assert(new_order[new_order.len() - 1] == old_order[old_order.len() - 1]);
                }
            }
            assert forall|i: int| 0 <= i < new_order.len() implies #[trigger] self@[i] == old(self)@.remove(k)[i] by {
                if i < k {
                    assert(new_order[i] == old_order[i]);
                    assert(old_order[i] != id);
                    assert(old(self).slot_ok(i));
                    assert(self.elems@[new_order[i] as int] == old(self).elems@[old_order[i] as int]);
                } else {
                    assert(old(self).slot_ok(i + 1));
                    assert(old_order[i + 1] != id);
                    assert(self.elems@[new_order[i] as int] == old(self).elems@[old_order[i + 1] as int]);
                    assert(new_order[i] == old_order[i + 1]);
                    assert(old_order[i + 1] != id);
                }
            }
            assert(self@ =~= old(self)@.remove(k));
            assert(!new_order.contains(id)) by {
                if new_order.contains(id) {
                    let i = new_order.index_of(id);
                    if i < k {
                        assert(old_order[i] == id);
                    } else {
                        assert(old_order[i + 1] == id);
                    }
                }
            }
        }
        e
    }

    /// Removes the first element.
    pub fn pop_front(&mut self) -> (e: Option<T>)
        requires
            old(self).wf(),
        ensures
            final(self).wf(),
            old(self)@.len() == 0 ==> e.is_none() && *final(self) == *old(self),
            old(self)@.len() > 0 ==> {
                &&& e == Some(old(self)@[0])
                &&& final(self)@ == old(self)@.drop_first()
                &&& final(self).ids() == old(self).ids().drop_first()
            },
    {
        match self.head {
            None => None,
            Some(h) => {
                proof {
                    assert(old(self).ids().index_of(h) == 0) by {
                        assert(old(self).ids()[0] == h);
                    }
                }
                let e = self.remove(h);
                proof {
                    assert(old(self)@.remove(0) =~= old(self)@.drop_first());
                    assert(old(self).ids().remove(0) =~= old(self).ids().drop_first());
                }
                Some(e)
            },
        }
    }

    /// Removes the last element.
    pub fn pop_back(&mut self) -> (e: Option<T>)
        requires
            old(self).wf(),
        ensures
            final(self).wf(),
            old(self)@.len() == 0 ==> e.is_none() && *final(self) == *old(self),
            old(self)@.len() > 0 ==> {
                &&& e == Some(old(self)@.last())
                &&& final(self)@ == old(self)@.drop_last()
                &&& final(self).ids() == old(self).ids().drop_last()
            },
    {
        match self.tail {
            None => None,
            Some(t) => {
                let ghost last = old(self).ids().len() - 1;
                proof {
                    assert(old(self).ids().index_of(t) == last) by {
                        assert(old(self).ids()[last] == t);
                    }
                }
                let e = self.remove(t);
                proof {
                    assert(old(self)@.remove(last) =~= old(self)@.drop_last());
                    assert(old(self).ids().remove(last) =~= old(self).ids().drop_last());
                }
                Some(e)
            },
        }
    }
}

impl<T> Chain<T> {
    /// `c` is `old` with the element of node `id` replaced by `v`.
    spec fn is_update(c: Self, old: Self, id: usize, v: T) -> bool {
        &&& c.elems@ == old.elems@.update(id as int, Some(v))
        &&& c.nexts == old.nexts
        &&& c.prevs == old.prevs
        &&& c.free == old.free
        &&& c.head == old.head
        &&& c.tail == old.tail
        &&& c.size == old.size
        &&& c.order == old.order
    }

    proof fn lemma_update(old: Self, id: usize)
        requires
            old.wf(),
            old.has(id),
        ensures
            forall|c: Self, v: T| #[trigger] Self::is_update(c, old, id, v) ==> {
                &&& c.wf()
                &&& c.ids() == old.ids()
                &&& c@ == old@.update(old.index_of(id), v)
            },
    {
        let k = old.order@.index_of(id);
        assert(old.slot_ok(k));
        assert forall|c: Self, v: T| #[trigger] Self::is_update(c, old, id, v) implies {
            &&& c.wf()
            &&& c.ids() == old.ids()
            &&& c@ == old@.update(k, v)
        } by {
            if old.free@.contains(id) {
                assert(old.free_ok(old.free@.index_of(id)));
            }
            assert forall|i: int| 0 <= i < c.order@.len() implies #[trigger] c.slot_ok(i) by {
                assert(old.slot_ok(i));
            }
            assert forall|j: int| 0 <= j < c.free@.len() implies #[trigger] c.free_ok(j) by {
                assert(old.free_ok(j));
            }
            assert forall|i: int| 0 <= i < c.order@.len() implies #[trigger] c@[i] == old@.update(k, v)[i] by {
                assert(old.slot_ok(i));
            }
            assert(c@ =~= old@.update(k, v));
        }
    }

    /// Mutable access to the element of node `id`.
    pub fn get_mut(&mut self, id: usize) -> (e: &mut T)
        requires
            old(self).wf(),
            old(self).has(id),
        ensures
            *e == old(self)@[old(self).index_of(id)],
            final(self).wf(),
            final(self).ids() == old(self).ids(),
            final(self)@ == old(self)@.update(old(self).index_of(id), *final(e)),
    {
        proof {
            Self::lemma_update(*old(self), id);
        }
        self.slot_mut(id)
    }

    fn slot_mut(&mut self, id: usize) -> (e: &mut T)
        requires
            old(self).wf(),
            old(self).has(id),
        ensures
            *e == old(self)@[old(self).index_of(id)],
            Self::is_update(*final(self), *old(self), id, *final(e)),
    {
        let ghost k = self.order@.index_of(id);
        proof {
            assert(old(self).slot_ok(k));
        }
        match &mut self.elems[id] {
            Some(x) => x,
            None => vstd::pervasive::unreached(),
        }
    }

    /// Empties the chain.
    pub fn clear(&mut self)
        ensures
            final(self).wf(),
            final(self)@ == Seq::<T>::empty(),
            final(self).ids() == Seq::<usize>::empty(),
            !final(self).full(),
    {
        *self = Chain::new();
    }
}

/// Some element of `s` equals `x` by the `==` of `T`.
pub open spec fn seq_has_eq<T: PartialEq>(s: Seq<T>, x: &T) -> bool {
    exists|i: int| 0 <= i < s.len() && (#[trigger] s[i]).eq_spec(x)
}

impl<T: PartialEq> Chain<T> {
    /// Whether some element equals `x`.
    pub fn contains(&self, x: &T) -> (r: bool)
        requires
            self.wf(),
        ensures
            T::obeys_eq_spec() ==> (r <==> seq_has_eq(self@, x)),
    {
        let mut cur = self.head;
        let ghost mut i: int = 0;
        while cur.is_some()
            invariant
                self.wf(),
                0 <= i <= self@.len(),
                cur == (if i < self@.len() { Some(self.ids()[i]) } else { None::<usize> }),
                T::obeys_eq_spec() ==> forall|j: int| 0 <= j < i ==> !(#[trigger] self@[j]).eq_spec(x),
            decreases self@.len() - i,
        {
            let id = cur.unwrap();
            proof {
                assert(self.ids().index_of(id) == i) by {
                    assert(self.ids()[i] == id);
                }
            }
            let e = self.get(id);
            if e.eq(x) {
                return true;
            }
            cur = self.next_of(id);
            proof {
                i = i + 1;
            }
        }
        false
    }
}

} // verus!
