//! A doubly linked list.
use vstd::prelude::*;
use crate::chain::{first_of, next_in, prev_in};

verus! {

/// A node: an element and the links to the previous and the next node.
pub struct ListNode<T> {
    pub element: T,
    pub prev: Option<usize>,
    pub next: Option<usize>,
}

impl<T> ListNode<T> {
    /// A node that links to nothing.
    pub fn new(element: T) -> (n: Self)
        ensures
            n.element == element,
            n.prev is None,
            n.next is None,
    {
        ListNode { prev: None, next: None, element }
    }
}

/// Node `n` with its link backward set to `prev`.
pub open spec fn with_prev<T>(n: ListNode<T>, prev: Option<usize>) -> ListNode<T> {
    ListNode { element: n.element, prev, next: n.next }
}

/// Node `n` with its link forward set to `next`.
pub open spec fn with_next<T>(n: ListNode<T>, next: Option<usize>) -> ListNode<T> {
    ListNode { element: n.element, prev: n.prev, next }
}

/// `nodes` with the link backward of node `i` set to `prev`.
pub open spec fn set_prev<T>(nodes: Seq<ListNode<T>>, i: usize, prev: Option<usize>) -> Seq<ListNode<T>> {
    nodes.update(i as int, with_prev(nodes[i as int], prev))
}

/// `nodes` with the link forward of node `i` set to `next`.
pub open spec fn set_next<T>(nodes: Seq<ListNode<T>>, i: usize, next: Option<usize>) -> Seq<ListNode<T>> {
    nodes.update(i as int, with_next(nodes[i as int], next))
}

/// `nodes` with the link backward of the node `i` points to, if any, set
/// to `prev`.
pub open spec fn set_prev_of<T>(nodes: Seq<ListNode<T>>, i: Option<usize>, prev: Option<usize>) -> Seq<ListNode<T>> {
    match i {
        Some(j) => set_prev(nodes, j, prev),
        None => nodes,
    }
}

/// `nodes` with the link forward of the node `i` points to, if any, set to
/// `next`.
pub open spec fn set_next_of<T>(nodes: Seq<ListNode<T>>, i: Option<usize>, next: Option<usize>) -> Seq<ListNode<T>> {
    match i {
        Some(j) => set_next(nodes, j, next),
        None => nodes,
    }
}

/// Every link of `nodes` that is set points into `nodes`.
pub open spec fn links_inside<T>(nodes: Seq<ListNode<T>>) -> bool {
    forall|i: int| 0 <= i < nodes.len() ==> {
        &&& (#[trigger] nodes[i]).prev matches Some(p) ==> p < nodes.len()
        &&& nodes[i].next matches Some(n) ==> n < nodes.len()
    }
}

/// `s` lists, from first to last, the nodes of a list that starts at
/// `first`: distinct nodes of `nodes`, each linked forward to the one after
/// it and back to the one before it, the first back to nothing and the last
/// forward to nothing.
pub open spec fn chain_of<T>(nodes: Seq<ListNode<T>>, first: Option<usize>, s: Seq<usize>) -> bool {
    &&& s.no_duplicates()
    &&& first == first_of(s)
    &&& forall|i: int| 0 <= i < s.len() ==> {
        &&& (#[trigger] s[i]) < nodes.len()
        &&& nodes[s[i] as int].next == next_in(s, i)
        &&& nodes[s[i] as int].prev == prev_in(s, i)
    }
}

/// A doubly linked list: the link to its first node.
pub struct List<T> {
    head: Option<usize>,
    nodes_of: core::marker::PhantomData<T>,
}

impl<T> List<T> {
    /// The link to the first node.
    pub closed spec fn first(&self) -> Option<usize> {
        self.head
    }

    /// An empty list.
    pub fn new() -> (l: Self)
        ensures
            l.first() is None,
    {
        Self { head: None, nodes_of: core::marker::PhantomData }
    }

    /// The list has no node.
    pub fn is_empty(&self) -> (b: bool)
        ensures
            b == self.first() is None,
    {
        self.head.is_none()
    }

    /// The link to the first node.
    pub fn head(&self) -> (h: Option<usize>)
        ensures
            h == self.first(),
    {
        self.head
    }

    fn set_head(&mut self, h: Option<usize>)
        ensures
            final(self).first() == h,
    {
        self.head = h;
    }

    /// Makes `node` the first node: it links back to nothing and forward
    /// to the former first node, which links back to it.
    pub fn push_front(&mut self, nodes: &mut Vec<ListNode<T>>, node: usize)
        requires
            node < old(nodes)@.len(),
            links_inside(old(nodes)@),
            old(self).first() matches Some(h) ==> h < old(nodes)@.len(),
        ensures
            final(self).first() == Some(node),
            final(nodes)@ == set_prev_of(
                set_next(set_prev(old(nodes)@, node, None), node, old(self).first()),
                old(self).first(),
                Some(node),
            ),
            forall|s: Seq<usize>|
                #[trigger] chain_of(old(nodes)@, old(self).first(), s) && !s.contains(node)
                    ==> chain_of(final(nodes)@, final(self).first(), seq![node] + s),
    {
        let ghost nodes0 = nodes@;
        let ghost first0 = self.first();
        nodes[node].prev = None;
        let head = self.head;
        nodes[node].next = head;
        if let Some(p) = head {
            nodes[p].prev = Some(node);
        }
        self.head = Some(node);
        proof {
            assert forall|s: Seq<usize>|
                #[trigger] chain_of(nodes0, first0, s) && !s.contains(node)
                    implies chain_of(nodes@, self.first(), seq![node] + s) by {
                lemma_insert_chain(nodes0, first0, s, 0, node);
                let nx = if 0 < s.len() { Some(s[0]) } else { None };
                assert(nx == first0);
                assert(nodes@ =~= set_prev_of(set_next_of(set_prev(set_next(nodes0, node, nx), node, None), None, Some(node)), nx, Some(node)));
                assert(s.insert(0, node) =~= seq![node] + s);
            }
        }
    }

    /// Takes the first node off; the next node becomes the first and links
    /// back to nothing.  The node itself keeps its links.
    pub fn pop_front(&mut self, nodes: &mut Vec<ListNode<T>>) -> (r: Option<usize>)
        requires
            links_inside(old(nodes)@),
            old(self).first() matches Some(h) ==> h < old(nodes)@.len(),
        ensures
            r == old(self).first(),
            match r {
                Some(x) => {
                    &&& final(self).first() == old(nodes)@[x as int].next
                    &&& final(nodes)@ == set_prev_of(old(nodes)@, old(nodes)@[x as int].next, None)
                },
                None => final(self).first() is None && final(nodes)@ == old(nodes)@,
            },
            forall|s: Seq<usize>|
                #[trigger] chain_of(old(nodes)@, old(self).first(), s) ==> {
                    &&& (r is None <==> s.len() == 0)
                    &&& s.len() > 0 ==> chain_of(final(nodes)@, final(self).first(), s.drop_first())
                },
    {
        let ghost nodes0 = nodes@;
        let ghost first0 = self.first();
        let r = match self.head {
            Some(x) => {
                let nx = nodes[x].next;
                self.head = nx;
                if let Some(p) = nx {
                    nodes[p].prev = None;
                }
                Some(x)
            },
            None => None,
        };
        proof {
            assert forall|s: Seq<usize>| #[trigger] chain_of(nodes0, first0, s) && s.len() > 0
                implies chain_of(nodes@, self.first(), s.drop_first()) by {
                lemma_remove_chain(nodes0, first0, s, 0);
                assert(s.remove(0) =~= s.drop_first());
            }
        }
        r
    }

    /// An iterator from the first node.
    pub fn iter(&self) -> (it: ListIter)
        ensures
            it.node == self.first(),
    {
        ListIter { node: self.head }
    }

    /// Popping the node just pushed gives it back and restores the first
    /// node and its link backward.
    pub proof fn lemma_push_pop(
        l0: &Self,
        l1: &Self,
        l2: &Self,
        nodes0: Seq<ListNode<T>>,
        nodes1: Seq<ListNode<T>>,
        nodes2: Seq<ListNode<T>>,
        node: usize,
        r: Option<usize>,
    )
        requires
            node < nodes0.len(),
            l0.first() matches Some(h) ==> h < nodes0.len() && h != node && nodes0[h as int].prev is None,
            l1.first() == Some(node),
            nodes1 == set_prev_of(set_next(set_prev(nodes0, node, None), node, l0.first()), l0.first(), Some(node)),
            r == l1.first(),
            l2.first() == nodes1[node as int].next,
            nodes2 == set_prev_of(nodes1, nodes1[node as int].next, None),
        ensures
            r == Some(node),
            l2.first() == l0.first(),
            forall|i: int| 0 <= i < nodes0.len() && i != node ==> nodes2[i] == nodes0[i],
    {
        assert forall|i: int| 0 <= i < nodes0.len() && i != node implies nodes2[i] == nodes0[i] by {
            if let Some(h) = l0.first() {
                if i == h {
                    assert(nodes2[i].prev == nodes0[i].prev);
                    assert(nodes2[i] =~= nodes0[i]);
                }
            }
        }
    }
}

impl<T> ListNode<T> {
    /// Links `node` right before node `this`.  When `this` is the first
    /// node of its list, `node` becomes the first node of `owner`.
    pub fn insert_before(nodes: &mut Vec<ListNode<T>>, this: usize, node: usize, owner: &mut List<T>)
        requires
            this < old(nodes)@.len(),
            node < old(nodes)@.len(),
            this != node,
            links_inside(old(nodes)@),
        ensures
            ({
                let p = old(nodes)@[this as int].prev;
                let n1 = set_next(set_prev(old(nodes)@, node, p), node, Some(this));
                let n2 = set_next_of(n1, p, Some(node));
                final(nodes)@ == set_prev(n2, this, Some(node))
            }),
            final(owner).first() == if old(nodes)@[this as int].prev is None { Some(node) } else { old(owner).first() },
            forall|s: Seq<usize>|
                #[trigger] chain_of(old(nodes)@, old(owner).first(), s) && s.contains(this) && !s.contains(node)
                    ==> chain_of(final(nodes)@, final(owner).first(), s.insert(s.index_of(this), node)),
    {
        let ghost nodes0 = nodes@;
        let ghost first0 = owner.first();
        let p = nodes[this].prev;
        nodes[node].prev = p;
        nodes[node].next = Some(this);
        match p {
            Some(prev) => {
                nodes[prev].next = Some(node);
            },
            None => {
                owner.set_head(Some(node));
            },
        }
        nodes[this].prev = Some(node);
        proof {
            assert forall|s: Seq<usize>|
                #[trigger] chain_of(nodes0, first0, s) && s.contains(this) && !s.contains(node)
                    implies chain_of(nodes@, owner.first(), s.insert(s.index_of(this), node)) by {
                let k = s.index_of(this);
                lemma_insert_chain(nodes0, first0, s, k, node);
                assert(nodes@ =~= set_prev_of(set_next_of(set_prev(set_next(nodes0, node, Some(this)), node, p), p, Some(node)), Some(this), Some(node)));
            }
        }
    }

    /// Links `node` right after node `this`.
    pub fn insert_after(nodes: &mut Vec<ListNode<T>>, this: usize, node: usize)
        requires
            this < old(nodes)@.len(),
            node < old(nodes)@.len(),
            this != node,
            links_inside(old(nodes)@),
        ensures
            ({
                let nx = old(nodes)@[this as int].next;
                let n1 = set_prev(set_next(old(nodes)@, node, nx), node, Some(this));
                let n2 = set_prev_of(n1, nx, Some(node));
                final(nodes)@ == set_next(n2, this, Some(node))
            }),
            forall|s: Seq<usize>, f: Option<usize>|
                #[trigger] chain_of(old(nodes)@, f, s) && s.contains(this) && !s.contains(node)
                    ==> chain_of(final(nodes)@, f, s.insert(s.index_of(this) + 1, node)),
    {
        let ghost nodes0 = nodes@;
        let nx = nodes[this].next;
        nodes[node].next = nx;
        nodes[node].prev = Some(this);
        if let Some(next) = nx {
            nodes[next].prev = Some(node);
        }
        nodes[this].next = Some(node);
        proof {
            assert forall|s: Seq<usize>, f: Option<usize>|
                #[trigger] chain_of(nodes0, f, s) && s.contains(this) && !s.contains(node)
                    implies chain_of(nodes@, f, s.insert(s.index_of(this) + 1, node)) by {
                let k = s.index_of(this);
                lemma_insert_chain(nodes0, f, s, k + 1, node);
                if let Some(m) = nx {
                    assert(m == s[k + 1]);
                }
                assert(nodes@ =~= set_prev_of(set_next_of(set_prev(set_next(nodes0, node, nx), node, Some(this)), Some(this), Some(node)), nx, Some(node)));
            }
        }
    }

    /// Unlinks the node before node `this` and gives it; it keeps its own
    /// links.  When that node was the first of its list, `this` becomes
    /// the first node of `owner`.
    pub fn remove_before(nodes: &mut Vec<ListNode<T>>, this: usize, owner: &mut List<T>) -> (r: Option<usize>)
        requires
            this < old(nodes)@.len(),
            links_inside(old(nodes)@),
        ensures
            r == old(nodes)@[this as int].prev,
            match r {
                Some(prev) => {
                    let pp = old(nodes)@[prev as int].prev;
                    &&& final(nodes)@ == set_next_of(set_prev(old(nodes)@, this, pp), pp, Some(this))
                    &&& final(owner).first() == if pp is None { Some(this) } else { old(owner).first() }
                },
                None => final(nodes)@ == old(nodes)@ && final(owner).first() == old(owner).first(),
            },
            forall|s: Seq<usize>|
                #[trigger] chain_of(old(nodes)@, old(owner).first(), s) && s.contains(this) ==> {
                    let k = s.index_of(this);
                    &&& r == prev_in(s, k)
                    &&& chain_of(final(nodes)@, final(owner).first(), if k > 0 { s.remove(k - 1) } else { s })
                },
    {
        let ghost nodes0 = nodes@;
        let ghost first0 = owner.first();
        let r = match nodes[this].prev {
            Some(prev) => {
                let pp = nodes[prev].prev;
                nodes[this].prev = pp;
                match pp {
                    Some(prev_prev) => {
                        nodes[prev_prev].next = Some(this);
                    },
                    None => {
                        owner.set_head(Some(this));
                    },
                }
                Some(prev)
            },
            None => None,
        };
        proof {
            assert forall|s: Seq<usize>|
                #[trigger] chain_of(nodes0, first0, s) && s.contains(this) implies {
                    let k = s.index_of(this);
                    &&& r == prev_in(s, k)
                    &&& chain_of(nodes@, owner.first(), if k > 0 { s.remove(k - 1) } else { s })
                } by {
                let k = s.index_of(this);
                if k > 0 {
                    lemma_remove_chain(nodes0, first0, s, k - 1);
                    let pp = nodes0[s[k - 1] as int].prev;
                    assert(nodes@ =~= set_prev_of(set_next_of(nodes0, pp, Some(this)), Some(this), pp));
                }
            }
        }
        r
    }

    /// Unlinks node `this` from its neighbours, or from the head of `owner`
    /// when it is the first node; `this` keeps its own links.
    pub fn remove(nodes: &mut Vec<ListNode<T>>, this: usize, owner: &mut List<T>)
        requires
            this < old(nodes)@.len(),
            links_inside(old(nodes)@),
        ensures
            ({
                let p = old(nodes)@[this as int].prev;
                let nx = old(nodes)@[this as int].next;
                &&& final(nodes)@ == set_prev_of(set_next_of(old(nodes)@, p, nx), nx, p)
                &&& final(owner).first() == if p is None { nx } else { old(owner).first() }
            }),
            forall|s: Seq<usize>|
                #[trigger] chain_of(old(nodes)@, old(owner).first(), s) && s.contains(this)
                    ==> chain_of(final(nodes)@, final(owner).first(), s.remove(s.index_of(this))),
    {
        let ghost nodes0 = nodes@;
        let ghost first0 = owner.first();
        let p = nodes[this].prev;
        let nx = nodes[this].next;
        match p {
            Some(prev) => {
                nodes[prev].next = nx;
            },
            None => {
                owner.set_head(nx);
            },
        }
        if let Some(next) = nx {
            nodes[next].prev = p;
        }
        proof {
            assert forall|s: Seq<usize>|
                #[trigger] chain_of(nodes0, first0, s) && s.contains(this)
                    implies chain_of(nodes@, owner.first(), s.remove(s.index_of(this))) by {
                lemma_remove_chain(nodes0, first0, s, s.index_of(this));
            }
        }
    }

    /// Unlinks the node after node `this` and gives it; it keeps its own
    /// links.
    pub fn remove_after(nodes: &mut Vec<ListNode<T>>, this: usize) -> (r: Option<usize>)
        requires
            this < old(nodes)@.len(),
            links_inside(old(nodes)@),
        ensures
            r == old(nodes)@[this as int].next,
            final(nodes)@ == match r {
                Some(next) => {
                    let nn = old(nodes)@[next as int].next;
                    set_prev_of(set_next(old(nodes)@, this, nn), nn, Some(this))
                },
                None => old(nodes)@,
            },
            forall|s: Seq<usize>, f: Option<usize>|
                #[trigger] chain_of(old(nodes)@, f, s) && s.contains(this) ==> {
                    let k = s.index_of(this);
                    &&& r == next_in(s, k)
                    &&& chain_of(final(nodes)@, f, if k + 1 < s.len() { s.remove(k + 1) } else { s })
                },
    {
        let ghost nodes0 = nodes@;
        let r = match nodes[this].next {
            Some(next) => {
                let nn = nodes[next].next;
                nodes[this].next = nn;
                if let Some(next_next) = nn {
                    nodes[next_next].prev = Some(this);
                }
                Some(next)
            },
            None => None,
        };
        proof {
            assert forall|s: Seq<usize>, f: Option<usize>|
                #[trigger] chain_of(nodes0, f, s) && s.contains(this) implies {
                    let k = s.index_of(this);
                    &&& r == next_in(s, k)
                    &&& chain_of(nodes@, f, if k + 1 < s.len() { s.remove(k + 1) } else { s })
                } by {
                let k = s.index_of(this);
                if k + 1 < s.len() {
                    lemma_remove_chain(nodes0, f, s, k + 1);
                }
            }
        }
        r
    }

    /// The node links forward to nothing.
    pub fn is_tail(&self) -> (b: bool)
        ensures
            b == self.next is None,
    {
        self.next.is_none()
    }

    /// The node links backward to nothing.
    pub fn is_head(&self) -> (b: bool)
        ensures
            b == self.prev is None,
    {
        self.prev.is_none()
    }

    /// The node links to nothing either way.
    pub fn is_alone(&self) -> (b: bool)
        ensures
            b == (self.prev is None && self.next is None),
    {
        self.prev.is_none() && self.next.is_none()
    }

    /// Clears both links.
    pub fn set_alone(&mut self)
        ensures
            final(self).element == old(self).element,
            final(self).prev is None,
            final(self).next is None,
    {
        self.prev = None;
        self.next = None;
    }
}

/// Unlinking node `s[k]` of a list from its neighbours leaves the list of
/// the other nodes, in order.
proof fn lemma_remove_chain<T>(nodes: Seq<ListNode<T>>, first: Option<usize>, s: Seq<usize>, k: int)
    requires
        chain_of(nodes, first, s),
        0 <= k < s.len(),
    ensures
        ({
            let this = s[k];
            let p = nodes[this as int].prev;
            let nx = nodes[this as int].next;
            chain_of(
                set_prev_of(set_next_of(nodes, p, nx), nx, p),
                if p is None { nx } else { first },
                s.remove(k),
            )
        }),
{
    let this = s[k];
    let p = nodes[this as int].prev;
    let nx = nodes[this as int].next;
    let n1 = set_next_of(nodes, p, nx);
    let n2 = set_prev_of(n1, nx, p);
    let t = s.remove(k);
    assert(s[k] == this);
    assert forall|i: int, j: int| 0 <= i < t.len() && 0 <= j < t.len() && i != j implies t[i] != t[j] by {
        let a = if i < k { i } else { i + 1 };
        let b = if j < k { j } else { j + 1 };
        assert(t[i] == s[a]);
        assert(t[j] == s[b]);
    }
    assert forall|i: int| 0 <= i < t.len() implies {
        &&& (#[trigger] t[i]) < n2.len()
        &&& n2[t[i] as int].next == next_in(t, i)
        &&& n2[t[i] as int].prev == prev_in(t, i)
    } by {
        let a = if i < k { i } else { i + 1 };
        assert(t[i] == s[a]);
        assert(s[a] < nodes.len());
        if i < k - 1 {
            assert(s[a] != s[k - 1]);
            assert(s[a] != s[k + 1] || k + 1 >= s.len());
            if k + 1 < s.len() { assert(s[a] != s[k + 1]); }
            assert(t[i + 1] == s[i + 1]);
        } else if i == k - 1 {
            if k + 1 < s.len() { assert(s[a] != s[k + 1]); assert(t[i + 1] == s[k + 1]); }
            if i > 0 { assert(t[i - 1] == s[i - 1]); }
        } else if i == k {
            assert(s[a] == s[k + 1]);
            if k > 0 { assert(s[a] != s[k - 1]); assert(t[i - 1] == s[k - 1]); }
            if i + 1 < t.len() { assert(t[i + 1] == s[k + 2]); }
        } else {
            if k > 0 { assert(s[a] != s[k - 1]); }
            assert(s[a] != s[k + 1]);
            assert(t[i - 1] == s[a - 1]);
            if i + 1 < t.len() { assert(t[i + 1] == s[a + 1]); }
        }
    }
    if k == 0 {
        if t.len() > 0 { assert(t[0] == s[1]); }
    } else {
        assert(t[0] == s[0]);
    }
}

/// Linking `node`, which is not in the list, in at index `k` of a list:
/// it links back to the node before that place and forward to the node at
/// it, and these link to it.
proof fn lemma_insert_chain<T>(nodes: Seq<ListNode<T>>, first: Option<usize>, s: Seq<usize>, k: int, node: usize)
    requires
        chain_of(nodes, first, s),
        0 <= k <= s.len(),
        node < nodes.len(),
        !s.contains(node),
    ensures
        ({
            let p = prev_in(s, k);
            let nx = if k < s.len() { Some(s[k]) } else { None };
            chain_of(
                set_prev_of(set_next_of(set_prev(set_next(nodes, node, nx), node, p), p, Some(node)), nx, Some(node)),
                if k == 0 { Some(node) } else { first },
                s.insert(k, node),
            )
        }),
{
    let p = prev_in(s, k);
    let nx = if k < s.len() { Some(s[k]) } else { None };
    let n0 = set_prev(set_next(nodes, node, nx), node, p);
    let n1 = set_next_of(n0, p, Some(node));
    let n2 = set_prev_of(n1, nx, Some(node));
    let t = s.insert(k, node);
    assert forall|i: int| 0 <= i < s.len() implies s[i] != node by {
        assert(s.contains(s[i]));
    }
    assert forall|i: int, j: int| 0 <= i < t.len() && 0 <= j < t.len() && i != j implies t[i] != t[j] by {
        if i != k && j != k {
            let a = if i < k { i } else { i - 1 };
            let b = if j < k { j } else { j - 1 };
            assert(t[i] == s[a]);
            assert(t[j] == s[b]);
        }
    }
    assert forall|i: int| 0 <= i < t.len() implies {
        &&& (#[trigger] t[i]) < n2.len()
        &&& n2[t[i] as int].next == next_in(t, i)
        &&& n2[t[i] as int].prev == prev_in(t, i)
    } by {
        if i < k - 1 {
            assert(t[i] == s[i]);
            assert(s[i] != s[k - 1]);
            if k < s.len() { assert(s[i] != s[k]); }
            assert(t[i + 1] == s[i + 1]);
            if i > 0 { assert(t[i - 1] == s[i - 1]); }
        } else if i == k - 1 {
            assert(t[i] == s[k - 1]);
            if k < s.len() { assert(s[k - 1] != s[k]); }
            assert(t[i + 1] == node);
            if i > 0 { assert(t[i - 1] == s[i - 1]); }
        } else if i == k {
            assert(t[i] == node);
            if k > 0 { assert(t[i - 1] == s[k - 1]); }
            if k < s.len() { assert(t[i + 1] == s[k]); }
        } else if i == k + 1 {
            assert(t[i] == s[k]);
            if k > 0 { assert(s[k] != s[k - 1]); }
            assert(t[i - 1] == node);
            if i + 1 < t.len() { assert(t[i + 1] == s[k + 1]); }
        } else {
            assert(t[i] == s[i - 1]);
            if k > 0 { assert(s[i - 1] != s[k - 1]); }
            assert(s[i - 1] != s[k]);
            assert(t[i - 1] == s[i - 2]);
            if i + 1 < t.len() { assert(t[i + 1] == s[i]); }
        }
    }
    if k == 0 {
        assert(t[0] == node);
    } else {
        assert(t[0] == s[0]);
    }
}

/// A position in a list, walking from node to node.
pub struct ListIter {
    pub node: Option<usize>,
}

impl ListIter {
    /// Gives the current node and moves to the next one.
    pub fn next<T>(&mut self, nodes: &Vec<ListNode<T>>) -> (r: Option<usize>)
        requires
            old(self).node matches Some(i) ==> i < nodes@.len(),
        ensures
            r == old(self).node,
            final(self).node == match r {
                Some(i) => nodes@[i as int].next,
                None => None,
            },
    {
        match self.node {
            Some(i) => {
                self.node = nodes[i].next;
                Some(i)
            },
            None => None,
        }
    }
}

} // verus!
