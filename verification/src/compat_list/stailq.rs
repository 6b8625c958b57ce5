//! A singly linked tail queue: a singly linked list that also knows its
//! last node.
use vstd::prelude::*;
use crate::chain::{first_of, last_of, next_in};

verus! {

/// A node: an element and the link to the next node.
pub struct StailqNode<T> {
    pub element: T,
    pub next: Option<usize>,
}

impl<T> StailqNode<T> {
    /// A node that links to nothing.
    pub fn new(element: T) -> (n: Self)
        ensures
            n.element == element,
            n.next is None,
    {
        StailqNode { next: None, element }
    }
}

/// `nodes` with the link of node `i` set to `next`.
pub open spec fn link<T>(nodes: Seq<StailqNode<T>>, i: usize, next: Option<usize>) -> Seq<StailqNode<T>> {
    nodes.update(i as int, StailqNode { element: nodes[i as int].element, next })
}

/// `s` lists, from first to last, the nodes of a queue that starts at
/// `first` and ends at `last`: distinct nodes of `nodes`, each linked to
/// the one after it, the last to nothing.
pub open spec fn queue_of<T>(nodes: Seq<StailqNode<T>>, first: Option<usize>, last: Option<usize>, s: Seq<usize>) -> bool {
    &&& s.no_duplicates()
    &&& first == first_of(s)
    &&& last == last_of(s)
    &&& forall|i: int| 0 <= i < s.len() ==> {
        &&& (#[trigger] s[i]) < nodes.len()
        &&& nodes[s[i] as int].next == next_in(s, i)
    }
}

/// A tail queue: the links to its first and its last node.
pub struct Stailq<T> {
    head: Option<usize>,
    tail: Option<usize>,
    nodes_of: core::marker::PhantomData<T>,
}

impl<T> Stailq<T> {
    /// The link to the first node.
    pub closed spec fn first(&self) -> Option<usize> {
        self.head
    }

    /// The link to the last node.
    pub closed spec fn last(&self) -> Option<usize> {
        self.tail
    }

    /// An empty queue.
    pub fn new() -> (q: Self)
        ensures
            q.first() is None,
            q.last() is None,
    {
        Self { head: None, tail: None, nodes_of: core::marker::PhantomData }
    }

    /// The queue has no node.
    pub fn is_empty(&self) -> (b: bool)
        ensures
            b == self.first() is None,
    {
        self.head.is_none()
    }

    /// The link to the first node.
    pub fn head(&self) -> (h: Option<usize>)
        ensures
            h == self.first(),
    {
        self.head
    }

    /// The link to the last node.
    pub fn tail(&self) -> (t: Option<usize>)
        ensures
            t == self.last(),
    {
        self.tail
    }

    fn set_tail(&mut self, t: Option<usize>)
        ensures
            final(self).last() == t,
            final(self).first() == old(self).first(),
    {
        self.tail = t;
    }

    /// Makes `node` the first node, linked to the former first one; in an
    /// empty queue it is the last node too.
    pub fn push_front(&mut self, nodes: &mut Vec<StailqNode<T>>, node: usize)
        requires
            node < old(nodes)@.len(),
            old(self).first() is None ==> old(self).last() is None,
        ensures
            final(self).first() == Some(node),
            final(self).last() == if old(self).first() is None { Some(node) } else { old(self).last() },
            final(nodes)@ == link(old(nodes)@, node, old(self).first()),
            forall|s: Seq<usize>|
                #[trigger] queue_of(old(nodes)@, old(self).first(), old(self).last(), s) && !s.contains(node)
                    ==> queue_of(final(nodes)@, final(self).first(), final(self).last(), seq![node] + s),
    {
        let ghost nodes0 = nodes@;
        let ghost first0 = self.first();
        let ghost last0 = self.last();
        if self.head.is_none() {
            self.tail = Some(node);
        }
        let head = self.head;
        nodes[node].next = head;
        self.head = Some(node);
        proof {
            assert forall|s: Seq<usize>|
                #[trigger] queue_of(nodes0, first0, last0, s) && !s.contains(node)
                    implies queue_of(nodes@, self.first(), self.last(), seq![node] + s) by {
                lemma_queue_insert(nodes0, first0, last0, s, 0, node);
                assert(s.insert(0, node) =~= seq![node] + s);
            }
        }
    }

    /// Takes the first node off; the queue then starts at the node it links
    /// to, and is empty when there is none.  The node keeps its link.
    pub fn pop_front(&mut self, nodes: &Vec<StailqNode<T>>) -> (r: Option<usize>)
        requires
            old(self).first() matches Some(h) ==> h < nodes@.len(),
        ensures
            r == old(self).first(),
            match r {
                Some(x) => {
                    &&& final(self).first() == nodes@[x as int].next
                    &&& final(self).last() == if nodes@[x as int].next is None { None } else { old(self).last() }
                },
                None => final(self).first() is None && final(self).last() == old(self).last(),
            },
            forall|s: Seq<usize>|
                #[trigger] queue_of(nodes@, old(self).first(), old(self).last(), s) ==> {
                    &&& (r is None <==> s.len() == 0)
                    &&& s.len() > 0 ==> queue_of(nodes@, final(self).first(), final(self).last(), s.drop_first())
                },
    {
        let ghost first0 = self.first();
        let ghost last0 = self.last();
        let r = match self.head {
            Some(x) => {
                self.head = nodes[x].next;
                if self.head.is_none() {
                    self.tail = None;
                }
                Some(x)
            },
            None => None,
        };
        proof {
            assert forall|s: Seq<usize>| #[trigger] queue_of(nodes@, first0, last0, s) && s.len() > 0
                implies queue_of(nodes@, self.first(), self.last(), s.drop_first()) by {
                lemma_queue_remove(nodes@, first0, last0, s, 0);
                assert(s.remove(0) =~= s.drop_first());
            }
        }
        r
    }

    /// Makes `node` the last node: it links to nothing and the former last
    /// node links to it; in an empty queue it is the first node too.
    pub fn push_back(&mut self, nodes: &mut Vec<StailqNode<T>>, node: usize)
        requires
            node < old(nodes)@.len(),
            old(self).last() matches Some(t) ==> t < old(nodes)@.len(),
        ensures
            final(self).last() == Some(node),
            final(self).first() == if old(self).last() is None { Some(node) } else { old(self).first() },
            final(nodes)@ == match old(self).last() {
                Some(t) => link(link(old(nodes)@, node, None), t, Some(node)),
                None => link(old(nodes)@, node, None),
            },
            forall|s: Seq<usize>|
                #[trigger] queue_of(old(nodes)@, old(self).first(), old(self).last(), s) && !s.contains(node)
                    ==> queue_of(final(nodes)@, final(self).first(), final(self).last(), s.push(node)),
    {
        let ghost nodes0 = nodes@;
        let ghost first0 = self.first();
        let ghost last0 = self.last();
        nodes[node].next = None;
        match self.tail {
            Some(t) => {
                nodes[t].next = Some(node);
                self.tail = Some(node);
            },
            None => {
                self.tail = Some(node);
                self.head = Some(node);
            },
        }
        proof {
            assert forall|s: Seq<usize>|
                #[trigger] queue_of(nodes0, first0, last0, s) && !s.contains(node)
                    implies queue_of(nodes@, self.first(), self.last(), s.push(node)) by {
                lemma_queue_insert(nodes0, first0, last0, s, s.len() as int, node);
                assert(s.insert(s.len() as int, node) =~= s.push(node));
            }
        }
    }

    /// An iterator from the first node.
    pub fn iter(&self) -> (it: StailqIter)
        ensures
            it.node == self.first(),
    {
        StailqIter { node: self.head }
    }

    /// Pushing a node at the back of an empty queue and popping it from the
    /// front gives it back and leaves the queue empty.
    pub proof fn lemma_push_back_pop_front(
        q0: &Self,
        q1: &Self,
        q2: &Self,
        nodes0: Seq<StailqNode<T>>,
        nodes1: Seq<StailqNode<T>>,
        node: usize,
        r: Option<usize>,
    )
        requires
            node < nodes0.len(),
            q0.first() is None,
            q0.last() is None,
            q1.last() == Some(node),
            q1.first() == Some(node),
            nodes1 == link(nodes0, node, None),
            r == q1.first(),
            q2.first() == nodes1[node as int].next,
            q2.last() == if nodes1[node as int].next is None { None } else { q1.last() },
        ensures
            r == Some(node),
            q2.first() is None,
            q2.last() is None,
    {
    }
}

impl<T> StailqNode<T> {
    /// Links `node` right after node `this`; when `this` was the last node,
    /// `node` becomes the last node of `owner`.
    pub fn insert_after(nodes: &mut Vec<StailqNode<T>>, this: usize, node: usize, owner: &mut Stailq<T>)
        requires
            this < old(nodes)@.len(),
            node < old(nodes)@.len(),
            this != node,
        ensures
            final(nodes)@ == link(link(old(nodes)@, node, old(nodes)@[this as int].next), this, Some(node)),
            final(owner).first() == old(owner).first(),
            final(owner).last() == if old(nodes)@[this as int].next is None { Some(node) } else { old(owner).last() },
            forall|s: Seq<usize>|
                #[trigger] queue_of(old(nodes)@, old(owner).first(), old(owner).last(), s) && s.contains(this) && !s.contains(node)
                    ==> queue_of(final(nodes)@, final(owner).first(), final(owner).last(), s.insert(s.index_of(this) + 1, node)),
    {
        let ghost nodes0 = nodes@;
        let ghost first0 = owner.first();
        let ghost last0 = owner.last();
        if nodes[this].next.is_none() {
            owner.set_tail(Some(node));
        }
        let nx = nodes[this].next;
        nodes[node].next = nx;
        nodes[this].next = Some(node);
        proof {
            assert forall|s: Seq<usize>|
                #[trigger] queue_of(nodes0, first0, last0, s) && s.contains(this) && !s.contains(node)
                    implies queue_of(nodes@, owner.first(), owner.last(), s.insert(s.index_of(this) + 1, node)) by {
                let k = s.index_of(this);
                lemma_queue_insert(nodes0, first0, last0, s, k + 1, node);
            }
        }
    }

    /// Unlinks the node after node `this` and gives it; it keeps its link.
    /// When it was the last node, `this` becomes the last node of `owner`.
    pub fn remove_after(nodes: &mut Vec<StailqNode<T>>, this: usize, owner: &mut Stailq<T>) -> (r: Option<usize>)
        requires
            this < old(nodes)@.len(),
            old(nodes)@[this as int].next matches Some(x) ==> x < old(nodes)@.len(),
        ensures
            r == old(nodes)@[this as int].next,
            final(owner).first() == old(owner).first(),
            match r {
                Some(x) => {
                    &&& final(nodes)@ == link(old(nodes)@, this, old(nodes)@[x as int].next)
                    &&& final(owner).last() == if old(nodes)@[x as int].next is None { Some(this) } else { old(owner).last() }
                },
                None => final(nodes)@ == old(nodes)@ && final(owner).last() == old(owner).last(),
            },
            forall|s: Seq<usize>|
                #[trigger] queue_of(old(nodes)@, old(owner).first(), old(owner).last(), s) && s.contains(this) ==> {
                    let k = s.index_of(this);
                    &&& r == next_in(s, k)
                    &&& queue_of(final(nodes)@, final(owner).first(), final(owner).last(), if k + 1 < s.len() { s.remove(k + 1) } else { s })
                },
    {
        let ghost nodes0 = nodes@;
        let ghost first0 = owner.first();
        let ghost last0 = owner.last();
        let r = match nodes[this].next {
            Some(x) => {
                let nn = nodes[x].next;
                nodes[this].next = nn;
                if nn.is_none() {
                    owner.set_tail(Some(this));
                }
                Some(x)
            },
            None => None,
        };
        proof {
            assert forall|s: Seq<usize>|
                #[trigger] queue_of(nodes0, first0, last0, s) && s.contains(this) implies {
                    let k = s.index_of(this);
                    &&& r == next_in(s, k)
                    &&& queue_of(nodes@, owner.first(), owner.last(), if k + 1 < s.len() { s.remove(k + 1) } else { s })
                } by {
                let k = s.index_of(this);
                if k + 1 < s.len() {
                    lemma_queue_remove(nodes0, first0, last0, s, k + 1);
                }
            }
        }
        r
    }

    /// The node links to nothing.
    pub fn is_tail(&self) -> (b: bool)
        ensures
            b == self.next is None,
    {
        self.next.is_none()
    }
}

/// Linking `node`, which is not in the queue, in at index `k`: it links to
/// the node at that place and the node before it links to it.
proof fn lemma_queue_insert<T>(nodes: Seq<StailqNode<T>>, first: Option<usize>, last: Option<usize>, s: Seq<usize>, k: int, node: usize)
    requires
        queue_of(nodes, first, last, s),
        0 <= k <= s.len(),
        node < nodes.len(),
        !s.contains(node),
    ensures
        ({
            let nx = if k < s.len() { Some(s[k]) } else { None };
            let n1 = link(nodes, node, nx);
            queue_of(
                if k > 0 { link(n1, s[k - 1], Some(node)) } else { n1 },
                if k == 0 { Some(node) } else { first },
                if k == s.len() { Some(node) } else { last },
                s.insert(k, node),
            )
        }),
{
    let nx = if k < s.len() { Some(s[k]) } else { None };
    let n1 = link(nodes, node, nx);
    let n2 = if k > 0 { link(n1, s[k - 1], Some(node)) } else { n1 };
    let t = s.insert(k, node);
    assert forall|i: int| 0 <= i < s.len() implies s[i] != node by {
        assert(s.contains(s[i]));
    }
    assert forall|i: int, j: int| 0 <= i < t.len() && 0 <= j < t.len() && i != j implies t[i] != t[j] by {
        if i != k && j != k {
            let a = if i < k { i } else { i - 1 };
            let b = if j < k { j } else { j - 1 };
            assert(t[i] == s[a]);
            assert(t[j] == s[b]);
        }
    }
    assert forall|i: int| 0 <= i < t.len() implies {
        &&& (#[trigger] t[i]) < n2.len()
        &&& n2[t[i] as int].next == next_in(t, i)
    } by {
        if i < k - 1 {
            assert(t[i] == s[i]);
            assert(s[i] != s[k - 1]);
            assert(t[i + 1] == s[i + 1]);
        } else if i == k - 1 {
            assert(t[i] == s[k - 1]);
            assert(t[i + 1] == node);
        } else if i == k {
            assert(t[i] == node);
            if k < s.len() { assert(t[i + 1] == s[k]); }
        } else {
            assert(t[i] == s[i - 1]);
            if k > 0 { assert(s[i - 1] != s[k - 1]); }
            if i + 1 < t.len() { assert(t[i + 1] == s[i]); }
        }
    }
    if k == 0 {
        assert(t[0] == node);
    } else {
        assert(t[0] == s[0]);
    }
    if k == s.len() {
        assert(t[t.len() - 1] == node);
    } else {
        assert(t[t.len() - 1] == s[s.len() - 1]);
    }
}

/// Unlinking the node at index `k` of a queue: the node before it, if any,
/// links to the node after it.
proof fn lemma_queue_remove<T>(nodes: Seq<StailqNode<T>>, first: Option<usize>, last: Option<usize>, s: Seq<usize>, k: int)
    requires
        queue_of(nodes, first, last, s),
        0 <= k < s.len(),
    ensures
        ({
            let nx = next_in(s, k);
            queue_of(
                if k > 0 { link(nodes, s[k - 1], nx) } else { nodes },
                if k == 0 { nx } else { first },
                if k == s.len() - 1 { if k > 0 { Some(s[k - 1]) } else { None } } else { last },
                s.remove(k),
            )
        }),
{
    let nx = next_in(s, k);
    let n2 = if k > 0 { link(nodes, s[k - 1], nx) } else { nodes };
    let t = s.remove(k);
    assert forall|i: int, j: int| 0 <= i < t.len() && 0 <= j < t.len() && i != j implies t[i] != t[j] by {
        let a = if i < k { i } else { i + 1 };
        let b = if j < k { j } else { j + 1 };
        assert(t[i] == s[a]);
        assert(t[j] == s[b]);
    }
    assert forall|i: int| 0 <= i < t.len() implies {
        &&& (#[trigger] t[i]) < n2.len()
        &&& n2[t[i] as int].next == next_in(t, i)
    } by {
        let a = if i < k { i } else { i + 1 };
        assert(t[i] == s[a]);
        assert(s[a] < nodes.len());
        if i < k - 1 {
            assert(s[a] != s[k - 1]);
            assert(t[i + 1] == s[i + 1]);
        } else if i == k - 1 {
            if k + 1 < s.len() { assert(t[i + 1] == s[k + 1]); }
        } else {
            if k > 0 { assert(s[a] != s[k - 1]); }
            if i + 1 < t.len() { assert(t[i + 1] == s[a + 1]); }
        }
    }
    if t.len() > 0 {
        if k == 0 { assert(t[0] == s[1]); } else { assert(t[0] == s[0]); }
        if k == s.len() - 1 { assert(t[t.len() - 1] == s[k - 1]); } else { assert(t[t.len() - 1] == s[s.len() - 1]); }
    }
}

/// A position in a queue, walking from node to node.
pub struct StailqIter {
    pub node: Option<usize>,
}

impl StailqIter {
    /// Gives the current node and moves to the one it links to.
    pub fn next<T>(&mut self, nodes: &Vec<StailqNode<T>>) -> (r: Option<usize>)
        requires
            old(self).node matches Some(i) ==> i < nodes@.len(),
        ensures
            r == old(self).node,
            final(self).node == match r {
                Some(i) => nodes@[i as int].next,
                None => None,
            },
    {
        match self.node {
            Some(i) => {
                self.node = nodes[i].next;
                Some(i)
            },
            None => None,
        }
    }
}

} // verus!
