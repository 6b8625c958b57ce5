//! A singly linked list.
use vstd::prelude::*;

verus! {

/// A node: an element and the link to the next node.
pub struct SlistNode<T> {
    pub element: T,
    pub next: Option<usize>,
}

impl<T> SlistNode<T> {
    /// A node that links to nothing.
    pub fn new(element: T) -> (n: Self)
        ensures
            n.element == element,
            n.next is None,
    {
        SlistNode { next: None, element }
    }
}

/// Node `n` with its link set to `next`.
pub open spec fn relinked<T>(n: SlistNode<T>, next: Option<usize>) -> SlistNode<T> {
    SlistNode { element: n.element, next }
}

/// The nodes met from `start` on, following at most `fuel` links; `None`
/// when a link leaves `nodes` or the walk does not end within the fuel.
pub open spec fn walk<T>(nodes: Seq<SlistNode<T>>, start: Option<usize>, fuel: nat) -> Option<Seq<usize>>
    decreases fuel,
{
    match start {
        None => Some(Seq::empty()),
        Some(i) => if fuel == 0 || i >= nodes.len() {
            None
        } else {
            match walk(nodes, nodes[i as int].next, (fuel - 1) as nat) {
                Some(s) => Some(seq![i] + s),
                None => None,
            }
        },
    }
}

/// A singly linked list: the link to its first node.
pub struct Slist<T> {
    head: Option<usize>,
    nodes_of: core::marker::PhantomData<T>,
}

impl<T> Slist<T> {
    /// The link to the first node.
    pub closed spec fn first(&self) -> Option<usize> {
        self.head
    }

    /// The nodes of the list in `nodes`, from the first on.
    pub open spec fn items(&self, nodes: Seq<SlistNode<T>>) -> Option<Seq<usize>> {
        walk(nodes, self.first(), nodes.len())
    }

    /// An empty list.
    pub fn new() -> (l: Self)
        ensures
            l.first() is None,
    {
        Self { head: None, nodes_of: core::marker::PhantomData }
    }

    /// The list has no node.
    pub fn is_empty(&self) -> (b: bool)
        ensures
            b == self.first() is None,
    {
        self.head.is_none()
    }

    /// The link to the first node.
    pub fn head(&self) -> (h: Option<usize>)
        ensures
            h == self.first(),
    {
        self.head
    }

    /// Makes `node` the first node, linked to the former first one.
    pub fn push_front(&mut self, nodes: &mut Vec<SlistNode<T>>, node: usize)
        requires
            node < old(nodes)@.len(),
        ensures
            final(self).first() == Some(node),
            final(nodes)@ == old(nodes)@.update(node as int, relinked(old(nodes)@[node as int], old(self).first())),
    {
        let head = self.head;
        nodes[node].next = head;
        self.head = Some(node);
    }

    /// Takes the first node off; the list then starts at the node it links
    /// to.  The node itself keeps its link.
    pub fn pop_front(&mut self, nodes: &Vec<SlistNode<T>>) -> (r: Option<usize>)
        requires
            old(self).first() matches Some(h) ==> h < nodes@.len(),
        ensures
            r == old(self).first(),
            final(self).first() == match old(self).first() {
                Some(h) => nodes@[h as int].next,
                None => None,
            },
    {
        match self.head {
            Some(x) => {
                self.head = nodes[x].next;
                Some(x)
            },
            None => None,
        }
    }

    /// An iterator from the first node.
    pub fn iter(&self) -> (it: SlistIter)
        ensures
            it.node == self.first(),
    {
        SlistIter { node: self.head }
    }

    /// Pushing a node that is not on a well-formed list in front of it
    /// gives a list of that node followed by the former nodes.
    pub proof fn lemma_push_front_items(l0: &Self, l1: &Self, nodes0: Seq<SlistNode<T>>, nodes1: Seq<SlistNode<T>>, node: usize)
        requires
            node < nodes0.len(),
            l0.items(nodes0) is Some,
            !l0.items(nodes0)->0.contains(node),
            l0.items(nodes0)->0.no_duplicates(),
            l1.first() == Some(node),
            nodes1 == nodes0.update(node as int, relinked(nodes0[node as int], l0.first())),
        ensures
            l1.items(nodes1) == Some(seq![node] + l0.items(nodes0)->0),
    {
        let s = l0.items(nodes0)->0;
        lemma_walk_frame(nodes0, nodes1, l0.first(), nodes0.len(), node);
        lemma_walk_inside(nodes0, l0.first(), nodes0.len());
        lemma_pigeon(s, nodes0.len() as int, node);
        lemma_walk_exact(nodes1, l0.first(), nodes0.len());
        lemma_walk_fuel(nodes1, l0.first(), s.len(), (nodes1.len() - 1) as nat);
    }

    /// Popping the node just pushed gives it back and restores the first
    /// node.
    pub proof fn lemma_push_pop(l0: &Self, l1: &Self, l2: &Self, nodes0: Seq<SlistNode<T>>, nodes1: Seq<SlistNode<T>>, node: usize, r: Option<usize>)
        requires
            node < nodes0.len(),
            l1.first() == Some(node),
            nodes1 == nodes0.update(node as int, relinked(nodes0[node as int], l0.first())),
            r == l1.first(),
            l2.first() == nodes1[node as int].next,
        ensures
            r == Some(node),
            l2.first() == l0.first(),
    {
    }
}

/// A walk does not see a change of a node that it does not meet.
proof fn lemma_walk_frame<T>(nodes0: Seq<SlistNode<T>>, nodes1: Seq<SlistNode<T>>, start: Option<usize>, fuel: nat, k: usize)
    requires
        nodes1.len() == nodes0.len(),
        k < nodes0.len(),
        forall|i: int| 0 <= i < nodes0.len() && i != k ==> nodes1[i] == nodes0[i],
        walk(nodes0, start, fuel) is Some,
        !walk(nodes0, start, fuel)->0.contains(k),
    ensures
        walk(nodes1, start, fuel) == walk(nodes0, start, fuel),
    decreases fuel,
{
    if let Some(i) = start {
        let s = walk(nodes0, nodes0[i as int].next, (fuel - 1) as nat)->0;
        assert(walk(nodes0, start, fuel)->0 == seq![i] + s);
        assert(walk(nodes0, start, fuel)->0[0] == i);
        assert forall|x: usize| s.contains(x) implies walk(nodes0, start, fuel)->0.contains(x) by {
            let j = s.index_of(x);
            assert((seq![i] + s)[j + 1] == x);
        }
        lemma_walk_frame(nodes0, nodes1, nodes0[i as int].next, (fuel - 1) as nat, k);
    }
}

/// A walk that ends goes on ending with more fuel, with the same nodes.
proof fn lemma_walk_fuel<T>(nodes: Seq<SlistNode<T>>, start: Option<usize>, fuel: nat, more: nat)
    requires
        walk(nodes, start, fuel) is Some,
        fuel <= more,
    ensures
        walk(nodes, start, more) == walk(nodes, start, fuel),
    decreases fuel,
{
    if let Some(i) = start {
        lemma_walk_fuel(nodes, nodes[i as int].next, (fuel - 1) as nat, (more - 1) as nat);
    }
}

/// A walk that ends needs no more fuel than the nodes it meets.
proof fn lemma_walk_exact<T>(nodes: Seq<SlistNode<T>>, start: Option<usize>, fuel: nat)
    requires
        walk(nodes, start, fuel) is Some,
    ensures
        walk(nodes, start, walk(nodes, start, fuel)->0.len()) == walk(nodes, start, fuel),
    decreases fuel,
{
    if let Some(i) = start {
        lemma_walk_exact(nodes, nodes[i as int].next, (fuel - 1) as nat);
    }
}

/// The nodes a walk meets are within `nodes`.
proof fn lemma_walk_inside<T>(nodes: Seq<SlistNode<T>>, start: Option<usize>, fuel: nat)
    requires
        walk(nodes, start, fuel) is Some,
    ensures
        forall|j: int| 0 <= j < walk(nodes, start, fuel)->0.len() ==> (#[trigger] walk(nodes, start, fuel)->0[j] as int) < nodes.len(),
    decreases fuel,
{
    if let Some(i) = start {
        lemma_walk_inside(nodes, nodes[i as int].next, (fuel - 1) as nat);
        let s = walk(nodes, nodes[i as int].next, (fuel - 1) as nat)->0;
        assert forall|j: int| 0 <= j < walk(nodes, start, fuel)->0.len() implies (#[trigger] walk(nodes, start, fuel)->0[j] as int) < nodes.len() by {
            if j > 0 {
                assert(walk(nodes, start, fuel)->0[j] == s[j - 1]);
            }
        }
    }
}

/// Distinct indices below `n`, none of them `k < n`, are fewer than `n`.
proof fn lemma_pigeon(s: Seq<usize>, n: int, k: usize)
    requires
        s.no_duplicates(),
        forall|j: int| 0 <= j < s.len() ==> (#[trigger] s[j] as int) < n,
        (k as int) < n,
        !s.contains(k),
    ensures
        s.len() < n,
{
    let f = |x: usize| x as int;
    assert(vstd::relations::injective(f));
    s.lemma_no_duplicates_injective(f);
    let t = s.map_values(f);
    t.unique_seq_to_set();
    let r = vstd::set_lib::set_int_range(0, n).remove(k as int);
    vstd::set_lib::lemma_int_range(0, n);
    assert forall|x: int| t.to_set().contains(x) implies r.contains(x) by {
        let j = t.index_of(x);
        assert(t[j] == s[j] as int);
        if x == k as int {
            assert(s[j] == k);
        }
    }
    assert(t.to_set().subset_of(r));
    vstd::set_lib::lemma_len_subset(t.to_set(), r);
}

impl<T> SlistNode<T> {
    /// Links `node` right after node `this`.
    pub fn insert_after(nodes: &mut Vec<SlistNode<T>>, this: usize, node: usize)
        requires
            this < old(nodes)@.len(),
            node < old(nodes)@.len(),
            this != node,
        ensures
            final(nodes)@ == old(nodes)@.update(node as int, relinked(old(nodes)@[node as int], old(nodes)@[this as int].next)).update(
                this as int,
                relinked(old(nodes)@[this as int], Some(node)),
            ),
    {
        let next = nodes[this].next;
        nodes[node].next = next;
        nodes[this].next = Some(node);
    }

    /// Unlinks the node after node `this` and gives it; that node keeps its
    /// link.
    pub fn remove_after(nodes: &mut Vec<SlistNode<T>>, this: usize) -> (r: Option<usize>)
        requires
            this < old(nodes)@.len(),
            old(nodes)@[this as int].next matches Some(x) ==> x < old(nodes)@.len(),
        ensures
            r == old(nodes)@[this as int].next,
            final(nodes)@ == match r {
                Some(x) => old(nodes)@.update(this as int, relinked(old(nodes)@[this as int], old(nodes)@[x as int].next)),
                None => old(nodes)@,
            },
    {
        match nodes[this].next {
            Some(x) => {
                let nn = nodes[x].next;
                nodes[this].next = nn;
                Some(x)
            },
            None => None,
        }
    }

    /// The node links to nothing.
    pub fn is_tail(&self) -> (b: bool)
        ensures
            b == self.next is None,
    {
        self.next.is_none()
    }
}

/// A position in a list, walking from node to node.
pub struct SlistIter {
    pub node: Option<usize>,
}

impl SlistIter {
    /// Gives the current node and moves to the one it links to.
    pub fn next<T>(&mut self, nodes: &Vec<SlistNode<T>>) -> (r: Option<usize>)
        requires
            old(self).node matches Some(i) ==> i < nodes@.len(),
        ensures
            r == old(self).node,
            final(self).node == match r {
                Some(i) => nodes@[i as int].next,
                None => None,
            },
    {
        match self.node {
            Some(i) => {
                self.node = nodes[i].next;
                Some(i)
            },
            None => None,
        }
    }
}

} // verus!
