use runikraft::compat_list::list::{List, ListNode};
use runikraft::compat_list::slist::{Slist, SlistNode};
use runikraft::compat_list::stailq::{Stailq, StailqNode};

fn slist_walk(l: &Slist<char>, nodes: &Vec<SlistNode<char>>) -> Vec<char> {
    let mut out = Vec::new();
    let mut it = l.iter();
    while let Some(i) = it.next(nodes) {
        out.push(nodes[i].element);
    }
    out
}

#[test]
fn slist_nodes_link_in_front() {
    let mut nodes = vec![SlistNode::new('a'), SlistNode::new('b'), SlistNode::new('c')];
    let mut l = Slist::new();
    assert!(l.is_empty());
    l.push_front(&mut nodes, 2);
    l.push_front(&mut nodes, 0);
    assert_eq!(slist_walk(&l, &nodes), vec!['a', 'c']);
    SlistNode::insert_after(&mut nodes, 0, 1);
    assert_eq!(slist_walk(&l, &nodes), vec!['a', 'b', 'c']);
    assert!(nodes[2].is_tail());
    assert_eq!(SlistNode::remove_after(&mut nodes, 0), Some(1));
    assert_eq!(slist_walk(&l, &nodes), vec!['a', 'c']);
    assert_eq!(l.pop_front(&nodes), Some(0));
    assert_eq!(l.head(), Some(2));
    assert_eq!(l.pop_front(&nodes), Some(2));
    assert_eq!(l.pop_front(&nodes), None);
}

#[test]
fn list_nodes_link_both_ways() {
    let mut nodes = vec![ListNode::new(1), ListNode::new(2), ListNode::new(3)];
    let mut l = List::new();
    l.push_front(&mut nodes, 2);
    l.push_front(&mut nodes, 0);
    assert_eq!(nodes[2].prev, Some(0));
    assert!(nodes[0].is_head());
    ListNode::insert_after(&mut nodes, 0, 1);
    assert_eq!(nodes[0].next, Some(1));
    assert_eq!(nodes[1].prev, Some(0));
    assert_eq!(nodes[1].next, Some(2));
    assert_eq!(nodes[2].prev, Some(1));
    assert_eq!(ListNode::remove_before(&mut nodes, 1, &mut l), Some(0));
    assert_eq!(l.head(), Some(1));
    assert!(nodes[1].is_head());
    ListNode::remove(&mut nodes, 2, &mut l);
    assert!(nodes[1].is_tail());
    assert_eq!(l.pop_front(&mut nodes), Some(1));
    assert!(l.is_empty());
    nodes[1].set_alone();
    assert!(nodes[1].is_alone());
}

#[test]
fn list_insert_before_the_head_moves_the_head() {
    let mut nodes = vec![ListNode::new('x'), ListNode::new('y')];
    let mut l = List::new();
    l.push_front(&mut nodes, 1);
    ListNode::insert_before(&mut nodes, 1, 0, &mut l);
    assert_eq!(l.head(), Some(0));
    assert_eq!(nodes[0].next, Some(1));
    assert_eq!(nodes[1].prev, Some(0));
    let mut it = l.iter();
    assert_eq!(it.next(&nodes), Some(0));
    assert_eq!(it.next(&nodes), Some(1));
    assert_eq!(it.next(&nodes), None);
}

#[test]
fn stailq_nodes_keep_head_and_tail() {
    let mut nodes = vec![StailqNode::new(10), StailqNode::new(20), StailqNode::new(30)];
    let mut q = Stailq::new();
    q.push_back(&mut nodes, 0);
    q.push_back(&mut nodes, 2);
    assert_eq!(q.head(), Some(0));
    assert_eq!(q.tail(), Some(2));
    StailqNode::insert_after(&mut nodes, 2, 1, &mut q);
    assert_eq!(q.tail(), Some(1));
    assert_eq!(StailqNode::remove_after(&mut nodes, 2, &mut q), Some(1));
    assert_eq!(q.tail(), Some(2));
    assert_eq!(q.pop_front(&nodes), Some(0));
    assert_eq!(q.pop_front(&nodes), Some(2));
    assert_eq!(q.pop_front(&nodes), None);
    assert!(q.is_empty());
    q.push_front(&mut nodes, 1);
    assert_eq!(q.tail(), Some(1));
}

#[test]
fn list_remove_leaves_the_other_nodes_in_order() {
    let mut nodes = vec![ListNode::new('p'), ListNode::new('q'), ListNode::new('r'), ListNode::new('s')];
    let mut l = List::new();
    l.push_front(&mut nodes, 3);
    l.push_front(&mut nodes, 2);
    l.push_front(&mut nodes, 1);
    l.push_front(&mut nodes, 0);
    ListNode::remove(&mut nodes, 2, &mut l);
    assert_eq!(nodes[2].prev, Some(1));
    assert_eq!(nodes[2].next, Some(3));
    let mut it = l.iter();
    let mut seen = Vec::new();
    while let Some(i) = it.next(&nodes) {
        seen.push(nodes[i].element);
    }
    assert_eq!(seen, vec!['p', 'q', 's']);
    assert_eq!(nodes[3].prev, Some(1));
    ListNode::remove(&mut nodes, 0, &mut l);
    assert_eq!(l.head(), Some(1));
    assert_eq!(nodes[1].prev, None);
}
