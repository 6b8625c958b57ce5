use runikraft::list::list::List;
use runikraft::list::slist::SList;
use runikraft::list::stailq::STailq;

fn stailq_items(q: &STailq<u32>) -> Vec<u32> {
    let mut out = Vec::new();
    let mut it = q.iter();
    while let Some(x) = it.next(q) {
        out.push(*x);
    }
    out
}

#[test]
fn stailq_pushes_at_both_ends_and_pops_at_the_front() {
    let mut q = STailq::new();
    q.push_back(2).unwrap();
    q.push_front(1).unwrap();
    q.push_back(3).unwrap();
    assert_eq!(q.len(), 3);
    assert_eq!(q.front(), Some(&1));
    assert_eq!(q.back(), Some(&3));
    assert_eq!(stailq_items(&q), vec![1, 2, 3]);
    assert_eq!(q.pop_front(), Some(1));
    assert_eq!(q.pop_front(), Some(2));
    assert_eq!(q.back(), Some(&3));
    assert_eq!(q.pop_front(), Some(3));
    assert_eq!(q.pop_front(), None);
    assert_eq!(q.back(), None);
}

#[test]
fn stailq_insert_after_the_tail_moves_the_tail() {
    let mut q = STailq::new();
    q.push_back(1).unwrap();
    let t = q.tail_mut();
    q.insert_after(t, 2).unwrap();
    assert_eq!(q.back(), Some(&2));
    assert_eq!(q.remove_after(t), Some(2));
    assert_eq!(q.back(), Some(&1));
    assert_eq!(q.remove_after(t), None);
    q.clear();
    assert!(q.is_empty());
}

#[test]
fn stailq_position_advances() {
    let mut q = STailq::new();
    for x in [5u32, 6, 7] {
        q.push_back(x).unwrap();
    }
    let mut p = q.head();
    assert!(p.advance(&q, 2).is_ok());
    assert!(p.is_tail(&q));
    assert_eq!(*q.get(p), 7);
    assert!(p.next(&q).is_ok());
    assert!(p.is_null());
    assert!(p.next(&q).is_err());
}

#[test]
fn list_insert_and_remove_after() {
    let mut l = List::new();
    l.push_front(3u8).unwrap();
    l.push_front(1).unwrap();
    let p = l.head_mut();
    l.insert_after(p, 2).unwrap();
    let mut out = Vec::new();
    let mut it = l.iter();
    while let Some(x) = it.next(&l) {
        out.push(*x);
    }
    assert_eq!(out, vec![1, 2, 3]);
    assert!(l.contains(&2));
    assert_eq!(l.remove_after(p), Some(2));
    assert_eq!(l.pop_front(), Some(1));
    assert_eq!(l.pop_front(), Some(3));
    assert!(l.is_empty());
}

#[test]
fn list_iterator_goes_both_ways() {
    let mut l = List::new();
    for x in [3u8, 2, 1] {
        l.push_front(x).unwrap();
    }
    let mut it = l.iter();
    assert_eq!(it.len(), 3);
    assert_eq!(it.next(&l), Some(&1));
    assert_eq!(it.next(&l), Some(&2));
    assert_eq!(it.prev(&l), Some(&3));
}

#[test]
fn slist_iterator_inserts_and_removes() {
    let mut l = SList::new();
    l.push_front(30i64).unwrap();
    l.push_front(10).unwrap();
    let mut it = l.iter_mut();
    it.insert_after(&mut l, 20).unwrap();
    assert_eq!(it.len(), 3);
    assert_eq!(l.len(), 3);
    assert_eq!(it.remove_after(&mut l), Some(20));
    assert_eq!(l.front(), Some(&10));
    assert_eq!(l.pop_front(), Some(10));
    assert_eq!(l.pop_front(), Some(30));
    assert_eq!(l.pop_front(), None);
}

#[test]
fn slist_values_change_through_the_iterator() {
    let mut l = SList::new();
    l.push_front(1i64).unwrap();
    l.push_front(2).unwrap();
    let mut it = l.iter_mut();
    while let Some(x) = it.next(&mut l) {
        *x *= 10;
    }
    assert_eq!(l.pop_front(), Some(20));
    assert_eq!(l.pop_front(), Some(10));
}
