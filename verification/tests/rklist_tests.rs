use runikraft::rklist::slist::SList;
use runikraft::rklist::tailq::{Tailq, INVALID_POSITION};

fn tailq_of(v: &[i32]) -> Tailq<i32> {
    let mut q = Tailq::new();
    for x in v {
        q.push_back(*x).unwrap();
    }
    q
}

fn tailq_items(q: &Tailq<i32>) -> Vec<i32> {
    let mut out = Vec::new();
    let mut it = q.iter();
    while let Some(x) = it.next(q) {
        out.push(*x);
    }
    out
}

#[test]
fn tailq_push_and_pop_at_both_ends() {
    let mut q = Tailq::new();
    assert!(q.is_empty());
    q.push_back(2).unwrap();
    q.push_front(1).unwrap();
    q.push_back(3).unwrap();
    assert_eq!(q.len(), 3);
    assert_eq!(q.front(), Some(&1));
    assert_eq!(q.back(), Some(&3));
    assert_eq!(tailq_items(&q), vec![1, 2, 3]);
    assert_eq!(q.pop_back(), Some(3));
    assert_eq!(q.pop_front(), Some(1));
    assert_eq!(q.pop_front(), Some(2));
    assert_eq!(q.pop_front(), None);
    assert_eq!(q.pop_back(), None);
    assert!(q.is_empty());
}

#[test]
fn tailq_is_first_in_first_out() {
    let mut q = tailq_of(&[10, 20]);
    q.push_back(30).unwrap();
    assert_eq!(q.pop_front(), Some(10));
    assert_eq!(tailq_items(&q), vec![20, 30]);
}

#[test]
fn tailq_iterates_backwards() {
    let q = tailq_of(&[1, 2, 3, 4]);
    let mut it = q.iter_rev();
    let mut out = Vec::new();
    while let Some(x) = it.next(&q) {
        out.push(*x);
    }
    assert_eq!(out, vec![4, 3, 2, 1]);
}

#[test]
fn tailq_contains_and_clear() {
    let mut q = tailq_of(&[5, 6]);
    assert!(q.contains(&6));
    assert!(!q.contains(&7));
    q.clear();
    assert!(q.is_empty());
    assert_eq!(q.front(), None);
}

#[test]
fn tailq_insert_and_remove_around_a_position() {
    let mut q = tailq_of(&[1, 3]);
    let mut p = q.head_mut();
    q.insert_after(p, 2).unwrap();
    assert_eq!(tailq_items(&q), vec![1, 2, 3]);
    q.insert_before(p, 0).unwrap();
    assert_eq!(tailq_items(&q), vec![0, 1, 2, 3]);
    assert_eq!(q.remove_after(p), Some(2));
    assert_eq!(q.remove_before(p), Some(0));
    assert_eq!(tailq_items(&q), vec![1, 3]);
    p.next(&q).unwrap();
    assert_eq!(q.remove_after(p), None);
    let (x, at) = q.remove(p);
    assert_eq!(x, 3);
    assert_eq!(*q.get_mut(at), 1);
    assert_eq!(tailq_items(&q), vec![1]);
}

#[test]
fn tailq_empty_position_is_refused() {
    let mut q: Tailq<i32> = Tailq::new();
    let p = q.head_mut();
    assert!(p.is_null());
    assert_eq!(q.insert_after(p, 1), Err(INVALID_POSITION));
    assert_eq!(q.insert_before(p, 1), Err(INVALID_POSITION));
    assert!(q.is_empty());
}

#[test]
fn tailq_positions_walk_and_fall_off() {
    let q = tailq_of(&[1, 2, 3]);
    let mut p = q.head();
    assert!(p.is_head(&q));
    assert!(p.advance(&q, 2).is_ok());
    assert!(p.is_tail(&q));
    assert_eq!(*q.get(p), 3);
    assert!(p.advance(&q, -1).is_ok());
    assert_eq!(*q.get(p), 2);
    assert!(p.advance(&q, 2).is_ok());
    assert!(p.is_null());
    assert!(p.next(&q).is_err());
    let mut t = q.tail();
    assert!(t.advance(&q, 5).is_err());
    assert!(t.is_null());
}

#[test]
fn tailq_elements_change_in_place() {
    let mut q = tailq_of(&[1, 2]);
    *q.front_mut().unwrap() = 7;
    *q.back_mut().unwrap() = 8;
    assert_eq!(tailq_items(&q), vec![7, 8]);
    let mut it = q.iter_mut();
    while let Some(x) = it.next(&mut q) {
        *x += 1;
    }
    assert_eq!(tailq_items(&q), vec![8, 9]);
}

#[test]
fn slist_is_last_in_first_out() {
    let mut l = SList::new();
    l.push_front(1).unwrap();
    l.push_front(2).unwrap();
    l.push_front(3).unwrap();
    assert_eq!(l.len(), 3);
    assert_eq!(l.front(), Some(&3));
    assert!(l.contains(&1));
    assert_eq!(l.pop_front(), Some(3));
    assert_eq!(l.pop_front(), Some(2));
    assert_eq!(l.pop_front(), Some(1));
    assert_eq!(l.pop_front(), None);
}

#[test]
fn slist_insert_and_remove_after() {
    let mut l = SList::new();
    l.push_front(3).unwrap();
    l.push_front(1).unwrap();
    let p = l.head_mut();
    l.insert_after(p, 2).unwrap();
    let mut out = Vec::new();
    let mut it = l.iter();
    while let Some(x) = it.next(&l) {
        out.push(*x);
    }
    assert_eq!(out, vec![1, 2, 3]);
    assert_eq!(l.remove_after(p), Some(2));
    assert_eq!(l.len(), 2);
    let mut q = l.head_mut();
    assert!(q.advance(&l, 1).is_ok());
    assert!(q.is_tail(&l));
    assert_eq!(l.remove_after(q), None);
}

#[test]
fn tailq_walks_agree_with_len() {
    let mut q = tailq_of(&[7, 8, 9]);
    q.push_front(6).unwrap();
    assert_eq!(q.pop_back(), Some(9));
    let it = q.iter();
    let rit = q.iter_rev();
    assert_eq!(it.len(), q.len());
    assert_eq!(rit.len(), q.len());
    let forward = tailq_items(&q);
    let mut backward = Vec::new();
    let mut rit = q.iter_rev();
    while let Some(x) = rit.next(&q) {
        backward.push(*x);
        assert_eq!(rit.len(), q.len() - backward.len());
    }
    assert_eq!(forward.len(), q.len());
    let mut reversed = forward.clone();
    reversed.reverse();
    assert_eq!(backward, reversed);
    assert_eq!(forward, vec![6, 7, 8]);
}

#[test]
fn tailq_edits_around_a_moving_position() {
    let mut q = Tailq::new();
    for i in 0..10 {
        q.push_front(i).unwrap();
    }
    assert_eq!(tailq_items(&q), vec![9, 8, 7, 6, 5, 4, 3, 2, 1, 0]);
    let mut pos = q.head_mut();
    pos.next(&q).unwrap();
    q.insert_after(pos, 15).unwrap();
    q.insert_before(pos, 16).unwrap();
    pos.prev(&q).unwrap();
    pos.prev(&q).unwrap();
    assert!(pos.is_head(&q));
    q.insert_before(pos, -100).unwrap();
    assert_eq!(tailq_items(&q), vec![-100, 9, 16, 8, 15, 7, 6, 5, 4, 3, 2, 1, 0]);
    pos.advance(&q, 5).unwrap();
    q.remove_after(pos);
    q.remove_after(pos);
    pos.advance(&q, -5).unwrap();
    let (removed, p) = q.remove(pos);
    assert_eq!(removed, 9);
    pos = p;
    q.remove_before(pos);
    assert!(pos.is_head(&q));
    assert_eq!(tailq_items(&q), vec![16, 8, 15, 7, 6, 3, 2, 1, 0]);
    let mut it = q.iter();
    for _ in 1..q.len() {
        it.next(&q);
    }
    let mut back = Vec::new();
    while let Some(x) = it.prev(&q) {
        back.push(*x);
    }
    assert_eq!(back, vec![0, 1, 2, 3, 6, 7, 15, 8, 16]);
    let mut n = q.len();
    while !q.is_empty() {
        q.pop_front().unwrap();
        n -= 1;
        assert_eq!(q.len(), n);
    }
}
