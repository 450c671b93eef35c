use nicole::linkedlist::LinkedList;
use nicole::veclist::VecList;
use nicole::{BackwardIndex, BidirectionalIndex, ForwardIndex, IndexExt};
use std::collections::VecDeque;

#[test]
fn vec_indices_are_positions() {
    let v = vec![1, 2, 3];
    assert_eq!(ForwardIndex::begin(&v), 0);
    let mut i = 0usize;
    ForwardIndex::increment(&v, &mut i);
    assert_eq!(i, 1);
    v.move_forward(&mut i, 2);
    assert_eq!(i, 3);
    assert!(!IndexExt::valid(&v, &i));
    assert!(IndexExt::valid(&v, &2));
    assert_eq!(BackwardIndex::end(&v), 2);
    v.advance(&mut i, -3);
    assert_eq!(i, 0);
    v.advance(&mut i, 2);
    assert_eq!(i, 2);
    let mut j = 0usize;
    BackwardIndex::decrement(&v, &mut j);
    assert_eq!(j, usize::MAX);
    assert_eq!(ForwardIndex::next(&v, 4), 5);
    assert_eq!(BackwardIndex::prev(&v, 4), 3);
    let mut k = 5usize;
    v.move_backward(&mut k, 7);
    assert_eq!(k, usize::MAX - 1);
    let empty: Vec<i32> = Vec::new();
    assert_eq!(BackwardIndex::end(&empty), usize::MAX);
}

#[test]
fn vecdeque_indices_are_positions() {
    let mut d = VecDeque::new();
    d.push_back(1);
    d.push_back(2);
    assert_eq!(ForwardIndex::begin(&d), 0);
    assert_eq!(BackwardIndex::end(&d), 1);
    let mut i = 0usize;
    d.move_forward(&mut i, 2);
    assert!(!IndexExt::valid(&d, &i));
    d.advance(&mut i, -1);
    assert!(IndexExt::valid(&d, &i));
    assert_eq!(i, 1);
}

#[test]
fn lists_walk_through_the_protocol() {
    let mut l = LinkedList::new();
    for x in [1, 2, 3, 4] {
        l.push_back(x);
    }
    let mut i = ForwardIndex::begin(&l);
    l.advance(&mut i, 2);
    assert_eq!(*l.get(i), 3);
    l.advance(&mut i, -1);
    assert_eq!(*l.get(i), 2);
    let j = ForwardIndex::next(&l, i);
    assert_eq!(*l.get(j), 3);
    let k = BackwardIndex::prev(&l, i);
    assert_eq!(*l.get(k), 1);
    assert!(IndexExt::valid(&l, &k));

    let mut v = VecList::new();
    for x in [5, 6, 7] {
        v.push_back(x);
    }
    let mut w = ForwardIndex::begin(&v);
    v.move_forward(&mut w, 3);
    assert_eq!(*v.get(w), 7);
    v.move_backward(&mut w, 1);
    assert_eq!(*v.get(w), 6);
}
