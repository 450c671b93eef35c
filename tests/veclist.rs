use nicole::arraylist::baselist::BaseList;
use nicole::veclist::{VecList, VecListIndex};

fn items(l: &VecList<i32>) -> Vec<i32> {
    let mut it = l.iter();
    let mut out = Vec::new();
    while let Some(x) = it.next() {
        out.push(*x);
    }
    out
}

fn nth(l: &VecList<i32>, n: usize) -> VecListIndex {
    let mut idx = l.begin();
    for _ in 0..=n {
        l.increment(&mut idx);
    }
    idx
}

#[test]
fn veclist_push_pop_insert_remove() {
    let mut l = VecList::new();
    l.push_back(2);
    l.push_front(1);
    l.push_back(3);
    assert_eq!(items(&l), vec![1, 2, 3]);
    assert_eq!(l.len(), 3);
    let two = nth(&l, 1);
    assert_eq!(*l.get(two), 2);
    assert_eq!(l.remove(two), 2);
    assert_eq!(items(&l), vec![1, 3]);
    let three = nth(&l, 1);
    l.insert(three, 9);
    assert_eq!(items(&l), vec![1, 9, 3]);
    assert_eq!(l.pop_back(), 3);
    assert_eq!(l.pop_front(), 1);
    assert_eq!(items(&l), vec![9]);
    l.clear();
    assert_eq!(l.len(), 0);
    l.push_back(5);
    assert_eq!(items(&l), vec![5]);
}

#[test]
fn veclist_indices_survive_other_changes() {
    let mut l = VecList::new();
    for i in 0..4 {
        l.push_back(i);
    }
    let last = nth(&l, 3);
    let first = nth(&l, 0);
    l.remove(first);
    l.push_front(10);
    assert_eq!(*l.get(last), 3);
    *l.get_mut(last) = 30;
    assert_eq!(items(&l), vec![10, 1, 2, 30]);
}

#[test]
fn veclist_drain_and_gc() {
    let mut l = VecList::new();
    for i in 0..6 {
        l.push_back(i);
    }
    let start = nth(&l, 1);
    let stop = nth(&l, 4);
    let mut d = l.drain(start, stop);
    let mut drained = Vec::new();
    while let Some(x) = d.next() {
        drained.push(x);
    }
    assert_eq!(drained, vec![1, 2, 3]);
    assert_eq!(items(&l), vec![0, 4, 5]);
    l.gc();
    assert_eq!(items(&l), vec![0, 4, 5]);
    let mut rest = l.into_iter();
    assert_eq!(rest.next(), Some(0));
    assert_eq!(rest.next(), Some(4));
    assert_eq!(rest.next(), Some(5));
    assert_eq!(rest.next(), None);
}

#[test]
fn veclist_traversal_and_capacity() {
    let mut l = VecList::with_capacity(8);
    assert!(l.capacity() >= 8);
    l.push_back(1);
    let mut idx = l.end();
    l.decrement(&mut idx);
    assert_eq!(*l.get(idx), 1);
    l.decrement(&mut idx);
    assert_eq!(idx, l.begin());
    l.decrement(&mut idx);
    assert!(!l.valid(&idx));
    l.reserve(10);
    l.reserve_exact(10);
    assert!(l.capacity() >= 11);
    let v = VecList::from_vec(vec![4, 5]);
    assert_eq!(items(&v), vec![4, 5]);
}

#[test]
fn baselist_brackets_its_elements() {
    let mut b = BaseList::new(-1, 100);
    assert_eq!(b.len(), 2);
    b.push_back(1);
    b.push_back(2);
    b.push_front(0);
    let mut walk = b.iter();
    let mut seen = Vec::new();
    while let Some(x) = walk.next() {
        seen.push(*x);
    }
    assert_eq!(seen, vec![-1, 0, 1, 2, 100]);
    assert_eq!(b.len(), 5);
    let mut idx = b.begin();
    assert_eq!(*b.get(idx), -1);
    b.increment(&mut idx);
    b.increment(&mut idx);
    assert_eq!(b.remove(idx), 1);
    assert_eq!(b.pop_back(), 2);
    assert_eq!(b.pop_front(), 0);
    assert_eq!(b.len(), 2);
    b.push_back(7);
    b.push_back(8);
    let removed = b.clear();
    assert_eq!(removed, vec![7, 8]);
    *b.get_mut(b.end()) = 50;
    let mut rest = b.into_iter();
    assert_eq!(rest.next(), Some(-1));
    assert_eq!(rest.next(), Some(50));
    assert_eq!(rest.next(), None);
}

#[test]
fn baselist_remove_between() {
    let mut b = BaseList::with_capacity(0, 9, 10);
    for i in 1..6 {
        b.push_back(i);
    }
    let mut start = b.begin();
    b.increment(&mut start);
    b.increment(&mut start);
    let mut stop = start;
    b.increment(&mut stop);
    b.increment(&mut stop);
    assert_eq!(b.remove_between(start, stop), vec![2, 3]);
    let end = b.end();
    b.insert(end, 6);
    b.shrink_to_fit();
    let mut walk = b.iter();
    let mut seen = Vec::new();
    while let Some(x) = walk.next() {
        seen.push(*x);
    }
    assert_eq!(seen, vec![0, 1, 4, 5, 6, 9]);
    assert!(b.capacity() >= b.len());
}

#[test]
fn veclist_copy_is_independent() {
    let mut l = VecList::new();
    l.push_back(1);
    let c = l.clone();
    l.push_back(2);
    assert_eq!(items(&c), vec![1]);
    assert_eq!(items(&l), vec![1, 2]);
}
