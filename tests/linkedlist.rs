use nicole::linkedlist::{IndexError, LinkedList, LinkedListIndex};

fn contents(l: &LinkedList<i32>) -> Vec<i32> {
    l.iter().into_iter().cloned().collect()
}

fn index_at(l: &LinkedList<i32>, pos: usize) -> LinkedListIndex {
    let mut idx = l.begin();
    for _ in 0..pos {
        l.increment(&mut idx);
    }
    idx
}

#[test]
fn push_remove_insert_scenario() {
    let mut l = LinkedList::new();
    l.push_back(1);
    l.push_back(2);
    l.push_back(3);
    assert_eq!(contents(&l), vec![1, 2, 3]);
    let two = index_at(&l, 1);
    let three = index_at(&l, 2);
    let (x, next) = l.remove(two);
    assert_eq!(x, 2);
    assert_eq!(next, three);
    assert_eq!(contents(&l), vec![1, 3]);
    l.insert(three, 99);
    assert_eq!(contents(&l), vec![1, 99, 3]);
}

#[test]
fn len_counts_live_elements() {
    let mut l = LinkedList::new();
    assert_eq!(l.len(), 0);
    l.push_back(1);
    l.push_front(0);
    l.push_back(2);
    assert_eq!(l.len(), 3);
    let idx = index_at(&l, 1);
    l.remove(idx);
    assert_eq!(l.len(), 2);
    let end = index_at(&l, 2);
    l.insert(end, 7);
    assert_eq!(l.len(), 3);
    assert_eq!(contents(&l), vec![0, 2, 7]);
}

#[test]
fn inserted_index_keeps_its_element() {
    let mut l = LinkedList::new();
    l.push_back(1);
    l.push_back(2);
    let at = index_at(&l, 1);
    let x = l.insert(at, 42);
    assert_eq!(*l.get(x), 42);
    l.push_front(0);
    l.push_back(3);
    let one = index_at(&l, 1);
    l.remove(one);
    assert!(l.valid(&x));
    assert_eq!(*l.get(x), 42);
    assert_eq!(contents(&l), vec![0, 42, 2, 3]);
}

#[test]
fn removal_keeps_other_indices() {
    let mut l = LinkedList::new();
    for i in 0..5 {
        l.push_back(i);
    }
    let idx: Vec<LinkedListIndex> = (0..5).map(|p| index_at(&l, p)).collect();
    l.remove(idx[2]);
    for (p, i) in idx.iter().enumerate() {
        if p == 2 {
            assert!(!l.valid(i));
        } else {
            assert!(l.valid(i));
            assert_eq!(*l.get(*i), p as i32);
        }
    }
}

#[test]
fn stale_index_is_refused_after_reuse() {
    let mut l = LinkedList::new();
    l.push_back(1);
    l.push_back(2);
    l.push_back(3);
    let middle = index_at(&l, 1);
    l.remove(middle);
    l.push_back(4);
    assert_eq!(l.try_validate_index(&middle), Err(IndexError::ElemTagMismatch));
    assert!(!l.valid(&middle));
    assert_eq!(contents(&l), vec![1, 3, 4]);
}

#[test]
fn merge_splices_and_keeps_indices() {
    let mut a = LinkedList::new();
    for i in [1, 2, 3] {
        a.push_back(i);
    }
    let mut b = LinkedList::new();
    for i in [10, 20] {
        b.push_back(i);
    }
    let a_two = index_at(&a, 1);
    let a_three = index_at(&a, 2);
    let b_twenty = index_at(&b, 1);
    a.merge(&mut b, a_two);
    assert_eq!(contents(&a), vec![1, 10, 20, 2, 3]);
    assert_eq!(a.len(), 5);
    assert_eq!(b.len(), 0);
    assert_eq!(*a.get(a_two), 2);
    assert_eq!(*a.get(a_three), 3);
    assert!(a.valid(&b_twenty));
    assert_eq!(*a.get(b_twenty), 20);
    b.push_back(5);
    assert_eq!(contents(&b), vec![5]);
}

#[test]
fn merge_at_end_appends() {
    let mut a = LinkedList::new();
    a.push_back(1);
    let mut b = LinkedList::new();
    b.push_back(2);
    b.push_back(3);
    let end = index_at(&a, 1);
    a.merge(&mut b, end);
    assert_eq!(contents(&a), vec![1, 2, 3]);
}

#[test]
fn split_off_partitions_and_invalidates() {
    let mut l = LinkedList::new();
    for i in [1, 2, 3, 4] {
        l.push_back(i);
    }
    let first = index_at(&l, 0);
    let third = index_at(&l, 2);
    let r = l.split_off(third);
    assert_eq!(contents(&l), vec![1, 2]);
    assert_eq!(contents(&r), vec![3, 4]);
    assert_eq!(l.len() + r.len(), 4);
    assert_eq!(l.try_validate_index(&first), Err(IndexError::ListTagMismatch));
    assert_eq!(r.try_validate_index(&third), Err(IndexError::ListTagMismatch));
}

#[test]
fn gc_keeps_elements_and_invalidates_indices() {
    let mut l = LinkedList::new();
    for i in [1, 2, 3] {
        l.push_back(i);
    }
    let idx = index_at(&l, 0);
    let second = index_at(&l, 1);
    l.remove(second);
    l.gc();
    assert_eq!(contents(&l), vec![1, 3]);
    assert_eq!(l.try_validate_index(&idx), Err(IndexError::ListTagMismatch));
    assert_eq!(l.slot_count(), 4);
}

#[test]
fn index_from_another_list_is_refused() {
    let mut a = LinkedList::new();
    a.push_back(1);
    let mut b = LinkedList::new();
    b.push_back(1);
    let ia = a.begin();
    assert_eq!(b.try_validate_index(&ia), Err(IndexError::ListTagMismatch));
}

#[test]
fn traversal_stops_at_the_ends() {
    let mut l = LinkedList::new();
    l.push_back(1);
    l.push_back(2);
    let mut idx = l.begin();
    assert_eq!(*l.get(idx), 1);
    l.increment(&mut idx);
    l.increment(&mut idx);
    assert_eq!(l.try_validate_index(&idx), Err(IndexError::OutOfBounds));
    let past = idx;
    l.increment(&mut idx);
    assert_eq!(idx, past);
    let mut back = l.end();
    assert_eq!(*l.get(back), 2);
    l.decrement(&mut back);
    assert_eq!(*l.get(back), 1);
    l.decrement(&mut back);
    assert_eq!(l.try_validate_index(&back), Err(IndexError::OutOfBounds));
    let empty: LinkedList<i32> = LinkedList::new();
    assert_eq!(empty.try_validate_index(&empty.begin()), Err(IndexError::OutOfBounds));
}

#[test]
fn get_mut_changes_in_place() {
    let mut l = LinkedList::new();
    l.push_back(1);
    l.push_back(2);
    let idx = index_at(&l, 1);
    *l.get_mut(idx) = 20;
    assert_eq!(contents(&l), vec![1, 20]);
}

#[test]
fn from_vec_keeps_order() {
    let l = LinkedList::from_vec(vec![3, 1, 2]);
    assert_eq!(contents(&l), vec![3, 1, 2]);
    assert_eq!(l.len(), 3);
}
