use nicole::arraylist::LinkedList;

fn items(l: &LinkedList<i32>) -> Vec<i32> {
    l.iter().into_iter().cloned().collect()
}

#[test]
fn array_list_basic_operations() {
    let mut l: LinkedList<i32> = LinkedList::new();
    assert_eq!(l.len(), 0);
    l.push_back(2);
    l.push_front(1);
    l.push_back(3);
    assert_eq!(items(&l), vec![1, 2, 3]);
    let mut i = l.begin();
    assert_eq!(*l.get(i), 1);
    l.increment(&mut i);
    assert!(l.valid(&i));
    l.insert(i, 9);
    assert_eq!(items(&l), vec![1, 9, 2, 3]);
    assert_eq!(l.remove(i), 2);
    assert_eq!(items(&l), vec![1, 9, 3]);
    let last = l.end();
    *l.get_mut(last) = 30;
    assert_eq!(l.pop_back(), 30);
    assert_eq!(l.pop_front(), 1);
    assert_eq!(l.len(), 1);
}

#[test]
fn array_list_ranges_and_capacity() {
    let mut l: LinkedList<i32> = LinkedList::with_capacity(4);
    assert!(l.capacity() >= 4);
    for x in 0..6 {
        l.push_back(x);
    }
    let mut start = l.begin();
    l.increment(&mut start);
    let mut stop = start;
    l.increment(&mut stop);
    l.increment(&mut stop);
    assert_eq!(l.remove_between(start, stop), vec![1, 2]);
    assert_eq!(items(&l), vec![0, 3, 4, 5]);
    l.shrink_to_fit();
    l.reserve(3);
    l.reserve_exact(3);
    assert_eq!(items(&l), vec![0, 3, 4, 5]);
    let mut back = l.end();
    l.decrement(&mut back);
    assert_eq!(*l.get(back), 4);
    let mut rest = l.into_iter();
    assert_eq!(rest.next(), Some(0));
    let mut l2: LinkedList<i32> = LinkedList::new();
    l2.push_back(7);
    assert_eq!(l2.clear(), vec![7]);
    assert_eq!(l2.len(), 0);
    assert!(!l2.valid(&l2.begin()));
}
