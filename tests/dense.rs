use nicole::dense::map::DenseMap;
use nicole::dense::set::DenseSet;
use nicole::dense_hashmap::DenseHashMap;
use nicole::dense_hashset::DenseHashSet;
use nicole::id_set::IdSet as CopySet;
use nicole::idlike::map::IdMap;
use nicole::idlike::set::IdSet;
use nicole::typedvec::TypedVec;
use nicole::IdLike;

#[test]
fn dense_map_insert_replace_remove() {
    let mut m: DenseMap<usize, &str> = DenseMap::new();
    assert_eq!(m.insert(3, "a"), None);
    assert_eq!(m.insert(1, "b"), None);
    assert_eq!(m.insert(5, "c"), None);
    assert_eq!(m.insert(3, "d"), Some("a"));
    assert_eq!(m.get(&3), Some(&"d"));
    assert!(m.contains_key(&1));
    assert!(!m.contains_key(&2));
    assert_eq!(m.remove(&1), Some("b"));
    assert_eq!(m.remove(&1), None);
    assert_eq!(m.remove_entry(&5), Some((5, "c")));
    assert_eq!(m.iter().len(), 1);
    assert_eq!(m.keys(), vec![&3]);
    assert_eq!(m.values(), vec![&"d"]);
    *m.get_mut(&3).unwrap() = "e";
    assert_eq!(m.get(&3), Some(&"e"));
    assert_eq!(m.get(&100), None);
}

#[test]
fn dense_map_entry() {
    let mut m: DenseMap<usize, i32> = DenseMap::new();
    *m.entry(4).or_insert(1) += 10;
    assert_eq!(m.get(&4), Some(&11));
    *m.entry(4).or_insert(100) += 1;
    assert_eq!(m.get(&4), Some(&12));
    let v = m.entry(2).or_insert_with(|| 7);
    assert_eq!(*v, 7);
    assert_eq!(m.iter().len(), 2);
}

#[test]
fn dense_set_and_hash_variants() {
    let mut s: DenseSet<usize> = DenseSet::new();
    assert_eq!(s.insert(2), None);
    assert_eq!(s.insert(2), Some(2));
    assert_eq!(s.insert(0), None);
    assert!(s.contains(&0));
    assert_eq!(s.remove(&2), Some(2));
    assert_eq!(s.iter(), vec![&0]);

    let mut hm: DenseHashMap<usize, i32> = DenseHashMap::new();
    hm.insert(1, 10);
    hm.insert(0, 20);
    assert_eq!(hm.remove(&1), Some(10));
    assert_eq!(hm.get(&0), Some(&20));
    *hm.entry(6).or_insert(0) += 3;
    assert_eq!(hm.get(&6), Some(&3));

    let mut hs: DenseHashSet<usize> = DenseHashSet::new();
    hs.insert(4);
    hs.insert(1);
    assert!(hs.contains(&4));
    assert_eq!(hs.remove(&4), Some(4));
    assert_eq!(hs.iter().len(), 1);
}

#[test]
fn id_set_flags() {
    let mut s: IdSet<usize> = IdSet::new();
    assert_eq!(s.max(), usize::null());
    s.insert(5);
    s.insert(2);
    s.insert(9);
    s.remove(&9);
    assert!(s.contains(&5));
    assert!(!s.contains(&9));
    assert!(!s.contains(&100));
    assert_eq!(s.iter(), vec![2, 5]);
    assert_eq!(s.max(), 5);

    let mut c: CopySet<usize> = CopySet::new();
    c.insert(3);
    c.insert(1);
    assert_eq!(c.iter_copy(), vec![1, 3]);
    c.remove(&1);
    assert!(!c.contains(&1));
}

#[test]
fn id_map_slots() {
    let mut m: IdMap<usize, &str> = IdMap::new();
    assert_eq!(m.max_key(), usize::null());
    m.insert(4, "four");
    m.insert(1, "one");
    assert!(m.contains_key(&4));
    assert_eq!(m.get(&1), Some(&"one"));
    assert_eq!(m.keys(), vec![1, 4]);
    assert_eq!(m.max_key(), 4);
    *m.get_mut(&4).unwrap() = "FOUR";
    assert_eq!(m.iter(), vec![(1, &"one"), (4, &"FOUR")]);
    assert_eq!(m.remove(&1), Some("one"));
    assert_eq!(m.remove(&1), None);
    assert_eq!(m.into_iter(), vec![(4, "FOUR")]);
}

#[test]
fn typed_vec_positions() {
    let mut v: TypedVec<usize, i32> = TypedVec::new();
    v.insert(2, 7);
    assert_eq!(v.as_vec(), &vec![0, 0, 7]);
    assert!(v.contains(1));
    assert!(!v.contains(3));
    assert_eq!(v.get(2), Some(&7));
    *v.get_mut(0).unwrap() = 4;
    assert_eq!(v.iter(), vec![(0, &4), (1, &0), (2, &7)]);
    v.insert(1, 5);
    assert_eq!(v.into_iter(), vec![(0, 4), (1, 5), (2, 7)]);
}

#[test]
fn sets_from_and_into_vectors() {
    let mut s: IdSet<usize> = IdSet::from_iter(vec![4, 1, 4]);
    assert_eq!(s.iter(), vec![1, 4]);
    s.extend(vec![0, 7]);
    assert_eq!(s.into_iter(), vec![0, 1, 4, 7]);

    let mut c: CopySet<usize> = CopySet::from_iter(vec![2, 2]);
    c.extend(vec![5]);
    assert_eq!(c.into_iter(), vec![2, 5]);

    let mut d: DenseSet<usize> = DenseSet::from_iter(vec![3, 1, 3]);
    assert_eq!(d.iter().len(), 2);
    d.extend(vec![8]);
    let mut all = d.into_iter();
    all.sort();
    assert_eq!(all, vec![1, 3, 8]);

    let mut h: DenseHashSet<usize> = DenseHashSet::from_iter(vec![6]);
    h.extend(vec![6, 2]);
    let mut hall = h.into_iter();
    hall.sort();
    assert_eq!(hall, vec![2, 6]);

    let mut m: DenseMap<usize, i32> = DenseMap::new();
    m.insert(1, 10);
    m.insert(2, 20);
    m.remove(&1);
    assert_eq!(m.into_iter(), vec![(2, 20)]);
    let mut hm: DenseHashMap<usize, i32> = DenseHashMap::new();
    hm.insert(0, 1);
    assert_eq!(hm.into_iter(), vec![(0, 1)]);
}

#[test]
fn copies_and_defaults() {
    let mut m: DenseMap<usize, i32> = DenseMap::default();
    m.insert(1, 5);
    let c = m.clone();
    m.insert(1, 6);
    assert_eq!(c.get(&1), Some(&5));
    assert_eq!(m.get(&1), Some(&6));
    let d: DenseSet<usize> = DenseSet::default();
    assert!(!d.contains(&0));
}
