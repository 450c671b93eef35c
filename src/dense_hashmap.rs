//! The dense map, keyed directly by identifiers.
use vstd::prelude::*;

use crate::dense::map::{DenseMap, Entry};
use crate::identifier::IdLike;

verus! {

/// A map keyed directly by small identifiers, kept densely.
#[derive(Clone, Default)]
pub struct DenseHashMap<K, V> {
    inner: DenseMap<K, V>,
}

impl<K: IdLike, V> View for DenseHashMap<K, V> {
    type V = Map<nat, (K, V)>;

    /// The entry of each key position present.
    closed spec fn view(&self) -> Map<nat, (K, V)> {
        self.inner@
    }
}

impl<K: IdLike, V> DenseHashMap<K, V> {
    pub closed spec fn wf(&self) -> bool {
        self.inner.wf()
    }

    /// The same map, as a map keyed by values with identifiers.
    pub closed spec fn as_dense(&self) -> DenseMap<K, V> {
        self.inner
    }

    /// The entries in the order they sit in.
    pub closed spec fn entries(&self) -> Seq<(K, V)> {
        self.inner.entries()
    }

    /// An empty map.
    pub fn new() -> (r: Self)
        ensures
            r.wf(),
            r@ == Map::<nat, (K, V)>::empty(),
    {
        DenseHashMap { inner: DenseMap::new() }
    }

    /// Whether an entry under the position of `key` is present.
    pub fn contains_key(&self, key: &K) -> (r: bool)
        requires
            self.wf(),
        ensures
            r == self@.contains_key(key.pos()),
    {
        self.inner.contains_key(key)
    }

    /// Removes the entry under the position of `key` and returns it.
    pub fn remove_entry(&mut self, key: &K) -> (r: Option<(K, V)>)
        requires
            old(self).wf(),
        ensures
            final(self).wf(),
            final(self)@ == old(self)@.remove(key.pos()),
            r == (if old(self)@.contains_key(key.pos()) {
                Some(old(self)@[key.pos()])
            } else {
                None
            }),
    {
        self.inner.remove_entry(key)
    }

    /// Removes the entry under the position of `key` and returns its value.
    pub fn remove(&mut self, key: &K) -> (r: Option<V>)
        requires
            old(self).wf(),
        ensures
            final(self).wf(),
            final(self)@ == old(self)@.remove(key.pos()),
            r == (if old(self)@.contains_key(key.pos()) {
                Some(old(self)@[key.pos()].1)
            } else {
                None
            }),
    {
        self.inner.remove(key)
    }

    /// Puts `value` under `key`, in place of the entry with the same
    /// position, whose value is returned.
    pub fn insert(&mut self, key: K, value: V) -> (r: Option<V>)
        requires
            old(self).wf(),
            key.pos() < usize::MAX,
        ensures
            final(self).wf(),
            final(self)@ == old(self)@.insert(key.pos(), (key, value)),
            r == (if old(self)@.contains_key(key.pos()) {
                Some(old(self)@[key.pos()].1)
            } else {
                None
            }),
    {
        self.inner.insert(key, value)
    }

    /// The entries, in the order they sit in.
    pub fn iter(&self) -> (r: &[(K, V)])
        ensures
            r@ == self.entries(),
    {
        self.inner.iter()
    }

    /// The entries, in the order they sit in, taken out of the map.
    pub fn into_iter(self) -> (r: Vec<(K, V)>)
        ensures
            r@ == self.entries(),
    {
        self.inner.into_iter()
    }

    /// The keys of the entries, in the order they sit in.
    pub fn keys(&self) -> (r: Vec<&K>)
        ensures
            r@.len() == self.entries().len(),
            forall|i: int| 0 <= i < r@.len() ==> *r@[i] == self.entries()[i].0,
    {
        self.inner.keys()
    }

    /// The values of the entries, in the order they sit in.
    pub fn values(&self) -> (r: Vec<&V>)
        ensures
            r@.len() == self.entries().len(),
            forall|i: int| 0 <= i < r@.len() ==> *r@[i] == self.entries()[i].1,
    {
        self.inner.values()
    }

    /// The place for `key`, to fill if it is empty.
    pub fn entry(&mut self, key: K) -> (r: Entry<'_, K, V>)
        ensures
            r.key == key,
            *r.parent == old(self).as_dense(),
            final(self).as_dense() == *final(r.parent),
    {
        self.inner.entry(key)
    }

    /// The value under the position of `key`.
    pub fn get(&self, key: &K) -> (r: Option<&V>)
        requires
            self.wf(),
        ensures
            r is Some == self@.contains_key(key.pos()),
            r is Some ==> *r->0 == self@[key.pos()].1,
    {
        self.inner.get(key)
    }

    /// The value under the position of `key`, to change in place.
    pub fn get_mut(&mut self, key: &K) -> (r: Option<&mut V>)
        requires
            old(self).wf(),
        ensures
            r is Some == old(self)@.contains_key(key.pos()),
            final(self).wf(),
            r is None ==> final(self)@ == old(self)@,
            r is Some ==> *r->0 == old(self)@[key.pos()].1 && final(self)@ == old(self)@.insert(
                key.pos(),
                (old(self)@[key.pos()].0, *final(r->0)),
            ),
    {
        self.inner.get_mut(key)
    }
}

} // verus!
