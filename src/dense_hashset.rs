//! The dense set, of identifiers themselves.
use vstd::prelude::*;

use crate::dense::set::{DenseSet, insert_all};
use crate::identifier::IdLike;

verus! {

/// A set of small identifiers, kept densely.
#[derive(Clone, Default)]
pub struct DenseHashSet<T> {
    inner: DenseSet<T>,
}

impl<T: IdLike> View for DenseHashSet<T> {
    type V = Map<nat, T>;

    /// The identifier held at each position present.
    closed spec fn view(&self) -> Map<nat, T> {
        self.inner@
    }
}

impl<T: IdLike> DenseHashSet<T> {
    pub closed spec fn wf(&self) -> bool {
        self.inner.wf()
    }

    /// An empty set.
    pub fn new() -> (r: Self)
        ensures
            r.wf(),
            r@ == Map::<nat, T>::empty(),
    {
        DenseHashSet { inner: DenseSet::new() }
    }

    /// Whether an identifier with the position of `value` is held.
    pub fn contains(&self, value: &T) -> (r: bool)
        requires
            self.wf(),
        ensures
            r == self@.contains_key(value.pos()),
    {
        self.inner.contains(value)
    }

    /// Removes the identifier with the position of `value` and returns it.
    pub fn remove(&mut self, value: &T) -> (r: Option<T>)
        requires
            old(self).wf(),
        ensures
            final(self).wf(),
            final(self)@ == old(self)@.remove(value.pos()),
            r == (if old(self)@.contains_key(value.pos()) {
                Some(old(self)@[value.pos()])
            } else {
                None
            }),
    {
        self.inner.remove(value)
    }

    /// Holds `value`, in place of the one with the same position, which is
    /// returned.
    pub fn insert(&mut self, value: T) -> (r: Option<T>)
        requires
            old(self).wf(),
            value.pos() < usize::MAX,
        ensures
            final(self).wf(),
            final(self)@ == old(self)@.insert(value.pos(), value),
            r == (if old(self)@.contains_key(value.pos()) {
                Some(old(self)@[value.pos()])
            } else {
                None
            }),
    {
        self.inner.insert(value)
    }

    /// The identifiers, in the order they sit in.
    pub fn iter(&self) -> (r: Vec<&T>)
        requires
            self.wf(),
        ensures
            r@.len() == self@.len(),
            forall|i: int| 0 <= i < r@.len() ==> self@.contains_key((*r@[i]).pos()) && self@[(*r@[i]).pos()] == *r@[i],
    {
        self.inner.iter()
    }

    /// Holds each of `items`, in order, each in place of the one with the
    /// same position.
    pub fn extend(&mut self, items: Vec<T>)
        requires
            old(self).wf(),
            forall|i: int| 0 <= i < items@.len() ==> (#[trigger] items@[i]).pos() < usize::MAX,
        ensures
            final(self).wf(),
            final(self)@ == insert_all(old(self)@, items@),
    {
        self.inner.extend(items)
    }

    /// A set holding each of `items`.
    pub fn from_iter(items: Vec<T>) -> (r: Self)
        requires
            forall|i: int| 0 <= i < items@.len() ==> (#[trigger] items@[i]).pos() < usize::MAX,
        ensures
            r.wf(),
            r@ == insert_all(Map::<nat, T>::empty(), items@),
    {
        DenseHashSet { inner: DenseSet::from_iter(items) }
    }

    /// The identifiers, in the order they sit in.
    pub fn into_iter(self) -> (r: Vec<T>)
        requires
            self.wf(),
        ensures
            r@.len() == self@.len(),
            forall|i: int| 0 <= i < r@.len() ==> self@.contains_key(r@[i].pos()) && self@[r@[i].pos()] == r@[i],
    {
        self.inner.into_iter()
    }
}

} // verus!
