//! A flag set of identifiers that hands its members out by value.
use vstd::prelude::*;

use crate::identifier::IdLike;
use crate::idlike::set::IdSet as FlagSet;

verus! {

/// A set of small identifiers, kept as one flag per position, that hands
/// its members out by value.
pub struct IdSet<T> {
    set: FlagSet<T>,
}

impl<T: IdLike> View for IdSet<T> {
    type V = Set<nat>;

    /// The positions held.
    closed spec fn view(&self) -> Set<nat> {
        self.set@
    }
}

impl<T: IdLike> IdSet<T> {
    /// An empty set.
    pub fn new() -> (r: Self)
        ensures
            r@ == Set::<nat>::empty(),
    {
        IdSet { set: FlagSet::new() }
    }

    /// Whether the position of `value` is held.
    pub fn contains(&self, value: &T) -> (r: bool)
        ensures
            r == self@.contains(value.pos()),
    {
        self.set.contains(value)
    }

    /// Lets go of the position of `value`.
    pub fn remove(&mut self, value: &T)
        ensures
            final(self)@ == old(self)@.remove(value.pos()),
    {
        self.set.remove(value)
    }

    /// Holds the position of `value`.
    pub fn insert(&mut self, value: T)
        requires
            value.pos() < usize::MAX,
        ensures
            final(self)@ == old(self)@.insert(value.pos()),
    {
        self.set.insert(value)
    }

    /// The identifiers held, by increasing position.
    pub fn iter_copy(&self) -> (r: Vec<T>)
        ensures
            forall|i: int| 0 <= i < r@.len() ==> self@.contains(#[trigger] r@[i].pos()),
            forall|i: int, j: int| 0 <= i < j < r@.len() ==> r@[i].pos() < r@[j].pos(),
            forall|p: nat| self@.contains(p) ==> exists|i: int| 0 <= i < r@.len() && r@[i].pos() == p,
    {
        self.set.iter()
    }

    /// Holds the position of each of `items`.
    pub fn extend(&mut self, items: Vec<T>)
        requires
            forall|i: int| 0 <= i < items@.len() ==> (#[trigger] items@[i]).pos() < usize::MAX,
        ensures
            final(self)@ == old(self)@ + Set::new(|p: nat| exists|i: int| 0 <= i < items@.len() && items@[i].pos() == p),
    {
        self.set.extend(items)
    }

    /// A set holding the position of each of `items`.
    pub fn from_iter(items: Vec<T>) -> (r: Self)
        requires
            forall|i: int| 0 <= i < items@.len() ==> (#[trigger] items@[i]).pos() < usize::MAX,
        ensures
            r@ == Set::new(|p: nat| exists|i: int| 0 <= i < items@.len() && items@[i].pos() == p),
    {
        IdSet { set: FlagSet::from_iter(items) }
    }

    /// The identifiers held, by increasing position.
    pub fn into_iter(self) -> (r: Vec<T>)
        ensures
            forall|i: int| 0 <= i < r@.len() ==> self@.contains(#[trigger] r@[i].pos()),
            forall|i: int, j: int| 0 <= i < j < r@.len() ==> r@[i].pos() < r@[j].pos(),
            forall|p: nat| self@.contains(p) ==> exists|i: int| 0 <= i < r@.len() && r@[i].pos() == p,
    {
        self.set.into_iter()
    }
}

} // verus!
