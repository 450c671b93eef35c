//! A vector indexed by identifiers.
use vstd::prelude::*;

use crate::identifier::IdLike;

verus! {

/// A vector indexed by small identifiers instead of bare positions.
pub struct TypedVec<K, V> {
    inner: Vec<V>,
    phantom: std::marker::PhantomData<K>,
}

impl<K: IdLike, V> View for TypedVec<K, V> {
    type V = Seq<V>;

    /// The values, by position.
    closed spec fn view(&self) -> Seq<V> {
        self.inner@
    }
}

impl<K: IdLike, V> TypedVec<K, V> {
    /// An empty vector.
    pub fn new() -> (r: Self)
        ensures
            r@ == Seq::<V>::empty(),
    {
        TypedVec { inner: Vec::new(), phantom: std::marker::PhantomData }
    }

    /// The values, as a plain vector.
    pub fn as_vec(&self) -> (r: &Vec<V>)
        ensures
            r@ == self@,
    {
        &self.inner
    }

    /// The value at the position of `index`.
    pub fn get(&self, index: K) -> (r: Option<&V>)
        ensures
            r is Some == (index.pos() < self@.len()),
            r is Some ==> *r->0 == self@[index.pos() as int],
    {
        let pos = index.into_pos();
        if pos < self.inner.len() {
            Some(&self.inner[pos])
        } else {
            None
        }
    }

    /// The value at the position of `index`, to change in place.
    pub fn get_mut(&mut self, index: K) -> (r: Option<&mut V>)
        ensures
            r is Some == (index.pos() < old(self)@.len()),
            r is None ==> final(self)@ == old(self)@,
            r is Some ==> *r->0 == old(self)@[index.pos() as int] && final(self)@ == old(self)@.update(
                index.pos() as int,
                *final(r->0),
            ),
    {
        let pos = index.into_pos();
        if pos < self.inner.len() {
            Some(&mut self.inner[pos])
        } else {
            None
        }
    }

    /// Whether the position of `index` is within the vector.
    pub fn contains(&self, index: K) -> (r: bool)
        ensures
            r == (index.pos() < self@.len()),
    {
        index.into_pos() < self.inner.len()
    }

    /// Each value with the identifier of its position, in order.
    pub fn iter(&self) -> (r: Vec<(K, &V)>)
        ensures
            r@.len() == self@.len(),
            forall|i: int| 0 <= i < r@.len() ==> (#[trigger] r@[i]).0.pos() == i && *r@[i].1 == self@[i],
    {
        let mut out: Vec<(K, &V)> = Vec::new();
        let mut i: usize = 0;
        while i < self.inner.len()
            invariant
                i <= self@.len(),
                out@.len() == i,
                forall|k: int| 0 <= k < i ==> (#[trigger] out@[k]).0.pos() == k && *out@[k].1 == self@[k],
            decreases self@.len() - i,
        {
            out.push((K::from_pos(i), &self.inner[i]));
            i = i + 1;
        }
        out
    }

    /// Each value with the identifier of its position, in order.
    pub fn into_iter(self) -> (r: Vec<(K, V)>)
        ensures
            r@.len() == self@.len(),
            forall|i: int| 0 <= i < r@.len() ==> (#[trigger] r@[i]).0.pos() == i && r@[i].1 == self@[i],
    {
        let ghost v = self@;
        let mut values = self.inner;
        let mut out: Vec<(K, V)> = Vec::new();
        while values.len() > 0
            invariant
                values@.len() + out@.len() == v.len(),
                values@ == v.subrange(0, values@.len() as int),
                forall|k: int|
                    0 <= k < out@.len() ==> (#[trigger] out@[k]).0.pos() == v.len() - out@.len() + k
                        && out@[k].1 == v[v.len() - out@.len() + k],
            decreases values@.len(),
        {
            let ghost before = out@;
            let x = values.pop().unwrap();
            let at = values.len();
            out.insert(0, (K::from_pos(at), x));
            proof {
                assert(values@ =~= v.subrange(0, values@.len() as int));
                assert forall|k: int| 0 <= k < out@.len() implies (#[trigger] out@[k]).0.pos() == v.len() - out@.len() + k
                    && out@[k].1 == v[v.len() - out@.len() + k] by {
                    if k > 0 {
                        assert(out@[k] == before[k - 1]);
                    }
                }
            }
        }
        out
    }
}

impl<K: IdLike, V: Default> TypedVec<K, V> {
    /// Puts `value` at the position of `index`, first growing the vector with
    /// default values to reach it.
    pub fn insert(&mut self, index: K, value: V)
        requires
            index.pos() < usize::MAX,
        ensures
            final(self)@.len() == (if index.pos() < old(self)@.len() {
                old(self)@.len() as int
            } else {
                index.pos() + 1int
            }),
            final(self)@[index.pos() as int] == value,
            forall|i: int| 0 <= i < old(self)@.len() && i != index.pos() ==> final(self)@[i] == old(self)@[i],
    {
        let pos = index.into_pos();
        while self.inner.len() <= pos
            invariant
                old(self)@.len() <= self@.len(),
                pos < usize::MAX,
                self@.len() <= (if pos < old(self)@.len() {
                    old(self)@.len() as int
                } else {
                    pos + 1int
                }),
                forall|i: int| 0 <= i < old(self)@.len() ==> self@[i] == old(self)@[i],
            decreases pos + 1 - self@.len(),
        {
            self.inner.push(V::default());
        }
        self.inner.set(pos, value);
    }
}

} // verus!
