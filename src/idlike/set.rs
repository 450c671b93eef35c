//! A set with one flag per identifier position.
use vstd::prelude::*;

use crate::identifier::IdLike;

verus! {

/// A set of small identifiers, kept as one flag per position.
pub struct IdSet<T> {
    set: Vec<bool>,
    phantom: std::marker::PhantomData<T>,
}

impl<T: IdLike> View for IdSet<T> {
    type V = Set<nat>;

    /// The positions held.
    closed spec fn view(&self) -> Set<nat> {
        Set::new(|p: nat| p < self.set@.len() && self.set@[p as int])
    }
}

impl<T: IdLike> IdSet<T> {
    /// The flags, one per position from zero.
    pub closed spec fn flags(&self) -> Seq<bool> {
        self.set@
    }

    /// An empty set.
    pub fn new() -> (r: Self)
        ensures
            r@ == Set::<nat>::empty(),
    {
        let r = IdSet { set: Vec::new(), phantom: std::marker::PhantomData };
        assert(r@ =~= Set::<nat>::empty());
        r
    }

    /// Whether the position of `value` is held.
    pub fn contains(&self, value: &T) -> (r: bool)
        ensures
            r == self@.contains(value.pos()),
    {
        let pos = value.into_pos();
        pos < self.set.len() && self.set[pos]
    }

    /// Lets go of the position of `value`.
    pub fn remove(&mut self, value: &T)
        ensures
            final(self)@ == old(self)@.remove(value.pos()),
    {
        let pos = value.into_pos();
        if pos < self.set.len() {
            self.set.set(pos, false);
        }
        assert(self@ =~= old(self)@.remove(value.pos()));
    }

    /// Holds the position of `value`.
    pub fn insert(&mut self, value: T)
        requires
            value.pos() < usize::MAX,
        ensures
            final(self)@ == old(self)@.insert(value.pos()),
    {
        let pos = value.into_pos();
        while self.set.len() <= pos
            invariant
                self@ == old(self)@,
                pos < usize::MAX,
            decreases pos + 1 - self.set@.len(),
        {
            let ghost before = self@;
            self.set.push(false);
            assert(self@ =~= before);
        }
        self.set.set(pos, true);
        assert(self@ =~= old(self)@.insert(value.pos()));
    }

    /// The identifiers held, by increasing position.
    pub fn iter(&self) -> (r: Vec<T>)
        ensures
            forall|i: int| 0 <= i < r@.len() ==> self@.contains(#[trigger] r@[i].pos()),
            forall|i: int, j: int| 0 <= i < j < r@.len() ==> r@[i].pos() < r@[j].pos(),
            forall|p: nat| self@.contains(p) ==> exists|i: int| 0 <= i < r@.len() && r@[i].pos() == p,
    {
        let mut out: Vec<T> = Vec::new();
        let mut i: usize = 0;
        while i < self.set.len()
            invariant
                i <= self.set@.len(),
                forall|k: int| 0 <= k < out@.len() ==> self@.contains(#[trigger] out@[k].pos()) && out@[k].pos() < i,
                forall|k: int, j: int| 0 <= k < j < out@.len() ==> out@[k].pos() < out@[j].pos(),
                forall|p: nat| p < i && self@.contains(p) ==> exists|k: int| 0 <= k < out@.len() && out@[k].pos() == p,
            decreases self.set@.len() - i,
        {
            if self.set[i] {
                let ghost before = out@;
                out.push(T::from_pos(i));
                proof {
                    assert forall|p: nat| p < i + 1 && self@.contains(p) implies exists|k: int|
                        0 <= k < out@.len() && out@[k].pos() == p by {
                        if p == i {
                            assert(out@[out@.len() - 1].pos() == p);
                        } else {
                            let k = choose|k: int| 0 <= k < before.len() && before[k].pos() == p;
                            assert(out@[k] == before[k]);
                        }
                    }
                }
            }
            i = i + 1;
        }
        out
    }

    /// The identifier of the highest position held, or `null()` when none is.
    pub fn max(&self) -> (r: T)
        ensures
            self@ == Set::<nat>::empty() ==> r.pos() == T::spec_null().pos(),
            self@ != Set::<nat>::empty() ==> self@.contains(r.pos()) && forall|p: nat|
                self@.contains(p) ==> p <= r.pos(),
    {
        let mut i: usize = self.set.len();
        while i > 0
            invariant
                i <= self.set@.len(),
                forall|p: nat| i <= p < self.set@.len() ==> !self.set@[p as int],
            decreases i,
        {
            if self.set[i - 1] {
                assert(self@.contains((i - 1) as nat));
                assert(self@ != Set::<nat>::empty());
                return T::from_pos(i - 1);
            }
            i = i - 1;
        }
        assert(self@ =~= Set::<nat>::empty());
        T::null()
    }

    /// Holds the position of each of `items`.
    pub fn extend(&mut self, items: Vec<T>)
        requires
            forall|i: int| 0 <= i < items@.len() ==> (#[trigger] items@[i]).pos() < usize::MAX,
        ensures
            final(self)@ == old(self)@ + Set::new(|p: nat| exists|i: int| 0 <= i < items@.len() && items@[i].pos() == p),
    {
        let ghost v = items@;
        let n = items.len();
        let mut rest = crate::veclist::deque_of(items);
        let mut k: usize = 0;
        while rest.len() > 0
            invariant
                n == v.len(),
                k <= v.len(),
                rest@ == v.subrange(k as int, v.len() as int),
                forall|i: int| 0 <= i < v.len() ==> (#[trigger] v[i]).pos() < usize::MAX,
                self@ == old(self)@ + Set::new(|p: nat| exists|i: int| 0 <= i < k && v[i].pos() == p),
            decreases rest@.len(),
        {
            let x = rest.pop_front().unwrap();
            proof {
                assert(x == v[k as int]);
            }
            self.insert(x);
            proof {
                assert(self@ =~= old(self)@ + Set::new(|p: nat| exists|i: int| 0 <= i < k + 1 && v[i].pos() == p)) by {
                    assert forall|p: nat| (exists|i: int| 0 <= i < k + 1 && v[i].pos() == p) implies
                        self@.contains(p) by {
                        let i = choose|i: int| 0 <= i < k + 1 && v[i].pos() == p;
                        if i < k {
                            assert(exists|j: int| 0 <= j < k && v[j].pos() == p);
                        }
                    }
                }
            }
            k = k + 1;
        }
        assert(self@ =~= old(self)@ + Set::new(|p: nat| exists|i: int| 0 <= i < v.len() && v[i].pos() == p));
    }

    /// A set holding the position of each of `items`.
    pub fn from_iter(items: Vec<T>) -> (r: Self)
        requires
            forall|i: int| 0 <= i < items@.len() ==> (#[trigger] items@[i]).pos() < usize::MAX,
        ensures
            r@ == Set::new(|p: nat| exists|i: int| 0 <= i < items@.len() && items@[i].pos() == p),
    {
        let ghost v = items@;
        let mut r = IdSet::new();
        r.extend(items);
        assert(r@ =~= Set::new(|p: nat| exists|i: int| 0 <= i < v.len() && v[i].pos() == p));
        r
    }

    /// The identifiers held, by increasing position.
    pub fn into_iter(self) -> (r: Vec<T>)
        ensures
            forall|i: int| 0 <= i < r@.len() ==> self@.contains(#[trigger] r@[i].pos()),
            forall|i: int, j: int| 0 <= i < j < r@.len() ==> r@[i].pos() < r@[j].pos(),
            forall|p: nat| self@.contains(p) ==> exists|i: int| 0 <= i < r@.len() && r@[i].pos() == p,
    {
        self.iter()
    }
}

} // verus!
