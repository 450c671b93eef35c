//! A map with one optional value per identifier position.
use vstd::prelude::*;

use crate::identifier::IdLike;

verus! {

/// A map keyed by small identifiers, kept as one optional value per position.
pub struct IdMap<K, V> {
    set: Vec<Option<V>>,
    phantom: std::marker::PhantomData<K>,
}

impl<K: IdLike, V> View for IdMap<K, V> {
    type V = Map<nat, V>;

    /// The value at each position held.
    closed spec fn view(&self) -> Map<nat, V> {
        Map::new(
            |p: nat| p < self.set@.len() && self.set@[p as int] is Some,
            |p: nat| self.set@[p as int]->0,
        )
    }
}

impl<K: IdLike, V> IdMap<K, V> {
    /// An empty map.
    pub fn new() -> (r: Self)
        ensures
            r@ == Map::<nat, V>::empty(),
    {
        let r = IdMap { set: Vec::new(), phantom: std::marker::PhantomData };
        assert(r@ =~= Map::<nat, V>::empty());
        r
    }

    /// Whether a value is held at the position of `key`.
    pub fn contains_key(&self, key: &K) -> (r: bool)
        ensures
            r == self@.contains_key(key.pos()),
    {
        let pos = key.into_pos();
        pos < self.set.len() && self.set[pos].is_some()
    }

    /// Removes the value at the position of `key` and returns it.
    pub fn remove(&mut self, key: &K) -> (r: Option<V>)
        ensures
            final(self)@ == old(self)@.remove(key.pos()),
            r == (if old(self)@.contains_key(key.pos()) {
                Some(old(self)@[key.pos()])
            } else {
                None
            }),
    {
        let pos = key.into_pos();
        let mut ret = None;
        if pos < self.set.len() {
            ret = self.set[pos].take();
        }
        assert(self@ =~= old(self)@.remove(key.pos()));
        ret
    }

    /// Puts `value` at the position of `key`.
    pub fn insert(&mut self, key: K, value: V)
        requires
            key.pos() < usize::MAX,
        ensures
            final(self)@ == old(self)@.insert(key.pos(), value),
    {
        let pos = key.into_pos();
        while self.set.len() <= pos
            invariant
                self@ == old(self)@,
                pos < usize::MAX,
            decreases pos + 1 - self.set@.len(),
        {
            let ghost before = self@;
            self.set.push(None);
            assert(self@ =~= before);
        }
        self.set.set(pos, Some(value));
        assert(self@ =~= old(self)@.insert(key.pos(), value));
    }

    /// The keys held, by increasing position.
    pub fn keys(&self) -> (r: Vec<K>)
        ensures
            forall|i: int| 0 <= i < r@.len() ==> self@.contains_key(#[trigger] r@[i].pos()),
            forall|i: int, j: int| 0 <= i < j < r@.len() ==> r@[i].pos() < r@[j].pos(),
            forall|p: nat| self@.contains_key(p) ==> exists|i: int| 0 <= i < r@.len() && r@[i].pos() == p,
    {
        let mut out: Vec<K> = Vec::new();
        let mut i: usize = 0;
        while i < self.set.len()
            invariant
                i <= self.set@.len(),
                forall|k: int| 0 <= k < out@.len() ==> self@.contains_key(#[trigger] out@[k].pos()) && out@[k].pos() < i,
                forall|k: int, j: int| 0 <= k < j < out@.len() ==> out@[k].pos() < out@[j].pos(),
                forall|p: nat| p < i && self@.contains_key(p) ==> exists|k: int| 0 <= k < out@.len() && out@[k].pos() == p,
            decreases self.set@.len() - i,
        {
            if self.set[i].is_some() {
                let ghost before = out@;
                out.push(K::from_pos(i));
                proof {
                    assert forall|p: nat| p < i + 1 && self@.contains_key(p) implies exists|k: int|
                        0 <= k < out@.len() && out@[k].pos() == p by {
                        if p == i {
                            assert(out@[out@.len() - 1].pos() == p);
                        } else {
                            let k = choose|k: int| 0 <= k < before.len() && before[k].pos() == p;
                            assert(out@[k] == before[k]);
                        }
                    }
                }
            }
            i = i + 1;
        }
        out
    }

    /// The keys held with their values, by increasing position.
    pub fn iter(&self) -> (r: Vec<(K, &V)>)
        ensures
            forall|i: int| 0 <= i < r@.len() ==> self@.contains_key(#[trigger] r@[i].0.pos()) && *r@[i].1 == self@[r@[i].0.pos()],
            forall|i: int, j: int| 0 <= i < j < r@.len() ==> r@[i].0.pos() < r@[j].0.pos(),
            forall|p: nat| self@.contains_key(p) ==> exists|i: int| 0 <= i < r@.len() && r@[i].0.pos() == p,
    {
        let mut out: Vec<(K, &V)> = Vec::new();
        let mut i: usize = 0;
        while i < self.set.len()
            invariant
                i <= self.set@.len(),
                forall|k: int| 0 <= k < out@.len() ==> self@.contains_key(#[trigger] out@[k].0.pos()) && out@[k].0.pos() < i
                    && *out@[k].1 == self@[out@[k].0.pos()],
                forall|k: int, j: int| 0 <= k < j < out@.len() ==> out@[k].0.pos() < out@[j].0.pos(),
                forall|p: nat| p < i && self@.contains_key(p) ==> exists|k: int| 0 <= k < out@.len() && out@[k].0.pos() == p,
            decreases self.set@.len() - i,
        {
            match &self.set[i] {
                Some(v) => {
                    let ghost before = out@;
                    out.push((K::from_pos(i), v));
                    proof {
                        assert forall|p: nat| p < i + 1 && self@.contains_key(p) implies exists|k: int|
                            0 <= k < out@.len() && out@[k].0.pos() == p by {
                            if p == i {
                                assert(out@[out@.len() - 1].0.pos() == p);
                            } else {
                                let k = choose|k: int| 0 <= k < before.len() && before[k].0.pos() == p;
                                assert(out@[k] == before[k]);
                            }
                        }
                    }
                },
                None => {},
            }
            i = i + 1;
        }
        out
    }

    /// The keys held with their values, by increasing position.
    pub fn into_iter(self) -> (r: Vec<(K, V)>)
        ensures
            forall|i: int| 0 <= i < r@.len() ==> self@.contains_key(#[trigger] r@[i].0.pos()) && r@[i].1 == self@[r@[i].0.pos()],
            forall|i: int, j: int| 0 <= i < j < r@.len() ==> r@[i].0.pos() < r@[j].0.pos(),
            forall|p: nat| self@.contains_key(p) ==> exists|i: int| 0 <= i < r@.len() && r@[i].0.pos() == p,
    {
        let ghost m = self@;
        let ghost orig = self.set@;
        let mut slots = self.set;
        let mut out: Vec<(K, V)> = Vec::new();
        let mut i: usize = 0;
        while i < slots.len()
            invariant
                i <= slots@.len(),
                slots@.len() == orig.len(),
                forall|p: int| i <= p < slots@.len() ==> #[trigger] slots@[p] == orig[p],
                forall|p: nat| #[trigger] m.contains_key(p) <==> p < orig.len() && orig[p as int] is Some,
                forall|p: nat| #[trigger] m.contains_key(p) ==> m[p] == orig[p as int]->0,
                forall|k: int| 0 <= k < out@.len() ==> m.contains_key(#[trigger] out@[k].0.pos()) && out@[k].0.pos() < i
                    && out@[k].1 == m[out@[k].0.pos()],
                forall|k: int, j: int| 0 <= k < j < out@.len() ==> out@[k].0.pos() < out@[j].0.pos(),
                forall|p: nat| p < i && m.contains_key(p) ==> exists|k: int| 0 <= k < out@.len() && out@[k].0.pos() == p,
            decreases slots@.len() - i,
        {
            let ghost s0 = slots@;
            proof {
                assert(m.contains_key(i as nat) <==> s0[i as int] is Some);
            }
            let taken = slots[i].take();
            proof {
                assert forall|p: int| i < p < slots@.len() implies slots@[p] == s0[p] by {}
            }
            match taken {
                Some(v) => {
                    let ghost before = out@;
                    proof {
                        assert(m[i as nat] == v);
                    }
                    out.push((K::from_pos(i), v));
                    proof {
                        assert forall|p: nat| p < i + 1 && m.contains_key(p) implies exists|k: int|
                            0 <= k < out@.len() && out@[k].0.pos() == p by {
                            if p == i {
                                assert(out@[out@.len() - 1].0.pos() == p);
                            } else {
                                let k = choose|k: int| 0 <= k < before.len() && before[k].0.pos() == p;
                                assert(out@[k] == before[k]);
                            }
                        }
                    }
                },
                None => {},
            }
            i = i + 1;
        }
        out
    }

    /// The key of the highest position held, or `null()` when none is.
    pub fn max_key(&self) -> (r: K)
        ensures
            self@.dom() == Set::<nat>::empty() ==> r.pos() == K::spec_null().pos(),
            self@.dom() != Set::<nat>::empty() ==> self@.contains_key(r.pos()) && forall|p: nat|
                self@.contains_key(p) ==> p <= r.pos(),
    {
        let mut i: usize = self.set.len();
        while i > 0
            invariant
                i <= self.set@.len(),
                forall|p: nat| i <= p < self.set@.len() ==> self.set@[p as int] is None,
            decreases i,
        {
            if self.set[i - 1].is_some() {
                assert(self@.contains_key((i - 1) as nat));
                assert(self@.dom() != Set::<nat>::empty());
                return K::from_pos(i - 1);
            }
            i = i - 1;
        }
        assert(self@.dom() =~= Set::<nat>::empty());
        K::null()
    }

    /// The value at the position of `key`.
    pub fn get(&self, key: &K) -> (r: Option<&V>)
        ensures
            r is Some == self@.contains_key(key.pos()),
            r is Some ==> *r->0 == self@[key.pos()],
    {
        let pos = key.into_pos();
        if pos < self.set.len() {
            self.set[pos].as_ref()
        } else {
            None
        }
    }

    /// The value at the position of `key`, to change in place.
    pub fn get_mut(&mut self, key: &K) -> (r: Option<&mut V>)
        ensures
            r is Some == old(self)@.contains_key(key.pos()),
            r is None ==> final(self)@ == old(self)@,
            r is Some ==> *r->0 == old(self)@[key.pos()] && final(self)@ == old(self)@.insert(
                key.pos(),
                *final(r->0),
            ),
    {
        let pos = key.into_pos();
        if pos < self.set.len() {
            let slot = &mut self.set[pos];
            let r = slot.as_mut();
            proof {
                if r is Some {
                    assert(after_borrow(*self)@ =~= old(self)@.insert(key.pos(), *final(r->0)));
                } else {
                    assert(after_borrow(*self)@ =~= old(self)@);
                }
            }
            r
        } else {
            None
        }
    }
}

} // verus!
