//! A set kept as a dense vector of values plus a table from their positions.
use vstd::prelude::*;

use crate::dense::map::{DenseMap, key_pos};
use crate::identifier::Identifier;

verus! {

/// `m` with each of `s` put in, in order: a later value replaces an
/// earlier one with the same position.
pub open spec fn insert_all<T: Identifier>(m: Map<nat, T>, s: Seq<T>) -> Map<nat, T>
    decreases s.len(),
{
    if s.len() == 0 {
        m
    } else {
        insert_all(m, s.drop_last()).insert(key_pos(s.last()), s.last())
    }
}

/// A set of values with small identifiers, kept densely: at most one value
/// per identifier position.
#[derive(Clone, Default)]
pub struct DenseSet<T> {
    map: DenseMap<T, ()>,
}

impl<T: Identifier> View for DenseSet<T> {
    type V = Map<nat, T>;

    /// The value held at each identifier position present.
    closed spec fn view(&self) -> Map<nat, T> {
        self.map@.map_values(|e: (T, ())| e.0)
    }
}

impl<T: Identifier> DenseSet<T> {
    pub closed spec fn wf(&self) -> bool {
        self.map.wf()
    }

    /// An empty set.
    pub fn new() -> (r: Self)
        ensures
            r.wf(),
            r@ == Map::<nat, T>::empty(),
    {
        let r = DenseSet { map: DenseMap::new() };
        assert(r@ =~= Map::<nat, T>::empty());
        r
    }

    /// Whether a value with the position of `value` is held.
    pub fn contains(&self, value: &T) -> (r: bool)
        requires
            self.wf(),
        ensures
            r == self@.contains_key(key_pos(*value)),
    {
        self.map.contains_key(value)
    }

    /// Removes the value with the position of `value` and returns it.
    pub fn remove(&mut self, value: &T) -> (r: Option<T>)
        requires
            old(self).wf(),
        ensures
            final(self).wf(),
            final(self)@ == old(self)@.remove(key_pos(*value)),
            r == (if old(self)@.contains_key(key_pos(*value)) {
                Some(old(self)@[key_pos(*value)])
            } else {
                None
            }),
    {
        let r = self.map.remove_entry(value);
        assert(self@ =~= old(self)@.remove(key_pos(*value)));
        match r {
            Some(x) => Some(x.0),
            None => None,
        }
    }

    /// Holds `value`, in place of the value with the same position, which is
    /// returned.
    pub fn insert(&mut self, value: T) -> (r: Option<T>)
        requires
            old(self).wf(),
            key_pos(value) < usize::MAX,
        ensures
            final(self).wf(),
            final(self)@ == old(self)@.insert(key_pos(value), value),
            r == (if old(self)@.contains_key(key_pos(value)) {
                Some(old(self)@[key_pos(value)])
            } else {
                None
            }),
    {
        let previous = self.map.remove_entry(&value);
        self.map.insert(value, ());
        assert(self@ =~= old(self)@.insert(key_pos(value), value));
        match previous {
            Some(x) => Some(x.0),
            None => None,
        }
    }

    /// The values, in the order they sit in.
    pub fn iter(&self) -> (r: Vec<&T>)
        requires
            self.wf(),
        ensures
            r@.len() == self@.len(),
            forall|i: int| 0 <= i < r@.len() ==> self@.contains_key(key_pos(*r@[i])) && self@[key_pos(*r@[i])] == *r@[i],
    {
        let r = self.map.keys();
        proof {
            self.map.lemma_entries();
            assert(self@.dom() =~= self.map@.dom());
            assert forall|i: int| 0 <= i < r@.len() implies self@.contains_key(key_pos(*r@[i])) && self@[key_pos(*r@[i])] == *r@[i] by {
                assert(*r@[i] == self.map.entries()[i].0);
            }
        }
        r
    }

    /// Holds each of `items`, in order, each in place of the value with the
    /// same position.
    pub fn extend(&mut self, items: Vec<T>)
        requires
            old(self).wf(),
            forall|i: int| 0 <= i < items@.len() ==> key_pos(#[trigger] items@[i]) < usize::MAX,
        ensures
            final(self).wf(),
            final(self)@ == insert_all(old(self)@, items@),
    {
        let ghost v = items@;
        let n = items.len();
        let mut rest = crate::veclist::deque_of(items);
        let mut k: usize = 0;
        while rest.len() > 0
            invariant
                self.wf(),
                n == v.len(),
                k <= v.len(),
                rest@ == v.subrange(k as int, v.len() as int),
                forall|i: int| 0 <= i < v.len() ==> key_pos(#[trigger] v[i]) < usize::MAX,
                self@ == insert_all(old(self)@, v.subrange(0, k as int)),
            decreases rest@.len(),
        {
            let x = rest.pop_front().unwrap();
            proof {
                assert(x == v[k as int]);
                assert(v.subrange(0, k + 1).drop_last() =~= v.subrange(0, k as int));
            }
            self.insert(x);
            k = k + 1;
        }
        assert(v.subrange(0, v.len() as int) =~= v);
    }

    /// A set holding each of `items`, a later one in place of an earlier one
    /// with the same position.
    pub fn from_iter(items: Vec<T>) -> (r: Self)
        requires
            forall|i: int| 0 <= i < items@.len() ==> key_pos(#[trigger] items@[i]) < usize::MAX,
        ensures
            r.wf(),
            r@ == insert_all(Map::<nat, T>::empty(), items@),
    {
        let mut r = DenseSet::new();
        r.extend(items);
        r
    }

    /// The values, in the order they sit in.
    pub fn into_iter(self) -> (r: Vec<T>)
        requires
            self.wf(),
        ensures
            r@.len() == self@.len(),
            forall|i: int| 0 <= i < r@.len() ==> self@.contains_key(key_pos(r@[i])) && self@[key_pos(r@[i])] == r@[i],
    {
        let ghost m = self@;
        let ghost es = self.map.entries();
        proof {
            self.map.lemma_entries();
            assert(m.dom() =~= self.map@.dom());
        }
        let mut pairs = self.map.into_iter();
        let mut out: Vec<T> = Vec::new();
        let n = pairs.len();
        let mut rest = crate::veclist::deque_of(pairs);
        while rest.len() > 0
            invariant
                n == es.len(),
                out@.len() + rest@.len() == es.len(),
                rest@ == es.subrange(out@.len() as int, es.len() as int),
                forall|i: int| 0 <= i < out@.len() ==> #[trigger] out@[i] == es[i].0,
            decreases rest@.len(),
        {
            let ghost k = out@.len() as int;
            let x = rest.pop_front().unwrap();
            proof {
                assert(x == es[k]);
            }
            out.push(x.0);
            proof {
                assert(rest@ =~= es.subrange(k + 1, es.len() as int));
            }
        }
        proof {
            assert forall|i: int| 0 <= i < out@.len() implies m.contains_key(key_pos(out@[i])) && m[key_pos(out@[i])] == out@[i] by {
                assert(out@[i] == es[i].0);
            }
        }
        out
    }
}

} // verus!
