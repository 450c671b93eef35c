//! A map kept as a dense vector of entries plus a table from key positions.
use vstd::prelude::*;

use crate::identifier::{IdLike, Identifier};

verus! {

const INVALID: usize = usize::MAX;

/// The table position that key `k` stands for.
pub open spec fn key_pos<K: Identifier>(k: K) -> nat {
    k.spec_id().pos()
}

/// A map keyed by values with small identifiers. The entries sit densely in
/// a vector, in no particular order; a second vector leads from each key's
/// position to its entry. Removal moves the last entry into the hole.
#[derive(Clone, Default)]
pub struct DenseMap<K, V> {
    elements: Vec<(K, V)>,
    indices: Vec<usize>,
}

impl<K: Identifier, V> View for DenseMap<K, V> {
    type V = Map<nat, (K, V)>;

    /// The entry of each key position present.
    closed spec fn view(&self) -> Map<nat, (K, V)> {
        Map::new(
            |p: nat| p < self.indices@.len() && self.indices@[p as int] != INVALID,
            |p: nat| self.elements@[self.indices@[p as int] as int],
        )
    }
}

impl<K: Identifier, V> DenseMap<K, V> {
    /// Each entry is found from its key's position, and each position leads
    /// to an entry with that key position, or to nothing.
    pub closed spec fn wf(&self) -> bool {
        &&& self.elements@.len() <= usize::MAX
        &&& forall|e: int|
            0 <= e < self.elements@.len() ==> {
                &&& key_pos(#[trigger] self.elements@[e].0) < self.indices@.len()
                &&& self.indices@[key_pos(self.elements@[e].0) as int] == e
            }
        &&& forall|p: int|
            0 <= p < self.indices@.len() && #[trigger] self.indices@[p] != INVALID ==> {
                &&& self.indices@[p] < self.elements@.len()
                &&& key_pos(self.elements@[self.indices@[p] as int].0) == p
            }
    }

    /// The entries in the order they sit in.
    pub closed spec fn entries(&self) -> Seq<(K, V)> {
        self.elements@
    }

    /// The entries are the map's values, each once.
    pub proof fn lemma_entries(&self)
        requires
            self.wf(),
        ensures
            self.entries().len() == self@.len(),
            forall|e: int|
                0 <= e < self.entries().len() ==> self@.contains_key(key_pos(#[trigger] self.entries()[e].0))
                    && self@[key_pos(self.entries()[e].0)] == self.entries()[e],
            forall|p: nat|
                #[trigger] self@.contains_key(p) ==> exists|e: int|
                    0 <= e < self.entries().len() && self.entries()[e] == self@[p],
    {
        let d = self@.dom();
        let n = self.elements@.len();
        let f = |e: int| key_pos(self.elements@[e].0);
        assert forall|p: nat| #[trigger] self@.contains_key(p) implies exists|e: int|
            0 <= e < self.entries().len() && self.entries()[e] == self@[p] by {
            let e = self.indices@[p as int] as int;
            assert(self.entries()[e] == self@[p]);
        }
        // the key positions of the entries are exactly the domain, without repeats
        let ks = Seq::new(n, |e: int| key_pos(self.elements@[e].0));
        assert forall|i: int, j: int| 0 <= i < j < ks.len() implies ks[i] != ks[j] by {
            assert(self.indices@[ks[i] as int] == i);
            assert(self.indices@[ks[j] as int] == j);
        }
        assert forall|e: int| 0 <= e < self.entries().len() implies self@.contains_key(
            key_pos(#[trigger] self.entries()[e].0),
        ) && self@[key_pos(self.entries()[e].0)] == self.entries()[e] by {
            assert(self.indices@[key_pos(self.elements@[e].0) as int] == e);
        }
        assert forall|p: nat| d.contains(p) implies #[trigger] ks.to_set().contains(p) by {
            let e = self.indices@[p as int] as int;
            assert(ks[e] == p);
            assert(ks.contains(p));
        }
        assert forall|p: nat| #[trigger] ks.to_set().contains(p) implies d.contains(p) by {
            assert(ks.contains(p));
            let e = choose|e: int| 0 <= e < ks.len() && ks[e] == p;
            assert(self.indices@[p as int] == e);
        }
        assert(ks.to_set() =~= d);
        ks.unique_seq_to_set();
    }

    /// An empty map.
    pub fn new() -> (r: Self)
        ensures
            r.wf(),
            r@ == Map::<nat, (K, V)>::empty(),
    {
        let r = DenseMap { elements: Vec::new(), indices: Vec::new() };
        assert(r@ =~= Map::<nat, (K, V)>::empty());
        r
    }

    /// Whether an entry with the position of `key` is present.
    pub fn contains_key(&self, key: &K) -> (r: bool)
        requires
            self.wf(),
        ensures
            r == self@.contains_key(key_pos(*key)),
    {
        let pos = key.id().into_pos();
        pos < self.indices.len() && self.indices[pos] != INVALID
    }

    /// Removes the entry at slot `e` of the dense vector, if `e` is one,
    /// moving the last entry into its place. The position that led to it is
    /// left pointing at `e`, for the caller to mend.
    fn remove_at(&mut self, e: usize) -> (r: Option<(K, V)>)
        requires
            old(self).wf(),
            e == INVALID || e < old(self).elements@.len(),
        ensures
            e == INVALID ==> r is None && *final(self) == *old(self),
            e != INVALID ==> {
                &&& r == Some(old(self).elements@[e as int])
                &&& final(self).elements@ == old(self).elements@.update(e as int, old(self).elements@.last()).drop_last()
                &&& final(self).indices@.len() == old(self).indices@.len()
                &&& forall|p: int|
                    0 <= p < old(self).indices@.len() && p != key_pos(old(self).elements@.last().0) ==> 
                        #[trigger] final(self).indices@[p] == old(self).indices@[p]
                &&& e + 1 < old(self).elements@.len() ==> final(self).indices@[key_pos(old(self).elements@.last().0) as int] == e
                &&& e + 1 == old(self).elements@.len() ==> final(self).indices@ == old(self).indices@
            },
    {
        if e == INVALID {
            None
        } else if e == self.elements.len() - 1 {
            self.elements.pop()
        } else {
            let ret = self.elements.swap_remove(e);
            let moved = self.elements[e].0.id().into_pos();
            self.indices[moved] = e;
            Some(ret)
        }
    }

    /// Removes the entry with the position of `key` and returns it.
    pub fn remove_entry(&mut self, key: &K) -> (r: Option<(K, V)>)
        requires
            old(self).wf(),
        ensures
            final(self).wf(),
            final(self)@ == old(self)@.remove(key_pos(*key)),
            r == (if old(self)@.contains_key(key_pos(*key)) {
                Some(old(self)@[key_pos(*key)])
            } else {
                None
            }),
    {
        let pos = key.id().into_pos();
        if pos < self.indices.len() {
            let e = self.indices[pos];
            let ret = self.remove_at(e);
            self.indices[pos] = INVALID;
            proof {
                let a = *old(self);
                let ghost n = a.elements@.len();
                if e != INVALID {
                    let q = key_pos(a.elements@.last().0);
                    assert(a.indices@[q as int] == n - 1);
                    assert forall|i: int| 0 <= i < self.elements@.len() implies {
                        &&& key_pos(#[trigger] self.elements@[i].0) < self.indices@.len()
                        &&& self.indices@[key_pos(self.elements@[i].0) as int] == i
                    } by {
                        if i == e as int {
                            assert(self.elements@[i] == a.elements@.last());
                        } else {
                            assert(self.elements@[i] == a.elements@[i]);
                            assert(a.indices@[key_pos(a.elements@[i].0) as int] == i);
                        }
                    }
                    assert forall|p: int| 0 <= p < self.indices@.len() && #[trigger] self.indices@[p] != INVALID implies {
                        &&& self.indices@[p] < self.elements@.len()
                        &&& key_pos(self.elements@[self.indices@[p] as int].0) == p
                    } by {
                        if p != q as int {
                            let x = a.indices@[p] as int;
                            assert(key_pos(a.elements@[x].0) == p);
                        }
                    }
                    assert(self@ =~= a@.remove(pos as nat)) by {
                        assert forall|p: nat| #[trigger] self@.contains_key(p) implies self@[p] == a@[p] by {
                            if p != q {
                                let x = a.indices@[p as int] as int;
                                assert(key_pos(a.elements@[x].0) == p);
                            }
                        }
                    }
                } else {
                    assert(self@ =~= a@.remove(pos as nat));
                }
            }
            ret
        } else {
            assert(self@ =~= old(self)@.remove(key_pos(*key)));
            None
        }
    }

    /// Removes the entry with the position of `key` and returns its value.
    pub fn remove(&mut self, key: &K) -> (r: Option<V>)
        requires
            old(self).wf(),
        ensures
            final(self).wf(),
            final(self)@ == old(self)@.remove(key_pos(*key)),
            r == (if old(self)@.contains_key(key_pos(*key)) {
                Some(old(self)@[key_pos(*key)].1)
            } else {
                None
            }),
    {
        match self.remove_entry(key) {
            Some(x) => Some(x.1),
            None => None,
        }
    }

    /// Extends the position table to cover `pos`.
    fn cover(&mut self, pos: usize)
        requires
            old(self).wf(),
            pos < usize::MAX,
        ensures
            final(self).wf(),
            final(self)@ == old(self)@,
            final(self).elements == old(self).elements,
            pos < final(self).indices@.len(),
    {
        while self.indices.len() <= pos
            invariant
                self.wf(),
                self@ == old(self)@,
                self.elements == old(self).elements,
                pos < usize::MAX,
            decreases pos + 1 - self.indices@.len(),
        {
            let ghost before = *self;
            self.indices.push(INVALID);
            proof {
                assert forall|i: int| 0 <= i < self.elements@.len() implies {
                    &&& key_pos(#[trigger] self.elements@[i].0) < self.indices@.len()
                    &&& self.indices@[key_pos(self.elements@[i].0) as int] == i
                } by {
                    assert(before.indices@[key_pos(before.elements@[i].0) as int] == i);
                }
                assert(self@ =~= before@);
            }
        }
    }

    /// Puts `value` under `key`, in place of the entry with the same
    /// position, whose value is returned.
    pub fn insert(&mut self, key: K, value: V) -> (r: Option<V>)
        requires
            old(self).wf(),
            key_pos(key) < usize::MAX,
        ensures
            final(self).wf(),
            final(self)@ == old(self)@.insert(key_pos(key), (key, value)),
            r == (if old(self)@.contains_key(key_pos(key)) {
                Some(old(self)@[key_pos(key)].1)
            } else {
                None
            }),
    {
        let pos = key.id().into_pos();
        self.cover(pos);
        let ghost b = *self;
        let e = self.indices[pos];
        let ret = self.remove_at(e);
        let ghost c = *self;
        self.elements.push((key, value));
        let n = self.elements.len() - 1;
        self.indices[pos] = n;
        proof {
            let m = b.elements@.len();
            if e != INVALID {
                let q = key_pos(b.elements@.last().0);
                assert(b.indices@[q as int] == m - 1);
                assert(key_pos(b.elements@[e as int].0) == pos);
            }
            assert forall|i: int| 0 <= i < self.elements@.len() implies {
                &&& key_pos(#[trigger] self.elements@[i].0) < self.indices@.len()
                &&& self.indices@[key_pos(self.elements@[i].0) as int] == i
            } by {
                if i < n {
                    assert(self.elements@[i] == c.elements@[i]);
                    if e != INVALID && i == e as int {
                        assert(c.elements@[i] == b.elements@.last());
                    } else {
                        assert(c.elements@[i] == b.elements@[i]);
                        assert(b.indices@[key_pos(b.elements@[i].0) as int] == i);
                    }
                }
            }
            assert forall|p: int| 0 <= p < self.indices@.len() && #[trigger] self.indices@[p] != INVALID implies {
                &&& self.indices@[p] < self.elements@.len()
                &&& key_pos(self.elements@[self.indices@[p] as int].0) == p
            } by {
                if p != pos as int {
                    if e != INVALID && p == key_pos(b.elements@.last().0) as int {
                    } else {
                        let x = b.indices@[p] as int;
                        assert(key_pos(b.elements@[x].0) == p);
                        assert(x != e as int);
                    }
                }
            }
            assert(self@ =~= old(self)@.insert(pos as nat, (key, value))) by {
                assert forall|p: nat| #[trigger] self@.contains_key(p) && p != pos implies self@[p] == b@[p] by {
                    if e != INVALID && p == key_pos(b.elements@.last().0) {
                    } else {
                        let x = b.indices@[p as int] as int;
                        assert(key_pos(b.elements@[x].0) == p);
                        assert(x != e as int);
                    }
                }
            }
        }
        match ret {
            Some(x) => Some(x.1),
            None => None,
        }
    }

    /// The entries, in the order they sit in.
    pub fn iter(&self) -> (r: &[(K, V)])
        ensures
            r@ == self.entries(),
    {
        self.elements.as_slice()
    }

    /// The entries, in the order they sit in, taken out of the map.
    pub fn into_iter(self) -> (r: Vec<(K, V)>)
        ensures
            r@ == self.entries(),
    {
        self.elements
    }

    /// The keys of the entries, in the order they sit in.
    pub fn keys(&self) -> (r: Vec<&K>)
        ensures
            r@.len() == self.entries().len(),
            forall|i: int| 0 <= i < r@.len() ==> *r@[i] == self.entries()[i].0,
    {
        let mut out: Vec<&K> = Vec::new();
        let mut i: usize = 0;
        while i < self.elements.len()
            invariant
                i <= self.elements@.len(),
                out@.len() == i,
                forall|j: int| 0 <= j < i ==> *out@[j] == self.entries()[j].0,
            decreases self.elements@.len() - i,
        {
            out.push(&self.elements[i].0);
            i = i + 1;
        }
        out
    }

    /// The values of the entries, in the order they sit in.
    pub fn values(&self) -> (r: Vec<&V>)
        ensures
            r@.len() == self.entries().len(),
            forall|i: int| 0 <= i < r@.len() ==> *r@[i] == self.entries()[i].1,
    {
        let mut out: Vec<&V> = Vec::new();
        let mut i: usize = 0;
        while i < self.elements.len()
            invariant
                i <= self.elements@.len(),
                out@.len() == i,
                forall|j: int| 0 <= j < i ==> *out@[j] == self.entries()[j].1,
            decreases self.elements@.len() - i,
        {
            out.push(&self.elements[i].1);
            i = i + 1;
        }
        out
    }

    /// The value under the position of `key`.
    pub fn get(&self, key: &K) -> (r: Option<&V>)
        requires
            self.wf(),
        ensures
            r is Some == self@.contains_key(key_pos(*key)),
            r is Some ==> *r->0 == self@[key_pos(*key)].1,
    {
        if self.contains_key(key) {
            let e = self.indices[key.id().into_pos()];
            Some(&self.elements[e].1)
        } else {
            None
        }
    }

    /// The value at table position `pos`, which is present, to change in place.
    fn value_at(&mut self, pos: usize) -> (r: &mut V)
        requires
            old(self).wf(),
            old(self)@.contains_key(pos as nat),
        ensures
            *r == old(self)@[pos as nat].1,
            final(self).wf(),
            final(self)@ == old(self)@.insert(pos as nat, (old(self)@[pos as nat].0, *final(r))),
    {
        let e = self.indices[pos];
        let ghost a = *self;
        let r = &mut self.elements[e].1;
        proof {
            let b = after_borrow(*self);
            assert(b.elements@ == a.elements@.update(e as int, (a.elements@[e as int].0, *final(r))));
            assert(b.indices == a.indices);
            assert forall|i: int| 0 <= i < b.elements@.len() implies {
                &&& key_pos(#[trigger] b.elements@[i].0) < b.indices@.len()
                &&& b.indices@[key_pos(b.elements@[i].0) as int] == i
            } by {
                assert(a.indices@[key_pos(a.elements@[i].0) as int] == i);
            }
            assert(b@ =~= a@.insert(pos as nat, (a@[pos as nat].0, *final(r))));
        }
        r
    }

    /// The place for `key`, to fill if it is empty.
    pub fn entry(&mut self, key: K) -> (r: Entry<'_, K, V>)
        ensures
            r.key == key,
            *r.parent == *old(self),
            *final(self) == *final(r.parent),
    {
        Entry { parent: self, key }
    }

    /// The value under the position of `key`, to change in place.
    pub fn get_mut(&mut self, key: &K) -> (r: Option<&mut V>)
        requires
            old(self).wf(),
        ensures
            r is Some == old(self)@.contains_key(key_pos(*key)),
            final(self).wf(),
            r is None ==> final(self)@ == old(self)@,
            r is Some ==> *r->0 == old(self)@[key_pos(*key)].1 && final(self)@ == old(self)@.insert(
                key_pos(*key),
                (old(self)@[key_pos(*key)].0, *final(r->0)),
            ),
    {
        if self.contains_key(key) {
            let pos = key.id().into_pos();
            Some(self.value_at(pos))
        } else {
            None
        }
    }
}

/// The place of one key in a [`DenseMap`].
pub struct Entry<'a, K, V> {
    pub parent: &'a mut DenseMap<K, V>,
    pub key: K,
}

impl<'a, K: Identifier, V> Entry<'a, K, V> {
    /// The value under the key, after putting `value` there if the place was empty.
    pub fn or_insert(self, value: V) -> (r: &'a mut V)
        requires
            (*self.parent).wf(),
            key_pos(self.key) < usize::MAX,
        ensures
            ({
                let m = (*old(self.parent));
                let p = key_pos(self.key);
                let before = if m@.contains_key(p) {
                    m@
                } else {
                    m@.insert(p, (self.key, value))
                };
                &&& *r == before[p].1
                &&& (*final(self.parent)).wf()
                &&& (*final(self.parent))@ == before.insert(p, (before[p].0, *final(r)))
            }),
    {
        let pos = self.key.id().into_pos();
        if !self.parent.contains_key(&self.key) {
            self.parent.insert(self.key, value);
        }
        self.parent.value_at(pos)
    }

    /// The value under the key, after putting what `f` makes there if the
    /// place was empty.
    pub fn or_insert_with<F: FnOnce() -> V>(self, f: F) -> (r: &'a mut V)
        requires
            (*self.parent).wf(),
            key_pos(self.key) < usize::MAX,
            f.requires(()),
        ensures
            (*final(self.parent)).wf(),
            (*old(self.parent))@.contains_key(key_pos(self.key)) ==> *r == (*old(self.parent))@[key_pos(self.key)].1,
            (*final(self.parent))@.contains_key(key_pos(self.key)),
            (*final(self.parent))@[key_pos(self.key)].1 == *final(r),
    {
        let pos = self.key.id().into_pos();
        if !self.parent.contains_key(&self.key) {
            self.parent.insert(self.key, f());
        }
        self.parent.value_at(pos)
    }
}

} // verus!
