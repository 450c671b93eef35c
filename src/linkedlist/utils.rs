//! The identities a list accepts indices under, and its pool of free slots.
use vstd::prelude::*;

verus! {

/// Relies on `uuid::Uuid::new_v4`: a random identity, read as its 128-bit
/// value. Nothing is promised of the value drawn.
#[verifier::external_body]
pub(crate) fn fresh_id() -> (r: u128) {
    uuid::Uuid::new_v4().as_u128()
}

/// The slot base of the first entry of `s` that carries `id`.
pub open spec fn lookup(s: Seq<(u128, usize)>, id: u128) -> Option<usize>
    decreases s.len(),
{
    if s.len() == 0 {
        None
    } else if s[0].0 == id {
        Some(s[0].1)
    } else {
        lookup(s.subrange(1, s.len() as int), id)
    }
}

/// Every entry of `s` with its base moved up by `by`.
pub open spec fn rebase(s: Seq<(u128, usize)>, by: int) -> Seq<(u128, usize)> {
    s.map_values(|e: (u128, usize)| (e.0, (e.1 + by) as usize))
}

pub proof fn lemma_lookup_append(a: Seq<(u128, usize)>, b: Seq<(u128, usize)>, id: u128)
    ensures
        lookup(a + b, id) == (match lookup(a, id) {
            Some(x) => Some(x),
            None => lookup(b, id),
        }),
    decreases a.len(),
{
    if a.len() == 0 {
        assert(a + b =~= b);
    } else {
        assert((a + b).subrange(1, (a + b).len() as int) =~= a.subrange(1, a.len() as int) + b);
        lemma_lookup_append(a.subrange(1, a.len() as int), b, id);
    }
}

pub proof fn lemma_lookup_rebase(s: Seq<(u128, usize)>, by: int, id: u128)
    requires
        forall|k: int| 0 <= k < s.len() ==> 0 <= #[trigger] s[k].1 + by <= usize::MAX,
    ensures
        match lookup(s, id) {
            Some(x) => lookup(rebase(s, by), id) == Some((x + by) as usize) && 0 <= x + by <= usize::MAX,
            None => lookup(rebase(s, by), id) is None,
        },
    decreases s.len(),
{
    if s.len() > 0 {
        assert(0 <= s[0].1 + by <= usize::MAX);
        let t = s.subrange(1, s.len() as int);
        assert(rebase(s, by).subrange(1, s.len() as int) =~= rebase(t, by));
        assert forall|k: int| 0 <= k < t.len() implies 0 <= #[trigger] t[k].1 + by <= usize::MAX by {
            assert(t[k] == s[k + 1]);
        }
        lemma_lookup_rebase(t, by, id);
    }
}

/// The identities under which a list accepts indices.
///
/// Each identity comes with the slot base that its indices are relative to:
/// a list starts as a single identity with base zero, and absorbs the
/// identities of every list merged into it.
pub enum UuidSet {
    Uuid(u128),
    Many(Vec<(u128, usize)>),
}

impl UuidSet {
    /// The identities with their bases; the first one is the list's own.
    pub open spec fn entries(&self) -> Seq<(u128, usize)> {
        match self {
            UuidSet::Uuid(id) => seq![(*id, 0usize)],
            UuidSet::Many(v) => v@,
        }
    }

    pub open spec fn wf(&self) -> bool {
        self.entries().len() >= 1 && self.entries()[0].1 == 0
    }

    /// A single fresh identity.
    pub fn new() -> (r: UuidSet)
        ensures
            r.wf(),
            r.entries().len() == 1,
    {
        UuidSet::Uuid(fresh_id())
    }

    /// The base of the first entry carrying `id`, if any.
    pub fn base_of(&self, id: u128) -> (r: Option<usize>)
        ensures
            r == lookup(self.entries(), id),
    {
        match self {
            UuidSet::Uuid(u) => {
                proof {
                    reveal_with_fuel(lookup, 2);
                }
                if *u == id {
                    Some(0)
                } else {
                    None
                }
            },
            UuidSet::Many(v) => {
                let mut i: usize = 0;
                assert(v@.subrange(0, v@.len() as int) =~= v@);
                while i < v.len()
                    invariant
                        self.entries() == v@,
                        i <= v@.len(),
                        lookup(v@, id) == lookup(v@.subrange(i as int, v@.len() as int), id),
                    decreases v@.len() - i,
                {
                    let ghost rest = v@.subrange(i as int, v@.len() as int);
                    assert(rest.subrange(1, rest.len() as int) =~= v@.subrange(i + 1, v@.len() as int));
                    assert(rest[0] == v@[i as int]);
                    if v[i].0 == id {
                        assert(rest.len() > 0 && rest[0].0 == id);
                        assert(lookup(rest, id) == Some(rest[0].1));
                        return Some(v[i].1);
                    }
                    i = i + 1;
                }
                None
            },
        }
    }

    /// Whether `id` is one of the identities.
    pub fn matches(&self, id: u128) -> (r: bool)
        ensures
            r == lookup(self.entries(), id) is Some,
    {
        self.base_of(id).is_some()
    }

    /// The list's own identity, whose base is zero.
    pub fn first(&self) -> (r: u128)
        requires
            self.wf(),
        ensures
            r == self.entries()[0].0,
    {
        match self {
            UuidSet::Uuid(u) => *u,
            UuidSet::Many(v) => v[0].0,
        }
    }

    /// Absorbs `rhs`, whose bases move up by `by`.
    pub fn merge(&mut self, rhs: UuidSet, by: usize)
        requires
            forall|k: int|
                0 <= k < rhs.entries().len() ==> #[trigger] rhs.entries()[k].1 + by <= usize::MAX,
        ensures
            final(self).entries() == old(self).entries() + rebase(rhs.entries(), by as int),
            old(self).wf() ==> final(self).wf(),
    {
        let mut out: Vec<(u128, usize)> = match self {
            UuidSet::Uuid(u) => vec![(*u, 0usize)],
            UuidSet::Many(v) => {
                let mut w: Vec<(u128, usize)> = Vec::new();
                std::mem::swap(&mut w, v);
                w
            },
        };
        let ghost start = out@;
        assert(start == old(self).entries());
        let ghost theirs = rhs.entries();
        let mut added: Vec<(u128, usize)> = match rhs {
            UuidSet::Uuid(u) => vec![(u, 0usize)],
            UuidSet::Many(v) => v,
        };
        assert(added@ == theirs);
        let mut i: usize = 0;
        while i < added.len()
            invariant
                i <= added@.len(),
                added@ == theirs,
                out@ == start + rebase(theirs.subrange(0, i as int), by as int),
                forall|k: int|
                    0 <= k < theirs.len() ==> #[trigger] theirs[k].1 + by <= usize::MAX,
            decreases added@.len() - i,
        {
            let e = added[i];
            out.push((e.0, e.1 + by));
            assert(rebase(theirs.subrange(0, i + 1), by as int) =~= rebase(
                theirs.subrange(0, i as int),
                by as int,
            ).push((e.0, (e.1 + by) as usize)));
            i = i + 1;
        }
        assert(theirs.subrange(0, i as int) =~= theirs);
        *self = UuidSet::Many(out);
    }
}

/// The pool of released slots, handed out again last in, first out.
pub struct FreeVec(pub Vec<usize>);

impl FreeVec {
    pub open spec fn view(&self) -> Seq<usize> {
        self.0@
    }

    pub fn new() -> (r: FreeVec)
        ensures
            r.view() == Seq::<usize>::empty(),
    {
        FreeVec(Vec::new())
    }

    pub fn pop(&mut self) -> (r: Option<usize>)
        ensures
            old(self).view().len() > 0 ==> r == Some(old(self).view().last())
                && final(self).view() == old(self).view().drop_last(),
            old(self).view().len() == 0 ==> r is None && final(self).view() == old(self).view(),
    {
        self.0.pop()
    }

    pub fn push(&mut self, slot: usize)
        ensures
            final(self).view() == old(self).view().push(slot),
    {
        self.0.push(slot);
    }

    /// Takes over the slots of `rhs`, each moved up by `by`.
    pub fn merge(&mut self, rhs: FreeVec, by: usize)
        requires
            forall|k: int| 0 <= k < rhs.view().len() ==> #[trigger] rhs.view()[k] + by <= usize::MAX,
        ensures
            final(self).view() == old(self).view() + rhs.view().map_values(
                |s: usize| (s + by) as usize,
            ),
    {
        let ghost start = self.view();
        let theirs = rhs.0;
        let mut i: usize = 0;
        while i < theirs.len()
            invariant
                i <= theirs@.len(),
                theirs@ == rhs.view(),
                self.view() == start + theirs@.subrange(0, i as int).map_values(
                    |s: usize| (s + by) as usize,
                ),
                forall|k: int| 0 <= k < rhs.view().len() ==> #[trigger] rhs.view()[k] + by <= usize::MAX,
            decreases theirs@.len() - i,
        {
            assert(rhs.view()[i as int] + by <= usize::MAX);
            self.0.push(theirs[i] + by);
            assert(theirs@.subrange(0, i + 1).map_values(|s: usize| (s + by) as usize)
                =~= theirs@.subrange(0, i as int).map_values(|s: usize| (s + by) as usize).push(
                (theirs@[i as int] + by) as usize,
            ));
            i = i + 1;
        }
        assert(theirs@.subrange(0, i as int) =~= theirs@);
    }
}

} // verus!
