//! The arena behind the linked lists: slots that hold an element or not,
//! linked into a chain between two sentinel slots, with a pool of free
//! slots, and the lemmas that keep the links sound through each update.
use vstd::prelude::*;

verus! {

pub(crate) const FIRST: usize = 0;

pub(crate) const LAST: usize = 1;

pub(crate) const INVALID: usize = usize::MAX;

/// One slot of an arena: its element, if live, its generation, and its
/// neighbours on the chain.
#[derive(Clone)]
pub(crate) struct ListNode<T> {
    pub(crate) element: Option<T>,
    pub(crate) tag: u64,
    pub(crate) next: usize,
    pub(crate) prev: usize,
}

pub(crate) open spec fn chain_prev(c: Seq<usize>, i: int) -> usize {
    if i == 0 {
        FIRST
    } else {
        c[i - 1]
    }
}

pub(crate) open spec fn chain_next(c: Seq<usize>, i: int) -> usize {
    if i + 1 == c.len() {
        LAST
    } else {
        c[i + 1]
    }
}

/// The links of `n` follow the chain `c` of distinct live slots, bracketed
/// by the two sentinels, and every live slot is on the chain.
pub(crate) open spec fn links_ok<T>(n: Seq<ListNode<T>>, c: Seq<usize>) -> bool {
    &&& n.len() >= 2
    &&& n[FIRST as int].element is None
    &&& n[LAST as int].element is None
    &&& n[FIRST as int].next == chain_next(c, -1)
    &&& n[LAST as int].prev == chain_prev(c, c.len() as int)
    &&& chain_ok(n, c)
    &&& distinct(c)
    &&& live_on_chain(n, c)
}

/// Each slot of `c` is live and linked to its neighbours on `c`.
#[verifier::opaque]
pub(crate) open spec fn chain_ok<T>(n: Seq<ListNode<T>>, c: Seq<usize>) -> bool {
    forall|i: int|
        0 <= i < c.len() ==> {
            &&& 2 <= #[trigger] c[i] < n.len()
            &&& n[c[i] as int].element is Some
            &&& n[c[i] as int].prev == chain_prev(c, i)
            &&& n[c[i] as int].next == chain_next(c, i)
        }
}

#[verifier::opaque]
pub(crate) open spec fn distinct(c: Seq<usize>) -> bool {
    forall|i: int, j: int| 0 <= i < j < c.len() ==> c[i] != c[j]
}

/// Every live slot of `n` is on `c`.
#[verifier::opaque]
pub(crate) open spec fn live_on_chain<T>(n: Seq<ListNode<T>>, c: Seq<usize>) -> bool {
    forall|s: int|
        2 <= s < n.len() && (#[trigger] n[s]).element is Some ==> exists|i: int|
            0 <= i < c.len() && c[i] as int == s
}

/// Slot `s` is in the pool `f`.
pub(crate) open spec fn in_pool(f: Seq<usize>, s: int) -> bool {
    exists|k: int| 0 <= k < f.len() && f[k] as int == s
}

/// The pool `f` holds distinct empty slots of `n`, none a sentinel.
#[verifier::opaque]
pub(crate) open spec fn pool_ok<T>(n: Seq<ListNode<T>>, f: Seq<usize>) -> bool {
    &&& forall|k: int| 0 <= k < f.len() ==> 2 <= #[trigger] f[k] < n.len() && n[f[k] as int].element is None
    &&& distinct(f)
}

/// What `links_ok` gives about one chain position.
pub(crate) proof fn lemma_chain_at<T>(n: Seq<ListNode<T>>, c: Seq<usize>, i: int)
    requires
        chain_ok(n, c),
        0 <= i < c.len(),
    ensures
        2 <= c[i] < n.len(),
        n[c[i] as int].element is Some,
        n[c[i] as int].prev == chain_prev(c, i),
        n[c[i] as int].next == chain_next(c, i),
{
    reveal(chain_ok);
}

pub(crate) proof fn lemma_neighbors_differ<T>(n: Seq<ListNode<T>>, c: Seq<usize>, i: int)
    requires
        links_ok(n, c),
        0 <= i < c.len(),
    ensures
        chain_prev(c, i) != c[i],
        chain_next(c, i) != c[i],
        chain_prev(c, i) != chain_next(c, i),
{
    reveal(chain_ok);
    reveal(distinct);
    if i > 0 {
        assert(c[i - 1] != c[i]);
    }
    if i + 1 < c.len() {
        assert(c[i] != c[i + 1]);
    }
    if i > 0 && i + 1 < c.len() {
        assert(c[i - 1] != c[i + 1]);
    }
}

/// The neighbours of the gap before chain position `p` are in range.
pub(crate) proof fn lemma_gap<T>(n: Seq<ListNode<T>>, c: Seq<usize>, p: int)
    requires
        links_ok(n, c),
        0 <= p <= c.len(),
    ensures
        chain_prev(c, p) < n.len(),
        chain_prev(c, p) != LAST,
        chain_next(c, p - 1) < n.len(),
        chain_next(c, p - 1) != FIRST,
        chain_prev(c, p) != chain_next(c, p - 1),
        chain_prev(c, p) == FIRST || n[chain_prev(c, p) as int].element is Some,
        chain_next(c, p - 1) == LAST || n[chain_next(c, p - 1) as int].element is Some,
        n[chain_next(c, p - 1) as int].prev == chain_prev(c, p),
        n[chain_prev(c, p) as int].next == chain_next(c, p - 1),
{
    reveal(chain_ok);
    reveal(distinct);
}

/// On a well-linked chain, a live slot sits at exactly one position.
pub(crate) proof fn lemma_live_position<T>(n: Seq<ListNode<T>>, c: Seq<usize>, s: int) -> (p: int)
    requires
        links_ok(n, c),
        2 <= s < n.len(),
        n[s].element is Some,
    ensures
        0 <= p < c.len(),
        c[p] as int == s,
        forall|i: int| 0 <= i < c.len() && c[i] as int == s ==> i == p,
{
    reveal(live_on_chain);
    reveal(distinct);
    let p = choose|i: int| 0 <= i < c.len() && c[i] as int == s;
    assert forall|i: int| 0 <= i < c.len() && c[i] as int == s implies i == p by {
        if i < p {
            assert(c[i] != c[p]);
        } else if i > p {
            assert(c[p] != c[i]);
        }
    }
    p
}

pub(crate) proof fn lemma_not_on_chain<T>(n: Seq<ListNode<T>>, c: Seq<usize>, s: usize)
    requires
        chain_ok(n, c),
        s >= n.len() || n[s as int].element is None,
    ensures
        !c.contains(s),
{
    reveal(chain_ok);
    if c.contains(s) {
        let i = choose|i: int| 0 <= i < c.len() && c[i] == s;
        assert(n[c[i] as int].element is Some);
    }
}

pub(crate) proof fn lemma_insert_distinct(c: Seq<usize>, p: int, s: usize)
    requires
        distinct(c),
        !c.contains(s),
        0 <= p <= c.len(),
    ensures
        distinct(c.insert(p, s)),
{
    reveal(distinct);
    let c2 = c.insert(p, s);
    assert forall|i: int, j: int| 0 <= i < j < c2.len() implies c2[i] != c2[j] by {
        if i != p && j != p {
            let ii = if i < p { i } else { i - 1 };
            let jj = if j < p { j } else { j - 1 };
            assert(c2[i] == c[ii] && c2[j] == c[jj]);
        } else if i == p {
            assert(c2[j] == c[j - 1]);
        } else {
            assert(c2[i] == c[i]);
        }
    }
}

pub(crate) proof fn lemma_pool_at<T>(n: Seq<ListNode<T>>, f: Seq<usize>, k: int)
    requires
        pool_ok(n, f),
        0 <= k < f.len(),
    ensures
        2 <= f[k] < n.len(),
        n[f[k] as int].element is None,
{
    reveal(pool_ok);
}

/// The pool stays sound when slot `s` is filled, having been taken from its
/// top or freshly added past the old end.
pub(crate) proof fn lemma_pool_take<T>(n0: Seq<ListNode<T>>, n: Seq<ListNode<T>>, f0: Seq<usize>, f: Seq<usize>, s: usize)
    requires
        pool_ok(n0, f0),
        n.len() >= n0.len(),
        forall|t: int| 0 <= t < n0.len() && t != s ==> (#[trigger] n[t]).element == n0[t].element,
        (f == f0 && s >= n0.len()) || (f0.len() > 0 && f == f0.drop_last() && s == f0.last()),
    ensures
        pool_ok(n, f),
        forall|t: int| #[trigger] in_pool(f, t) ==> in_pool(f0, t),
        s < n0.len() ==> in_pool(f0, s as int),
{
    reveal(pool_ok);
    reveal(distinct);
    assert forall|k: int| 0 <= k < f.len() implies 2 <= #[trigger] f[k] < n.len()
        && n[f[k] as int].element is None by {
        assert(f[k] == f0[k]);
        if f0.len() > 0 && s == f0.last() && f.len() < f0.len() {
            assert(f0[k] != f0[f0.len() - 1]);
        }
    }
    assert forall|t: int| #[trigger] in_pool(f, t) implies in_pool(f0, t) by {
        let k = choose|k: int| 0 <= k < f.len() && f[k] as int == t;
        assert(f0[k] == f[k]);
    }
    if s < n0.len() {
        assert(f0[f0.len() - 1] == s);
    }
}

pub(crate) proof fn lemma_pool_member<T>(n: Seq<ListNode<T>>, f: Seq<usize>, s: usize)
    requires
        pool_ok(n, f),
        in_pool(f, s as int),
    ensures
        2 <= s < n.len(),
        n[s as int].element is None,
{
    reveal(pool_ok);
}

pub(crate) proof fn lemma_not_in_pool<T>(n: Seq<ListNode<T>>, f: Seq<usize>, s: usize)
    requires
        pool_ok(n, f),
        s < n.len(),
        n[s as int].element is Some,
    ensures
        !in_pool(f, s as int),
{
    reveal(pool_ok);
}

/// The pool stays sound when the live slot `s` is emptied, and either pushed
/// onto it or left out.
pub(crate) proof fn lemma_pool_release<T>(n0: Seq<ListNode<T>>, n: Seq<ListNode<T>>, f0: Seq<usize>, f: Seq<usize>, s: usize)
    requires
        pool_ok(n0, f0),
        2 <= s < n0.len(),
        !in_pool(f0, s as int),
        n.len() == n0.len(),
        n[s as int].element is None,
        forall|t: int| 0 <= t < n0.len() && t != s ==> (#[trigger] n[t]).element == n0[t].element,
        f == f0 || f == f0.push(s),
    ensures
        pool_ok(n, f),
        forall|t: int| #[trigger] in_pool(f0, t) ==> in_pool(f, t),
        forall|t: int| #[trigger] in_pool(f, t) ==> in_pool(f0, t) || t == s,
{
    reveal(pool_ok);
    reveal(distinct);
    assert forall|k: int| 0 <= k < f.len() implies 2 <= #[trigger] f[k] < n.len()
        && n[f[k] as int].element is None by {
        if k < f0.len() {
            assert(f[k] == f0[k]);
        }
    }
    assert forall|k: int, l: int| 0 <= k < l < f.len() implies f[k] != f[l] by {
        if l == f0.len() {
            assert(f0[k] == f[k]);
        } else {
            assert(f0[k] == f[k] && f0[l] == f[l]);
        }
    }
    assert forall|t: int| #[trigger] in_pool(f0, t) implies in_pool(f, t) by {
        let k = choose|k: int| 0 <= k < f0.len() && f0[k] as int == t;
        assert(f[k] == f0[k]);
    }
    assert forall|t: int| #[trigger] in_pool(f, t) implies in_pool(f0, t) || t == s by {
        let k = choose|k: int| 0 <= k < f.len() && f[k] as int == t;
        if k < f0.len() {
            assert(f0[k] == f[k]);
        }
    }
}

/// Changing elements in place, live for live, keeps the links and the pool sound.
pub(crate) proof fn lemma_same_shape<T>(n0: Seq<ListNode<T>>, n: Seq<ListNode<T>>, c: Seq<usize>, f: Seq<usize>)
    requires
        links_ok(n0, c),
        pool_ok(n0, f),
        n.len() == n0.len(),
        forall|t: int|
            0 <= t < n.len() ==> (#[trigger] n[t]).prev == n0[t].prev && n[t].next == n0[t].next && (
            n[t].element is Some <==> n0[t].element is Some),
    ensures
        links_ok(n, c),
        pool_ok(n, f),
{
    reveal(chain_ok);
    reveal(live_on_chain);
    reveal(pool_ok);
    assert(chain_ok(n, c)) by {
        assert forall|i: int| 0 <= i < c.len() implies {
            &&& 2 <= #[trigger] c[i] < n.len()
            &&& n[c[i] as int].element is Some
            &&& n[c[i] as int].prev == chain_prev(c, i)
            &&& n[c[i] as int].next == chain_next(c, i)
        } by {
            assert(2 <= c[i] < n0.len());
            assert(n[c[i] as int].prev == n0[c[i] as int].prev);
        }
    }
    assert(live_on_chain(n, c)) by {
        assert forall|t: int| 2 <= t < n.len() && (#[trigger] n[t]).element is Some implies exists|i: int|
            0 <= i < c.len() && c[i] as int == t by {
            assert(n0[t].element is Some);
        }
    }
    assert forall|k: int| 0 <= k < f.len() implies 2 <= #[trigger] f[k] < n.len()
        && n[f[k] as int].element is None by {
        assert(n0[f[k] as int].element is None);
    }
}

/// The node updates of a link of slot `s` before chain position `p`.
pub(crate) open spec fn linked_in<T>(n0: Seq<ListNode<T>>, n: Seq<ListNode<T>>, c: Seq<usize>, p: int, s: usize) -> bool {
    let prev = chain_prev(c, p);
    let next = chain_next(c, p - 1);
    &&& 2 <= s < n.len()
    &&& n.len() == n0.len() || (n.len() == n0.len() + 1 && s == n0.len())
    &&& s < n0.len() ==> n0[s as int].element is None
    &&& n[s as int].element is Some
    &&& n[s as int].prev == prev
    &&& n[s as int].next == next
    &&& n[prev as int].next == s
    &&& n[prev as int].element == n0[prev as int].element
    &&& n[prev as int].prev == n0[prev as int].prev
    &&& n[next as int].prev == s
    &&& n[next as int].element == n0[next as int].element
    &&& n[next as int].next == n0[next as int].next
    &&& forall|t: int|
        0 <= t < n0.len() && t != s && t != prev && t != next ==> #[trigger] n[t] == n0[t]
}

pub(crate) proof fn lemma_insert_chain_ok<T>(n0: Seq<ListNode<T>>, n: Seq<ListNode<T>>, c: Seq<usize>, p: int, s: usize)
    requires
        chain_ok(n0, c),
        distinct(c),
        !c.contains(s),
        0 <= p <= c.len(),
        linked_in(n0, n, c, p, s),
    ensures
        chain_ok(n, c.insert(p, s)),
{
    reveal(chain_ok);
    reveal(distinct);
    let c2 = c.insert(p, s);
    assert forall|i: int| 0 <= i < c2.len() implies {
        &&& 2 <= #[trigger] c2[i] < n.len()
        &&& n[c2[i] as int].element is Some
        &&& n[c2[i] as int].prev == chain_prev(c2, i)
        &&& n[c2[i] as int].next == chain_next(c2, i)
    } by {
        if i < p {
            assert(c2[i] == c[i]);
        } else if i > p {
            assert(c2[i] == c[i - 1]);
        }
        if i + 1 < p {
            assert(c[i] != c[p - 1]);
        }
        if i > p + 1 {
            assert(c[p] != c[i - 1]);
        }
    }
}

pub(crate) proof fn lemma_insert_live<T>(n0: Seq<ListNode<T>>, n: Seq<ListNode<T>>, c: Seq<usize>, p: int, s: usize)
    requires
        live_on_chain(n0, c),
        0 <= p <= c.len(),
        2 <= s < n.len(),
        n.len() == n0.len() || (n.len() == n0.len() + 1 && s == n0.len()),
        forall|t: int| 0 <= t < n0.len() && t != s ==> (#[trigger] n[t]).element == n0[t].element,
    ensures
        live_on_chain(n, c.insert(p, s)),
{
    reveal(live_on_chain);
    let c2 = c.insert(p, s);
    assert forall|t: int| 2 <= t < n.len() && (#[trigger] n[t]).element is Some implies exists|i: int|
        0 <= i < c2.len() && c2[i] as int == t by {
        if t == s {
            assert(c2[p] == s);
        } else {
            assert(n0[t].element is Some);
            let i = choose|i: int| 0 <= i < c.len() && c[i] as int == t;
            if i < p {
                assert(c2[i] == c[i]);
            } else {
                assert(c2[i + 1] == c[i]);
            }
        }
    }
}

/// Linking a node in slot `s`, which was not live, before chain position `p`.
pub(crate) proof fn lemma_link_insert<T>(n0: Seq<ListNode<T>>, n: Seq<ListNode<T>>, c: Seq<usize>, p: int, s: usize)
    requires
        links_ok(n0, c),
        0 <= p <= c.len(),
        linked_in(n0, n, c, p, s),
    ensures
        links_ok(n, c.insert(p, s)),
{
    let c2 = c.insert(p, s);
    lemma_gap(n0, c, p);
    lemma_not_on_chain(n0, c, s);
    lemma_insert_distinct(c, p, s);
    lemma_insert_chain_ok(n0, n, c, p, s);
    assert forall|t: int| 0 <= t < n0.len() && t != s implies (#[trigger] n[t]).element == n0[t].element by {
        if t != chain_prev(c, p) && t != chain_next(c, p - 1) {
            assert(n[t] == n0[t]);
        }
    }
    lemma_insert_live(n0, n, c, p, s);
    if p > 0 {
        lemma_chain_at(n0, c, p - 1);
        assert(n[FIRST as int] == n0[FIRST as int]);
        assert(c2[0] == c[0]);
    }
    if p < c.len() {
        lemma_chain_at(n0, c, p);
        assert(n[LAST as int] == n0[LAST as int]);
        assert(c2.last() == c.last());
    }
}

/// The node updates of an unlink of the slot at chain position `p`.
pub(crate) open spec fn linked_out<T>(n0: Seq<ListNode<T>>, n: Seq<ListNode<T>>, c: Seq<usize>, p: int) -> bool {
    let s = c[p];
    let prev = chain_prev(c, p);
    let next = chain_next(c, p);
    &&& n.len() == n0.len()
    &&& n[s as int].element is None
    &&& n[prev as int].next == next
    &&& n[prev as int].element == n0[prev as int].element
    &&& n[prev as int].prev == n0[prev as int].prev
    &&& n[next as int].prev == prev
    &&& n[next as int].element == n0[next as int].element
    &&& n[next as int].next == n0[next as int].next
    &&& forall|t: int|
        0 <= t < n0.len() && t != s && t != prev && t != next ==> #[trigger] n[t] == n0[t]
}

pub(crate) proof fn lemma_remove_distinct(c: Seq<usize>, p: int)
    requires
        distinct(c),
        0 <= p < c.len(),
    ensures
        distinct(c.remove(p)),
        !c.remove(p).contains(c[p]),
{
    reveal(distinct);
    let c2 = c.remove(p);
    assert forall|i: int, j: int| 0 <= i < j < c2.len() implies c2[i] != c2[j] by {
        let ii = if i < p { i } else { i + 1 };
        let jj = if j < p { j } else { j + 1 };
        assert(c2[i] == c[ii] && c2[j] == c[jj]);
    }
    if c2.contains(c[p]) {
        let i = choose|i: int| 0 <= i < c2.len() && c2[i] == c[p];
        if i < p {
            assert(c2[i] == c[i]);
        } else {
            assert(c2[i] == c[i + 1]);
        }
    }
}

pub(crate) proof fn lemma_remove_chain_ok<T>(n0: Seq<ListNode<T>>, n: Seq<ListNode<T>>, c: Seq<usize>, p: int)
    requires
        chain_ok(n0, c),
        distinct(c),
        0 <= p < c.len(),
        linked_out(n0, n, c, p),
    ensures
        chain_ok(n, c.remove(p)),
{
    reveal(chain_ok);
    reveal(distinct);
    let c2 = c.remove(p);
    assert forall|i: int| 0 <= i < c2.len() implies {
        &&& 2 <= #[trigger] c2[i] < n.len()
        &&& n[c2[i] as int].element is Some
        &&& n[c2[i] as int].prev == chain_prev(c2, i)
        &&& n[c2[i] as int].next == chain_next(c2, i)
    } by {
        if i < p {
            assert(c2[i] == c[i]);
            assert(c[i] != c[p]);
        } else {
            assert(c2[i] == c[i + 1]);
            assert(c[p] != c[i + 1]);
        }
        if i + 1 < p {
            assert(c[i] != c[p - 1]);
        }
        if i > p {
            assert(c[p + 1] != c[i + 1]);
        }
    }
}

pub(crate) proof fn lemma_remove_live<T>(n0: Seq<ListNode<T>>, n: Seq<ListNode<T>>, c: Seq<usize>, p: int)
    requires
        live_on_chain(n0, c),
        0 <= p < c.len(),
        n.len() == n0.len(),
        n[c[p] as int].element is None,
        forall|t: int| 0 <= t < n0.len() && t != c[p] ==> (#[trigger] n[t]).element == n0[t].element,
    ensures
        live_on_chain(n, c.remove(p)),
{
    reveal(live_on_chain);
    let c2 = c.remove(p);
    assert forall|t: int| 2 <= t < n.len() && (#[trigger] n[t]).element is Some implies exists|i: int|
        0 <= i < c2.len() && c2[i] as int == t by {
        assert(n0[t].element is Some);
        let i = choose|i: int| 0 <= i < c.len() && c[i] as int == t;
        if i < p {
            assert(c2[i] == c[i]);
        } else {
            assert(i != p);
            assert(c2[i - 1] == c[i]);
        }
    }
}

/// Unlinking the slot at chain position `p`.
pub(crate) proof fn lemma_link_remove<T>(n0: Seq<ListNode<T>>, n: Seq<ListNode<T>>, c: Seq<usize>, p: int)
    requires
        links_ok(n0, c),
        0 <= p < c.len(),
        linked_out(n0, n, c, p),
    ensures
        links_ok(n, c.remove(p)),
{
    let c2 = c.remove(p);
    let s = c[p];
    lemma_chain_at(n0, c, p);
    lemma_gap(n0, c, p);
    lemma_gap(n0, c, p + 1);
    lemma_remove_distinct(c, p);
    lemma_remove_chain_ok(n0, n, c, p);
    assert forall|t: int| 0 <= t < n0.len() && t != s implies (#[trigger] n[t]).element == n0[t].element by {
        if t != chain_prev(c, p) && t != chain_next(c, p) {
            assert(n[t] == n0[t]);
        }
    }
    lemma_remove_live(n0, n, c, p);
    if p > 0 {
        lemma_chain_at(n0, c, p - 1);
        assert(n[FIRST as int] == n0[FIRST as int]);
        assert(c2[0] == c[0]);
    }
    if p + 1 < c.len() {
        lemma_chain_at(n0, c, p + 1);
        assert(n[LAST as int] == n0[LAST as int]);
        assert(c2.last() == c.last());
    }
}

/// Empty slots added past the end keep the links sound.
pub(crate) proof fn lemma_links_extend<T>(n0: Seq<ListNode<T>>, n: Seq<ListNode<T>>, c: Seq<usize>)
    requires
        links_ok(n0, c),
        n.len() >= n0.len(),
        forall|t: int| 0 <= t < n0.len() ==> #[trigger] n[t] == n0[t],
        forall|t: int| n0.len() <= t < n.len() ==> (#[trigger] n[t]).element is None,
    ensures
        links_ok(n, c),
{
    reveal(chain_ok);
    reveal(live_on_chain);
    assert(chain_ok(n, c)) by {
        assert forall|i: int| 0 <= i < c.len() implies {
            &&& 2 <= #[trigger] c[i] < n.len()
            &&& n[c[i] as int].element is Some
            &&& n[c[i] as int].prev == chain_prev(c, i)
            &&& n[c[i] as int].next == chain_next(c, i)
        } by {
            assert(n[c[i] as int] == n0[c[i] as int]);
        }
    }
    assert(live_on_chain(n, c)) by {
        assert forall|t: int| 2 <= t < n.len() && (#[trigger] n[t]).element is Some implies exists|i: int|
            0 <= i < c.len() && c[i] as int == t by {
            assert(n[t] == n0[t]);
        }
    }
}

/// The pools of two arenas laid one after the other make a sound pool.
pub(crate) proof fn lemma_pool_absorb<T>(
    n0: Seq<ListNode<T>>,
    nb: Seq<ListNode<T>>,
    n: Seq<ListNode<T>>,
    f0: Seq<usize>,
    fb: Seq<usize>,
    f: Seq<usize>,
)
    requires
        pool_ok(n0, f0),
        pool_ok(nb, fb),
        n.len() == n0.len() + nb.len(),
        forall|t: int| 0 <= t < n0.len() ==> #[trigger] n[t] == n0[t],
        forall|t: int| 0 <= t < nb.len() ==> (#[trigger] n[n0.len() + t]).element is None,
        f == f0 + fb.map_values(|s: usize| (s + n0.len()) as usize),
        n.len() <= usize::MAX,
    ensures
        pool_ok(n, f),
        forall|t: int| 0 <= t < n0.len() ==> (#[trigger] in_pool(f, t) <==> in_pool(f0, t)),
        forall|t: int| 0 <= t < nb.len() ==> (#[trigger] in_pool(fb, t) <== in_pool(f, n0.len() + t)),
{
    reveal(pool_ok);
    reveal(distinct);
    let m = n0.len();
    assert forall|k: int| 0 <= k < f.len() implies 2 <= #[trigger] f[k] < n.len()
        && n[f[k] as int].element is None by {
        if k < f0.len() {
            assert(f[k] == f0[k]);
        } else {
            let q = k - f0.len();
            assert(f[k] == fb[q] + m);
            assert(n[m + fb[q] as int].element is None);
        }
    }
    assert forall|k: int, l: int| 0 <= k < l < f.len() implies f[k] != f[l] by {
        if l < f0.len() {
            assert(f[k] == f0[k] && f[l] == f0[l]);
        } else if k >= f0.len() {
            assert(fb[k - f0.len()] != fb[l - f0.len()]);
        } else {
            assert(f[k] == f0[k]);
        }
    }
    assert forall|t: int| 0 <= t < m implies (#[trigger] in_pool(f, t) <==> in_pool(f0, t)) by {
        if in_pool(f, t) {
            let k = choose|k: int| 0 <= k < f.len() && f[k] as int == t;
            if k >= f0.len() {
                assert(f[k] == fb[k - f0.len()] + m);
            } else {
                assert(f0[k] == f[k]);
            }
        }
        if in_pool(f0, t) {
            let k = choose|k: int| 0 <= k < f0.len() && f0[k] as int == t;
            assert(f[k] == f0[k]);
        }
    }
    assert forall|t: int| 0 <= t < nb.len() && in_pool(f, m + t) implies #[trigger] in_pool(fb, t) by {
        {
            let k = choose|k: int| 0 <= k < f.len() && f[k] as int == m + t;
            if k >= f0.len() {
                assert(f[k] == fb[k - f0.len()] + m);
            } else {
                assert(f0[k] < m);
            }
        }
    }
}

pub(crate) proof fn lemma_insert_between<A>(x: Seq<A>, y: Seq<A>, z: Seq<A>, e: A)
    ensures
        (x + y + z).insert(x.len() as int, e) == x + (seq![e] + y) + z,
{
    assert((x + y + z).insert(x.len() as int, e) =~= x + (seq![e] + y) + z);
}


} // verus!
