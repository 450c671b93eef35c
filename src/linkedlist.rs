//! The arena-backed linked list whose indices check themselves: each carries
//! the identity of its list and the generation of its slot, so a stale or
//! foreign index is refused instead of reaching another element.
use vstd::prelude::*;

mod utils;

use utils::{lookup, rebase, lemma_lookup_append, lemma_lookup_rebase, UuidSet, FreeVec};
use crate::index::{IndexExt, ForwardIndex, BackwardIndex};
use crate::chain::{
    ListNode, FIRST, LAST, INVALID, chain_next, links_ok, chain_ok, distinct, live_on_chain,
    in_pool, pool_ok, lemma_chain_at, lemma_neighbors_differ, lemma_gap, lemma_live_position,
    lemma_not_on_chain, lemma_pool_at, lemma_pool_take, lemma_pool_member, lemma_not_in_pool,
    lemma_pool_release, lemma_same_shape, lemma_link_insert, lemma_link_remove, lemma_links_extend,
    lemma_pool_absorb, lemma_insert_between,
};

verus! {

/// A handle to one position of a [`LinkedList`]: the identity of the list
/// that minted it, the generation of the node it designates, and that node's
/// slot. It does not keep the element alive; the list checks it on every use.
#[derive(Clone, Copy, PartialEq, Eq, Debug, Structural)]
pub struct LinkedListIndex {
    list_tag: u128,
    node_tag: u64,
    node: usize,
}

/// Why a list refused an index.
#[derive(Clone, Copy, PartialEq, Eq, Debug, Structural)]
pub enum IndexError {
    /// The index comes from another list, or from before a `gc` or `split_off`.
    ListTagMismatch,
    /// The element the index designated was removed, and its slot may hold another.
    ElemTagMismatch,
    /// The index stands before the first or after the last element.
    OutOfBounds,
}

/// A doubly linked list kept in an arena of slots, whose indices stay valid
/// while other elements come and go, and are checked rather than trusted.
///
/// Slots `FIRST` and `LAST` are sentinels. A released slot goes to a pool
/// with its generation moved on, so an index to what it held before is
/// refused once the slot is used again.
pub struct LinkedList<T> {
    tag: UuidSet,
    nodes: Vec<ListNode<T>>,
    free: FreeVec,
    chain: Ghost<Seq<usize>>,
}

impl<T> View for LinkedList<T> {
    type V = Seq<T>;

    /// The elements, first to last.
    closed spec fn view(&self) -> Seq<T> {
        self.chain@.map_values(|s: usize| self.nodes@[s as int].element->0)
    }
}

impl<T> LinkedList<T> {
    /// The list is well formed: the links follow the chain of live slots, and
    /// the pool holds distinct empty slots.
    pub closed spec fn wf(&self) -> bool {
        let n = self.nodes@;
        let c = self.chain@;
        let f = self.free.view();
        &&& self.tag.wf()
        &&& forall|k: int|
            0 <= k < self.tag.entries().len() ==> (#[trigger] self.tag.entries()[k]).1 < n.len()
        &&& n.len() >= 2
        &&& c.len() + f.len() + 2 <= n.len()
        &&& links_ok(n, c)
        &&& pool_ok(n, f)
    }

    /// The slot that `idx` designates, where its identity is one of this list's.
    closed spec fn slot(&self, idx: LinkedListIndex) -> Option<int> {
        match lookup(self.tag.entries(), idx.list_tag) {
            Some(b) => Some(b + idx.node),
            None => None,
        }
    }

    /// What validating `idx` against this list gives.
    pub closed spec fn check(&self, idx: LinkedListIndex) -> Result<(), IndexError> {
        match self.slot(idx) {
            None => Err(IndexError::ListTagMismatch),
            Some(s) => if s < 2 || s >= self.nodes@.len() {
                Err(IndexError::OutOfBounds)
            } else if self.nodes@[s].tag != idx.node_tag || self.nodes@[s].element is None {
                Err(IndexError::ElemTagMismatch)
            } else {
                Ok(())
            },
        }
    }

    /// `idx` designates an element of this list.
    pub open spec fn is_valid(&self, idx: LinkedListIndex) -> bool {
        self.check(idx) is Ok
    }

    /// `idx` stands just after the last element: the place to append at.
    pub closed spec fn at_end(&self, idx: LinkedListIndex) -> bool {
        self.slot(idx) == Some(LAST as int)
    }

    /// `idx` stands just before the first element.
    pub closed spec fn at_front(&self, idx: LinkedListIndex) -> bool {
        self.slot(idx) == Some(FIRST as int)
    }

    /// The position in `self@` of the element a valid `idx` designates; the
    /// length for an index at the end.
    pub closed spec fn position(&self, idx: LinkedListIndex) -> int {
        if self.at_end(idx) {
            self.chain@.len() as int
        } else {
            choose|i: int| 0 <= i < self.chain@.len() && self.chain@[i] as int == self.slot(idx)->0
        }
    }

    /// The element a valid `idx` designates.
    pub closed spec fn deref(&self, idx: LinkedListIndex) -> T {
        self.nodes@[self.slot(idx)->0].element->0
    }

    /// `idx` designates a slot whose element was removed: the slot has moved to
    /// a later generation, or is empty and out of use for good.
    pub closed spec fn stale(&self, idx: LinkedListIndex) -> bool {
        match self.slot(idx) {
            Some(s) => 2 <= s < self.nodes@.len() && (idx.node_tag < self.nodes@[s].tag || (
            self.nodes@[s].element is None && !in_pool(self.free.view(), s))),
            None => false,
        }
    }

    /// The index to slot `s` under the list's own identity.
    closed spec fn index_of_slot(&self, s: usize) -> LinkedListIndex {
        LinkedListIndex { list_tag: self.tag.entries()[0].0, node_tag: self.nodes@[s as int].tag, node: s }
    }

    /// The index `begin` returns.
    pub closed spec fn first_index(&self) -> LinkedListIndex {
        self.index_of_slot(self.nodes@[FIRST as int].next)
    }

    /// The index `end` returns.
    pub closed spec fn last_index(&self) -> LinkedListIndex {
        self.index_of_slot(self.nodes@[LAST as int].prev)
    }

    /// Where `increment` moves `idx`.
    pub closed spec fn step_forward(&self, idx: LinkedListIndex) -> LinkedListIndex {
        if self.is_valid(idx) {
            self.index_of_slot(self.nodes@[self.slot(idx)->0].next)
        } else {
            idx
        }
    }

    /// Where `decrement` moves `idx`.
    pub closed spec fn step_back(&self, idx: LinkedListIndex) -> LinkedListIndex {
        if self.is_valid(idx) {
            self.index_of_slot(self.nodes@[self.slot(idx)->0].prev)
        } else {
            idx
        }
    }

    /// Every index valid in `self` is valid in `next` and designates the
    /// same element there, and every index at the end stays at the end.
    pub open spec fn indices_kept(&self, next: &Self) -> bool {
        &&& forall|j: LinkedListIndex| #[trigger]
            self.is_valid(j) ==> next.is_valid(j) && next.deref(j) == self.deref(j)
        &&& forall|j: LinkedListIndex| #[trigger] self.at_end(j) ==> next.at_end(j)
    }

    /// Every index stale in `self` is stale in `next`.
    pub open spec fn stale_kept(&self, next: &Self) -> bool {
        forall|j: LinkedListIndex| #[trigger] self.stale(j) ==> next.stale(j)
    }

    /// The slots that hold an element.
    pub closed spec fn live_slots(&self) -> Set<usize> {
        Set::new(|s: usize| 2 <= s < self.nodes@.len() && self.nodes@[s as int].element is Some)
    }

    /// The length of the list is the number of slots that hold an element.
    pub proof fn lemma_len_counts_live(&self)
        requires
            self.wf(),
        ensures
            self@.len() == self.live_slots().len(),
            self.live_slots().finite(),
    {
        let c = self.chain@;
        reveal(chain_ok);
        reveal(distinct);
        reveal(live_on_chain);
        assert forall|s: usize| #[trigger] self.live_slots().contains(s) implies c.to_set().contains(s) by {
            let i = choose|i: int| 0 <= i < c.len() && c[i] as int == s as int;
            assert(c[i] == s);
            assert(c.contains(s));
        }
        assert forall|s: usize| #[trigger] c.to_set().contains(s) implies self.live_slots().contains(s) by {
            assert(c.contains(s));
            let i = choose|i: int| 0 <= i < c.len() && c[i] == s;
            assert(2 <= c[i] < self.nodes@.len());
        }
        assert(c.to_set() =~= self.live_slots());
        c.unique_seq_to_set();
    }

    /// Keeping indices carries over from step to step: an index valid before
    /// two such steps designates the same element after both.
    pub proof fn lemma_indices_kept_trans(a: Self, b: Self, c: Self, idx: LinkedListIndex)
        requires
            a.indices_kept(&b),
            b.indices_kept(&c),
            a.is_valid(idx),
        ensures
            a.indices_kept(&c),
            c.is_valid(idx),
            c.deref(idx) == a.deref(idx),
    {
    }

    /// An index to a removed element is refused as stale from then on, by
    /// every later state that kept stale indices stale, even once its slot
    /// holds another element.
    pub proof fn lemma_removed_stays_refused(removed: Self, later: Self, idx: LinkedListIndex)
        requires
            removed.stale(idx),
            removed.stale_kept(&later),
            later.wf(),
        ensures
            later.check(idx) == Err::<(), IndexError>(IndexError::ElemTagMismatch),
            !later.is_valid(idx),
    {
    }

    /// A stale index is refused as a mismatch of generations.
    pub proof fn lemma_stale_refused(&self, idx: LinkedListIndex)
        requires
            self.wf(),
            self.stale(idx),
        ensures
            self.check(idx) == Err::<(), IndexError>(IndexError::ElemTagMismatch),
    {
    }

    proof fn lemma_view_insert(a: Self, b: Self, p: int, s: usize, e: T)
        requires
            a.wf(),
            0 <= p <= a.chain@.len(),
            b.chain@ == a.chain@.insert(p, s),
            s >= a.nodes@.len() || a.nodes@[s as int].element is None,
            b.nodes@.len() >= a.nodes@.len(),
            b.nodes@[s as int].element == Some(e),
            forall|t: int|
                0 <= t < a.nodes@.len() && t != s ==> (#[trigger] b.nodes@[t]).element
                    == a.nodes@[t].element,
        ensures
            b@ == a@.insert(p, e),
    {
        reveal(chain_ok);
        lemma_not_on_chain(a.nodes@, a.chain@, s);
        let c = a.chain@;
        assert forall|i: int| 0 <= i < b@.len() implies b@[i] == a@.insert(p, e)[i] by {
            if i < p {
                assert(b.chain@[i] == c[i]);
                assert(c[i] != s);
            } else if i > p {
                assert(b.chain@[i] == c[i - 1]);
                assert(c[i - 1] != s);
            }
        }
        assert(b@ =~= a@.insert(p, e));
    }

    proof fn lemma_view_remove(a: Self, b: Self, p: int)
        requires
            a.wf(),
            0 <= p < a.chain@.len(),
            b.chain@ == a.chain@.remove(p),
            b.nodes@.len() == a.nodes@.len(),
            forall|t: int|
                0 <= t < a.nodes@.len() && t != a.chain@[p] ==> (#[trigger] b.nodes@[t]).element
                    == a.nodes@[t].element,
        ensures
            b@ == a@.remove(p),
    {
        reveal(chain_ok);
        reveal(distinct);
        let c = a.chain@;
        assert forall|i: int| 0 <= i < b@.len() implies b@[i] == a@.remove(p)[i] by {
            if i < p {
                assert(b.chain@[i] == c[i]);
                assert(c[i] != c[p]);
            } else {
                assert(b.chain@[i] == c[i + 1]);
                assert(c[p] != c[i + 1]);
            }
        }
        assert(b@ =~= a@.remove(p));
    }

    /// The number of slots in the arena, sentinels, pool and retired slots included.
    pub closed spec fn slots(&self) -> nat {
        self.nodes@.len()
    }

    /// The list holds no slot but its elements' and the two sentinels', and
    /// answers to a single identity.
    pub closed spec fn compact(&self) -> bool {
        &&& self.free.view().len() == 0
        &&& self.nodes@.len() == self.chain@.len() + 2
        &&& self.tag.entries().len() == 1
    }

    /// A valid index has a position, and the element there is the one it designates.
    pub proof fn lemma_valid_position(&self, idx: LinkedListIndex)
        requires
            self.wf(),
            self.is_valid(idx),
        ensures
            0 <= self.position(idx) < self@.len(),
            self@[self.position(idx)] == self.deref(idx),
            !self.at_end(idx),
            !self.at_front(idx),
    {
        self.lemma_slot_position(idx);
    }

    proof fn lemma_slot_position(&self, idx: LinkedListIndex)
        requires
            self.wf(),
            self.is_valid(idx),
        ensures
            0 <= self.position(idx) < self.chain@.len(),
            self.chain@[self.position(idx)] as int == self.slot(idx)->0,
            forall|i: int|
                0 <= i < self.chain@.len() && self.chain@[i] as int == self.slot(idx)->0 ==> i
                    == self.position(idx),
            self@[self.position(idx)] == self.deref(idx),
    {
        let s = self.slot(idx)->0;
        let p = lemma_live_position(self.nodes@, self.chain@, s);
        let q = self.position(idx);
        assert(self.chain@[p] as int == s);
        assert(0 <= q < self.chain@.len() && self.chain@[q] as int == s);
    }

    /// The position of a chain slot is its place in the chain.
    proof fn lemma_position_of(&self, idx: LinkedListIndex, p: int)
        requires
            self.wf(),
            0 <= p < self.chain@.len(),
            self.slot(idx) == Some(self.chain@[p] as int),
        ensures
            self.position(idx) == p,
            self.is_valid(idx) <== (self.nodes@[self.chain@[p] as int].tag == idx.node_tag),
    {
        reveal(distinct);
        lemma_chain_at(self.nodes@, self.chain@, p);
        let s = self.chain@[p] as int;
        let q = self.position(idx);
        assert(0 <= q < self.chain@.len() && self.chain@[q] as int == s);
        if q < p {
            assert(self.chain@[q] != self.chain@[p]);
        } else if q > p {
            assert(self.chain@[p] != self.chain@[q]);
        }
    }

    /// An empty list under a fresh identity.
    pub fn new() -> (r: Self)
        ensures
            r.wf(),
            r@ == Seq::<T>::empty(),
            r.compact(),
    {
        let mut nodes: Vec<ListNode<T>> = Vec::new();
        nodes.push(ListNode { element: None, tag: 0, next: LAST, prev: INVALID });
        nodes.push(ListNode { element: None, tag: 0, next: INVALID, prev: FIRST });
        let r = LinkedList { tag: UuidSet::new(), nodes, free: FreeVec::new(), chain: Ghost(Seq::empty()) };
        proof {
            reveal(chain_ok);
            reveal(distinct);
            reveal(live_on_chain);
            reveal(pool_ok);
        }
        assert(r@ =~= Seq::<T>::empty());
        r
    }

    /// Validates `index`: its identity must be one of this list's, it must not
    /// stand on a sentinel, and the slot must still hold the generation it
    /// was minted for.
    pub fn try_validate_index(&self, index: &LinkedListIndex) -> (r: Result<(), IndexError>)
        requires
            self.wf(),
        ensures
            r == self.check(*index),
    {
        match self.tag.base_of(index.list_tag) {
            None => Err(IndexError::ListTagMismatch),
            Some(base) => {
                let len = self.nodes.len();
                if base >= len || index.node >= len - base {
                    Err(IndexError::OutOfBounds)
                } else {
                    let s = base + index.node;
                    if s < 2 {
                        Err(IndexError::OutOfBounds)
                    } else if self.nodes[s].tag != index.node_tag || self.nodes[s].element.is_none() {
                        Err(IndexError::ElemTagMismatch)
                    } else {
                        Ok(())
                    }
                }
            },
        }
    }

    /// Whether `index` designates an element of this list.
    pub fn valid(&self, index: &LinkedListIndex) -> (r: bool)
        requires
            self.wf(),
        ensures
            r == self.is_valid(*index),
    {
        self.try_validate_index(index).is_ok()
    }

    /// The slot an index resolves to.
    fn slot_of(&self, index: &LinkedListIndex) -> (r: usize)
        requires
            self.wf(),
            self.slot(*index) is Some,
            self.slot(*index)->0 < self.nodes@.len(),
        ensures
            r as int == self.slot(*index)->0,
    {
        let len = self.nodes.len();
        let base = self.tag.base_of(index.list_tag).unwrap();
        assert(base + index.node == self.slot(*index)->0);
        base + index.node
    }

    /// An index to the element in slot `s`, under the list's own identity.
    fn index_to(&self, s: usize) -> (r: LinkedListIndex)
        requires
            self.wf(),
            s < self.nodes@.len(),
        ensures
            self.slot(r) == Some(s as int),
            r.node_tag == self.nodes@[s as int].tag,
            r == self.index_of_slot(s),
    {
        LinkedListIndex { list_tag: self.tag.first(), node_tag: self.nodes[s].tag, node: s }
    }

    /// The number of elements, counted by walking the chain.
    pub fn len(&self) -> (r: usize)
        requires
            self.wf(),
        ensures
            r == self@.len(),
    {
        let ghost c = self.chain@;
        let total = self.nodes.len();
        proof {
            reveal(chain_ok);
        }
        let mut n: usize = 0;
        let mut cur = self.nodes[FIRST].next;
        while cur != LAST
            invariant
                c == self.chain@,
                c.len() < total,
                forall|i: int|
                    0 <= i < c.len() ==> 2 <= #[trigger] c[i] < self.nodes@.len() && self.nodes@[c[i] as int].next
                        == chain_next(c, i),
                n <= c.len(),
                cur == (if n < c.len() {
                    c[n as int]
                } else {
                    LAST
                }),
            decreases c.len() - n,
        {
            proof {
                assert(n < c.len());
                let i = n as int;
                assert(2 <= c[i] < self.nodes@.len());
                assert(self.nodes@[c[i] as int].next == chain_next(c, i));
            }
            cur = self.nodes[cur].next;
            n = n + 1;
        }
        n
    }

    /// Puts `element` in a slot taken from the pool, or in a new one, and
    /// links it in just before slot `next`, which stands at chain position `p`.
    fn link_before(&mut self, next: usize, element: T, Ghost(p): Ghost<int>) -> (r: usize)
        requires
            old(self).wf(),
            0 <= p <= old(self).chain@.len(),
            next == chain_next(old(self).chain@, p - 1),
        ensures
            final(self).wf(),
            final(self).tag == old(self).tag,
            final(self).chain@ == old(self).chain@.insert(p, r),
            2 <= r < final(self).nodes@.len(),
            final(self).nodes@[r as int].element == Some(element),
            final(self).nodes@.len() >= old(self).nodes@.len(),
            r < old(self).nodes@.len() ==> in_pool(old(self).free.view(), r as int)
                && final(self).nodes@[r as int].tag == old(self).nodes@[r as int].tag,
            forall|t: int|
                0 <= t < old(self).nodes@.len() && t != r ==> (#[trigger] final(self).nodes@[t]).element
                    == old(self).nodes@[t].element && final(self).nodes@[t].tag == old(self).nodes@[t].tag,
            forall|t: int| #[trigger]
                in_pool(final(self).free.view(), t) ==> in_pool(old(self).free.view(), t),
            old(self).free.view().len() == 0 ==> final(self).free.view().len() == 0
                && final(self).nodes@.len() == old(self).nodes@.len() + 1,
    {
        let ghost c = self.chain@;
        let ghost n0 = self.nodes@;
        let ghost f0 = self.free.view();
        proof {
            lemma_gap(n0, c, p);
            if f0.len() > 0 {
                lemma_pool_at(n0, f0, f0.len() - 1);
            }
        }
        let prev = self.nodes[next].prev;
        let s = match self.free.pop() {
            Some(x) => {
                let tag = self.nodes[x].tag;
                self.nodes[x] = ListNode { element: Some(element), tag, next, prev };
                x
            },
            None => {
                let len = self.nodes.len();
                self.nodes.push(ListNode { element: Some(element), tag: 0, next, prev });
                len
            },
        };
        self.nodes[prev].next = s;
        self.nodes[next].prev = s;
        let ghost c2 = c.insert(p, s);
        self.chain = Ghost(c2);
        proof {
            let n = self.nodes@;
            lemma_link_insert(n0, n, c, p, s);
            lemma_pool_take(n0, n, f0, self.free.view(), s);
        }
        s
    }

    /// Unlinks the slot at chain position `p` and hands back its element. The
    /// slot moves to its next generation and to the pool; a slot whose
    /// generation cannot move on any more is left out of use.
    fn unlink(&mut self, s: usize, Ghost(p): Ghost<int>) -> (r: T)
        requires
            old(self).wf(),
            0 <= p < old(self).chain@.len(),
            s == old(self).chain@[p],
        ensures
            final(self).wf(),
            final(self).tag == old(self).tag,
            final(self).chain@ == old(self).chain@.remove(p),
            r == old(self).nodes@[s as int].element->0,
            final(self).nodes@.len() == old(self).nodes@.len(),
            final(self).nodes@[s as int].element is None,
            forall|t: int|
                0 <= t < old(self).nodes@.len() && t != s ==> (#[trigger] final(self).nodes@[t]).element
                    == old(self).nodes@[t].element && final(self).nodes@[t].tag == old(self).nodes@[t].tag,
            old(self).nodes@[s as int].tag < final(self).nodes@[s as int].tag
                || !in_pool(final(self).free.view(), s as int),
            forall|t: int| #[trigger]
                in_pool(old(self).free.view(), t) ==> in_pool(final(self).free.view(), t),
            forall|t: int| #[trigger]
                in_pool(final(self).free.view(), t) ==> in_pool(old(self).free.view(), t) || t == s,
            final(self).nodes@[s as int].tag >= old(self).nodes@[s as int].tag,
    {
        let ghost c = self.chain@;
        let ghost n0 = self.nodes@;
        let ghost f0 = self.free.view();
        proof {
            lemma_chain_at(n0, c, p);
            lemma_gap(n0, c, p);
            lemma_gap(n0, c, p + 1);
            lemma_neighbors_differ(n0, c, p);
            lemma_not_in_pool(n0, f0, s);
        }
        let prev = self.nodes[s].prev;
        let next = self.nodes[s].next;
        let e = self.nodes[s].element.take();
        self.nodes[prev].next = next;
        self.nodes[next].prev = prev;
        let tag = self.nodes[s].tag;
        if tag < u64::MAX {
            self.nodes[s].tag = tag + 1;
            self.free.push(s);
        }
        self.chain = Ghost(c.remove(p));
        proof {
            let n = self.nodes@;
            lemma_link_remove(n0, n, c, p);
            lemma_pool_release(n0, n, f0, self.free.view(), s);
        }
        e.unwrap()
    }

    /// Inserts `element` just before the element `index` designates, or at the
    /// end for an index at the end, and returns an index to it. No index is
    /// invalidated.
    pub fn insert(&mut self, index: LinkedListIndex, element: T) -> (r: LinkedListIndex)
        requires
            old(self).wf(),
            old(self).is_valid(index) || old(self).at_end(index),
        ensures
            final(self).wf(),
            final(self)@ == old(self)@.insert(old(self).position(index), element),
            final(self).is_valid(r),
            final(self).deref(r) == element,
            final(self).position(r) == old(self).position(index),
            old(self).indices_kept(&*final(self)),
            old(self).stale_kept(&*final(self)),
    {
        let ghost p = self.position(index);
        proof {
            if self.is_valid(index) {
                self.lemma_slot_position(index);
            }
        }
        let next = self.slot_of(&index);
        self.insert_at(next, element, Ghost(p))
    }

    /// Links `element` in before slot `next`, at chain position `p`.
    fn insert_at(&mut self, next: usize, element: T, Ghost(p): Ghost<int>) -> (r: LinkedListIndex)
        requires
            old(self).wf(),
            0 <= p <= old(self).chain@.len(),
            next == chain_next(old(self).chain@, p - 1),
        ensures
            final(self).wf(),
            final(self)@ == old(self)@.insert(p, element),
            final(self).is_valid(r),
            final(self).deref(r) == element,
            final(self).position(r) == p,
            old(self).indices_kept(&*final(self)),
            old(self).stale_kept(&*final(self)),
            final(self).tag == old(self).tag,
            old(self).compact() ==> final(self).compact(),
    {
        let s = self.link_before(next, element, Ghost(p));
        let r = self.index_to(s);
        proof {
            let a = *old(self);
            let b = *self;
            if s < a.nodes@.len() {
                lemma_pool_member(a.nodes@, a.free.view(), s);
            }
            Self::lemma_view_insert(a, b, p, s, element);
            b.lemma_position_of(r, p);
            assert forall|j: LinkedListIndex| #[trigger] a.is_valid(j) implies b.is_valid(j) && b.deref(j)
                == a.deref(j) by {
                assert(a.slot(j) == b.slot(j));
                let t = a.slot(j)->0;
                assert(a.nodes@[t].element is Some);
            }
            assert forall|j: LinkedListIndex| #[trigger] a.at_end(j) implies b.at_end(j) by {
                assert(a.slot(j) == b.slot(j));
            }
            assert forall|j: LinkedListIndex| #[trigger] a.stale(j) implies b.stale(j) by {
                assert(a.slot(j) == b.slot(j));
            }
        }
        r
    }

    /// Appends `element`.
    pub fn push_back(&mut self, element: T)
        requires
            old(self).wf(),
        ensures
            final(self).wf(),
            old(self).compact() ==> final(self).compact(),
            final(self)@ == old(self)@.push(element),
            old(self).indices_kept(&*final(self)),
            old(self).stale_kept(&*final(self)),
    {
        let ghost p = self.chain@.len() as int;
        let _ = self.insert_at(LAST, element, Ghost(p));
        assert(old(self)@.insert(p, element) =~= old(self)@.push(element));
    }

    /// Puts `element` in front of the first element.
    pub fn push_front(&mut self, element: T)
        requires
            old(self).wf(),
        ensures
            final(self).wf(),
            old(self).compact() ==> final(self).compact(),
            final(self)@ == old(self)@.insert(0, element),
            old(self).indices_kept(&*final(self)),
            old(self).stale_kept(&*final(self)),
    {
        let next = self.nodes[FIRST].next;
        let _ = self.insert_at(next, element, Ghost(0));
    }

    /// Removes the element `index` designates. Returns it, with an index to
    /// the element that followed it (or to the end). Only indices to the
    /// removed element are invalidated: they become stale.
    pub fn remove(&mut self, index: LinkedListIndex) -> (r: (T, LinkedListIndex))
        requires
            old(self).wf(),
            old(self).is_valid(index),
        ensures
            final(self).wf(),
            final(self)@ == old(self)@.remove(old(self).position(index)),
            r.0 == old(self).deref(index),
            r.0 == old(self)@[old(self).position(index)],
            old(self).position(index) < final(self)@.len() ==> final(self).is_valid(r.1) && final(self).position(r.1) == old(self).position(index),
            old(self).position(index) == final(self)@.len() ==> final(self).at_end(r.1),
            final(self).stale(index),
            forall|j: LinkedListIndex| #[trigger]
                old(self).is_valid(j) && old(self).position(j) != old(self).position(index)
                    ==> final(self).is_valid(j) && final(self).deref(j) == old(self).deref(j),
            forall|j: LinkedListIndex| #[trigger] old(self).at_end(j) ==> final(self).at_end(j),
            old(self).stale_kept(&*final(self)),
    {
        let ghost p = self.position(index);
        proof {
            self.lemma_slot_position(index);
            lemma_chain_at(self.nodes@, self.chain@, p);
            lemma_gap(self.nodes@, self.chain@, p + 1);
        }
        let s = self.slot_of(&index);
        let next = self.nodes[s].next;
        let e = self.unlink(s, Ghost(p));
        let r = self.index_to(next);
        proof {
            let a = *old(self);
            let b = *self;
            lemma_not_in_pool(a.nodes@, a.free.view(), s);
            Self::lemma_view_remove(a, b, p);
            if p < b.chain@.len() {
                assert(b.chain@[p] == a.chain@[p + 1]);
                lemma_chain_at(b.nodes@, b.chain@, p);
                b.lemma_position_of(r, p);
            }
            assert forall|j: LinkedListIndex| #[trigger] a.is_valid(j) && a.position(j) != p implies b.is_valid(
                j,
            ) && b.deref(j) == a.deref(j) by {
                assert(a.slot(j) == b.slot(j));
                a.lemma_slot_position(j);
            }
            assert forall|j: LinkedListIndex| #[trigger] a.at_end(j) implies b.at_end(j) by {
                assert(a.slot(j) == b.slot(j));
            }
            assert forall|j: LinkedListIndex| #[trigger] a.stale(j) implies b.stale(j) by {
                assert(a.slot(j) == b.slot(j));
                let t = a.slot(j)->0;
                if t != s as int && a.nodes@[t].element is None && !in_pool(a.free.view(), t) {
                    assert(!in_pool(b.free.view(), t));
                }
            }
            assert(a.slot(index) == b.slot(index));
        }
        (e, r)
    }

    /// An index to the first element, or to the end of an empty list.
    pub fn begin(&self) -> (r: LinkedListIndex)
        requires
            self.wf(),
        ensures
            self@.len() > 0 ==> self.is_valid(r) && self.position(r) == 0,
            self@.len() == 0 ==> self.at_end(r),
            r == self.first_index(),
    {
        proof {
            lemma_gap(self.nodes@, self.chain@, 0);
            if self.chain@.len() > 0 {
                lemma_chain_at(self.nodes@, self.chain@, 0);
            }
        }
        let s = self.nodes[FIRST].next;
        let r = self.index_to(s);
        proof {
            if self.chain@.len() > 0 {
                self.lemma_position_of(r, 0);
            }
        }
        r
    }

    /// An index to the last element, or to the front of an empty list.
    pub fn end(&self) -> (r: LinkedListIndex)
        requires
            self.wf(),
        ensures
            self@.len() > 0 ==> self.is_valid(r) && self.position(r) == self@.len() - 1,
            self@.len() == 0 ==> self.at_front(r),
            r == self.last_index(),
    {
        let ghost c = self.chain@;
        proof {
            lemma_gap(self.nodes@, c, c.len() as int);
            if c.len() > 0 {
                lemma_chain_at(self.nodes@, c, c.len() - 1);
            }
        }
        let s = self.nodes[LAST].prev;
        let r = self.index_to(s);
        proof {
            if c.len() > 0 {
                self.lemma_position_of(r, c.len() - 1);
            }
        }
        r
    }

    /// Moves `index` to the next element, or to the end after the last one.
    /// An index before the first or after the last element stays where it is.
    pub fn increment(&self, index: &mut LinkedListIndex)
        requires
            self.wf(),
            self.check(*old(index)) is Ok || self.check(*old(index)) == Err::<(), IndexError>(
                IndexError::OutOfBounds,
            ),
        ensures
            self.is_valid(*old(index)) && self.position(*old(index)) + 1 < self@.len()
                ==> self.is_valid(*final(index)) && self.position(*final(index)) == self.position(
                *old(index),
            ) + 1,
            self.is_valid(*old(index)) && self.position(*old(index)) + 1 == self@.len()
                ==> self.at_end(*final(index)),
            !self.is_valid(*old(index)) ==> *final(index) == *old(index),
            *final(index) == self.step_forward(*old(index)),
    {
        if self.valid(index) {
            let ghost p = self.position(*index);
            proof {
                self.lemma_slot_position(*index);
                lemma_chain_at(self.nodes@, self.chain@, p);
                lemma_gap(self.nodes@, self.chain@, p + 1);
            }
            let s = self.slot_of(index);
            let next = self.nodes[s].next;
            *index = self.index_to(next);
            proof {
                if p + 1 < self.chain@.len() {
                    lemma_chain_at(self.nodes@, self.chain@, p + 1);
                    self.lemma_position_of(*index, p + 1);
                }
            }
        }
    }

    /// Moves `index` to the previous element, or to the front before the
    /// first one. An index before the first or after the last element stays
    /// where it is.
    pub fn decrement(&self, index: &mut LinkedListIndex)
        requires
            self.wf(),
            self.check(*old(index)) is Ok || self.check(*old(index)) == Err::<(), IndexError>(
                IndexError::OutOfBounds,
            ),
        ensures
            self.is_valid(*old(index)) && self.position(*old(index)) > 0 ==> self.is_valid(*final(index))
                && self.position(*final(index)) == self.position(*old(index)) - 1,
            self.is_valid(*old(index)) && self.position(*old(index)) == 0 ==> self.at_front(*final(index)),
            !self.is_valid(*old(index)) ==> *final(index) == *old(index),
            *final(index) == self.step_back(*old(index)),
    {
        if self.valid(index) {
            let ghost p = self.position(*index);
            proof {
                self.lemma_slot_position(*index);
                lemma_chain_at(self.nodes@, self.chain@, p);
                lemma_gap(self.nodes@, self.chain@, p);
            }
            let s = self.slot_of(index);
            let prev = self.nodes[s].prev;
            *index = self.index_to(prev);
            proof {
                if p > 0 {
                    lemma_chain_at(self.nodes@, self.chain@, p - 1);
                    self.lemma_position_of(*index, p - 1);
                }
            }
        }
    }

    /// References to the elements, first to last.
    pub fn iter(&self) -> (r: Vec<&T>)
        requires
            self.wf(),
        ensures
            r@.len() == self@.len(),
            forall|i: int| 0 <= i < r@.len() ==> *r@[i] == self@[i],
    {
        let ghost c = self.chain@;
        let total = self.nodes.len();
        proof {
            reveal(chain_ok);
        }
        let mut out: Vec<&T> = Vec::new();
        let mut cur = self.nodes[FIRST].next;
        while cur != LAST
            invariant
                c == self.chain@,
                c.len() < total,
                total == self.nodes@.len(),
                forall|i: int|
                    0 <= i < c.len() ==> 2 <= #[trigger] c[i] < self.nodes@.len()
                        && self.nodes@[c[i] as int].next == chain_next(c, i)
                        && self.nodes@[c[i] as int].element is Some,
                out@.len() <= c.len(),
                forall|i: int| 0 <= i < out@.len() ==> *out@[i] == self@[i],
                cur == (if out@.len() < c.len() {
                    c[out@.len() as int]
                } else {
                    LAST
                }),
            decreases c.len() - out@.len(),
        {
            let ghost i = out@.len() as int;
            proof {
                assert(2 <= c[i] < self.nodes@.len());
            }
            let node = &self.nodes[cur];
            out.push(node.element.as_ref().unwrap());
            cur = node.next;
        }
        out
    }

    /// The element `index` designates.
    pub fn get(&self, index: LinkedListIndex) -> (r: &T)
        requires
            self.wf(),
            self.is_valid(index),
        ensures
            *r == self.deref(index),
            *r == self@[self.position(index)],
    {
        proof {
            self.lemma_slot_position(index);
        }
        let s = self.slot_of(&index);
        self.nodes[s].element.as_ref().unwrap()
    }

    proof fn lemma_update_in_place(a: Self, b: Self, p: int, v: T, index: LinkedListIndex)
        requires
            a.wf(),
            a.is_valid(index),
            p == a.position(index),
            a.chain@[p] as int == a.slot(index)->0,
            b.tag == a.tag,
            b.chain == a.chain,
            b.free == a.free,
            b.nodes@ == a.nodes@.update(a.chain@[p] as int, b.nodes@[a.chain@[p] as int]),
            b.nodes@[a.chain@[p] as int].element == Some(v),
            b.nodes@[a.chain@[p] as int].tag == a.nodes@[a.chain@[p] as int].tag,
            b.nodes@[a.chain@[p] as int].prev == a.nodes@[a.chain@[p] as int].prev,
            b.nodes@[a.chain@[p] as int].next == a.nodes@[a.chain@[p] as int].next,
        ensures
            b.wf(),
            b@ == a@.update(p, v),
            b.deref(index) == v,
            forall|j: LinkedListIndex| #[trigger]
                a.is_valid(j) ==> b.is_valid(j) && (a.position(j) != p ==> b.deref(j) == a.deref(j)),
            a.stale_kept(&b),
    {
        let n0 = a.nodes@;
        let n = b.nodes@;
        a.lemma_slot_position(index);
        lemma_same_shape(n0, n, a.chain@, a.free.view());
        assert forall|i: int| 0 <= i < b@.len() implies b@[i] == a@.update(p, v)[i] by {
            lemma_chain_at(n0, a.chain@, i);
            if i != p {
                assert(a.chain@[i] != a.chain@[p]) by {
                    reveal(distinct);
                }
            }
        }
        assert(b@ =~= a@.update(p, v));
        assert forall|j: LinkedListIndex| #[trigger] a.is_valid(j) implies b.is_valid(j) && (a.position(j)
            != p ==> b.deref(j) == a.deref(j)) by {
            assert(a.slot(j) == b.slot(j));
            a.lemma_slot_position(j);
        }
        assert forall|j: LinkedListIndex| #[trigger] a.stale(j) implies b.stale(j) by {
            assert(a.slot(j) == b.slot(j));
        }
    }

    /// The element `index` designates, to change in place.
    pub fn get_mut(&mut self, index: LinkedListIndex) -> (r: &mut T)
        requires
            old(self).wf(),
            old(self).is_valid(index),
        ensures
            *r == old(self).deref(index),
            final(self).wf(),
            final(self)@ == old(self)@.update(old(self).position(index), *final(r)),
            final(self).deref(index) == *final(r),
            forall|j: LinkedListIndex| #[trigger]
                old(self).is_valid(j) ==> final(self).is_valid(j) && (old(self).position(j)
                    != old(self).position(index) ==> final(self).deref(j) == old(self).deref(j)),
            old(self).stale_kept(&*final(self)),
    {
        let ghost p = self.position(index);
        proof {
            self.lemma_slot_position(index);
        }
        let s = self.slot_of(&index);
        let node = &mut self.nodes[s];
        let r = node.element.as_mut().unwrap();
        proof {
            let a = *old(self);
            let b = after_borrow(*self);
            let n0 = a.nodes@;
            let n = b.nodes@;
            assert(n == n0.update(s as int, n[s as int]));
            assert(n[s as int].element == Some(*final(r)));
            assert(n[s as int].tag == n0[s as int].tag);
            assert(n[s as int].prev == n0[s as int].prev && n[s as int].next == n0[s as int].next);
            Self::lemma_update_in_place(a, b, p, *final(r), index);
        }
        r
    }

    /// Takes every element out, first to last, with the slot each one sat in.
    /// Every slot is left empty; generations, pool and identities stay.
    fn take_elements(&mut self) -> (r: (Vec<T>, Vec<usize>))
        requires
            old(self).wf(),
        ensures
            r.0@ == old(self)@,
            r.1@ == old(self).chain@,
            final(self).nodes@.len() == old(self).nodes@.len(),
            final(self).tag == old(self).tag,
            final(self).free == old(self).free,
            forall|t: int|
                0 <= t < old(self).nodes@.len() ==> (#[trigger] final(self).nodes@[t]).element is None
                    && final(self).nodes@[t].tag == old(self).nodes@[t].tag,
    {
        let ghost c = self.chain@;
        let ghost n0 = self.nodes@;
        let ghost v = self@;
        let total = self.nodes.len();
        proof {
            reveal(chain_ok);
            reveal(distinct);
            reveal(live_on_chain);
        }
        let mut elems: Vec<T> = Vec::new();
        let mut slots: Vec<usize> = Vec::new();
        let mut cur = self.nodes[FIRST].next;
        while cur != LAST
            invariant
                c.len() < total,
                total == n0.len(),
                self.nodes@.len() == n0.len(),
                self.tag == old(self).tag,
                self.free == old(self).free,
                v.len() == c.len(),
                forall|i: int| 0 <= i < c.len() ==> #[trigger] v[i] == n0[c[i] as int].element->0,
                forall|i: int|
                    0 <= i < c.len() ==> 2 <= #[trigger] c[i] < n0.len() && n0[c[i] as int].next
                        == chain_next(c, i) && n0[c[i] as int].element is Some,
                forall|i: int, j: int| 0 <= i < j < c.len() ==> c[i] != c[j],
                forall|t: int|
                    2 <= t < n0.len() && (#[trigger] n0[t]).element is Some ==> exists|i: int|
                        0 <= i < c.len() && c[i] as int == t,
                n0[FIRST as int].element is None,
                n0[LAST as int].element is None,
                slots@.len() <= c.len(),
                slots@ == c.subrange(0, slots@.len() as int),
                elems@ == v.subrange(0, slots@.len() as int),
                forall|t: int|
                    0 <= t < n0.len() ==> (#[trigger] self.nodes@[t]).tag == n0[t].tag && self.nodes@[t].next
                        == n0[t].next,
                forall|i: int| 0 <= i < slots@.len() ==> (#[trigger] self.nodes@[c[i] as int]).element is None,
                forall|t: int|
                    0 <= t < n0.len() && !(exists|i: int| 0 <= i < slots@.len() && c[i] as int == t)
                        ==> (#[trigger] self.nodes@[t]).element == n0[t].element,
                cur == (if slots@.len() < c.len() {
                    c[slots@.len() as int]
                } else {
                    LAST
                }),
            decreases c.len() - slots@.len(),
        {
            let ghost k = slots@.len() as int;
            proof {
                assert(2 <= c[k] < n0.len());
                assert(!(exists|i: int| 0 <= i < k && c[i] as int == c[k] as int)) by {
                    if exists|i: int| 0 <= i < k && c[i] as int == c[k] as int {
                        let i = choose|i: int| 0 <= i < k && c[i] as int == c[k] as int;
                        assert(c[i] != c[k]);
                    }
                }
            }
            let e = self.nodes[cur].element.take();
            let next = self.nodes[cur].next;
            elems.push(e.unwrap());
            slots.push(cur);
            proof {
                assert(elems@ =~= v.subrange(0, k + 1));
                assert(slots@ =~= c.subrange(0, k + 1));
                assert forall|t: int|
                    0 <= t < n0.len() && !(exists|i: int| 0 <= i < k + 1 && c[i] as int == t) implies (
                    #[trigger] self.nodes@[t]).element == n0[t].element by {
                    assert(t != c[k] as int);
                }
                assert forall|i: int| 0 <= i < k + 1 implies (#[trigger] self.nodes@[c[i] as int]).element is None by {
                    if i < k {
                        assert(c[i] != c[k]);
                    }
                }
            }
            cur = next;
        }
        proof {
            assert(slots@ =~= c);
            assert(elems@ =~= v);
            assert forall|t: int| 0 <= t < n0.len() implies (#[trigger] self.nodes@[t]).element is None by {
                if exists|i: int| 0 <= i < c.len() && c[i] as int == t {
                    let i = choose|i: int| 0 <= i < c.len() && c[i] as int == t;
                    assert(self.nodes@[c[i] as int].element is None);
                } else if n0[t].element is Some && t >= 2 {
                    assert(exists|i: int| 0 <= i < c.len() && c[i] as int == t);
                }
            }
        }
        (elems, slots)
    }

    /// A list of `items`, in their order, under a fresh identity.
    pub fn from_vec(items: Vec<T>) -> (r: Self)
        ensures
            r.wf(),
            r@ == items@,
            r.compact(),
    {
        let ghost v = items@;
        let mut items = items;
        let mut list = LinkedList::new();
        while items.len() > 0
            invariant
                list.wf(),
                list.compact(),
                items@.len() <= v.len(),
                items@ == v.subrange(0, items@.len() as int),
                list@ == v.subrange(items@.len() as int, v.len() as int),
            decreases items@.len(),
        {
            let ghost k = items@.len() as int;
            let e = items.pop().unwrap();
            list.push_front(e);
            proof {
                assert(items@ =~= v.subrange(0, k - 1));
                assert(list@ =~= v.subrange(k - 1, v.len() as int));
            }
        }
        proof {
            assert(list@ =~= v);
        }
        list
    }

    /// Frees every pooled slot and takes a fresh identity. The elements and
    /// their order stay; every index issued before is refused afterwards
    /// (barring a collision of identities), even one to a live element.
    pub fn gc(&mut self)
        requires
            old(self).wf(),
        ensures
            final(self).wf(),
            final(self)@ == old(self)@,
            final(self).compact(),
    {
        let (elems, _) = self.take_elements();
        *self = LinkedList::from_vec(elems);
    }

    /// Cuts the list before the element `index` designates (or at the end):
    /// the elements from there on move to the list returned, under a fresh
    /// identity, and this list keeps the ones before, under a fresh identity
    /// too. Every index issued before into either part is refused afterwards.
    pub fn split_off(&mut self, index: LinkedListIndex) -> (r: LinkedList<T>)
        requires
            old(self).wf(),
            old(self).is_valid(index) || old(self).at_end(index),
        ensures
            final(self).wf(),
            r.wf(),
            final(self)@ == old(self)@.subrange(0, old(self).position(index)),
            r@ == old(self)@.subrange(old(self).position(index), old(self)@.len() as int),
            final(self)@ + r@ == old(self)@,
            final(self).compact(),
            r.compact(),
    {
        let ghost p = self.position(index);
        proof {
            if self.is_valid(index) {
                self.lemma_slot_position(index);
            }
        }
        let s = self.slot_of(&index);
        proof {
            reveal(chain_ok);
            let c = self.chain@;
            assert forall|i: int| 0 <= i < c.len() implies c[i] != LAST by {
                assert(2 <= c[i]);
            }
            assert forall|i: int| 0 <= i < c.len() && c[i] == s implies i == p by {
                assert(2 <= c[i]);
            }
        }
        let (mut elems, slots) = self.take_elements();
        let mut k: usize = 0;
        while k < slots.len() && slots[k] != s
            invariant
                slots@ == old(self).chain@,
                0 <= p <= slots@.len(),
                p < slots@.len() ==> slots@[p] == s,
                p == slots@.len() ==> s == LAST,
                forall|i: int| 0 <= i < slots@.len() ==> slots@[i] != LAST,
                forall|i: int| 0 <= i < slots@.len() && slots@[i] == s ==> i == p,
                k <= p,
            decreases slots@.len() - k,
        {
            k = k + 1;
        }
        proof {
            if p < slots@.len() {
                assert(k == p);
            }
        }
        let right = elems.split_off(k);
        *self = LinkedList::from_vec(elems);
        let r = LinkedList::from_vec(right);
        assert(self@ + r@ =~= old(self)@);
        r
    }

    /// The number of slots in the arena.
    pub fn slot_count(&self) -> (r: usize)
        ensures
            r == self.slots(),
    {
        self.nodes.len()
    }

    /// Links slot `s`, empty and out of the pool, with `element` in it, just
    /// before slot `next` at chain position `p`.
    fn link_slot(&mut self, s: usize, element: T, next: usize, Ghost(p): Ghost<int>)
        requires
            old(self).wf(),
            0 <= p <= old(self).chain@.len(),
            next == chain_next(old(self).chain@, p - 1),
            2 <= s < old(self).nodes@.len(),
            old(self).nodes@[s as int].element is None,
            !in_pool(old(self).free.view(), s as int),
            old(self).chain@.len() + old(self).free.view().len() + 3 <= old(self).nodes@.len(),
        ensures
            final(self).wf(),
            final(self).tag == old(self).tag,
            final(self).free == old(self).free,
            final(self).chain@ == old(self).chain@.insert(p, s),
            final(self)@ == old(self)@.insert(p, element),
            final(self).nodes@.len() == old(self).nodes@.len(),
            final(self).nodes@[s as int].element == Some(element),
            final(self).nodes@[s as int].tag == old(self).nodes@[s as int].tag,
            forall|t: int|
                0 <= t < old(self).nodes@.len() && t != s ==> (#[trigger] final(self).nodes@[t]).element
                    == old(self).nodes@[t].element && final(self).nodes@[t].tag == old(self).nodes@[t].tag,
    {
        let ghost c = self.chain@;
        let ghost n0 = self.nodes@;
        proof {
            lemma_gap(n0, c, p);
        }
        let prev = self.nodes[next].prev;
        let tag = self.nodes[s].tag;
        self.nodes[s] = ListNode { element: Some(element), tag, next, prev };
        self.nodes[prev].next = s;
        self.nodes[next].prev = s;
        self.chain = Ghost(c.insert(p, s));
        proof {
            let n = self.nodes@;
            lemma_link_insert(n0, n, c, p, s);
            reveal(pool_ok);
            let f = self.free.view();
            assert forall|k: int| 0 <= k < f.len() implies 2 <= #[trigger] f[k] < n.len()
                && n[f[k] as int].element is None by {
                assert(f[k] as int != s as int);
            }
            Self::lemma_view_insert(*old(self), *self, p, s, element);
        }
    }

    /// Takes over the arena of `theirs` past the end of this one, with every
    /// element taken out, along with its pool and identities. Returns its
    /// elements and their slots, first to last, and where its arena begins.
    fn absorb(&mut self, theirs: LinkedList<T>) -> (r: (Vec<T>, Vec<usize>, usize))
        requires
            old(self).wf(),
            theirs.wf(),
            old(self).slots() + theirs.slots() <= usize::MAX,
        ensures
            final(self).wf(),
            r.2 == old(self).nodes@.len(),
            r.0@ == theirs@,
            r.1@ == theirs.chain@,
            final(self).chain@ == old(self).chain@,
            final(self)@ == old(self)@,
            final(self).tag.entries() == old(self).tag.entries() + rebase(theirs.tag.entries(), r.2 as int),
            final(self).nodes@.len() == r.2 + theirs.nodes@.len(),
            forall|t: int| 0 <= t < r.2 ==> #[trigger] final(self).nodes@[t] == old(self).nodes@[t],
            forall|t: int|
                0 <= t < theirs.nodes@.len() ==> (#[trigger] final(self).nodes@[r.2 + t]).element is None
                    && final(self).nodes@[r.2 + t].tag == theirs.nodes@[t].tag,
            forall|t: int|
                0 <= t < r.2 ==> #[trigger] in_pool(final(self).free.view(), t) == in_pool(
                    old(self).free.view(),
                    t,
                ),
            forall|t: int|
                0 <= t < theirs.nodes@.len() && in_pool(final(self).free.view(), r.2 + t) ==> #[trigger] in_pool(
                    theirs.free.view(),
                    t,
                ),
            forall|i: int| 0 <= i < theirs.chain@.len() ==> 2 <= #[trigger] theirs.chain@[i] < theirs.nodes@.len(),
            forall|i: int, j: int| 0 <= i < j < theirs.chain@.len() ==> theirs.chain@[i] != theirs.chain@[j],
            forall|i: int| 0 <= i < theirs.chain@.len() ==> !#[trigger] in_pool(theirs.free.view(), theirs.chain@[i] as int),
            final(self).chain@.len() + final(self).free.view().len() + 2 + theirs.chain@.len()
                <= final(self).nodes@.len(),
    {
        let ghost a0 = *self;
        let ghost b0 = theirs;
        let mut theirs = theirs;
        let (elems, slots) = theirs.take_elements();
        let base = self.nodes.len();
        let LinkedList { tag: their_tag, nodes: mut their_nodes, free: their_free, chain: _ } = theirs;
        let ghost nb = their_nodes@;
        proof {
            reveal(pool_ok);
            assert forall|k: int| 0 <= k < their_free.view().len() implies #[trigger] their_free.view()[k]
                + base <= usize::MAX by {
                assert(their_free.view()[k] < nb.len());
            }
            assert forall|k: int| 0 <= k < their_tag.entries().len() implies #[trigger] their_tag.entries()[k].1
                + base <= usize::MAX by {
                assert(b0.tag.entries()[k].1 < nb.len());
            }
            reveal(chain_ok);
            reveal(distinct);
            assert forall|i: int| 0 <= i < b0.chain@.len() implies !#[trigger] in_pool(b0.free.view(), b0.chain@[i] as int) by {
                lemma_not_in_pool(b0.nodes@, b0.free.view(), b0.chain@[i]);
            }
        }
        self.nodes.append(&mut their_nodes);
        self.free.merge(their_free, base);
        self.tag.merge(their_tag, base);
        proof {
            let n = self.nodes@;
            assert forall|t: int| 0 <= t < a0.nodes@.len() implies #[trigger] n[t] == a0.nodes@[t] by {}
            assert forall|t: int| a0.nodes@.len() <= t < n.len() implies (#[trigger] n[t]).element is None by {
                assert(n[t] == nb[t - base]);
            }
            lemma_links_extend(a0.nodes@, n, a0.chain@);
            assert forall|t: int| 0 <= t < nb.len() implies (#[trigger] n[base + t]).element is None
                && n[base + t].tag == b0.nodes@[t].tag by {
                assert(n[base + t] == nb[t]);
            }
            assert(pool_ok(nb, b0.free.view())) by {
                reveal(pool_ok);
                assert forall|k: int| 0 <= k < b0.free.view().len() implies 2 <= #[trigger] b0.free.view()[k]
                    < nb.len() && nb[b0.free.view()[k] as int].element is None by {
                    assert(b0.free.view()[k] < b0.nodes@.len());
                }
            }
            lemma_pool_absorb(a0.nodes@, nb, n, a0.free.view(), b0.free.view(), self.free.view());
            assert forall|k: int| 0 <= k < self.tag.entries().len() implies (#[trigger] self.tag.entries()[k]).1
                < n.len() by {
                if k >= a0.tag.entries().len() {
                    assert(self.tag.entries()[k] == rebase(b0.tag.entries(), base as int)[k
                        - a0.tag.entries().len()]);
                    assert(b0.tag.entries()[k - a0.tag.entries().len()].1 < nb.len());
                } else {
                    assert(self.tag.entries()[k] == a0.tag.entries()[k]);
                }
            }
            assert(self@ =~= a0@) by {
                reveal(chain_ok);
                assert forall|i: int| 0 <= i < a0.chain@.len() implies self.nodes@[a0.chain@[i] as int]
                    == a0.nodes@[a0.chain@[i] as int] by {
                    assert(a0.chain@[i] < base);
                }
            }
        }
        (elems, slots, base)
    }

    proof fn lemma_merged_indices(a0: Self, b0: Self, b: Self, base: int)
        requires
            a0.wf(),
            b0.wf(),
            b.wf(),
            base == a0.nodes@.len(),
            b.nodes@.len() == base + b0.nodes@.len(),
            b.tag.entries() == a0.tag.entries() + rebase(b0.tag.entries(), base),
            forall|t: int| 0 <= t < b0.tag.entries().len() ==> 0 <= #[trigger] b0.tag.entries()[t].1 + base <= usize::MAX,
            forall|t: int|
                0 <= t < base ==> (#[trigger] b.nodes@[t]).element == a0.nodes@[t].element
                    && b.nodes@[t].tag == a0.nodes@[t].tag,
            forall|t: int|
                0 <= t < base ==> #[trigger] in_pool(b.free.view(), t) == in_pool(a0.free.view(), t),
            forall|t: int|
                0 <= t < b0.nodes@.len() ==> (#[trigger] b.nodes@[base + t]).tag == b0.nodes@[t].tag,
            forall|i: int|
                0 <= i < b0.chain@.len() ==> (#[trigger] b.nodes@[base + b0.chain@[i]]).element == Some(
                    b0@[i],
                ),
        ensures
            a0.indices_kept(&b),
            a0.stale_kept(&b),
            forall|j: LinkedListIndex| #[trigger]
                b0.is_valid(j) && a0.check(j) == Err::<(), IndexError>(IndexError::ListTagMismatch)
                    ==> b.is_valid(j) && b.deref(j) == b0.deref(j),
    {
        assert forall|j: LinkedListIndex| #[trigger] a0.is_valid(j) implies b.is_valid(j) && b.deref(j)
            == a0.deref(j) by {
            lemma_lookup_append(a0.tag.entries(), rebase(b0.tag.entries(), base), j.list_tag);
            assert(a0.slot(j) == b.slot(j));
        }
        assert forall|j: LinkedListIndex| #[trigger] a0.at_end(j) implies b.at_end(j) by {
            lemma_lookup_append(a0.tag.entries(), rebase(b0.tag.entries(), base), j.list_tag);
        }
        assert forall|j: LinkedListIndex| #[trigger] a0.stale(j) implies b.stale(j) by {
            lemma_lookup_append(a0.tag.entries(), rebase(b0.tag.entries(), base), j.list_tag);
            assert(a0.slot(j) == b.slot(j));
        }
        assert forall|j: LinkedListIndex| #[trigger]
            b0.is_valid(j) && a0.check(j) == Err::<(), IndexError>(IndexError::ListTagMismatch) implies b.is_valid(j)
            && b.deref(j) == b0.deref(j) by {
            lemma_lookup_append(a0.tag.entries(), rebase(b0.tag.entries(), base), j.list_tag);
            lemma_lookup_rebase(b0.tag.entries(), base, j.list_tag);
            let tb = b0.slot(j)->0;
            assert(b.slot(j) == Some(base + tb));
            b0.lemma_slot_position(j);
            let i = b0.position(j);
            assert(b0.chain@[i] as int == tb);
            assert(b.nodes@[base + b0.chain@[i]].element == Some(b0@[i]));
        }
    }

    /// Moves every element of `rhs` in before the element `index` designates
    /// (or to the end), in their order. `rhs` is left empty, under a fresh
    /// identity. This list takes over the identities and the pool of `rhs`,
    /// so no index into either list is invalidated.
    pub fn merge(&mut self, rhs: &mut LinkedList<T>, index: LinkedListIndex)
        requires
            old(self).wf(),
            old(rhs).wf(),
            old(self).is_valid(index) || old(self).at_end(index),
            old(self).slots() + old(rhs).slots() <= usize::MAX,
        ensures
            final(self).wf(),
            final(rhs).wf(),
            final(self)@ == old(self)@.subrange(0, old(self).position(index)) + old(rhs)@ + old(self)@.subrange(old(self).position(index), old(self)@.len() as int),
            final(rhs)@ == Seq::<T>::empty(),
            final(self)@.len() == old(self)@.len() + old(rhs)@.len(),
            old(self).indices_kept(&*final(self)),
            old(self).stale_kept(&*final(self)),
            forall|j: LinkedListIndex| #[trigger]
                old(rhs).is_valid(j) && old(self).check(j) == Err::<(), IndexError>(
                    IndexError::ListTagMismatch,
                ) ==> final(self).is_valid(j) && final(self).deref(j) == old(rhs).deref(j),
    {
        let ghost p = self.position(index);
        proof {
            if self.is_valid(index) {
                self.lemma_slot_position(index);
            }
        }
        let next = self.slot_of(&index);
        let mut theirs = LinkedList::new();
        std::mem::swap(rhs, &mut theirs);
        let ghost a0 = *self;
        let ghost b0 = theirs;
        let ghost c = a0.chain@;
        let ghost cb = b0.chain@;
        let ghost va = a0@;
        let ghost vb = b0@;
        let ghost nb = b0.nodes@;
        let (mut elems, slots, base) = self.absorb(theirs);
        let ghost tg = self.tag;
        proof {
            assert(c.subrange(0, p) + cb.subrange(cb.len() as int, cb.len() as int).map_values(
                |t: usize| (t + base) as usize,
            ) + c.subrange(p, c.len() as int) =~= c);
            assert(va.subrange(0, p) + vb.subrange(vb.len() as int, vb.len() as int) + va.subrange(
                p,
                va.len() as int,
            ) =~= va);
            assert(elems@ =~= vb.subrange(0, vb.len() as int));
            assert forall|i: int| 0 <= i < cb.len() implies (#[trigger] self.nodes@[base + cb[i]]).element is None
                && !in_pool(self.free.view(), base + cb[i]) by {
                assert(2 <= cb[i] < nb.len());
                assert(!in_pool(b0.free.view(), cb[i] as int));
            }
            assert forall|t: int| 0 <= t < base implies (#[trigger] self.nodes@[t]).element == a0.nodes@[t].element
                && self.nodes@[t].tag == a0.nodes@[t].tag by {
                assert(self.nodes@[t] == a0.nodes@[t]);
            }
        }
        let mut cur = next;
        let mut k = slots.len();
        while k > 0
            invariant
                self.wf(),
                0 <= p <= c.len(),
                base == a0.nodes@.len(),
                self.nodes@.len() == base + nb.len(),
                nb.len() == b0.nodes@.len(),
                self.tag == tg,
                base + nb.len() <= usize::MAX,
                forall|t: int|
                    0 <= t < base ==> #[trigger] in_pool(self.free.view(), t) == in_pool(a0.free.view(), t),
                slots@ == cb,
                vb.len() == cb.len(),
                va == a0@,
                vb == b0@,
                va.len() == c.len(),
                k <= cb.len(),
                elems@ == vb.subrange(0, k as int),
                self.chain@ == c.subrange(0, p) + cb.subrange(k as int, cb.len() as int).map_values(
                    |t: usize| (t + base) as usize,
                ) + c.subrange(p, c.len() as int),
                self@ == va.subrange(0, p) + vb.subrange(k as int, vb.len() as int) + va.subrange(
                    p,
                    va.len() as int,
                ),
                cur == chain_next(self.chain@, p - 1),
                self.chain@.len() + self.free.view().len() + 2 + k <= self.nodes@.len(),
                forall|i: int| 0 <= i < cb.len() ==> 2 <= #[trigger] cb[i] < nb.len(),
                forall|i: int, j: int| 0 <= i < j < cb.len() ==> cb[i] != cb[j],
                forall|t: int|
                    0 <= t < base ==> (#[trigger] self.nodes@[t]).element == a0.nodes@[t].element
                        && self.nodes@[t].tag == a0.nodes@[t].tag,
                forall|t: int|
                    0 <= t < nb.len() ==> (#[trigger] self.nodes@[base + t]).tag == b0.nodes@[t].tag,
                forall|i: int|
                    k <= i < cb.len() ==> (#[trigger] self.nodes@[base + cb[i]]).element == Some(vb[i]),
                forall|i: int|
                    0 <= i < k ==> (#[trigger] self.nodes@[base + cb[i]]).element is None && !in_pool(
                        self.free.view(),
                        base + cb[i],
                    ),
            decreases k,
        {
            let e = elems.pop().unwrap();
            let s = base + slots[k - 1];
            let ghost vw = self@;
            let ghost nw = self.nodes@;
            proof {
                assert(cb[k - 1] < nb.len());
            }
            self.link_slot(s, e, cur, Ghost(p));
            proof {
                let ki = k - 1;
                assert(e == vb[ki]);
                assert(cb.subrange(ki, cb.len() as int).map_values(|t: usize| (t + base) as usize)
                    =~= seq![s].add(cb.subrange(k as int, cb.len() as int).map_values(
                    |t: usize| (t + base) as usize,
                )));
                assert(self.chain@ =~= c.subrange(0, p) + cb.subrange(ki, cb.len() as int).map_values(
                    |t: usize| (t + base) as usize,
                ) + c.subrange(p, c.len() as int));
                assert(vb.subrange(ki, vb.len() as int) =~= seq![vb[ki]] + vb.subrange(k as int, vb.len() as int));
                assert(self@ == vw.insert(p, e));
                lemma_insert_between(va.subrange(0, p), vb.subrange(k as int, vb.len() as int), va.subrange(p, va.len() as int), e);
                assert(self@ == va.subrange(0, p) + vb.subrange(ki, vb.len() as int) + va.subrange(
                    p,
                    va.len() as int,
                ));
                assert(elems@ =~= vb.subrange(0, ki));
                assert(self.chain@[p] == s);
                assert forall|i: int| ki <= i < cb.len() implies (#[trigger] self.nodes@[base
                    + cb[i]]).element == Some(vb[i]) by {
                    if i > ki {
                        assert(cb[i] != cb[ki]);
                    }
                }
                assert forall|i: int| 0 <= i < ki implies (#[trigger] self.nodes@[base + cb[i]]).element is None
                    && !in_pool(self.free.view(), base + cb[i]) by {
                    assert(cb[i] != cb[ki]);
                }
                assert forall|t: int| 0 <= t < nb.len() implies (#[trigger] self.nodes@[base + t]).tag
                    == b0.nodes@[t].tag by {
                    assert(self.nodes@[base + t].tag == nw[base + t].tag);
                }
            }
            cur = s;
            k = k - 1;
        }
        proof {
            assert(cb.subrange(0, cb.len() as int) =~= cb);
            assert(vb.subrange(0, vb.len() as int) =~= vb);
            Self::lemma_merged_indices(a0, b0, *self, base as int);
        }
    }
}

impl<T> IndexExt<LinkedListIndex> for LinkedList<T> {
    open spec fn index_ready(&self) -> bool {
        self.wf()
    }

    open spec fn spec_valid(&self, index: LinkedListIndex) -> bool {
        self.is_valid(index)
    }

    fn valid(&self, index: &LinkedListIndex) -> (r: bool) {
        LinkedList::valid(self, index)
    }
}

impl<T> ForwardIndex<LinkedListIndex> for LinkedList<T> {
    open spec fn spec_begin(&self) -> LinkedListIndex {
        self.first_index()
    }

    open spec fn can_increment(&self, index: LinkedListIndex) -> bool {
        self.check(index) is Ok || self.check(index) == Err::<(), IndexError>(IndexError::OutOfBounds)
    }

    open spec fn spec_increment(&self, index: LinkedListIndex) -> LinkedListIndex {
        self.step_forward(index)
    }

    open spec fn forward(&self, index: LinkedListIndex, n: nat) -> LinkedListIndex
        decreases n,
    {
        if n == 0 {
            index
        } else {
            self.spec_increment(self.forward(index, (n - 1) as nat))
        }
    }

    proof fn lemma_forward(&self, index: LinkedListIndex, n: nat) {
    }

    fn begin(&self) -> (r: LinkedListIndex) {
        LinkedList::begin(self)
    }

    fn increment(&self, index: &mut LinkedListIndex) {
        LinkedList::increment(self, index)
    }
}

impl<T> BackwardIndex<LinkedListIndex> for LinkedList<T> {
    open spec fn spec_end(&self) -> LinkedListIndex {
        self.last_index()
    }

    open spec fn can_decrement(&self, index: LinkedListIndex) -> bool {
        self.check(index) is Ok || self.check(index) == Err::<(), IndexError>(IndexError::OutOfBounds)
    }

    open spec fn spec_decrement(&self, index: LinkedListIndex) -> LinkedListIndex {
        self.step_back(index)
    }

    open spec fn backward(&self, index: LinkedListIndex, n: nat) -> LinkedListIndex
        decreases n,
    {
        if n == 0 {
            index
        } else {
            self.spec_decrement(self.backward(index, (n - 1) as nat))
        }
    }

    proof fn lemma_backward(&self, index: LinkedListIndex, n: nat) {
    }

    fn end(&self) -> (r: LinkedListIndex) {
        LinkedList::end(self)
    }

    fn decrement(&self, index: &mut LinkedListIndex) {
        LinkedList::decrement(self, index)
    }
}

} // verus!
