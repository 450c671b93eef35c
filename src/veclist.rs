//! A linked list in a vector of slots, with plain slot numbers as indices.
use vstd::prelude::*;

use crate::chain::{
    ListNode, FIRST, LAST, INVALID, chain_next, links_ok, chain_ok, distinct, live_on_chain,
    pool_ok, lemma_chain_at, lemma_neighbors_differ, lemma_gap, lemma_live_position,
    lemma_not_on_chain, lemma_pool_at, lemma_pool_take, lemma_pool_member, lemma_not_in_pool,
    lemma_pool_release, lemma_same_shape, lemma_link_insert, lemma_link_remove,
};
use crate::index::{IndexExt, ForwardIndex, BackwardIndex};
use crate::vecmem::{vec_capacity, vec_reserve_exact};

verus! {

/// A position in a [`VecList`]: the slot of an element, or one of the two
/// ends. Nothing checks it: it designates its element only while that element
/// is in the list.
#[derive(Clone, Copy, PartialEq, Eq, Debug, Structural)]
pub struct VecListIndex {
    index: usize,
}

/// A doubly linked list kept in a vector of slots. An index is a slot number,
/// which stays put while other elements come and go; freed slots are used
/// again.
#[derive(Clone)]
pub struct VecList<T> {
    elements: Vec<ListNode<T>>,
    free: Vec<usize>,
    chain: Ghost<Seq<usize>>,
}

proof fn lemma_chain_facts<T>(n: Seq<ListNode<T>>, c: Seq<usize>)
    requires
        links_ok(n, c),
    ensures
        forall|i: int, j: int| 0 <= i < j < c.len() ==> c[i] != c[j],
        forall|i: int| 0 <= i < c.len() ==> 2 <= #[trigger] c[i],
{
    reveal(distinct);
    reveal(chain_ok);
}

impl<T> View for VecList<T> {
    type V = Seq<T>;

    /// The elements, first to last.
    closed spec fn view(&self) -> Seq<T> {
        self.chain@.map_values(|s: usize| self.elements@[s as int].element->0)
    }
}

impl<T> VecList<T> {
    /// The links follow the chain of live slots, and every other slot but
    /// the sentinels is in the pool.
    pub closed spec fn wf(&self) -> bool {
        &&& 2 <= self.elements@.len() <= usize::MAX
        &&& self.chain@.len() + self.free@.len() + 2 == self.elements@.len()
        &&& self.elements@[FIRST as int].prev == INVALID
        &&& self.elements@[LAST as int].next == INVALID
        &&& links_ok(self.elements@, self.chain@)
        &&& pool_ok(self.elements@, self.free@)
    }

    /// `idx` designates an element of the list.
    pub closed spec fn designates(&self, idx: VecListIndex) -> bool {
        2 <= idx.index < self.elements@.len() && self.elements@[idx.index as int].element is Some
    }

    /// `idx` stands before the first element.
    pub closed spec fn at_front(&self, idx: VecListIndex) -> bool {
        idx.index == FIRST
    }

    /// `idx` stands after the last element.
    pub closed spec fn at_end(&self, idx: VecListIndex) -> bool {
        idx.index == LAST
    }

    /// `idx` was stepped past one of the ends.
    pub closed spec fn is_past(&self, idx: VecListIndex) -> bool {
        idx.index == INVALID
    }

    /// Where `increment` moves `idx`.
    pub closed spec fn step_forward(&self, idx: VecListIndex) -> VecListIndex {
        VecListIndex { index: self.elements@[idx.index as int].next }
    }

    /// Where `decrement` moves `idx`.
    pub closed spec fn step_back(&self, idx: VecListIndex) -> VecListIndex {
        VecListIndex { index: self.elements@[idx.index as int].prev }
    }

    /// The index `begin` returns.
    pub closed spec fn front_index(&self) -> VecListIndex {
        VecListIndex { index: FIRST }
    }

    /// The index `end` returns.
    pub closed spec fn end_index(&self) -> VecListIndex {
        VecListIndex { index: LAST }
    }

    /// The position in `self@` of the element `idx` designates; the length
    /// for an index at the end.
    pub closed spec fn position(&self, idx: VecListIndex) -> int {
        if idx.index == LAST {
            self.chain@.len() as int
        } else {
            choose|i: int| 0 <= i < self.chain@.len() && self.chain@[i] == idx.index
        }
    }

    /// The kinds of index are apart, and each has its position.
    pub proof fn lemma_index_kinds(&self, idx: VecListIndex)
        requires
            self.wf(),
        ensures
            self.designates(idx) ==> !self.at_front(idx) && !self.at_end(idx) && 0 <= self.position(idx)
                < self@.len(),
            self.at_end(idx) ==> !self.at_front(idx) && self.position(idx) == self@.len(),
            self.is_past(idx) ==> !self.at_front(idx) && !self.at_end(idx) && !self.designates(idx),
            forall|j: VecListIndex| #[trigger] self.at_front(j) && self.at_front(idx) ==> j == idx,
            forall|j: VecListIndex| #[trigger] self.at_end(j) && self.at_end(idx) ==> j == idx,
            self.at_front(self.front_index()),
            self.at_end(self.end_index()),
    {
        if self.designates(idx) {
            self.lemma_slot_position(idx);
        }
    }

    proof fn lemma_slot_position(&self, idx: VecListIndex)
        requires
            self.wf(),
            self.designates(idx),
        ensures
            0 <= self.position(idx) < self.chain@.len(),
            self.chain@[self.position(idx)] == idx.index,
            self@[self.position(idx)] == self.elements@[idx.index as int].element->0,
            !self.at_end(idx),
            !self.at_front(idx),
    {
        let p = lemma_live_position(self.elements@, self.chain@, idx.index as int);
        assert(self.chain@[p] == idx.index);
    }

    proof fn lemma_position_of(&self, idx: VecListIndex, p: int)
        requires
            self.wf(),
            0 <= p < self.chain@.len(),
            idx.index == self.chain@[p],
        ensures
            self.position(idx) == p,
            self.designates(idx),
    {
        reveal(distinct);
        lemma_chain_at(self.elements@, self.chain@, p);
        let q = self.position(idx);
        assert(0 <= q < self.chain@.len() && self.chain@[q] == idx.index);
        if q < p {
            assert(self.chain@[q] != self.chain@[p]);
        } else if q > p {
            assert(self.chain@[p] != self.chain@[q]);
        }
    }

    /// An empty list.
    pub fn new() -> (r: Self)
        ensures
            r.wf(),
            r@ == Seq::<T>::empty(),
    {
        VecList::with_capacity(0)
    }

    /// An empty list with room for `capacity` elements.
    pub fn with_capacity(capacity: usize) -> (r: Self)
        requires
            capacity <= usize::MAX - 2,
        ensures
            r.wf(),
            r@ == Seq::<T>::empty(),
    {
        let mut elements: Vec<ListNode<T>> = Vec::with_capacity(capacity + 2);
        elements.push(ListNode { element: None, tag: 0, next: LAST, prev: INVALID });
        elements.push(ListNode { element: None, tag: 0, next: INVALID, prev: FIRST });
        let _ = elements.len();
        let r = VecList { elements, free: Vec::new(), chain: Ghost(Seq::empty()) };
        proof {
            reveal(chain_ok);
            reveal(distinct);
            reveal(live_on_chain);
            reveal(pool_ok);
        }
        assert(r@ =~= Seq::<T>::empty());
        r
    }

    /// How many elements fit without the slot vector growing.
    pub fn capacity(&self) -> (r: usize)
        requires
            self.wf(),
        ensures
            r >= self@.len(),
    {
        vec_capacity(&self.elements) - 2
    }

    /// Makes room for at least `additional` more slots.
    pub fn reserve(&mut self, additional: usize)
        requires
            old(self).wf(),
        ensures
            final(self).wf(),
            final(self)@ == old(self)@,
    {
        self.elements.reserve(additional);
    }

    /// Makes room for `additional` more slots, and no more.
    pub fn reserve_exact(&mut self, additional: usize)
        requires
            old(self).wf(),
        ensures
            final(self).wf(),
            final(self)@ == old(self)@,
    {
        vec_reserve_exact(&mut self.elements, additional);
    }

    /// The number of elements.
    pub fn len(&self) -> (r: usize)
        requires
            self.wf(),
        ensures
            r == self@.len(),
            r <= usize::MAX - 2,
    {
        self.elements.len() - self.free.len() - 2
    }

    proof fn lemma_view_insert(a: Self, b: Self, p: int, s: usize, e: T)
        requires
            a.wf(),
            0 <= p <= a.chain@.len(),
            b.chain@ == a.chain@.insert(p, s),
            s >= a.elements@.len() || a.elements@[s as int].element is None,
            b.elements@.len() >= a.elements@.len(),
            b.elements@[s as int].element == Some(e),
            forall|t: int|
                0 <= t < a.elements@.len() && t != s ==> (#[trigger] b.elements@[t]).element
                    == a.elements@[t].element,
        ensures
            b@ == a@.insert(p, e),
    {
        reveal(chain_ok);
        lemma_not_on_chain(a.elements@, a.chain@, s);
        let c = a.chain@;
        assert forall|i: int| 0 <= i < b@.len() implies b@[i] == a@.insert(p, e)[i] by {
            if i < p {
                assert(b.chain@[i] == c[i]);
                assert(c[i] != s);
            } else if i > p {
                assert(b.chain@[i] == c[i - 1]);
                assert(c[i - 1] != s);
            }
        }
        assert(b@ =~= a@.insert(p, e));
    }

    proof fn lemma_view_remove(a: Self, b: Self, p: int)
        requires
            a.wf(),
            0 <= p < a.chain@.len(),
            b.chain@ == a.chain@.remove(p),
            b.elements@.len() == a.elements@.len(),
            forall|t: int|
                0 <= t < a.elements@.len() && t != a.chain@[p] ==> (#[trigger] b.elements@[t]).element
                    == a.elements@[t].element,
        ensures
            b@ == a@.remove(p),
    {
        reveal(chain_ok);
        reveal(distinct);
        let c = a.chain@;
        assert forall|i: int| 0 <= i < b@.len() implies b@[i] == a@.remove(p)[i] by {
            if i < p {
                assert(b.chain@[i] == c[i]);
                assert(c[i] != c[p]);
            } else {
                assert(b.chain@[i] == c[i + 1]);
                assert(c[p] != c[i + 1]);
            }
        }
        assert(b@ =~= a@.remove(p));
    }

    /// Puts `element` in a free slot, or a new one, just before slot `next`,
    /// which stands at chain position `p`; returns the slot.
    fn link_before(&mut self, next: usize, element: T, Ghost(p): Ghost<int>) -> (r: usize)
        requires
            old(self).wf(),
            0 <= p <= old(self).chain@.len(),
            next == chain_next(old(self).chain@, p - 1),
        ensures
            final(self).wf(),
            final(self).chain@ == old(self).chain@.insert(p, r),
            final(self)@ == old(self)@.insert(p, element),
            2 <= r < final(self).elements@.len(),
            final(self).elements@.len() >= old(self).elements@.len(),
            r < old(self).elements@.len() ==> old(self).elements@[r as int].element is None,
            forall|t: int|
                0 <= t < old(self).elements@.len() && t != r ==> (#[trigger] final(self).elements@[t]).element
                    == old(self).elements@[t].element,
    {
        let ghost c = self.chain@;
        let ghost n0 = self.elements@;
        let ghost f0 = self.free@;
        proof {
            lemma_gap(n0, c, p);
            if f0.len() > 0 {
                lemma_pool_at(n0, f0, f0.len() - 1);
            }
        }
        let prev = self.elements[next].prev;
        let s = match self.free.pop() {
            Some(x) => {
                self.elements[x] = ListNode { element: Some(element), tag: 0, next, prev };
                x
            },
            None => {
                let len = self.elements.len();
                self.elements.push(ListNode { element: Some(element), tag: 0, next, prev });
                len
            },
        };
        self.elements[prev].next = s;
        self.elements[next].prev = s;
        let _ = self.elements.len();
        self.chain = Ghost(c.insert(p, s));
        proof {
            let n = self.elements@;
            lemma_link_insert(n0, n, c, p, s);
            lemma_pool_take(n0, n, f0, self.free@, s);
            if prev != FIRST {
                assert(n[FIRST as int] == n0[FIRST as int]);
            }
            if next != LAST {
                assert(n[LAST as int] == n0[LAST as int]);
            }
            if s < n0.len() {
                lemma_pool_member(n0, f0, s);
            }
            Self::lemma_view_insert(*old(self), *self, p, s, element);
        }
        s
    }

    /// Unlinks the slot at chain position `p`, puts it in the pool, and hands
    /// back its element.
    fn unlink(&mut self, s: usize, Ghost(p): Ghost<int>) -> (r: T)
        requires
            old(self).wf(),
            0 <= p < old(self).chain@.len(),
            s == old(self).chain@[p],
        ensures
            final(self).wf(),
            final(self).chain@ == old(self).chain@.remove(p),
            final(self)@ == old(self)@.remove(p),
            r == old(self)@[p],
            final(self).elements@.len() == old(self).elements@.len(),
            forall|t: int|
                0 <= t < old(self).elements@.len() && t != s ==> (#[trigger] final(self).elements@[t]).element
                    == old(self).elements@[t].element,
    {
        let ghost c = self.chain@;
        let ghost n0 = self.elements@;
        let ghost f0 = self.free@;
        proof {
            lemma_chain_at(n0, c, p);
            lemma_gap(n0, c, p);
            lemma_gap(n0, c, p + 1);
            lemma_neighbors_differ(n0, c, p);
            lemma_not_in_pool(n0, f0, s);
        }
        let prev = self.elements[s].prev;
        let next = self.elements[s].next;
        let e = self.elements[s].element.take();
        self.elements[prev].next = next;
        self.elements[next].prev = prev;
        self.elements[s].next = INVALID;
        self.elements[s].prev = INVALID;
        self.free.push(s);
        self.chain = Ghost(c.remove(p));
        proof {
            let n = self.elements@;
            lemma_link_remove(n0, n, c, p);
            lemma_pool_release(n0, n, f0, self.free@, s);
            if prev != FIRST {
                assert(n[FIRST as int] == n0[FIRST as int]);
            }
            if next != LAST {
                assert(n[LAST as int] == n0[LAST as int]);
            }
            Self::lemma_view_remove(*old(self), *self, p);
        }
        e.unwrap()
    }

    /// The slot of `index`, given that it designates an element or the end,
    /// with its position.
    fn insertion_slot(&self, index: VecListIndex) -> (r: usize)
        requires
            self.wf(),
            self.designates(index) || self.at_end(index),
        ensures
            r == index.index,
            0 <= self.position(index) <= self@.len(),
            r == chain_next(self.chain@, self.position(index) - 1),
    {
        proof {
            if self.designates(index) {
                self.lemma_slot_position(index);
            }
        }
        index.index
    }

    /// Inserts `element` just before the element `next` designates, or at the
    /// end for an index at the end.
    pub fn insert(&mut self, next: VecListIndex, element: T)
        requires
            old(self).wf(),
            old(self).designates(next) || old(self).at_end(next),
        ensures
            final(self).wf(),
            final(self)@ == old(self)@.insert(old(self).position(next), element),
    {
        let ghost p = self.position(next);
        let s = self.insertion_slot(next);
        let _ = self.link_before(s, element, Ghost(p));
    }

    /// Removes the element `index` designates and returns it.
    pub fn remove(&mut self, index: VecListIndex) -> (r: T)
        requires
            old(self).wf(),
            old(self).designates(index),
        ensures
            final(self).wf(),
            final(self)@ == old(self)@.remove(old(self).position(index)),
            r == old(self)@[old(self).position(index)],
    {
        let ghost p = self.position(index);
        proof {
            self.lemma_slot_position(index);
        }
        self.unlink(index.index, Ghost(p))
    }

    /// Appends `value`.
    pub fn push_back(&mut self, value: T)
        requires
            old(self).wf(),
        ensures
            final(self).wf(),
            final(self)@ == old(self)@.push(value),
    {
        let ghost p = self.chain@.len() as int;
        let _ = self.link_before(LAST, value, Ghost(p));
        assert(old(self)@.insert(p, value) =~= old(self)@.push(value));
    }

    /// Puts `value` in front of the first element.
    pub fn push_front(&mut self, value: T)
        requires
            old(self).wf(),
        ensures
            final(self).wf(),
            final(self)@ == old(self)@.insert(0, value),
    {
        proof {
            lemma_gap(self.elements@, self.chain@, 0);
        }
        let next = self.elements[FIRST].next;
        let _ = self.link_before(next, value, Ghost(0));
    }

    /// Removes the last element and returns it.
    pub fn pop_back(&mut self) -> (r: T)
        requires
            old(self).wf(),
            old(self)@.len() > 0,
        ensures
            final(self).wf(),
            final(self)@ == old(self)@.drop_last(),
            r == old(self)@.last(),
    {
        let ghost p = self.chain@.len() - 1;
        proof {
            lemma_gap(self.elements@, self.chain@, self.chain@.len() as int);
        }
        let at = self.elements[LAST].prev;
        let r = self.unlink(at, Ghost(p));
        assert(old(self)@.remove(p) =~= old(self)@.drop_last());
        r
    }

    /// Removes the first element and returns it.
    pub fn pop_front(&mut self) -> (r: T)
        requires
            old(self).wf(),
            old(self)@.len() > 0,
        ensures
            final(self).wf(),
            final(self)@ == old(self)@.subrange(1, old(self)@.len() as int),
            r == old(self)@[0],
    {
        proof {
            lemma_gap(self.elements@, self.chain@, 0);
        }
        let at = self.elements[FIRST].next;
        let r = self.unlink(at, Ghost(0));
        assert(old(self)@.remove(0) =~= old(self)@.subrange(1, old(self)@.len() as int));
        r
    }

    /// Whether `idx` has not been stepped past either end.
    pub fn valid(&self, idx: &VecListIndex) -> (r: bool)
        ensures
            r == !self.is_past(*idx),
    {
        idx.index != INVALID
    }

    /// The index before the first element.
    pub fn begin(&self) -> (r: VecListIndex)
        ensures
            self.at_front(r),
            r == self.front_index(),
    {
        VecListIndex { index: FIRST }
    }

    /// The index after the last element.
    pub fn end(&self) -> (r: VecListIndex)
        ensures
            self.at_end(r),
            r == self.end_index(),
    {
        VecListIndex { index: LAST }
    }

    /// Steps `idx` to the next position: from before the first element to
    /// the first, from an element to the one after it (or to the end), and
    /// from the end past it.
    pub fn increment(&self, idx: &mut VecListIndex)
        requires
            self.wf(),
            self.designates(*old(idx)) || self.at_front(*old(idx)) || self.at_end(*old(idx)),
        ensures
            self.at_front(*old(idx)) && self@.len() > 0 ==> self.designates(*final(idx))
                && self.position(*final(idx)) == 0,
            self.at_front(*old(idx)) && self@.len() == 0 ==> self.at_end(*final(idx)),
            self.designates(*old(idx)) && self.position(*old(idx)) + 1 < self@.len()
                ==> self.designates(*final(idx)) && self.position(*final(idx)) == self.position(*old(idx)) + 1,
            self.designates(*old(idx)) && self.position(*old(idx)) + 1 == self@.len()
                ==> self.at_end(*final(idx)),
            self.at_end(*old(idx)) ==> self.is_past(*final(idx)),
            *final(idx) == self.step_forward(*old(idx)),
    {
        let ghost c = self.chain@;
        let ghost p: int = if self.designates(*idx) {
            self.position(*idx)
        } else {
            -1
        };
        proof {
            reveal(chain_ok);
            if self.designates(*idx) {
                self.lemma_slot_position(*idx);
            }
            lemma_gap(self.elements@, c, p + 1);
        }
        idx.index = self.elements[idx.index].next;
        proof {
            if 0 <= p + 1 < c.len() && !self.at_end(*old(idx)) {
                self.lemma_position_of(*idx, p + 1);
            }
        }
    }

    /// Steps `idx` to the previous position: from after the last element to
    /// the last, from an element to the one before it (or to the front), and
    /// from the front past it.
    pub fn decrement(&self, idx: &mut VecListIndex)
        requires
            self.wf(),
            self.designates(*old(idx)) || self.at_front(*old(idx)) || self.at_end(*old(idx)),
        ensures
            self.at_end(*old(idx)) && self@.len() > 0 ==> self.designates(*final(idx))
                && self.position(*final(idx)) == self@.len() - 1,
            self.at_end(*old(idx)) && self@.len() == 0 ==> self.at_front(*final(idx)),
            self.designates(*old(idx)) && self.position(*old(idx)) > 0 ==> self.designates(*final(idx))
                && self.position(*final(idx)) == self.position(*old(idx)) - 1,
            self.designates(*old(idx)) && self.position(*old(idx)) == 0 ==> self.at_front(*final(idx)),
            self.at_front(*old(idx)) ==> self.is_past(*final(idx)),
            *final(idx) == self.step_back(*old(idx)),
    {
        let ghost c = self.chain@;
        let ghost p: int = if self.designates(*idx) {
            self.position(*idx)
        } else {
            c.len() as int
        };
        proof {
            reveal(chain_ok);
            if self.designates(*idx) {
                self.lemma_slot_position(*idx);
            }
            lemma_gap(self.elements@, c, p);
        }
        idx.index = self.elements[idx.index].prev;
        proof {
            if 0 <= p - 1 < c.len() && !self.at_front(*old(idx)) {
                self.lemma_position_of(*idx, p - 1);
            }
        }
    }

    /// The element `index` designates.
    pub fn get(&self, index: VecListIndex) -> (r: &T)
        requires
            self.wf(),
            self.designates(index),
        ensures
            *r == self@[self.position(index)],
    {
        proof {
            self.lemma_slot_position(index);
        }
        self.elements[index.index].element.as_ref().unwrap()
    }

    proof fn lemma_update_in_place(a: Self, b: Self, p: int, v: T)
        requires
            a.wf(),
            0 <= p < a.chain@.len(),
            b.chain == a.chain,
            b.free == a.free,
            b.elements@ == a.elements@.update(a.chain@[p] as int, b.elements@[a.chain@[p] as int]),
            b.elements@[a.chain@[p] as int].element == Some(v),
            b.elements@[a.chain@[p] as int].prev == a.elements@[a.chain@[p] as int].prev,
            b.elements@[a.chain@[p] as int].next == a.elements@[a.chain@[p] as int].next,
        ensures
            b.wf(),
            b@ == a@.update(p, v),
    {
        lemma_chain_at(a.elements@, a.chain@, p);
        lemma_same_shape(a.elements@, b.elements@, a.chain@, a.free@);
        assert forall|i: int| 0 <= i < b@.len() implies b@[i] == a@.update(p, v)[i] by {
            lemma_chain_at(a.elements@, a.chain@, i);
            if i != p {
                assert(a.chain@[i] != a.chain@[p]) by {
                    reveal(distinct);
                }
            }
        }
        assert(b@ =~= a@.update(p, v));
    }

    /// The element `index` designates, to change in place.
    pub fn get_mut(&mut self, index: VecListIndex) -> (r: &mut T)
        requires
            old(self).wf(),
            old(self).designates(index),
        ensures
            *r == old(self)@[old(self).position(index)],
            final(self).wf(),
            final(self)@ == old(self)@.update(old(self).position(index), *final(r)),
    {
        let ghost p = self.position(index);
        proof {
            self.lemma_slot_position(index);
        }
        let node = &mut self.elements[index.index];
        let r = node.element.as_mut().unwrap();
        proof {
            Self::lemma_update_in_place(*old(self), after_borrow(*self), p, *final(r));
        }
        r
    }

    /// A walk over the elements, first to last.
    pub fn iter(&self) -> (r: Iter<'_, T>)
        requires
            self.wf(),
        ensures
            r.wf(),
            r.rest() == self@,
    {
        proof {
            lemma_gap(self.elements@, self.chain@, 0);
            if self.chain@.len() > 0 {
                self.lemma_position_of(VecListIndex { index: self.chain@[0] }, 0);
            }
        }
        let r = Iter::new(self, VecListIndex { index: self.elements[FIRST].next });
        assert(self@.subrange(0, self@.len() as int) =~= self@);
        r
    }

    /// The elements, handed out first to last.
    pub fn into_iter(self) -> (r: IntoIter<T>)
        requires
            self.wf(),
        ensures
            r@ == self@,
    {
        IntoIter::new(self)
    }

    /// Takes every element out, first to last; the list is left empty.
    pub(crate) fn take_all(&mut self) -> (r: Vec<T>)
        requires
            old(self).wf(),
        ensures
            final(self).wf(),
            final(self)@ == Seq::<T>::empty(),
            r@ == old(self)@,
    {
        let ghost v = self@;
        let mut out: Vec<T> = Vec::new();
        while self.len() > 0
            invariant
                self.wf(),
                v == out@ + self@,
            decreases self@.len(),
        {
            let e = self.pop_front();
            proof {
                assert(v =~= out@.push(e) + self@);
            }
            out.push(e);
        }
        assert(v =~= out@);
        out
    }

    /// A list of `items`, in their order.
    pub fn from_vec(items: Vec<T>) -> (r: Self)
        ensures
            r.wf(),
            r@ == items@,
    {
        let ghost v = items@;
        let mut items = items;
        let mut list = VecList::new();
        while items.len() > 0
            invariant
                list.wf(),
                items@.len() <= v.len(),
                items@ == v.subrange(0, items@.len() as int),
                list@ == v.subrange(items@.len() as int, v.len() as int),
            decreases items@.len(),
        {
            let ghost k = items@.len() as int;
            let e = items.pop().unwrap();
            list.push_front(e);
            proof {
                assert(items@ =~= v.subrange(0, k - 1));
                assert(list@ =~= v.subrange(k - 1, v.len() as int));
            }
        }
        proof {
            assert(list@ =~= v);
        }
        list
    }

    /// Lays the elements out afresh, in order, with no free slot left. Every
    /// index issued before may designate another element afterwards.
    pub fn gc(&mut self)
        requires
            old(self).wf(),
        ensures
            final(self).wf(),
            final(self)@ == old(self)@,
    {
        let items = self.take_all();
        *self = VecList::from_vec(items);
    }

    /// Removes every element.
    pub fn clear(&mut self)
        requires
            old(self).wf(),
        ensures
            final(self).wf(),
            final(self)@ == Seq::<T>::empty(),
    {
        *self = VecList::new();
    }

    /// Removes the elements from the one `start` designates up to, not
    /// including, the one `end` designates (or the end), and returns them in
    /// their order.
    pub fn drain(&mut self, start: VecListIndex, end: VecListIndex) -> (r: DrainIter<T>)
        requires
            old(self).wf(),
            old(self).designates(start) || old(self).at_end(start),
            old(self).designates(end) || old(self).at_end(end),
            old(self).position(start) <= old(self).position(end),
        ensures
            final(self).wf(),
            final(self)@ == old(self)@.subrange(0, old(self).position(start)) + old(self)@.subrange(
                old(self).position(end),
                old(self)@.len() as int,
            ),
            r@ == old(self)@.subrange(old(self).position(start), old(self).position(end)),
    {
        DrainIter::new(self.drain_vec(start, end))
    }

    /// What `drain` hands out, as a vector.
    #[verifier::rlimit(40)]
    pub(crate) fn drain_vec(&mut self, start: VecListIndex, end: VecListIndex) -> (r: Vec<T>)
        requires
            old(self).wf(),
            old(self).designates(start) || old(self).at_end(start),
            old(self).designates(end) || old(self).at_end(end),
            old(self).position(start) <= old(self).position(end),
        ensures
            final(self).wf(),
            final(self)@ == old(self)@.subrange(0, old(self).position(start)) + old(self)@.subrange(
                old(self).position(end),
                old(self)@.len() as int,
            ),
            r@ == old(self)@.subrange(old(self).position(start), old(self).position(end)),
    {
        let ghost ps = self.position(start);
        let ghost pe = self.position(end);
        let ghost v = self@;
        let ghost c0 = self.chain@;
        let cur0 = self.insertion_slot(start);
        let stop = self.insertion_slot(end);
        proof {
            lemma_chain_facts(self.elements@, c0);
        }
        let mut cur = cur0;
        let mut out: Vec<T> = Vec::new();
        assert(c0.subrange(0, ps) + c0.subrange(ps, c0.len() as int) =~= c0);
        assert(v.subrange(0, ps) + v.subrange(ps, v.len() as int) =~= v);
        while cur != stop
            invariant
                self.wf(),
                0 <= ps <= pe <= v.len(),
                v.len() == c0.len(),
                out@.len() <= pe - ps,
                out@ == v.subrange(ps, ps + out@.len()),
                self@ == v.subrange(0, ps) + v.subrange(ps + out@.len(), v.len() as int),
                self.chain@ == c0.subrange(0, ps) + c0.subrange(ps + out@.len(), c0.len() as int),
                cur == chain_next(self.chain@, ps - 1),
                stop == chain_next(c0, pe - 1),
                forall|i: int, j: int| 0 <= i < j < c0.len() ==> c0[i] != c0[j],
                forall|i: int| 0 <= i < c0.len() ==> 2 <= #[trigger] c0[i],
            decreases pe - ps - out@.len(),
        {
            let ghost k = out@.len() as int;
            let ghost ch = self.chain@;
            proof {
                if ps + k == pe {
                    assert(cur == stop);
                }
                assert(ps + k < pe);
                assert(ch[ps] == c0[ps + k]);
                lemma_chain_at(self.elements@, ch, ps);
            }
            let next = self.elements[cur].next;
            let e = self.unlink(cur, Ghost(ps));
            proof {
                assert(next == chain_next(ch, ps));
                assert(self.chain@ =~= c0.subrange(0, ps) + c0.subrange(ps + k + 1, c0.len() as int));
                assert(self@ =~= v.subrange(0, ps) + v.subrange(ps + k + 1, v.len() as int));
                assert(e == v[ps + k]);
            }
            out.push(e);
            cur = next;
            proof {
                assert(out@ =~= v.subrange(ps, ps + k + 1));
            }
        }
        proof {
            let k = out@.len() as int;
            if ps + k < pe {
                assert(c0[ps + k] != c0[pe]);
                assert(false);
            }
        }
        out
    }
}

/// Walks a [`VecList`] from a given position to the end, handing out references.
pub struct Iter<'a, T> {
    veclist: &'a VecList<T>,
    index: VecListIndex,
}

impl<'a, T> Iter<'a, T> {
    /// The walk stands on an element of a well-formed list, or is over.
    pub closed spec fn wf(&self) -> bool {
        &&& self.veclist.wf()
        &&& (self.veclist.at_end(self.index) || self.veclist.is_past(self.index) || self.veclist.designates(
            self.index,
        ))
    }

    /// The elements still to come, first to last.
    pub closed spec fn rest(&self) -> Seq<T> {
        if self.veclist.designates(self.index) {
            self.veclist@.subrange(self.veclist.position(self.index), self.veclist@.len() as int)
        } else {
            Seq::empty()
        }
    }

    /// A walk from `index`, which designates an element or is an end.
    pub fn new(veclist: &'a VecList<T>, index: VecListIndex) -> (r: Self)
        requires
            veclist.wf(),
            veclist.designates(index) || veclist.at_end(index) || veclist.is_past(index),
        ensures
            r.wf(),
            r.rest() == (if veclist.designates(index) {
                veclist@.subrange(veclist.position(index), veclist@.len() as int)
            } else {
                Seq::<T>::empty()
            }),
    {
        Iter { veclist, index }
    }

    /// The next element, if the walk is not over.
    pub fn next(&mut self) -> (r: Option<&'a T>)
        requires
            old(self).wf(),
        ensures
            final(self).wf(),
            old(self).rest().len() == 0 ==> r is None && final(self).rest().len() == 0,
            old(self).rest().len() > 0 ==> r is Some && *r->0 == old(self).rest()[0]
                && final(self).rest() == old(self).rest().subrange(1, old(self).rest().len() as int),
    {
        let n = self.index.index;
        let total = self.veclist.elements.len();
        if n == LAST || n == INVALID {
            proof {
                if n == LAST {
                    lemma_not_designated_end(*self.veclist, self.index);
                }
            }
            None
        } else {
            let ghost l = *self.veclist;
            let ghost p = l.position(self.index);
            proof {
                l.lemma_slot_position(self.index);
                lemma_chain_at(l.elements@, l.chain@, p);
                lemma_gap(l.elements@, l.chain@, p + 1);
            }
            self.index = VecListIndex { index: self.veclist.elements[n].next };
            proof {
                if p + 1 < l.chain@.len() {
                    l.lemma_position_of(self.index, p + 1);
                    assert(l@.subrange(p + 1, l@.len() as int) =~= l@.subrange(p, l@.len() as int).subrange(
                        1,
                        l@.len() - p,
                    ));
                } else {
                    lemma_not_designated_end(l, self.index);
                    assert(l@.subrange(p, l@.len() as int).subrange(1, l@.len() - p) =~= Seq::<T>::empty());
                }
            }
            Some(self.veclist.elements[n].element.as_ref().unwrap())
        }
    }
}

proof fn lemma_not_designated_end<T>(l: VecList<T>, idx: VecListIndex)
    requires
        l.wf(),
        l.at_end(idx),
    ensures
        !l.designates(idx),
{
}

/// The elements of a [`VecList`] it was made from, handed out first to last.
pub struct IntoIter<T> {
    rest: std::collections::VecDeque<T>,
}

impl<T> View for IntoIter<T> {
    type V = Seq<T>;

    /// What is still to come, first to last.
    closed spec fn view(&self) -> Seq<T> {
        self.rest@
    }
}

impl<T> IntoIter<T> {
    /// Hands out the elements of `veclist`, first to last.
    pub fn new(veclist: VecList<T>) -> (r: Self)
        requires
            veclist.wf(),
        ensures
            r@ == veclist@,
    {
        let mut veclist = veclist;
        let mut rest = std::collections::VecDeque::new();
        let ghost v = veclist@;
        while veclist.len() > 0
            invariant
                veclist.wf(),
                v == veclist@ + rest@,
            decreases veclist@.len(),
        {
            let e = veclist.pop_back();
            proof {
                assert(v =~= veclist@ + rest@.insert(0, e));
            }
            rest.push_front(e);
        }
        assert(v =~= rest@);
        IntoIter { rest }
    }

    /// The next element, if any is left.
    pub fn next(&mut self) -> (r: Option<T>)
        ensures
            old(self)@.len() == 0 ==> r is None && final(self)@ == old(self)@,
            old(self)@.len() > 0 ==> r == Some(old(self)@[0]) && final(self)@ == old(self)@.subrange(
                1,
                old(self)@.len() as int,
            ),
    {
        self.rest.pop_front()
    }
}

/// The elements drained from a [`VecList`], handed out first to last.
pub struct DrainIter<T> {
    rest: std::collections::VecDeque<T>,
}

impl<T> View for DrainIter<T> {
    type V = Seq<T>;

    /// What is still to come, first to last.
    closed spec fn view(&self) -> Seq<T> {
        self.rest@
    }
}

impl<T> DrainIter<T> {
    /// Hands out `items`, first to last.
    pub fn new(items: Vec<T>) -> (r: Self)
        ensures
            r@ == items@,
    {
        DrainIter { rest: deque_of(items) }
    }

    /// The next element, if any is left.
    pub fn next(&mut self) -> (r: Option<T>)
        ensures
            old(self)@.len() == 0 ==> r is None && final(self)@ == old(self)@,
            old(self)@.len() > 0 ==> r == Some(old(self)@[0]) && final(self)@ == old(self)@.subrange(
                1,
                old(self)@.len() as int,
            ),
    {
        self.rest.pop_front()
    }
}

/// The same elements in a double-ended queue, in order.
pub(crate) fn deque_of<T>(items: Vec<T>) -> (r: std::collections::VecDeque<T>)
    ensures
        r@ == items@,
{
        let ghost v = items@;
        let mut items = items;
        let mut rest = std::collections::VecDeque::new();
        while items.len() > 0
            invariant
                items@.len() <= v.len(),
                items@ == v.subrange(0, items@.len() as int),
                rest@ == v.subrange(items@.len() as int, v.len() as int),
            decreases items@.len(),
        {
            let ghost k = items@.len() as int;
            let e = items.pop().unwrap();
            rest.push_front(e);
            proof {
                assert(items@ =~= v.subrange(0, k - 1));
                assert(rest@ =~= v.subrange(k - 1, v.len() as int));
            }
        }
        assert(rest@ =~= v);
        rest
}

impl<T> IndexExt<VecListIndex> for VecList<T> {
    open spec fn index_ready(&self) -> bool {
        self.wf()
    }

    open spec fn spec_valid(&self, index: VecListIndex) -> bool {
        !self.is_past(index)
    }

    fn valid(&self, index: &VecListIndex) -> (r: bool) {
        VecList::valid(self, index)
    }
}

impl<T> ForwardIndex<VecListIndex> for VecList<T> {
    open spec fn spec_begin(&self) -> VecListIndex {
        self.front_index()
    }

    open spec fn can_increment(&self, index: VecListIndex) -> bool {
        self.designates(index) || self.at_front(index) || self.at_end(index)
    }

    open spec fn spec_increment(&self, index: VecListIndex) -> VecListIndex {
        self.step_forward(index)
    }

    open spec fn forward(&self, index: VecListIndex, n: nat) -> VecListIndex
        decreases n,
    {
        if n == 0 {
            index
        } else {
            self.spec_increment(self.forward(index, (n - 1) as nat))
        }
    }

    proof fn lemma_forward(&self, index: VecListIndex, n: nat) {
    }

    fn begin(&self) -> (r: VecListIndex) {
        VecList::begin(self)
    }

    fn increment(&self, index: &mut VecListIndex) {
        VecList::increment(self, index)
    }
}

impl<T> BackwardIndex<VecListIndex> for VecList<T> {
    open spec fn spec_end(&self) -> VecListIndex {
        self.end_index()
    }

    open spec fn can_decrement(&self, index: VecListIndex) -> bool {
        self.designates(index) || self.at_front(index) || self.at_end(index)
    }

    open spec fn spec_decrement(&self, index: VecListIndex) -> VecListIndex {
        self.step_back(index)
    }

    open spec fn backward(&self, index: VecListIndex, n: nat) -> VecListIndex
        decreases n,
    {
        if n == 0 {
            index
        } else {
            self.spec_decrement(self.backward(index, (n - 1) as nat))
        }
    }

    proof fn lemma_backward(&self, index: VecListIndex, n: nat) {
    }

    fn end(&self) -> (r: VecListIndex) {
        VecList::end(self)
    }

    fn decrement(&self, index: &mut VecListIndex) {
        VecList::decrement(self, index)
    }
}

} // verus!
