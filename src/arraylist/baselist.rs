//! A linked list in a vector of slots, bracketed by two values of its own.
use vstd::prelude::*;

use crate::index::{IndexExt, ForwardIndex, BackwardIndex};
use crate::veclist::{VecList, VecListIndex, deque_of};

verus! {

/// A position in a [`BaseList`]: one of its two bracketing values, an
/// element between them, or past either end.
#[derive(Clone, Copy, PartialEq, Eq, Debug, Structural)]
pub struct BaseListIndex {
    index: VecListIndex,
}

/// A doubly linked list in a vector of slots, bracketed by two values of its
/// own: one before the first element and one after the last. Indices are
/// slot numbers, which stay put while other elements come and go.
#[derive(Clone)]
pub struct BaseList<T> {
    list: VecList<T>,
    first: T,
    last: T,
}

impl<T> View for BaseList<T> {
    type V = Seq<T>;

    /// The bracketing value in front, the elements, and the one behind.
    closed spec fn view(&self) -> Seq<T> {
        seq![self.first] + self.list@ + seq![self.last]
    }
}

impl<T> BaseList<T> {
    pub closed spec fn wf(&self) -> bool {
        self.list.wf()
    }

    /// The elements between the two bracketing values.
    pub closed spec fn inner(&self) -> Seq<T> {
        self.list@
    }

    /// `idx` designates an entry of `self@`: a bracketing value or an element.
    pub closed spec fn designates(&self, idx: BaseListIndex) -> bool {
        self.list.designates(idx.index) || self.list.at_front(idx.index) || self.list.at_end(idx.index)
    }

    /// `idx` designates an element between the bracketing values.
    pub closed spec fn designates_inner(&self, idx: BaseListIndex) -> bool {
        self.list.designates(idx.index)
    }

    /// `idx` designates the value behind the last element.
    pub closed spec fn at_last(&self, idx: BaseListIndex) -> bool {
        self.list.at_end(idx.index)
    }

    /// `idx` was stepped past one of the ends.
    pub closed spec fn is_past(&self, idx: BaseListIndex) -> bool {
        self.list.is_past(idx.index)
    }

    /// Where `increment` moves `idx`.
    pub closed spec fn step_forward(&self, idx: BaseListIndex) -> BaseListIndex {
        BaseListIndex { index: self.list.step_forward(idx.index) }
    }

    /// Where `decrement` moves `idx`.
    pub closed spec fn step_back(&self, idx: BaseListIndex) -> BaseListIndex {
        BaseListIndex { index: self.list.step_back(idx.index) }
    }

    /// The index `begin` returns.
    pub closed spec fn front_index(&self) -> BaseListIndex {
        BaseListIndex { index: self.list.front_index() }
    }

    /// The index `end` returns.
    pub closed spec fn end_index(&self) -> BaseListIndex {
        BaseListIndex { index: self.list.end_index() }
    }

    /// The position in `self@` of what `idx` designates.
    pub closed spec fn position(&self, idx: BaseListIndex) -> int {
        if self.list.at_front(idx.index) {
            0
        } else {
            self.list.position(idx.index) + 1
        }
    }

    /// The view brackets the elements between the two values.
    pub proof fn lemma_inner(&self)
        ensures
            self@.len() == self.inner().len() + 2,
            self.inner() == self@.subrange(1, self@.len() - 1),
    {
        assert(self.inner() =~= self@.subrange(1, self@.len() - 1));
    }

    /// The kinds of index are apart, and each has its position.
    pub proof fn lemma_positions(&self, idx: BaseListIndex)
        requires
            self.wf(),
        ensures
            self.designates_inner(idx) ==> self.designates(idx) && 1 <= self.position(idx) <= self.inner().len()
                && !self.at_last(idx) && !self.is_past(idx),
            self.at_last(idx) ==> self.designates(idx) && self.position(idx) == self.inner().len() + 1
                && !self.designates_inner(idx) && !self.is_past(idx),
            self.designates(idx) && !self.designates_inner(idx) && !self.at_last(idx) ==> self.position(idx) == 0,
            self.designates(idx) ==> 0 <= self.position(idx) < self@.len() && !self.is_past(idx),
            forall|j: BaseListIndex| #[trigger] self.designates(j) && self.position(j) == 0 && self.designates(idx)
                && self.position(idx) == 0 ==> j == idx,
            forall|j: BaseListIndex| #[trigger] self.at_last(j) && self.at_last(idx) ==> j == idx,
            idx == self.front_index() ==> self.designates(idx) && self.position(idx) == 0,
            idx == self.end_index() ==> self.at_last(idx),
    {
        self.list.lemma_index_kinds(idx.index);
        assert forall|j: BaseListIndex| #[trigger] self.designates(j) && self.position(j) == 0 && self.designates(idx)
            && self.position(idx) == 0 implies j == idx by {
            self.list.lemma_index_kinds(j.index);
        }
        assert forall|j: BaseListIndex| #[trigger] self.at_last(j) && self.at_last(idx) implies j == idx by {
            self.list.lemma_index_kinds(j.index);
        }
    }

    /// A list of no elements between `begin` and `end`.
    pub fn new(begin: T, end: T) -> (r: Self)
        ensures
            r.wf(),
            r@ == seq![begin, end],
    {
        let r = BaseList { list: VecList::new(), first: begin, last: end };
        assert(r@ =~= seq![begin, end]);
        r
    }

    /// A list of no elements between `begin` and `end`, with room for
    /// `capacity` slots, the two bracketing ones included.
    pub fn with_capacity(begin: T, end: T, capacity: usize) -> (r: Self)
        ensures
            r.wf(),
            r@ == seq![begin, end],
    {
        let room = if capacity >= 2 {
            capacity - 2
        } else {
            0
        };
        let r = BaseList { list: VecList::with_capacity(room), first: begin, last: end };
        assert(r@ =~= seq![begin, end]);
        r
    }

    /// How many slots fit without the slot vector growing, the two
    /// bracketing ones included.
    pub fn capacity(&self) -> (r: usize)
        requires
            self.wf(),
        ensures
            r >= self@.len(),
    {
        let c = self.list.capacity();
        let _ = self.list.len();
        if c <= usize::MAX - 2 {
            c + 2
        } else {
            usize::MAX
        }
    }

    /// Makes room for at least `additional` more slots.
    pub fn reserve(&mut self, additional: usize)
        requires
            old(self).wf(),
        ensures
            final(self).wf(),
            final(self)@ == old(self)@,
    {
        self.list.reserve(additional);
    }

    /// Makes room for `additional` more slots, and no more.
    pub fn reserve_exact(&mut self, additional: usize)
        requires
            old(self).wf(),
        ensures
            final(self).wf(),
            final(self)@ == old(self)@,
    {
        self.list.reserve_exact(additional);
    }

    /// Lays the elements out afresh, in order, with no free slot left. Every
    /// index issued before may designate another entry afterwards.
    pub fn shrink_to_fit(&mut self)
        requires
            old(self).wf(),
        ensures
            final(self).wf(),
            final(self)@ == old(self)@,
    {
        self.list.gc();
    }

    /// Inserts `element` just before the element, or the value behind the
    /// last element, that `index` designates.
    pub fn insert(&mut self, index: BaseListIndex, element: T)
        requires
            old(self).wf(),
            old(self).designates_inner(index) || old(self).at_last(index),
        ensures
            final(self).wf(),
            final(self)@ == old(self)@.insert(old(self).position(index), element),
    {
        proof {
            self.list.lemma_index_kinds(index.index);
        }
        self.list.insert(index.index, element);
        assert(self@ =~= old(self)@.insert(old(self).position(index), element));
    }

    /// Removes the elements from the one `start` designates up to, not
    /// including, the entry `end` designates, and returns them in order.
    pub fn remove_between(&mut self, start: BaseListIndex, end: BaseListIndex) -> (r: Vec<T>)
        requires
            old(self).wf(),
            old(self).designates_inner(start),
            old(self).designates_inner(end) || old(self).at_last(end),
            old(self).position(start) <= old(self).position(end),
        ensures
            final(self).wf(),
            final(self)@ == old(self)@.subrange(0, old(self).position(start)) + old(self)@.subrange(
                old(self).position(end),
                old(self)@.len() as int,
            ),
            r@ == old(self)@.subrange(old(self).position(start), old(self).position(end)),
    {
        proof {
            self.list.lemma_index_kinds(start.index);
            self.list.lemma_index_kinds(end.index);
        }
        let r = self.list.drain_vec(start.index, end.index);
        assert(self@ =~= old(self)@.subrange(0, old(self).position(start)) + old(self)@.subrange(
            old(self).position(end),
            old(self)@.len() as int,
        ));
        assert(r@ =~= old(self)@.subrange(old(self).position(start), old(self).position(end)));
        r
    }

    /// Removes the element `index` designates and returns it.
    pub fn remove(&mut self, index: BaseListIndex) -> (r: T)
        requires
            old(self).wf(),
            old(self).designates_inner(index),
        ensures
            final(self).wf(),
            final(self)@ == old(self)@.remove(old(self).position(index)),
            r == old(self)@[old(self).position(index)],
    {
        proof {
            self.list.lemma_index_kinds(index.index);
        }
        let r = self.list.remove(index.index);
        assert(self@ =~= old(self)@.remove(old(self).position(index)));
        r
    }

    /// Appends `value` just before the value behind the last element.
    pub fn push_back(&mut self, value: T)
        requires
            old(self).wf(),
        ensures
            final(self).wf(),
            final(self)@ == old(self)@.insert(old(self)@.len() - 1, value),
    {
        self.list.push_back(value);
        assert(self@ =~= old(self)@.insert(old(self)@.len() - 1, value));
    }

    /// Puts `value` just after the value in front of the first element.
    pub fn push_front(&mut self, value: T)
        requires
            old(self).wf(),
        ensures
            final(self).wf(),
            final(self)@ == old(self)@.insert(1, value),
    {
        self.list.push_front(value);
        assert(self@ =~= old(self)@.insert(1, value));
    }

    /// Removes the last element and returns it.
    pub fn pop_back(&mut self) -> (r: T)
        requires
            old(self).wf(),
            old(self)@.len() > 2,
        ensures
            final(self).wf(),
            final(self)@ == old(self)@.remove(old(self)@.len() - 2),
            r == old(self)@[old(self)@.len() - 2],
    {
        let r = self.list.pop_back();
        assert(self@ =~= old(self)@.remove(old(self)@.len() - 2));
        r
    }

    /// Removes the first element and returns it.
    pub fn pop_front(&mut self) -> (r: T)
        requires
            old(self).wf(),
            old(self)@.len() > 2,
        ensures
            final(self).wf(),
            final(self)@ == old(self)@.remove(1),
            r == old(self)@[1],
    {
        let r = self.list.pop_front();
        assert(self@ =~= old(self)@.remove(1));
        r
    }

    /// Removes every element between the bracketing values and returns them
    /// in order.
    pub fn clear(&mut self) -> (r: Vec<T>)
        requires
            old(self).wf(),
        ensures
            final(self).wf(),
            final(self)@ == seq![old(self)@[0], old(self)@[old(self)@.len() - 1]],
            r@ == old(self)@.subrange(1, old(self)@.len() - 1),
    {
        let start = self.list.begin();
        let stop = self.list.end();
        let mut drained = Vec::new();
        proof {
            self.list.lemma_index_kinds(stop);
        }
        if self.list.len() > 0 {
            let mut first = start;
            self.list.increment(&mut first);
            proof {
                self.list.lemma_index_kinds(first);
                self.list.lemma_index_kinds(stop);
            }
            drained = self.list.drain_vec(first, stop);
            assert(self.list@ =~= Seq::<T>::empty());
        }
        assert(self@ =~= seq![old(self)@[0], old(self)@[old(self)@.len() - 1]]);
        assert(drained@ =~= old(self)@.subrange(1, old(self)@.len() - 1));
        drained
    }

    /// The number of entries, the two bracketing values included.
    pub fn len(&self) -> (r: usize)
        requires
            self.wf(),
        ensures
            r == self@.len(),
    {
        self.list.len() + 2
    }

    /// Whether `idx` has not been stepped past either end.
    pub fn valid(&self, idx: &BaseListIndex) -> (r: bool)
        ensures
            r == !self.is_past(*idx),
    {
        self.list.valid(&idx.index)
    }

    /// The index of the value in front of the first element.
    pub fn begin(&self) -> (r: BaseListIndex)
        requires
            self.wf(),
        ensures
            self.designates(r),
            self.position(r) == 0,
            r == self.front_index(),
    {
        BaseListIndex { index: self.list.begin() }
    }

    /// The index of the value behind the last element.
    pub fn end(&self) -> (r: BaseListIndex)
        requires
            self.wf(),
        ensures
            self.designates(r),
            self.position(r) == self@.len() - 1,
            r == self.end_index(),
    {
        let r = BaseListIndex { index: self.list.end() };
        proof {
            self.list.lemma_index_kinds(r.index);
        }
        r
    }

    /// Steps `idx` to the next entry, or past the end after the last one.
    pub fn increment(&self, idx: &mut BaseListIndex)
        requires
            self.wf(),
            self.designates(*old(idx)),
        ensures
            self.position(*old(idx)) + 1 < self@.len() ==> self.designates(*final(idx))
                && self.position(*final(idx)) == self.position(*old(idx)) + 1,
            self.position(*old(idx)) + 1 == self@.len() ==> self.is_past(*final(idx)),
            *final(idx) == self.step_forward(*old(idx)),
    {
        proof {
            self.list.lemma_index_kinds(idx.index);
        }
        self.list.increment(&mut idx.index);
        proof {
            self.list.lemma_index_kinds(idx.index);
        }
    }

    /// Steps `idx` to the previous entry, or past the front before the first one.
    pub fn decrement(&self, idx: &mut BaseListIndex)
        requires
            self.wf(),
            self.designates(*old(idx)),
        ensures
            self.position(*old(idx)) > 0 ==> self.designates(*final(idx)) && self.position(*final(idx))
                == self.position(*old(idx)) - 1,
            self.position(*old(idx)) == 0 ==> self.is_past(*final(idx)),
            *final(idx) == self.step_back(*old(idx)),
    {
        proof {
            self.list.lemma_index_kinds(idx.index);
        }
        self.list.decrement(&mut idx.index);
        proof {
            self.list.lemma_index_kinds(idx.index);
        }
    }

    /// The entry `index` designates.
    pub fn get(&self, index: BaseListIndex) -> (r: &T)
        requires
            self.wf(),
            self.designates(index),
        ensures
            *r == self@[self.position(index)],
    {
        proof {
            self.list.lemma_index_kinds(index.index);
        }
        if index.index == self.list.begin() {
            &self.first
        } else if index.index == self.list.end() {
            &self.last
        } else {
            self.list.get(index.index)
        }
    }

    /// The entry `index` designates, to change in place.
    pub fn get_mut(&mut self, index: BaseListIndex) -> (r: &mut T)
        requires
            old(self).wf(),
            old(self).designates(index),
        ensures
            *r == old(self)@[old(self).position(index)],
            final(self).wf(),
            final(self)@ == old(self)@.update(old(self).position(index), *final(r)),
    {
        proof {
            self.list.lemma_index_kinds(index.index);
        }
        if index.index == self.list.begin() {
            let r = &mut self.first;
            proof {
                assert(after_borrow(*self)@ =~= old(self)@.update(0, *final(r)));
            }
            r
        } else if index.index == self.list.end() {
            let r = &mut self.last;
            proof {
                assert(after_borrow(*self)@ =~= old(self)@.update(old(self)@.len() - 1, *final(r)));
            }
            r
        } else {
            let r = self.list.get_mut(index.index);
            proof {
                assert(after_borrow(*self)@ =~= old(self)@.update(old(self).position(index), *final(r)));
            }
            r
        }
    }

    /// A walk over every entry, the bracketing values included.
    pub fn iter(&self) -> (r: Iter<'_, T>)
        requires
            self.wf(),
        ensures
            r.wf(),
            r.rest() == self@,
    {
        let r = Iter::new(self, self.begin());
        assert(self@.subrange(0, self@.len() as int) =~= self@);
        r
    }

    /// Every entry, the bracketing values included, handed out in order.
    pub fn into_iter(self) -> (r: IntoIter<T>)
        requires
            self.wf(),
        ensures
            r@ == self@,
    {
        IntoIter::new(self)
    }
}

/// Walks a [`BaseList`] from a given entry to the end, handing out references.
pub struct Iter<'a, T> {
    parent: &'a BaseList<T>,
    index: BaseListIndex,
}

impl<'a, T> Iter<'a, T> {
    /// The walk stands on an entry of a well-formed list, or is over.
    pub closed spec fn wf(&self) -> bool {
        &&& self.parent.wf()
        &&& (self.parent.designates(self.index) || self.parent.is_past(self.index))
    }

    /// The entries still to come, in order.
    pub closed spec fn rest(&self) -> Seq<T> {
        if self.parent.designates(self.index) {
            self.parent@.subrange(self.parent.position(self.index), self.parent@.len() as int)
        } else {
            Seq::empty()
        }
    }

    /// A walk from `index`, which designates an entry or is past an end.
    pub fn new(parent: &'a BaseList<T>, index: BaseListIndex) -> (r: Self)
        requires
            parent.wf(),
            parent.designates(index) || parent.is_past(index),
        ensures
            r.wf(),
            r.rest() == (if parent.designates(index) {
                parent@.subrange(parent.position(index), parent@.len() as int)
            } else {
                Seq::<T>::empty()
            }),
    {
        Iter { parent, index }
    }

    /// The next entry, if the walk is not over.
    pub fn next(&mut self) -> (r: Option<&'a T>)
        requires
            old(self).wf(),
        ensures
            final(self).wf(),
            old(self).rest().len() == 0 ==> r is None && final(self).rest().len() == 0,
            old(self).rest().len() > 0 ==> r is Some && *r->0 == old(self).rest()[0]
                && final(self).rest() == old(self).rest().subrange(1, old(self).rest().len() as int),
    {
        let parent = self.parent;
        proof {
            parent.list.lemma_index_kinds(self.index.index);
        }
        if !parent.valid(&self.index) {
            None
        } else {
            let ghost l = *parent;
            let ghost p = l.position(self.index);
            let r = parent.get(self.index);
            parent.increment(&mut self.index);
            proof {
                l.list.lemma_index_kinds(self.index.index);
                if p + 1 < l@.len() {
                    assert(l@.subrange(p + 1, l@.len() as int) =~= l@.subrange(p, l@.len() as int).subrange(
                        1,
                        l@.len() - p,
                    ));
                } else {
                    assert(l@.subrange(p, l@.len() as int).subrange(1, l@.len() - p) =~= Seq::<T>::empty());
                }
            }
            Some(r)
        }
    }
}

/// The entries of a [`BaseList`] it was made from, handed out in order.
pub struct IntoIter<T> {
    rest: std::collections::VecDeque<T>,
}

impl<T> View for IntoIter<T> {
    type V = Seq<T>;

    /// What is still to come, in order.
    closed spec fn view(&self) -> Seq<T> {
        self.rest@
    }
}

impl<T> IntoIter<T> {
    /// Hands out every entry of `parent`, the bracketing values included.
    pub fn new(parent: BaseList<T>) -> (r: Self)
        requires
            parent.wf(),
        ensures
            r@ == parent@,
    {
        let ghost v = parent@;
        let BaseList { list, first, last } = parent;
        let mut list = list;
        let mut items = list.take_all();
        items.insert(0, first);
        items.push(last);
        assert(items@ =~= v);
        IntoIter { rest: deque_of(items) }
    }

    /// The next entry, if any is left.
    pub fn next(&mut self) -> (r: Option<T>)
        ensures
            old(self)@.len() == 0 ==> r is None && final(self)@ == old(self)@,
            old(self)@.len() > 0 ==> r == Some(old(self)@[0]) && final(self)@ == old(self)@.subrange(
                1,
                old(self)@.len() as int,
            ),
    {
        self.rest.pop_front()
    }
}

impl<T> IndexExt<BaseListIndex> for BaseList<T> {
    open spec fn index_ready(&self) -> bool {
        self.wf()
    }

    open spec fn spec_valid(&self, index: BaseListIndex) -> bool {
        !self.is_past(index)
    }

    fn valid(&self, index: &BaseListIndex) -> (r: bool) {
        BaseList::valid(self, index)
    }
}

impl<T> ForwardIndex<BaseListIndex> for BaseList<T> {
    open spec fn spec_begin(&self) -> BaseListIndex {
        self.front_index()
    }

    open spec fn can_increment(&self, index: BaseListIndex) -> bool {
        self.designates(index)
    }

    open spec fn spec_increment(&self, index: BaseListIndex) -> BaseListIndex {
        self.step_forward(index)
    }

    open spec fn forward(&self, index: BaseListIndex, n: nat) -> BaseListIndex
        decreases n,
    {
        if n == 0 {
            index
        } else {
            self.spec_increment(self.forward(index, (n - 1) as nat))
        }
    }

    proof fn lemma_forward(&self, index: BaseListIndex, n: nat) {
    }

    fn begin(&self) -> (r: BaseListIndex) {
        BaseList::begin(self)
    }

    fn increment(&self, index: &mut BaseListIndex) {
        BaseList::increment(self, index)
    }
}

impl<T> BackwardIndex<BaseListIndex> for BaseList<T> {
    open spec fn spec_end(&self) -> BaseListIndex {
        self.end_index()
    }

    open spec fn can_decrement(&self, index: BaseListIndex) -> bool {
        self.designates(index)
    }

    open spec fn spec_decrement(&self, index: BaseListIndex) -> BaseListIndex {
        self.step_back(index)
    }

    open spec fn backward(&self, index: BaseListIndex, n: nat) -> BaseListIndex
        decreases n,
    {
        if n == 0 {
            index
        } else {
            self.spec_decrement(self.backward(index, (n - 1) as nat))
        }
    }

    proof fn lemma_backward(&self, index: BaseListIndex, n: nat) {
    }

    fn end(&self) -> (r: BaseListIndex) {
        BaseList::end(self)
    }

    fn decrement(&self, index: &mut BaseListIndex) {
        BaseList::decrement(self, index)
    }
}

} // verus!
