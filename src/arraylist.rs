//! A linked list in a vector of slots, built on a list bracketed by two
//! default values that no caller sees.
use vstd::prelude::*;

pub mod baselist;

use crate::arraylist::baselist::{BaseList, BaseListIndex};
use crate::veclist::deque_of;

verus! {

/// A position in an array-backed [`LinkedList`].
#[derive(Clone, Copy, PartialEq, Eq, Debug, Structural)]
pub struct LinkedListIndex {
    base_index: BaseListIndex,
}

/// A doubly linked list in a vector of slots, whose indices are slot
/// numbers that stay put while other elements come and go.
#[derive(Clone)]
pub struct LinkedList<T> {
    base_list: BaseList<T>,
}

impl<T> View for LinkedList<T> {
    type V = Seq<T>;

    /// The elements, first to last.
    closed spec fn view(&self) -> Seq<T> {
        self.base_list.inner()
    }
}

impl<T> LinkedList<T> {
    pub closed spec fn wf(&self) -> bool {
        self.base_list.wf()
    }

    /// `idx` designates an element.
    pub closed spec fn designates(&self, idx: LinkedListIndex) -> bool {
        self.base_list.designates_inner(idx.base_index)
    }

    /// `idx` stands after the last element.
    pub closed spec fn at_end(&self, idx: LinkedListIndex) -> bool {
        self.base_list.at_last(idx.base_index)
    }

    /// The position in `self@` of the element `idx` designates; the length
    /// for an index at the end.
    pub closed spec fn position(&self, idx: LinkedListIndex) -> int {
        self.base_list.position(idx.base_index) - 1
    }

    proof fn lemma_base(&self)
        requires
            self.wf(),
        ensures
            self.base_list@.len() == self@.len() + 2,
            forall|i: int| 0 <= i < self@.len() ==> #[trigger] self@[i] == self.base_list@[i + 1],
    {
        self.base_list.lemma_inner();
    }

    /// An empty list.
    pub fn new() -> (r: Self)
        where T: Default
        ensures
            r.wf(),
            r@ == Seq::<T>::empty(),
    {
        let r = LinkedList { base_list: BaseList::new(T::default(), T::default()) };
        proof {
            r.base_list.lemma_inner();
        }
        assert(r@ =~= Seq::<T>::empty());
        r
    }

    /// An empty list with room for `capacity` elements.
    pub fn with_capacity(capacity: usize) -> (r: Self)
        where T: Default
        requires
            capacity <= usize::MAX - 2,
        ensures
            r.wf(),
            r@ == Seq::<T>::empty(),
    {
        let r = LinkedList { base_list: BaseList::with_capacity(T::default(), T::default(), capacity + 2) };
        proof {
            r.base_list.lemma_inner();
        }
        assert(r@ =~= Seq::<T>::empty());
        r
    }

    /// How many elements fit without the slot vector growing.
    pub fn capacity(&self) -> (r: usize)
        requires
            self.wf(),
        ensures
            r >= self@.len(),
    {
        proof {
            self.lemma_base();
        }
        self.base_list.capacity() - 2
    }

    /// Makes room for at least `additional` more elements.
    pub fn reserve(&mut self, additional: usize)
        requires
            old(self).wf(),
        ensures
            final(self).wf(),
            final(self)@ == old(self)@,
    {
        self.base_list.reserve(additional);
        proof {
            old(self).base_list.lemma_inner();
            self.base_list.lemma_inner();
        }
    }

    /// Makes room for `additional` more elements, and no more.
    pub fn reserve_exact(&mut self, additional: usize)
        requires
            old(self).wf(),
        ensures
            final(self).wf(),
            final(self)@ == old(self)@,
    {
        self.base_list.reserve_exact(additional);
        proof {
            old(self).base_list.lemma_inner();
            self.base_list.lemma_inner();
        }
    }

    /// Lays the elements out afresh, in order, with no free slot left.
    pub fn shrink_to_fit(&mut self)
        requires
            old(self).wf(),
        ensures
            final(self).wf(),
            final(self)@ == old(self)@,
    {
        self.base_list.shrink_to_fit();
        proof {
            old(self).base_list.lemma_inner();
            self.base_list.lemma_inner();
        }
    }

    /// Inserts `element` just before the element `index` designates, or at
    /// the end for an index at the end.
    pub fn insert(&mut self, index: LinkedListIndex, element: T)
        requires
            old(self).wf(),
            old(self).designates(index) || old(self).at_end(index),
        ensures
            final(self).wf(),
            final(self)@ == old(self)@.insert(old(self).position(index), element),
    {
        proof {
            old(self).base_list.lemma_inner();
            old(self).base_list.lemma_positions(index.base_index);
        }
        self.base_list.insert(index.base_index, element);
        proof {
            self.base_list.lemma_inner();
        }
        assert(self@ =~= old(self)@.insert(old(self).position(index), element));
    }

    /// Removes the elements from the one `start` designates up to, not
    /// including, the one `end` designates (or the end), and returns them.
    pub fn remove_between(&mut self, start: LinkedListIndex, end: LinkedListIndex) -> (r: Vec<T>)
        requires
            old(self).wf(),
            old(self).designates(start),
            old(self).designates(end) || old(self).at_end(end),
            old(self).position(start) <= old(self).position(end),
        ensures
            final(self).wf(),
            final(self)@ == old(self)@.subrange(0, old(self).position(start)) + old(self)@.subrange(
                old(self).position(end),
                old(self)@.len() as int,
            ),
            r@ == old(self)@.subrange(old(self).position(start), old(self).position(end)),
    {
        proof {
            old(self).base_list.lemma_inner();
            old(self).base_list.lemma_positions(start.base_index);
            old(self).base_list.lemma_positions(end.base_index);
        }
        let r = self.base_list.remove_between(start.base_index, end.base_index);
        proof {
            self.base_list.lemma_inner();
        }
        assert(self@ =~= old(self)@.subrange(0, old(self).position(start)) + old(self)@.subrange(
            old(self).position(end),
            old(self)@.len() as int,
        ));
        assert(r@ =~= old(self)@.subrange(old(self).position(start), old(self).position(end)));
        r
    }

    /// Removes the element `index` designates and returns it.
    pub fn remove(&mut self, index: LinkedListIndex) -> (r: T)
        requires
            old(self).wf(),
            old(self).designates(index),
        ensures
            final(self).wf(),
            final(self)@ == old(self)@.remove(old(self).position(index)),
            r == old(self)@[old(self).position(index)],
    {
        proof {
            old(self).base_list.lemma_inner();
            old(self).base_list.lemma_positions(index.base_index);
        }
        let r = self.base_list.remove(index.base_index);
        proof {
            self.base_list.lemma_inner();
        }
        assert(self@ =~= old(self)@.remove(old(self).position(index)));
        r
    }

    /// Appends `value`.
    pub fn push_back(&mut self, value: T)
        requires
            old(self).wf(),
        ensures
            final(self).wf(),
            final(self)@ == old(self)@.push(value),
    {
        proof {
            old(self).base_list.lemma_inner();
        }
        self.base_list.push_back(value);
        proof {
            self.base_list.lemma_inner();
        }
        assert(self@ =~= old(self)@.push(value));
    }

    /// Puts `value` in front of the first element.
    pub fn push_front(&mut self, value: T)
        requires
            old(self).wf(),
        ensures
            final(self).wf(),
            final(self)@ == old(self)@.insert(0, value),
    {
        proof {
            old(self).base_list.lemma_inner();
        }
        self.base_list.push_front(value);
        proof {
            self.base_list.lemma_inner();
        }
        assert(self@ =~= old(self)@.insert(0, value));
    }

    /// Removes the last element and returns it.
    pub fn pop_back(&mut self) -> (r: T)
        requires
            old(self).wf(),
            old(self)@.len() > 0,
        ensures
            final(self).wf(),
            final(self)@ == old(self)@.drop_last(),
            r == old(self)@.last(),
    {
        proof {
            old(self).base_list.lemma_inner();
        }
        let r = self.base_list.pop_back();
        proof {
            self.base_list.lemma_inner();
        }
        assert(self@ =~= old(self)@.drop_last());
        r
    }

    /// Removes the first element and returns it.
    pub fn pop_front(&mut self) -> (r: T)
        requires
            old(self).wf(),
            old(self)@.len() > 0,
        ensures
            final(self).wf(),
            final(self)@ == old(self)@.subrange(1, old(self)@.len() as int),
            r == old(self)@[0],
    {
        proof {
            old(self).base_list.lemma_inner();
        }
        let r = self.base_list.pop_front();
        proof {
            self.base_list.lemma_inner();
        }
        assert(self@ =~= old(self)@.subrange(1, old(self)@.len() as int));
        r
    }

    /// Removes every element and returns them in order.
    pub fn clear(&mut self) -> (r: Vec<T>)
        requires
            old(self).wf(),
        ensures
            final(self).wf(),
            final(self)@ == Seq::<T>::empty(),
            r@ == old(self)@,
    {
        proof {
            old(self).base_list.lemma_inner();
        }
        let r = self.base_list.clear();
        proof {
            self.base_list.lemma_inner();
        }
        assert(self@ =~= Seq::<T>::empty());
        assert(r@ =~= old(self)@);
        r
    }

    /// The number of elements.
    pub fn len(&self) -> (r: usize)
        requires
            self.wf(),
        ensures
            r == self@.len(),
    {
        proof {
            self.lemma_base();
        }
        self.base_list.len() - 2
    }

    /// References to the elements, first to last.
    pub fn iter(&self) -> (r: Vec<&T>)
        requires
            self.wf(),
        ensures
            r@.len() == self@.len(),
            forall|i: int| 0 <= i < r@.len() ==> *r@[i] == self@[i],
    {
        proof {
            self.lemma_base();
        }
        let mut walk = self.base_list.iter();
        let mut out: Vec<&T> = Vec::new();
        let _ = walk.next();
        let n = self.base_list.len() - 2;
        while out.len() < n
            invariant
                walk.wf(),
                n == self@.len(),
                out@.len() <= n,
                walk.rest() == self.base_list@.subrange(out@.len() + 1int, self.base_list@.len() as int),
                self.base_list@.len() == n + 2,
                forall|i: int| 0 <= i < out@.len() ==> *out@[i] == self@[i],
                forall|i: int| 0 <= i < n ==> #[trigger] self@[i] == self.base_list@[i + 1],
            decreases n - out@.len(),
        {
            let ghost k = out@.len() as int;
            let x = walk.next();
            match x {
                Some(v) => {
                    out.push(v);
                },
                None => {
                    assert(false);
                },
            }
            proof {
                assert(self.base_list@.subrange(k + 1, self.base_list@.len() as int).subrange(
                    1,
                    self.base_list@.len() - k - 1,
                ) =~= self.base_list@.subrange(k + 2, self.base_list@.len() as int));
            }
        }
        out
    }

    /// The elements, handed out first to last.
    pub fn into_iter(self) -> (r: IntoIter<T>)
        requires
            self.wf(),
        ensures
            r@ == self@,
    {
        IntoIter::new(self)
    }

    /// What `valid` says of `idx`: it is neither one of the two hidden
    /// bracketing positions nor past an end.
    pub closed spec fn spec_valid(&self, idx: LinkedListIndex) -> bool {
        &&& idx.base_index != self.base_list.front_index()
        &&& idx.base_index != self.base_list.end_index()
        &&& !self.base_list.is_past(idx.base_index)
    }

    /// Whether `idx` is neither one of the two hidden bracketing positions nor
    /// past an end; true of every index that designates an element.
    pub fn valid(&self, idx: &LinkedListIndex) -> (r: bool)
        requires
            self.wf(),
        ensures
            r == self.spec_valid(*idx),
            self.designates(*idx) ==> r,
    {
        let b = self.base_list.begin();
        let e = self.base_list.end();
        proof {
            self.base_list.lemma_positions(idx.base_index);
            self.base_list.lemma_positions(b);
            self.base_list.lemma_positions(e);
        }
        idx.base_index != b && idx.base_index != e && self.base_list.valid(&idx.base_index)
    }

    /// An index to the first element, or to the end of an empty list.
    pub fn begin(&self) -> (r: LinkedListIndex)
        requires
            self.wf(),
        ensures
            self@.len() > 0 ==> self.designates(r) && self.position(r) == 0,
            self@.len() == 0 ==> self.at_end(r),
    {
        proof {
            self.lemma_base();
        }
        let mut b = self.base_list.begin();
        self.base_list.increment(&mut b);
        proof {
            self.base_list.lemma_positions(b);
        }
        LinkedListIndex { base_index: b }
    }

    /// An index to the last element, or to the end of an empty list.
    pub fn end(&self) -> (r: LinkedListIndex)
        requires
            self.wf(),
        ensures
            self@.len() > 0 ==> self.designates(r) && self.position(r) == self@.len() - 1,
    {
        proof {
            self.lemma_base();
        }
        let mut e = self.base_list.end();
        self.base_list.decrement(&mut e);
        proof {
            self.base_list.lemma_positions(e);
        }
        LinkedListIndex { base_index: e }
    }

    /// Steps `idx` to the next element, or to the end after the last one.
    pub fn increment(&self, idx: &mut LinkedListIndex)
        requires
            self.wf(),
            self.designates(*old(idx)),
        ensures
            self.position(*old(idx)) + 1 < self@.len() ==> self.designates(*final(idx))
                && self.position(*final(idx)) == self.position(*old(idx)) + 1,
            self.position(*old(idx)) + 1 == self@.len() ==> self.at_end(*final(idx)),
    {
        proof {
            self.lemma_base();
            self.base_list.lemma_positions(idx.base_index);
        }
        self.base_list.increment(&mut idx.base_index);
        proof {
            self.base_list.lemma_positions(idx.base_index);
        }
    }

    /// Steps `idx` to the previous element.
    pub fn decrement(&self, idx: &mut LinkedListIndex)
        requires
            self.wf(),
            self.designates(*old(idx)),
            self.position(*old(idx)) > 0,
        ensures
            self.designates(*final(idx)),
            self.position(*final(idx)) == self.position(*old(idx)) - 1,
    {
        proof {
            self.lemma_base();
            self.base_list.lemma_positions(idx.base_index);
        }
        self.base_list.decrement(&mut idx.base_index);
        proof {
            self.base_list.lemma_positions(idx.base_index);
        }
    }

    /// The element `index` designates.
    pub fn get(&self, index: LinkedListIndex) -> (r: &T)
        requires
            self.wf(),
            self.designates(index),
        ensures
            *r == self@[self.position(index)],
    {
        proof {
            self.lemma_base();
            self.base_list.lemma_positions(index.base_index);
        }
        self.base_list.get(index.base_index)
    }

    /// The element `index` designates, to change in place.
    pub fn get_mut(&mut self, index: LinkedListIndex) -> (r: &mut T)
        requires
            old(self).wf(),
            old(self).designates(index),
        ensures
            *r == old(self)@[old(self).position(index)],
            final(self).wf(),
            final(self)@ == old(self)@.update(old(self).position(index), *final(r)),
    {
        proof {
            old(self).lemma_base();
            old(self).base_list.lemma_positions(index.base_index);
        }
        let r = self.base_list.get_mut(index.base_index);
        proof {
            let b = after_borrow(*self);
            b.base_list.lemma_inner();
            assert(b@ =~= old(self)@.update(old(self).position(index), *final(r)));
        }
        r
    }
}

/// The elements of an array-backed [`LinkedList`], handed out first to last.
pub struct IntoIter<T> {
    rest: std::collections::VecDeque<T>,
}

impl<T> View for IntoIter<T> {
    type V = Seq<T>;

    /// What is still to come, first to last.
    closed spec fn view(&self) -> Seq<T> {
        self.rest@
    }
}

impl<T> IntoIter<T> {
    /// Hands out the elements of `list`, first to last.
    pub fn new(list: LinkedList<T>) -> (r: Self)
        requires
            list.wf(),
        ensures
            r@ == list@,
    {
        let mut list = list;
        let items = list.clear();
        IntoIter { rest: deque_of(items) }
    }

    /// The next element, if any is left.
    pub fn next(&mut self) -> (r: Option<T>)
        ensures
            old(self)@.len() == 0 ==> r is None && final(self)@ == old(self)@,
            old(self)@.len() > 0 ==> r == Some(old(self)@[0]) && final(self)@ == old(self)@.subrange(
                1,
                old(self)@.len() as int,
            ),
    {
        self.rest.pop_front()
    }
}

} // verus!
