//! Indices that walk a container: the protocol the lists share with `Vec`
//! and `VecDeque`.
use vstd::prelude::*;

verus! {

/// A container whose positions are designated by indices of type `I`.
pub trait IndexExt<I> {
    /// The container is in a state its index operations accept.
    spec fn index_ready(&self) -> bool;

    /// What `valid` says of `index`.
    spec fn spec_valid(&self, index: I) -> bool;

    /// Whether `index` designates a position of this container.
    fn valid(&self, index: &I) -> (r: bool)
        requires
            self.index_ready(),
        ensures
            r == self.spec_valid(*index),
    ;
}

/// Indices that step forward, from a first one.
pub trait ForwardIndex<I>: IndexExt<I> + Sized {
    /// The index `begin` returns.
    spec fn spec_begin(&self) -> I;

    /// `index` may be stepped forward.
    spec fn can_increment(&self, index: I) -> bool;

    /// The index one step forward from `index`.
    spec fn spec_increment(&self, index: I) -> I;

    /// `n` steps forward from `index`.
    spec fn forward(&self, index: I, n: nat) -> I;

    /// `forward` takes its steps one by one.
    proof fn lemma_forward(&self, index: I, n: nat)
        ensures
            self.forward(index, 0) == index,
            self.forward(index, n + 1) == self.spec_increment(self.forward(index, n)),
    ;

    /// The first index.
    fn begin(&self) -> (r: I)
        requires
            self.index_ready(),
        ensures
            r == self.spec_begin(),
    ;

    /// Steps `idx` forward.
    fn increment(&self, idx: &mut I)
        requires
            self.index_ready(),
            self.can_increment(*old(idx)),
        ensures
            *final(idx) == self.spec_increment(*old(idx)),
    ;

    /// The index one step forward from `idx`.
    fn next(&self, idx: I) -> (r: I)
        requires
            self.index_ready(),
            self.can_increment(idx),
        ensures
            r == self.spec_increment(idx),
    {
        let mut idx = idx;
        self.increment(&mut idx);
        idx
    }

    /// Steps `idx` forward `distance` times.
    fn move_forward(&self, idx: &mut I, distance: usize)
        requires
            self.index_ready(),
            forall|k: nat| k < distance ==> self.can_increment(#[trigger] self.forward(*old(idx), k)),
        ensures
            *final(idx) == self.forward(*old(idx), distance as nat),
    {
        let mut i: usize = 0;
        proof {
            self.lemma_forward(*old(idx), 0);
        }
        while i < distance
            invariant
                self.index_ready(),
                i <= distance,
                *idx == self.forward(*old(idx), i as nat),
                forall|k: nat| k < distance ==> self.can_increment(#[trigger] self.forward(*old(idx), k)),
            decreases distance - i,
        {
            proof {
                self.lemma_forward(*old(idx), i as nat);
            }
            self.increment(idx);
            i = i + 1;
        }
    }
}

/// Indices that step back, from a last one.
pub trait BackwardIndex<I>: IndexExt<I> + Sized {
    /// The index `end` returns.
    spec fn spec_end(&self) -> I;

    /// `index` may be stepped back.
    spec fn can_decrement(&self, index: I) -> bool;

    /// The index one step back from `index`.
    spec fn spec_decrement(&self, index: I) -> I;

    /// `n` steps back from `index`.
    spec fn backward(&self, index: I, n: nat) -> I;

    /// `backward` takes its steps one by one.
    proof fn lemma_backward(&self, index: I, n: nat)
        ensures
            self.backward(index, 0) == index,
            self.backward(index, n + 1) == self.spec_decrement(self.backward(index, n)),
    ;

    /// The last index.
    fn end(&self) -> (r: I)
        requires
            self.index_ready(),
        ensures
            r == self.spec_end(),
    ;

    /// Steps `idx` back.
    fn decrement(&self, idx: &mut I)
        requires
            self.index_ready(),
            self.can_decrement(*old(idx)),
        ensures
            *final(idx) == self.spec_decrement(*old(idx)),
    ;

    /// The index one step back from `idx`.
    fn prev(&self, idx: I) -> (r: I)
        requires
            self.index_ready(),
            self.can_decrement(idx),
        ensures
            r == self.spec_decrement(idx),
    {
        let mut idx = idx;
        self.decrement(&mut idx);
        idx
    }

    /// Steps `idx` back `distance` times.
    fn move_backward(&self, idx: &mut I, distance: usize)
        requires
            self.index_ready(),
            forall|k: nat| k < distance ==> self.can_decrement(#[trigger] self.backward(*old(idx), k)),
        ensures
            *final(idx) == self.backward(*old(idx), distance as nat),
    {
        let mut i: usize = 0;
        proof {
            self.lemma_backward(*old(idx), 0);
        }
        while i < distance
            invariant
                self.index_ready(),
                i <= distance,
                *idx == self.backward(*old(idx), i as nat),
                forall|k: nat| k < distance ==> self.can_decrement(#[trigger] self.backward(*old(idx), k)),
            decreases distance - i,
        {
            proof {
                self.lemma_backward(*old(idx), i as nat);
            }
            self.decrement(idx);
            i = i + 1;
        }
    }
}

/// Indices that step both ways.
pub trait BidirectionalIndex<I>: ForwardIndex<I> + BackwardIndex<I> {
    /// Steps `idx` forward `distance` times, or back `-distance` times.
    fn advance(&self, idx: &mut I, distance: isize)
        requires
            self.index_ready(),
            distance > isize::MIN,
            distance > 0 ==> forall|k: nat| k < distance ==> self.can_increment(
                #[trigger] self.forward(*old(idx), k),
            ),
            distance <= 0 ==> forall|k: nat| k < -distance ==> self.can_decrement(
                #[trigger] self.backward(*old(idx), k),
            ),
        ensures
            distance > 0 ==> *final(idx) == self.forward(*old(idx), distance as nat),
            distance <= 0 ==> *final(idx) == self.backward(*old(idx), (-distance) as nat),
    {
        if distance > 0 {
            self.move_forward(idx, distance as usize)
        } else {
            self.move_backward(idx, (-distance) as usize)
        }
    }
}

impl<I, T: ForwardIndex<I> + BackwardIndex<I>> BidirectionalIndex<I> for T {

}

} // verus!
