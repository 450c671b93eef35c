//! The index protocol on `Vec` and `VecDeque`, whose indices are positions.
use vstd::prelude::*;

use std::collections::VecDeque;

use crate::index::{IndexExt, ForwardIndex, BackwardIndex};

verus! {

impl<T> IndexExt<usize> for Vec<T> {
    open spec fn index_ready(&self) -> bool {
        true
    }

    open spec fn spec_valid(&self, i: usize) -> bool {
        i < self@.len()
    }

    fn valid(&self, i: &usize) -> (r: bool) {
        *i < self.len()
    }
}

impl<T> ForwardIndex<usize> for Vec<T> {
    open spec fn spec_begin(&self) -> usize {
        0
    }

    open spec fn can_increment(&self, i: usize) -> bool {
        i < usize::MAX
    }

    open spec fn spec_increment(&self, i: usize) -> usize {
        (i + 1) as usize
    }

    open spec fn forward(&self, i: usize, n: nat) -> usize
        decreases n,
    {
        if n == 0 {
            i
        } else {
            self.spec_increment(self.forward(i, (n - 1) as nat))
        }
    }

    proof fn lemma_forward(&self, i: usize, n: nat) {
    }

    fn begin(&self) -> (r: usize) {
        0
    }

    fn increment(&self, i: &mut usize) {
        *i = *i + 1;
    }
}

impl<T> BackwardIndex<usize> for Vec<T> {
    open spec fn spec_end(&self) -> usize {
        if self@.len() == 0 {
            usize::MAX
        } else {
            (self@.len() - 1) as usize
        }
    }

    open spec fn can_decrement(&self, i: usize) -> bool {
        true
    }

    open spec fn spec_decrement(&self, i: usize) -> usize {
        if i == 0 {
            usize::MAX
        } else {
            (i - 1) as usize
        }
    }

    open spec fn backward(&self, i: usize, n: nat) -> usize
        decreases n,
    {
        if n == 0 {
            i
        } else {
            self.spec_decrement(self.backward(i, (n - 1) as nat))
        }
    }

    proof fn lemma_backward(&self, i: usize, n: nat) {
    }

    fn end(&self) -> (r: usize) {
        if self.len() == 0 {
            usize::MAX
        } else {
            self.len() - 1
        }
    }

    fn decrement(&self, i: &mut usize) {
        if *i == 0 {
            *i = usize::MAX;
        } else {
            *i = *i - 1;
        }
    }
}

impl<T> IndexExt<usize> for VecDeque<T> {
    open spec fn index_ready(&self) -> bool {
        true
    }

    open spec fn spec_valid(&self, i: usize) -> bool {
        i < self@.len()
    }

    fn valid(&self, i: &usize) -> (r: bool) {
        *i < self.len()
    }
}

impl<T> ForwardIndex<usize> for VecDeque<T> {
    open spec fn spec_begin(&self) -> usize {
        0
    }

    open spec fn can_increment(&self, i: usize) -> bool {
        i < usize::MAX
    }

    open spec fn spec_increment(&self, i: usize) -> usize {
        (i + 1) as usize
    }

    open spec fn forward(&self, i: usize, n: nat) -> usize
        decreases n,
    {
        if n == 0 {
            i
        } else {
            self.spec_increment(self.forward(i, (n - 1) as nat))
        }
    }

    proof fn lemma_forward(&self, i: usize, n: nat) {
    }

    fn begin(&self) -> (r: usize) {
        0
    }

    fn increment(&self, i: &mut usize) {
        *i = *i + 1;
    }
}

impl<T> BackwardIndex<usize> for VecDeque<T> {
    open spec fn spec_end(&self) -> usize {
        if self@.len() == 0 {
            usize::MAX
        } else {
            (self@.len() - 1) as usize
        }
    }

    open spec fn can_decrement(&self, i: usize) -> bool {
        true
    }

    open spec fn spec_decrement(&self, i: usize) -> usize {
        if i == 0 {
            usize::MAX
        } else {
            (i - 1) as usize
        }
    }

    open spec fn backward(&self, i: usize, n: nat) -> usize
        decreases n,
    {
        if n == 0 {
            i
        } else {
            self.spec_decrement(self.backward(i, (n - 1) as nat))
        }
    }

    proof fn lemma_backward(&self, i: usize, n: nat) {
    }

    fn end(&self) -> (r: usize) {
        if self.len() == 0 {
            usize::MAX
        } else {
            self.len() - 1
        }
    }

    fn decrement(&self, i: &mut usize) {
        if *i == 0 {
            *i = usize::MAX;
        } else {
            *i = *i - 1;
        }
    }
}

} // verus!
