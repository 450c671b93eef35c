//! The parts of `Vec` that the lists use and that carry no specification of
//! their own: its capacity.
use vstd::prelude::*;

verus! {

/// Relies on `Vec::capacity`: never less than the length.
#[verifier::external_body]
pub(crate) fn vec_capacity<T>(v: &Vec<T>) -> (r: usize)
    ensures
        r >= v@.len(),
{
    v.capacity()
}

/// Relies on `Vec::reserve_exact`: the contents stay as they are. Like
/// `Vec::reserve`, it panics only where the new capacity overflows.
#[verifier::external_body]
pub(crate) fn vec_reserve_exact<T>(v: &mut Vec<T>, additional: usize)
    ensures
        final(v)@ == old(v)@,
{
    v.reserve_exact(additional)
}

} // verus!
