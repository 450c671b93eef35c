//! Maps and sets keyed directly by small identifiers, one slot per position.
use vstd::prelude::*;

pub mod map;
pub mod set;

verus! {

} // verus!
