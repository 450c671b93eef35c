//! Maps and sets keyed by values with small identifiers, kept densely.
use vstd::prelude::*;

pub mod map;
pub mod set;

verus! {

} // verus!
