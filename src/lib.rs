//! Containers whose handles stay usable across mutation: an arena-backed
//! doubly linked list with checked, generation-tagged indices, index-stable
//! vector lists, and dense maps and sets keyed by small identifiers.
use vstd::prelude::*;

mod chain;
pub mod arraylist;
pub mod dense;
pub mod dense_hashmap;
pub mod dense_hashset;
pub mod identifier;
pub mod id_set;
pub mod idlike;
pub mod index;
pub mod linkedlist;
mod standard_impls;
pub mod typedvec;
pub mod veclist;
mod vecmem;

pub use identifier::{IdLike, Identifier};
pub use index::{IndexExt, ForwardIndex, BackwardIndex, BidirectionalIndex};
pub use linkedlist::LinkedList;
pub use veclist::VecList;
pub use dense::{map::DenseMap, set::DenseSet};
pub use idlike::{map::IdMap, set::IdSet};

verus! {

} // verus!
