//! Formal concept analysis: enumeration of the formal concepts of a binary
//! incidence relation, with Lindig's algorithm (which also yields the cover
//! relation of the concept lattice) and with Fast Close-by-One and its dual.
use vstd::prelude::*;

pub mod bitset;
pub mod context;
pub mod lindig;
pub mod fcbo;

verus! {

} // verus!
