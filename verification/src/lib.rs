//! A verified engine for a digit-rewriting automaton over an unboundedly
//! growing non-negative integer.
//!
//! Each step consumes a group of sixteen base-81 digits from the low-order
//! end of the integer, rewrites them through a fixed transition table into an
//! equal-length group of base-256 symbols, and reinserts that group, while a
//! small signed counter accumulates per-digit deltas.  The run ends when the
//! counter first drops at or below 1.
//!
//! The integer is held by a page-based digit store whose limbs each carry a
//! value below the fixed modulus `81^16`; rescaling the store by 256 uses a
//! precomputed-reciprocal division primitive, applied chunk by chunk so the
//! per-chunk work is independent.

use vstd::prelude::*;

pub mod automaton;
pub mod checkpoint;
pub mod scale;
pub mod store;
pub mod stats;
pub mod table;
pub mod wide;

verus! {

} // verus!
