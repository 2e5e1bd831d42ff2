//! Failures of index construction.

use vstd::prelude::*;

verus! {

/// Why a construction step refused its input.
#[derive(Clone, Copy, Debug, PartialEq, Eq, Structural)]
pub enum IndexError {
    /// The text is empty, its last symbol is no proper sentinel, a symbol lies
    /// outside the declared alphabet, or a sampling interval is zero.
    InvalidInput,
    /// Two sequences that must have equal length do not.
    DimensionMismatch,
}

} // verus!
