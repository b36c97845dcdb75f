//! Errors reported by the matrices.
use vstd::prelude::*;

verus! {

/// Why an operation was rejected.
#[derive(Debug, Clone, Copy, PartialEq, Eq, Structural)]
pub enum WaveletError {
    /// An index, count, position or bit width lies outside its valid bounds.
    OutOfRange,
    /// A symbol does not fit in the configured bit width.
    ValueTooWide,
}

} // verus!
