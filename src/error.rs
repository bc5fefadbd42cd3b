//! The ways an operation of the index can fail.
use vstd::prelude::*;

verus! {

/// Why an operation failed. An absent result is not an error.
#[derive(Debug, Clone, Copy, PartialEq, Eq, Structural)]
pub enum SpatialError {
    /// The store could not open, run or commit a transaction.
    StorageFailure,
    /// A payload could not be encoded or decoded.
    SerializationFailure,
    /// A position has a number of coordinates other than the index's dimensionality.
    DimensionMismatch,
    /// A coordinate lies outside the range the curve codec can represent.
    OutOfDomain,
}

} // verus!
