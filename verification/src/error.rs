//! The ways in which an operation on a tree can be refused.

use vstd::prelude::*;

verus! {

/// Why an input was rejected.
#[derive(Debug, Clone, Copy, PartialEq, Eq, Structural)]
pub enum KdError {
    /// The batch holds a different number of identifiers than of points.
    BatchLengthMismatch,
    /// The points have no coordinates at all.
    ZeroDimension,
    /// A point's length differs from the dimensionality of the batch or tree.
    DimensionMismatch,
    /// A record does not describe a well-formed tree.
    Malformed,
}

} // verus!
