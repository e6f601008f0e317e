//! The error kinds of the library. All of them report local precondition
//! violations by the caller, synchronously; none is retriable.

use vstd::prelude::*;

verus! {

/// Why an operation was refused.
#[derive(Debug, PartialEq, Eq)]
pub enum Error {
    /// A lattice extent vector's length disagrees with the declared dimension.
    DimensionMismatch,
    /// A supplied lattice point is invalid for the target lattice.
    OutOfBounds,
    /// A requested restriction target is not contained in its source open set.
    NotASubset,
    /// An open set references a point not present in any cached section.
    PointNotCovered,
    /// Gluing was requested for sections whose open sets do not intersect.
    EmptyOverlap,
    /// Gluing candidates disagree on the named shared point's value.
    OverlapMismatch(Vec<usize>),
    /// A correlation was requested at a point with no neighbours at all.
    NoNeighbors,
}

} // verus!
