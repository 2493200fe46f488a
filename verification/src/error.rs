//! The error taxonomy of the array engine.
//!
//! Every error is recoverable and synchronous; a failing operation never
//! leaves a partial mutation behind, because every write path validates
//! before it mutates.

use vstd::prelude::*;
use crate::dtype::DataType;

verus! {

/// What an operation of the engine can fail with.
#[derive(Debug, Clone, PartialEq, Eq)]
pub enum ArrayError {
    /// A construction or assignment disagreed about sizes; carries both
    /// shapes (for a construction, `expected` is the requested shape and
    /// `actual` holds the flat length as a one-entry shape).
    ShapeMismatch { expected: Vec<usize>, actual: Vec<usize> },
    /// A selector group's axis count does not match the dimensionality of
    /// the view it is applied to.
    DimensionMismatch { expected: usize, actual: usize },
    /// A range or index selector exceeds an axis's extent.
    IndexOutOfBounds { axis: usize, bound: usize, extent: usize },
    /// The element representations of two operands disagree.
    TypeMismatch { expected: DataType, actual: DataType },
    /// The operation is not defined for arrays (e.g. element deletion).
    UnsupportedOperation,
    /// A selector value cannot be parsed into a slice descriptor.
    InvalidSelector,
}

} // verus!
