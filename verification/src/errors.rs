//! The failures that the public operations report.

use vstd::prelude::*;

verus! {

/// Why an operation refused its input.
#[derive(Debug, Clone, Copy, PartialEq, Eq, Structural)]
pub enum ForustError {
    /// A shape is malformed, a parameter is out of range, or a weight is negative.
    InvalidInput,
    /// The name of the loss is not one the library knows.
    InvalidObjective,
    /// Training data is empty, mismatched in length, or leaves the numeric range.
    FitError,
    /// The matrix handed to prediction does not have the shape the ensemble expects.
    ShapeError,
}

} // verus!
