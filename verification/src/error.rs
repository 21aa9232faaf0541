//! Errors of the clustering library.

use vstd::prelude::*;

verus! {

/// Why a run was refused or aborted.
///
/// Configuration errors are fatal before any work starts; `NonConvergent`
/// reports the index of a point whose descent ran out of its step budget,
/// which signals a globally mistuned parameter set.
#[derive(Clone, Copy, Debug, PartialEq, Eq, Structural)]
pub enum GravityError {
    /// The matrix dimensions and the data length disagree, or a dimension
    /// is over its limit.
    BadShape,
    /// A matrix entry lies outside `[-COORD_MAX, COORD_MAX]`; the fields
    /// give its row and column.
    EntryOutOfRange { row: usize, col: usize },
    /// The damping (scaling) fraction is zero or over `SCALE`.
    InvalidScalingFactor,
    /// Another tunable is outside its accepted range.
    InvalidParameter,
    /// The descent of the given point exceeded its step budget.
    NonConvergent { point: usize },
    /// Prediction was asked of a field that was never fitted.
    NotFitted,
}

} // verus!
