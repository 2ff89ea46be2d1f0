//! The ways a rating computation fails.

use vstd::prelude::*;

verus! {

/// Why a computation gave no result.
#[derive(Debug, Clone, Copy, PartialEq, Eq, Structural)]
pub enum RatingError {
    /// A rating on the public scale was given where the internal scale is needed.
    PreconditionViolation,
    /// The volatility solver found no positive root within its step budget.
    NumericNonConvergence,
}

} // verus!
