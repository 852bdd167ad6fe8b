use vstd::prelude::*;

verus! {

/// The failures the library can report.  All of them are immediate, local
/// usage or capacity errors: there is no retry and no partial state.
#[derive(Clone, Copy, Debug, PartialEq, Eq, Structural)]
pub enum AlgebraError {
    /// Two vectors of unequal, nonzero length were combined elementwise.
    LengthMismatch,
    /// An index at or beyond the declared dimension was used.
    IndexOutOfRange,
    /// `normalize` was asked to scale a vector whose norm is zero.
    DegenerateNorm,
    /// A superposition invariant (dimension match, unit norm) failed.
    InvariantViolation,
    /// An exact result does not fit the fixed-width scalar representation.
    Overflow,
}

} // verus!
