//! Error taxonomy shared by the solver families and the interpolation
//! evaluator.

use vstd::prelude::*;

verus! {

/// An error returned by a solver or evaluator operation.
///
/// Every error is reported to the immediate caller of the failing operation;
/// nothing is retried internally.  Allocation failure is not listed here: the
/// constructors report it through `Option`, and the other operations cannot
/// allocate.
#[derive(Clone, Copy, Debug, PartialEq, Eq, Structural)]
pub enum SolverError {
    /// An interval handed to a bracketing solver is empty or its endpoint
    /// samples do not straddle zero, so it is not known to contain a root.
    InvalidBracket,
    /// A polishing step would divide by a denominator whose magnitude is at
    /// or below the solver's cutoff, so no valid update exists.
    DerivativeDegenerate,
    /// A requested value lies outside the representable or tabulated domain:
    /// a polishing update left the coordinate range, or an interpolation
    /// query fell outside the sampled interval.
    DomainError,
}

} // verus!
