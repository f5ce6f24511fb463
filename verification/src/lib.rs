//! One-dimensional root finding over exact integer coordinates.
//!
//! The library provides low level components for two families of iterative
//! root solvers: bracketing solvers (bisection, false position, Brent), which
//! maintain an interval guaranteed to contain a root and shrink it, and
//! polishing solvers (Newton, secant, Steffenson), which refine a single
//! point estimate.  Each solver performs one step per `iterate` call and
//! exposes its current estimate between steps, so that the caller drives the
//! loop and applies its own convergence test; solvers of either family can be
//! substituted at runtime behind the same driver loop.
//!
//! The solvers work on a fixed-point axis: a coordinate is an `i64`, and the
//! caller chooses the scale.  The caller evaluates its function at the point
//! the solver asks for and hands the sample back to the next `iterate` call;
//! the solver itself performs only exact integer arithmetic, so every update
//! rule and every interval invariant is stated and proved exactly.

pub mod arith;
pub mod error;
pub mod interpolation;
pub mod roots;
