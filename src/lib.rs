//! Algebraic analysis of stack programs: an abstract interpreter that turns a
//! program over one scalar input into a sum of powered terms, an inverter for
//! expressions of degree at most two, and the derivative and integral of
//! polynomials, each lowered back into stack code.
//!
//! The numbers are supplied by the embedding through [`scalar::Scalar`];
//! every contract is stated over the names that trait gives its results.

pub mod scalar;
pub mod expr;
pub mod ir;
pub mod interp;
pub mod lower;
pub mod calculus;
pub mod laws;
pub mod editor_app;
