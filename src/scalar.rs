//! The number type that coefficients and powers are drawn from.
use vstd::prelude::*;

verus! {

/// The outcome of comparing two values in a total order.
#[derive(Clone, Copy, Debug, PartialEq, Eq, Structural)]
pub enum Order {
    Less,
    Equal,
    Greater,
}

/// One-argument operations on scalars.
#[derive(Clone, Copy, Debug, PartialEq, Eq, Structural)]
pub enum Op1 {
    Neg,
    Sqrt,
    Recip,
}

/// Two-argument operations on scalars. `Powf` raises the first argument to
/// the second, `Log` takes the logarithm of the first in the base of the
/// second.
#[derive(Clone, Copy, Debug, PartialEq, Eq, Structural)]
pub enum Op2 {
    Add,
    Sub,
    Mul,
    Div,
    Powf,
    Log,
}

/// Predicates on a single scalar.
#[derive(Clone, Copy, Debug, PartialEq, Eq, Structural)]
pub enum Probe {
    /// Equal to zero.
    IsZero,
    /// Equal to one.
    IsOne,
    /// Absolute value above one.
    AbsAboveOne,
}

/// A complex number type. Every operation is a function of its arguments
/// alone; the spec functions give each result a name, and the contracts of
/// this library are stated over those names. An implementation defines each
/// spec function as the operation it names (`apply2` as `op2`, `holds` as
/// `probe`, and so on), which only asks the operations to be deterministic.
pub trait Scalar: Copy + Sized {
    spec fn apply1(op: Op1, a: Self) -> Self;

    spec fn apply2(op: Op2, a: Self, b: Self) -> Self;

    spec fn holds(p: Probe, a: Self) -> bool;

    /// The real number `n`.
    spec fn of_int(n: i64) -> Self;

    /// The imaginary unit.
    spec fn unit_i() -> Self;

    /// A real that is not a number.
    spec fn nan_value() -> Self;

    /// The real part, where the imaginary part is exactly zero.
    spec fn real_of(a: Self) -> Option<Self>;

    /// A total order in which a NaN sorts after every number.
    spec fn compare(a: Self, b: Self) -> Order;

    fn op1(op: Op1, a: Self) -> (r: Self)
        ensures
            r == Self::apply1(op, a),
    ;

    fn op2(op: Op2, a: Self, b: Self) -> (r: Self)
        ensures
            r == Self::apply2(op, a, b),
    ;

    fn probe(p: Probe, a: Self) -> (r: bool)
        ensures
            r == Self::holds(p, a),
    ;

    fn from_int(n: i64) -> (r: Self)
        ensures
            r == Self::of_int(n),
    ;

    fn imaginary_unit() -> (r: Self)
        ensures
            r == Self::unit_i(),
    ;

    fn not_a_number() -> (r: Self)
        ensures
            r == Self::nan_value(),
    ;

    fn into_real(a: Self) -> (r: Option<Self>)
        ensures
            r == Self::real_of(a),
    ;

    fn cmp_total(a: Self, b: Self) -> (r: Order)
        ensures
            r == Self::compare(a, b),
    ;
}

} // verus!
