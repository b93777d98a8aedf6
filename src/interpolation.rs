//! Fractal interpolation: the shared data types and the evaluation capability.
//!
//! All scalars are fixed-point values as described in [`crate::fixed`].
use vstd::prelude::*;

pub mod laws;
pub mod model;
pub mod one_d;

verus! {

/// A sample point; both coordinates are fixed-point scalars.
#[derive(Clone, Copy, Debug, PartialEq, Eq, Structural)]
pub struct Point {
    pub x: i64,
    pub y: i64,
}

impl Point {
    pub fn new(x: i64, y: i64) -> (r: Point)
        ensures
            r.x == x,
            r.y == y,
    {
        Point { x, y }
    }
}

/// How the vertical contraction factor of each segment is supplied.
#[derive(Clone, Debug)]
pub enum FreeVariables {
    /// One factor shared by every segment.
    Scalar(i64),
    /// One factor per segment, indexed like the segments.
    Array(Vec<i64>),
}

/// The contraction factor that `fv` gives to segment `i`.
pub open spec fn free_at(fv: FreeVariables, i: int) -> int {
    match fv {
        FreeVariables::Scalar(v) => v as int,
        FreeVariables::Array(a) => a@[i] as int,
    }
}

/// Whether `fv` is an `Array` whose length is not one per segment of `n` points.
pub open spec fn arity_mismatch(fv: FreeVariables, n: int) -> bool {
    match fv {
        FreeVariables::Scalar(_) => false,
        FreeVariables::Array(a) => a@.len() != n - 1,
    }
}

/// Why an interpolant could not be built.
#[derive(Clone, Copy, Debug, PartialEq, Eq, Structural)]
pub enum ConstructionError {
    /// Fewer than two points were given.
    InsufficientPoints,
    /// An `Array` of contraction factors does not hold one per segment.
    FreeVariableArityMismatch,
    /// A coordinate is not a finite number. Fixed-point scalars are always
    /// finite, so only conversions from floating point meet this.
    NonFiniteCoordinate,
}

/// The self-affine map of one segment.
///
/// With `R` the interpolant's total x-range and `S` the fixed-point scale, the
/// real coefficients of the map are `a / R`, `e / S / R`, `c / S / R`, `f / S / S / R`
/// and `d / S`; they are kept as these numerators, saturated to the wide
/// `i128` range (exact for coordinates within `COORD_LIMIT` and factors within
/// `FREE_LIMIT`).
#[derive(Clone, Copy, Debug)]
pub struct AffineMap {
    pub a: i128,
    pub c: i128,
    pub d: i64,
    pub e: i128,
    pub f: i128,
    /// The x-coordinate of the segment's right endpoint.
    pub end_x: i64,
}

/// A strategy that evaluates an interpolating function.
pub trait Interpolant {
    /// The state the evaluation methods need.
    spec fn valid(&self) -> bool;

    /// The value the function takes at `x`.
    spec fn value_at(&self, x: int) -> int;

    fn evaluate(&self, x: i64) -> (r: i64)
        requires
            self.valid(),
        ensures
            r as int == self.value_at(x as int),
    ;

    /// Evaluates every query, keeping their order.
    fn evaluate_many(&self, xs: &[i64]) -> (r: Vec<i64>)
        requires
            self.valid(),
        ensures
            r@.len() == xs@.len(),
            forall|i: int| 0 <= i < xs@.len() ==> r@[i] as int == self.value_at(xs@[i] as int),
    ;
}

} // verus!
