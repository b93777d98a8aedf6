//! Fixed-point scalars.
//!
//! A scalar is an `i64` that holds its value multiplied by [`SCALE`], so one
//! raw unit is `1e-9`. Intermediate results are computed in `i128`.
use vstd::prelude::*;

verus! {

/// Number of raw units in one.
pub const SCALE: i64 = 1_000_000_000;

/// Largest magnitude (raw) of a coordinate, 2^42 (about 4398.05 in value), up
/// to which the coefficients of an interpolant and its evaluation at the
/// samples are exact; beyond it they saturate.
pub const COORD_LIMIT: i64 = 4_398_046_511_104;

/// Largest magnitude (raw) of a contraction factor, 4.0 in value, up to which
/// the coefficients of an interpolant are exact; beyond it they saturate.
pub const FREE_LIMIT: i64 = 4_000_000_000;

/// Bound (raw) at which the running product of contraction factors saturates
/// (2^34, about 17.18 in value).
pub const PRODUCT_LIMIT: i128 = 17_179_869_184;

/// Bound (raw) at which the accumulated value saturates.
pub const VALUE_LIMIT: i128 = 9_223_372_036_854_775_807;

/// Bound at which wide (`i128`) intermediate results saturate.
pub const WIDE_LIMIT: i128 = 170_141_183_460_469_231_731_687_303_715_884_105_727;

/// Division rounded down, for a positive divisor.
pub open spec fn floor_div(a: int, b: int) -> int {
    a / b
}

/// Division rounded toward zero, for a positive divisor.
pub open spec fn trunc_div(a: int, b: int) -> int {
    if a >= 0 {
        a / b
    } else {
        -((-a) / b)
    }
}

/// `v` brought into `[-limit, limit]`.
pub open spec fn saturate(v: int, limit: int) -> int {
    if v > limit {
        limit
    } else if v < -limit {
        -limit
    } else {
        v
    }
}

/// `a / b` rounded down.
pub fn div_floor(a: i128, b: i128) -> (r: i128)
    requires
        b > 0,
    ensures
        r == floor_div(a as int, b as int),
{
    proof {
        if a >= 0 {
            assert(a / b <= a) by (nonlinear_arith)
                requires
                    a >= 0,
                    b > 0,
            ;
            assert(a / b >= 0) by (nonlinear_arith)
                requires
                    a >= 0,
                    b > 0,
            ;
        } else {
            assert(a / b >= a) by (nonlinear_arith)
                requires
                    a < 0,
                    b > 0,
            ;
            assert(a / b < 0) by (nonlinear_arith)
                requires
                    a < 0,
                    b > 0,
            ;
        }
    }
    match a.checked_div_euclid(b) {
        Some(q) => q,
        None => 0,
    }
}

/// `a / b` rounded toward zero.
pub fn div_trunc(a: i128, b: i128) -> (r: i128)
    requires
        b > 0,
    ensures
        r == trunc_div(a as int, b as int),
{
    proof {
        if a > 0 {
            assert(a / b <= a) by (nonlinear_arith)
                requires
                    a > 0,
                    b > 0,
            ;
            assert(a / b >= 0) by (nonlinear_arith)
                requires
                    a > 0,
                    b > 0,
            ;
        } else if a < 0 {
            assert((-(a as int)) / (b as int) <= -(a as int)) by (nonlinear_arith)
                requires
                    a < 0,
                    b > 0,
            ;
            assert((-(a as int)) / (b as int) >= 0) by (nonlinear_arith)
                requires
                    a < 0,
                    b > 0,
            ;
        }
    }
    match a.checked_div(b) {
        Some(q) => q,
        None => 0,
    }
}

/// `v` brought into `[-limit, limit]`.
pub fn clamp_to(v: i128, limit: i128) -> (r: i128)
    requires
        limit >= 0,
    ensures
        r == saturate(v as int, limit as int),
{
    if v > limit {
        limit
    } else if v < -limit {
        -limit
    } else {
        v
    }
}

/// `v` saturated to the wide range `[-WIDE_LIMIT, WIDE_LIMIT]`.
pub open spec fn wide(v: int) -> int {
    saturate(v, WIDE_LIMIT as int)
}

/// `v` brought into `[lo, hi]`, for `lo <= hi`.
pub open spec fn clamp_between(v: int, lo: int, hi: int) -> int {
    if v < lo {
        lo
    } else if v > hi {
        hi
    } else {
        v
    }
}

/// `a * b`, saturated to the wide range.
pub fn mul_wide(a: i128, b: i128) -> (r: i128)
    ensures
        r == wide(a * b),
{
    match a.checked_mul(b) {
        Some(v) => clamp_to(v, WIDE_LIMIT),
        None => {
            if (a > 0) == (b > 0) {
                assert(a * b > 0) by (nonlinear_arith)
                    requires
                        (a > 0) == (b > 0),
                        a * b > i128::MAX || a * b < i128::MIN,
                ;
                WIDE_LIMIT
            } else {
                assert(a * b < 0) by (nonlinear_arith)
                    requires
                        (a > 0) != (b > 0),
                        a * b > i128::MAX || a * b < i128::MIN,
                ;
                -WIDE_LIMIT
            }
        },
    }
}

/// `a + b`, saturated to the wide range.
pub fn add_wide(a: i128, b: i128) -> (r: i128)
    ensures
        r == wide(a + b),
{
    match a.checked_add(b) {
        Some(v) => clamp_to(v, WIDE_LIMIT),
        None => if a > 0 {
            WIDE_LIMIT
        } else {
            -WIDE_LIMIT
        },
    }
}

/// `a - b`, saturated to the wide range.
pub fn sub_wide(a: i128, b: i128) -> (r: i128)
    ensures
        r == wide(a - b),
{
    match a.checked_sub(b) {
        Some(v) => clamp_to(v, WIDE_LIMIT),
        None => if a >= 0 {
            WIDE_LIMIT
        } else {
            -WIDE_LIMIT
        },
    }
}

/// `v` brought into `[lo, hi]`.
pub fn clamp_into(v: i128, lo: i128, hi: i128) -> (r: i128)
    requires
        lo <= hi,
    ensures
        r == clamp_between(v as int, lo as int, hi as int),
{
    if v < lo {
        lo
    } else if v > hi {
        hi
    } else {
        v
    }
}

} // verus!
