//! Fixed-point scalar arithmetic.
//!
//! Every continuous physical quantity of the simulation (saturation,
//! density, cohesion, adhesion, weights, scores) is an `i64` that counts
//! multiples of `1/SCALE`.  All operations clamp their result into
//! `[-BOUND, BOUND]`, so every stored scalar is bounded and no operation
//! can overflow.  Division truncates toward zero.

use vstd::prelude::*;

verus! {

/// One unit (1.0) equals `SCALE` fixed-point steps.
pub const SCALE: i64 = 1000;

/// Every scalar is kept within `[-BOUND, BOUND]`.
pub const BOUND: i64 = 0x8000_0000;

/// A scalar that the clamping arithmetic below has produced.
pub open spec fn in_bounds(a: int) -> bool {
    -BOUND <= a <= BOUND
}

/// Clamp an integer into the symmetric range `[-b, b]`.
pub open spec fn spec_clamp_to(a: int, b: int) -> int {
    if a < -b {
        -b
    } else if a > b {
        b
    } else {
        a
    }
}

/// Clamp an integer into `[-BOUND, BOUND]`.
pub open spec fn spec_clamp(a: int) -> int {
    spec_clamp_to(a, BOUND as int)
}

/// Division truncating toward zero (the spec `/` is Euclidean, which
/// differs on negative numerators).
pub open spec fn spec_tdiv(a: int, b: int) -> int
    recommends
        b > 0,
{
    if a >= 0 {
        a / b
    } else {
        -((-a) / b)
    }
}

/// Fixed-point product: `a * b / SCALE`, truncated toward zero, clamped.
pub open spec fn spec_mul(a: int, b: int) -> int {
    spec_clamp(spec_tdiv(a * b, SCALE as int))
}

/// Clamped sum.
pub open spec fn spec_add(a: int, b: int) -> int {
    spec_clamp(a + b)
}

/// Fixed-point quotient: `a * SCALE / b`, truncated toward zero, clamped.
pub open spec fn spec_div(a: int, b: int) -> int
    recommends
        b > 0,
{
    spec_clamp(spec_tdiv(a * SCALE, b))
}

/// Clamp an `i64` into `[-BOUND, BOUND]`.
pub fn clamp_scalar(a: i64) -> (r: i64)
    ensures
        r == spec_clamp(a as int),
        in_bounds(r as int),
{
    if a < -BOUND {
        -BOUND
    } else if a > BOUND {
        BOUND
    } else {
        a
    }
}

/// Division truncating toward zero, computed on magnitudes so that the
/// sign of the result follows the sign of the numerator exactly.
pub fn tdiv(a: i64, b: i64) -> (r: i64)
    requires
        b > 0,
        a > i64::MIN,
    ensures
        r == spec_tdiv(a as int, b as int),
{
    if a >= 0 {
        let q: u64 = (a as u64) / (b as u64);
        q as i64
    } else {
        let q: u64 = ((-a) as u64) / (b as u64);
        assert(q <= (-a) as u64);
        -(q as i64)
    }
}

/// Fixed-point multiplication with clamping.
pub fn mul_fp(a: i64, b: i64) -> (r: i64)
    requires
        in_bounds(a as int),
        in_bounds(b as int),
    ensures
        r == spec_mul(a as int, b as int),
        in_bounds(r as int),
{
    proof {
        assert((-BOUND) * BOUND <= a * b <= BOUND * BOUND) by (nonlinear_arith)
            requires
                -BOUND <= a <= BOUND,
                -BOUND <= b <= BOUND,
        ;
    }
    let p: i64 = a * b;
    clamp_scalar(tdiv(p, SCALE))
}

/// Clamped addition.
pub fn add_fp(a: i64, b: i64) -> (r: i64)
    requires
        in_bounds(a as int),
        in_bounds(b as int),
    ensures
        r == spec_add(a as int, b as int),
        in_bounds(r as int),
{
    clamp_scalar(a + b)
}

/// Fixed-point division with clamping; the divisor must be positive.
pub fn div_fp(a: i64, b: i64) -> (r: i64)
    requires
        -2 * BOUND <= a <= 2 * BOUND,
        b > 0,
    ensures
        r == spec_div(a as int, b as int),
        in_bounds(r as int),
{
    let p: i64 = a * SCALE;
    clamp_scalar(tdiv(p, b))
}

} // verus!
