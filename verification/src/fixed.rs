//! Fixed-point arithmetic in thousandths of a unit ("milli-units").
//!
//! A value of `1000` stands for one whole unit: a density of `800` is 0.8,
//! a friction factor of `990` is 0.99.  Scaling one milli-unit quantity by
//! another multiplies the raw values and divides by 1000, truncating toward
//! zero (the rounding that float-to-int casts use).

use vstd::prelude::*;

verus! {

/// Magnitude bound under which `div1000` accepts its argument.
pub const DIV_BOUND: i64 = 0x4000_0000_0000_0000;

/// Division by 1000 truncating toward zero.  (On `int`, `/` rounds toward
/// negative infinity, so the negative case is spelled out.)
pub open spec fn div1000_tz(a: int) -> int {
    if a >= 0 {
        a / 1000
    } else {
        -((-a) / 1000)
    }
}

/// `v` scaled by the milli-unit factor `f`, truncating toward zero.
pub open spec fn scale_spec(v: int, f: int) -> int {
    div1000_tz(v * f)
}

/// `v` clamped to the interval `[lo, hi]`.
pub open spec fn clamp_spec(v: int, lo: int, hi: int) -> int {
    if v < lo {
        lo
    } else if v > hi {
        hi
    } else {
        v
    }
}

/// Absolute value.
pub open spec fn abs_spec(v: int) -> int {
    if v >= 0 {
        v
    } else {
        -v
    }
}

pub fn div1000(a: i64) -> (r: i64)
    requires
        -DIV_BOUND <= a <= DIV_BOUND,
    ensures
        r == div1000_tz(a as int),
{
    if a >= 0 {
        let q = (a as u64) / 1000;
        q as i64
    } else {
        let m = (-a) as u64;
        let q = m / 1000;
        -(q as i64)
    }
}

pub fn scale_milli(v: i64, f: i64) -> (r: i64)
    requires
        -1_000_000_000 <= v <= 1_000_000_000,
        -1_000_000_000 <= f <= 1_000_000_000,
    ensures
        r == scale_spec(v as int, f as int),
{
    assert(-0x0de0_b6b3_a764_0000 <= v * f <= 0x0de0_b6b3_a764_0000) by (nonlinear_arith)
        requires
            -1_000_000_000 <= v <= 1_000_000_000,
            -1_000_000_000 <= f <= 1_000_000_000,
    ;
    let p = v * f;
    div1000(p)
}

pub fn clamp_i64(v: i64, lo: i64, hi: i64) -> (r: i64)
    requires
        lo <= hi,
    ensures
        r == clamp_spec(v as int, lo as int, hi as int),
{
    if v < lo {
        lo
    } else if v > hi {
        hi
    } else {
        v
    }
}

pub fn abs_i64(v: i64) -> (r: i64)
    requires
        v != i64::MIN,
    ensures
        r == abs_spec(v as int),
{
    if v >= 0 {
        v
    } else {
        -v
    }
}

/// Scaling zero yields zero.
pub proof fn lemma_scale_zero(f: int)
    ensures
        scale_spec(0, f) == 0,
{
    assert(0 * f == 0) by (nonlinear_arith);
}

} // verus!
