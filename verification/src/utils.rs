//! Scalar helpers: the random source, ranged variates, angle
//! conversion and clamping.

use vstd::prelude::*;

verus! {

use crate::fixed::{abs_i, fdiv, fmul, fp_div, fp_mul, lemma_fmul_bound, lemma_tdiv_cancel,
    lemma_tdiv_mag, lemma_tdiv_mono, tdiv, SCALE};
use vstd::arithmetic::div_mod::lemma_div_pos_is_pos;

/// Pi in 16.16 fixed point.
pub const PI_FP: i64 = 205887;

/// A uniform fixed-point variate in `[0, 1)`.
///
/// Relies on `rand::random::<u16>`: a sample drawn uniformly over all
/// 65536 `u16` values, reinterpreted here as a 16.16 fraction.
#[verifier::external_body]
pub fn random_fp() -> (r: i64)
    ensures
        0 <= r < SCALE,
{
    rand::random::<u16>() as i64
}

/// A uniform fixed-point variate in `[min, max)` (or exactly `min` when
/// the interval is empty).
pub fn random_fp_min_max(min: i64, max: i64) -> (r: i64)
    requires
        -0x2000_0000_0000_0000 <= min <= max <= 0x2000_0000_0000_0000,
    ensures
        min <= r <= max,
        min < max ==> r < max,
        exists|u: int| 0 <= u < SCALE as int && r as int == min + #[trigger] fmul(max - min, u),
{
    let u = random_fp();
    let d = max - min;
    proof {
        lemma_fmul_range(d as int, u as int);
    }
    let step = fp_mul(d, u);
    min + step
}

/// For `0 <= u < SCALE` and `d >= 0`, the product `fmul(d, u)` lies in
/// `[0, d]`, strictly below `d` when `d > 0`.
pub proof fn lemma_fmul_range(d: int, u: int)
    requires
        0 <= u < SCALE as int,
        0 <= d,
    ensures
        0 <= fmul(d, u),
        fmul(d, u) <= d,
        d > 0 ==> fmul(d, u) < d,
{
    assert(d * u >= 0) by (nonlinear_arith)
        requires
            d >= 0,
            u >= 0,
    ;
    lemma_div_pos_is_pos(d * u, 0x10000);
    assert(d * u <= d * 0x10000 - d) by (nonlinear_arith)
        requires
            0 <= u <= 0x10000 - 1,
            0 <= d,
    ;
    lemma_tdiv_mono(d * u, d * 0x10000 - d, 0x10000);
    lemma_tdiv_mono(d * 0x10000 - d, d * 0x10000, 0x10000);
    lemma_tdiv_cancel(d, 0x10000);
    if d > 0 {
        lemma_tdiv_mono(d * 0x10000 - d, d * 0x10000 - 1, 0x10000);
        // (d * SCALE - 1) / SCALE == d - 1
        assert(d * 0x10000 - 1 == (d - 1) * 0x10000 + (0x10000 - 1)) by (nonlinear_arith);
        lemma_tdiv_plus_small(d - 1, 0x10000 - 1);
    }
}

/// `tdiv(k * SCALE + s, SCALE) == k` for a nonnegative `k` and a small
/// nonnegative remainder `s`.
proof fn lemma_tdiv_plus_small(k: int, s: int)
    requires
        k >= 0,
        0 <= s < 0x10000,
    ensures
        tdiv(k * 0x10000 + s, 0x10000) == k,
{
    assert(k * 0x10000 + s >= 0) by (nonlinear_arith)
        requires
            k >= 0,
            s >= 0,
    ;
    assert((k * 0x10000 + s) / 0x10000 == k + s / 0x10000) by {
        vstd::arithmetic::div_mod::lemma_div_multiples_vanish_fancy(k, s, 0x10000);
        assert(0x10000 * k == k * 0x10000) by (nonlinear_arith);
    }
    assert(s / 0x10000 == 0) by {
        vstd::arithmetic::div_mod::lemma_basic_div(s, 0x10000);
    }
}

/// Spec of `degrees_to_radians`: multiply by pi, divide by 180, in
/// fixed point.
pub open spec fn deg_to_rad(d: int) -> int {
    fdiv(fmul(d, PI_FP as int), 180 * SCALE as int)
}

/// Convert a fixed-point angle in degrees to radians.
pub fn degrees_to_radians(degrees: i64) -> (r: i64)
    requires
        abs_i(degrees as int) <= 0x10_0000_0000,
    ensures
        r as int == deg_to_rad(degrees as int),
{
    proof {
        lemma_fmul_bound(degrees as int, PI_FP as int, 0x10_0000_0000, 205887);
        let num = fmul(degrees as int, PI_FP as int);
        assert(abs_i(num * 0x10000) == abs_i(num) * 0x10000) by (nonlinear_arith);
        lemma_tdiv_mag(num * 0x10000, 180int * 0x10000);
    }
    fp_div(fp_mul(degrees, PI_FP), 180 * SCALE)
}

/// Spec of `clamp`.
pub open spec fn clamp_spec(x: int, lo: int, hi: int) -> int {
    if x < lo {
        lo
    } else if x > hi {
        hi
    } else {
        x
    }
}

/// Clamp `x` into the closed interval `[lo, hi]`.
pub fn clamp(x: i64, lo: i64, hi: i64) -> (r: i64)
    requires
        lo <= hi,
    ensures
        r == clamp_spec(x as int, lo as int, hi as int),
        lo <= r <= hi,
{
    if x < lo {
        lo
    } else if x > hi {
        hi
    } else {
        x
    }
}

} // verus!
