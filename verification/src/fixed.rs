//! Fixed-point scalar arithmetic.
//!
//! Every geometric quantity in this crate is a signed 16.16 fixed-point
//! number: an `i64` holding the real value times `SCALE` (= 2^16).
//! Products and quotients round toward zero; the square root rounds down.
//! The spec functions below define those roundings exactly, and every
//! executable operation is proved to return precisely the spec value.

use vstd::prelude::*;

verus! {

use vstd::arithmetic::div_mod::{
    lemma_div_is_ordered,
    lemma_div_multiples_vanish,
    lemma_div_nonincreasing,
    lemma_div_pos_is_pos,
};
use vstd::arithmetic::mul::lemma_mul_upper_bound;

/// Number of fixed-point steps per unit: values are scaled by 2^16.
pub const SCALE: i64 = 65536;

/// Absolute value of a mathematical integer.
pub open spec fn abs_i(a: int) -> int {
    if a < 0 {
        -a
    } else {
        a
    }
}

/// Division rounding toward zero, defined through Euclidean division of
/// the absolute values. Meaningful only for `b != 0`.
pub open spec fn tdiv(a: int, b: int) -> int
    recommends
        b != 0,
{
    let q = abs_i(a) / abs_i(b);
    if (a < 0) != (b < 0) {
        -q
    } else {
        q
    }
}

/// Fixed-point product: the real product, rounded toward zero.
pub open spec fn fmul(a: int, b: int) -> int {
    tdiv(a * b, SCALE as int)
}

/// Fixed-point quotient: the real quotient, rounded toward zero.
pub open spec fn fdiv(a: int, b: int) -> int
    recommends
        b != 0,
{
    tdiv(a * SCALE, b)
}

/// Integer square root: the greatest `r` with `r * r <= n` (0 for `n <= 0`).
pub open spec fn sqrt_floor(n: int) -> int
    decreases n,
{
    if n <= 0 {
        0
    } else {
        let r = sqrt_floor(n - 1);
        if (r + 1) * (r + 1) <= n {
            r + 1
        } else {
            r
        }
    }
}

/// Fixed-point square root of a fixed-point value.
pub open spec fn fsqrt(x: int) -> int {
    sqrt_floor(x * SCALE)
}

/// The value lies within the `i64` range.
pub open spec fn fits64(x: int) -> bool {
    -0x8000_0000_0000_0000 <= x <= 0x7fff_ffff_ffff_ffff
}

/// `sqrt_floor(n)` is the floor of the square root: it is nonnegative,
/// its square is at most `n`, and the next square is beyond `n`.
pub proof fn lemma_sqrt_floor_props(n: int)
    requires
        n >= 0,
    ensures
        0 <= sqrt_floor(n),
        sqrt_floor(n) * sqrt_floor(n) <= n,
        n < (sqrt_floor(n) + 1) * (sqrt_floor(n) + 1),
    decreases n,
{
    if n == 0 {
        assert(sqrt_floor(0) == 0);
    } else {
        lemma_sqrt_floor_props(n - 1);
        let r = sqrt_floor(n - 1);
        if (r + 1) * (r + 1) <= n {
            assert((r + 2) * (r + 2) > n) by (nonlinear_arith)
                requires
                    r >= 0,
                    n - 1 < (r + 1) * (r + 1),
            ;
        }
    }
}

/// The floor square root is the unique nonnegative `r` whose square
/// brackets `n`.
pub proof fn lemma_sqrt_floor_unique(n: int, r: int)
    requires
        n >= 0,
        r >= 0,
        r * r <= n,
        n < (r + 1) * (r + 1),
    ensures
        sqrt_floor(n) == r,
{
    lemma_sqrt_floor_props(n);
    let s = sqrt_floor(n);
    if s < r {
        assert((s + 1) * (s + 1) <= r * r) by (nonlinear_arith)
            requires
                0 <= s,
                s + 1 <= r,
        ;
    }
    if r < s {
        assert((r + 1) * (r + 1) <= s * s) by (nonlinear_arith)
            requires
                0 <= r,
                r + 1 <= s,
        ;
    }
}

/// The floor square root of a perfect square is exact.
pub proof fn lemma_sqrt_floor_square(r: int)
    requires
        r >= 0,
    ensures
        sqrt_floor(r * r) == r,
{
    assert(r * r >= 0) by (nonlinear_arith)
        requires
            r >= 0,
    ;
    assert(r * r < (r + 1) * (r + 1)) by (nonlinear_arith)
        requires
            r >= 0,
    ;
    lemma_sqrt_floor_unique(r * r, r);
}

/// Truncating division by a positive divisor is monotone in the numerator.
pub proof fn lemma_tdiv_mono(a1: int, a2: int, b: int)
    requires
        a1 <= a2,
        b > 0,
    ensures
        tdiv(a1, b) <= tdiv(a2, b),
{
    if a1 >= 0 {
        lemma_div_is_ordered(a1, a2, b);
    } else if a2 < 0 {
        lemma_div_is_ordered(-a2, -a1, b);
    } else {
        lemma_div_pos_is_pos(-a1, b);
        lemma_div_pos_is_pos(a2, b);
    }
}

/// Dividing a multiple of `b` by `b` recovers the factor exactly.
pub proof fn lemma_tdiv_cancel(k: int, b: int)
    requires
        b != 0,
    ensures
        tdiv(k * b, b) == k,
{
    assert(abs_i(k * b) == abs_i(k) * abs_i(b)) by (nonlinear_arith);
    lemma_div_multiples_vanish(abs_i(k), abs_i(b));
    assert(abs_i(b) * abs_i(k) == abs_i(k) * abs_i(b)) by (nonlinear_arith);
    if k != 0 {
        assert(((k * b < 0) != (b < 0)) == (k < 0)) by (nonlinear_arith)
            requires
                k != 0,
                b != 0,
        ;
    }
}

/// The magnitude of a truncating quotient is the quotient of the
/// magnitudes, hence never larger than the numerator's magnitude.
pub proof fn lemma_tdiv_mag(a: int, b: int)
    requires
        b != 0,
    ensures
        abs_i(tdiv(a, b)) == abs_i(a) / abs_i(b),
        abs_i(tdiv(a, b)) <= abs_i(a),
{
    lemma_div_pos_is_pos(abs_i(a), abs_i(b));
    lemma_div_nonincreasing(abs_i(a), abs_i(b));
}

/// Multiplying by one (`SCALE`) is exact.
pub proof fn lemma_fmul_scale(a: int)
    ensures
        fmul(a, SCALE as int) == a,
        fmul(SCALE as int, a) == a,
{
    lemma_tdiv_cancel(a, SCALE as int);
    assert(a * SCALE == SCALE * a) by (nonlinear_arith);
}

/// Bound on a fixed-point product from bounds on its factors.
pub proof fn lemma_fmul_bound(a: int, b: int, ba: int, bb: int)
    requires
        abs_i(a) <= ba,
        abs_i(b) <= bb,
    ensures
        abs_i(fmul(a, b)) <= (ba * bb) / (SCALE as int),
        abs_i(fmul(a, b)) <= ba * bb,
{
    assert(abs_i(a * b) == abs_i(a) * abs_i(b)) by (nonlinear_arith);
    lemma_mul_upper_bound(abs_i(a), ba, abs_i(b), bb);
    lemma_tdiv_mag(a * b, SCALE as int);
    lemma_div_is_ordered(abs_i(a * b), ba * bb, SCALE as int);
    lemma_div_nonincreasing(ba * bb, SCALE as int);
}

/// A product of two fixed-point values in the unit interval `[0, 1]`
/// stays in the unit interval, below either factor.
pub proof fn lemma_fmul_unit(a: int, b: int)
    requires
        0 <= a <= SCALE as int,
        0 <= b <= SCALE as int,
    ensures
        0 <= fmul(a, b),
        fmul(a, b) <= a,
        fmul(a, b) <= b,
{
    assert(a * b >= 0) by (nonlinear_arith)
        requires
            a >= 0,
            b >= 0,
    ;
    lemma_div_pos_is_pos(a * b, SCALE as int);
    assert(a * b <= a * SCALE) by (nonlinear_arith)
        requires
            a >= 0,
            b <= SCALE as int,
    ;
    assert(a * b <= b * SCALE) by (nonlinear_arith)
        requires
            b >= 0,
            a <= SCALE as int,
    ;
    lemma_div_is_ordered(a * b, a * SCALE as int, SCALE as int);
    lemma_div_is_ordered(a * b, b * SCALE as int, SCALE as int);
    lemma_div_multiples_vanish(a, SCALE as int);
    lemma_div_multiples_vanish(b, SCALE as int);
    assert(SCALE as int * a == a * SCALE) by (nonlinear_arith);
    assert(SCALE as int * b == b * SCALE) by (nonlinear_arith);
}

/// Fixed-point multiply. Rounds toward zero.
pub fn fp_mul(a: i64, b: i64) -> (r: i64)
    requires
        fits64(fmul(a as int, b as int)),
    ensures
        r as int == fmul(a as int, b as int),
{
    proof {
        assert((a as int) * (b as int) <= 0x4000_0000_0000_0000_0000_0000_0000_0000
            && (a as int) * (b as int) >= -0x4000_0000_0000_0000_0000_0000_0000_0000)
            by (nonlinear_arith)
            requires
                -0x8000_0000_0000_0000 <= a as int <= 0x7fff_ffff_ffff_ffff,
                -0x8000_0000_0000_0000 <= b as int <= 0x7fff_ffff_ffff_ffff,
        ;
    }
    let p: i128 = (a as i128) * (b as i128);
    let neg: bool = p < 0;
    let ap: u128 = if neg {
        (-p) as u128
    } else {
        p as u128
    };
    let q: u128 = ap / 65536u128;
    proof {
        assert(ap as int == abs_i(p as int));
        lemma_tdiv_mag(p as int, SCALE as int);
    }
    if neg {
        (-(q as i128)) as i64
    } else {
        (q as i128) as i64
    }
}

/// Fixed-point divide. Rounds toward zero. The divisor must be nonzero.
pub fn fp_div(a: i64, b: i64) -> (r: i64)
    requires
        b != 0,
        fits64(fdiv(a as int, b as int)),
    ensures
        r as int == fdiv(a as int, b as int),
{
    let n: i128 = (a as i128) * 65536;
    let neg: bool = (a < 0) != (b < 0);
    let an: u128 = if n < 0 {
        (-n) as u128
    } else {
        n as u128
    };
    let ab: u128 = if b < 0 {
        (-(b as i128)) as u128
    } else {
        (b as i128) as u128
    };
    let q: u128 = an / ab;
    proof {
        assert(an as int == abs_i((a as int) * (SCALE as int)));
        assert(ab as int == abs_i(b as int));
        lemma_tdiv_mag((a as int) * (SCALE as int), b as int);
        if a == 0 {
            lemma_div_pos_is_pos(0, abs_i(b as int));
            vstd::arithmetic::div_mod::lemma_basic_div(0, abs_i(b as int));
        }
        assert(((a as int) * (SCALE as int) < 0) == (a < 0));
    }
    if neg {
        (-(q as i128)) as i64
    } else {
        (q as i128) as i64
    }
}

/// A quotient's magnitude is bounded by the scaled magnitude of its
/// numerator.
pub proof fn lemma_fdiv_bound(x: int, k: int, bx: int)
    requires
        abs_i(x) <= bx,
        k != 0,
    ensures
        abs_i(fdiv(x, k)) <= bx * 0x10000,
{
    lemma_tdiv_mag(x * 0x10000, k);
    assert(abs_i(x * 0x10000) == abs_i(x) * 0x10000);
    lemma_div_nonincreasing(abs_i(x) * 0x10000, abs_i(k));
}

/// Fixed-point square root of a nonnegative fixed-point value, rounded
/// down.
pub fn fp_sqrt(x: i64) -> (r: i64)
    requires
        x >= 0,
    ensures
        r as int == fsqrt(x as int),
        0 <= r,
        (r as int) * (r as int) <= (x as int) * 0x10000,
        (x as int) * 0x10000 < (r as int + 1) * (r as int + 1),
{
    let n: u128 = (x as u128) * 65536;
    let mut lo: u128 = 0;
    let mut hi: u128 = 1099511627776;  // 2^40; its square exceeds any scaled i64
    proof {
        assert((hi as int) * (hi as int) > n as int);
    }
    while hi - lo > 1
        invariant
            0 <= lo < hi <= 1099511627776,
            (lo as int) * (lo as int) <= n as int,
            (n as int) < (hi as int) * (hi as int),
        decreases hi - lo,
    {
        let mid: u128 = lo + (hi - lo) / 2;
        proof {
            assert((mid as int) * (mid as int) <= 1099511627776 * 1099511627776)
                by (nonlinear_arith)
                requires
                    0 <= mid as int <= 1099511627776,
            ;
        }
        let sq: u128 = mid * mid;
        if sq <= n {
            lo = mid;
        } else {
            hi = mid;
        }
    }
    proof {
        lemma_sqrt_floor_unique(n as int, lo as int);
    }
    lo as i64
}

} // verus!
