//! Three-component fixed-point vectors, used both for geometry and for
//! RGB colors.
//!
//! Every operation's result is pinned down exactly by a spec function
//! over integer triples; `v@` is the triple of a vector's components.

use vstd::prelude::*;

verus! {

use crate::fixed::{
    abs_i, fdiv, fits64, fmul, fp_div, fp_mul, fp_sqrt, fsqrt, lemma_fmul_bound, lemma_fmul_scale,
    lemma_sqrt_floor_props, lemma_sqrt_floor_square, lemma_tdiv_cancel, lemma_tdiv_mag,
    lemma_tdiv_mono, sqrt_floor, tdiv, SCALE,
};
use crate::utils::random_fp_min_max;
use vstd::arithmetic::div_mod::{
    lemma_div_is_ordered, lemma_div_multiples_vanish, lemma_div_pos_is_pos,
    lemma_fundamental_div_mod,
};

/// A vector (or color) of three 16.16 fixed-point components.
#[derive(Clone, Copy, PartialEq, Eq, Structural, Debug)]
pub struct Vec3 {
    pub x: i64,
    pub y: i64,
    pub z: i64,
}

/// Colors are vectors whose components lie in `[0, SCALE]`.
pub type Color = Vec3;

impl View for Vec3 {
    type V = (int, int, int);

    open spec fn view(&self) -> (int, int, int) {
        (self.x as int, self.y as int, self.z as int)
    }
}

/// Every component's magnitude is at most `b`.
pub open spec fn bounded3(v: (int, int, int), b: int) -> bool {
    abs_i(v.0) <= b && abs_i(v.1) <= b && abs_i(v.2) <= b
}

/// A well-formed color: every channel within the unit interval.
pub open spec fn color_wf(c: (int, int, int)) -> bool {
    0 <= c.0 <= SCALE as int && 0 <= c.1 <= SCALE as int && 0 <= c.2 <= SCALE as int
}

/// A point from the admissible sampling region: inside the unit
/// sphere, away from the degenerate center (squared length in
/// `[1/4, 1)`).
pub open spec fn in_sphere_sample(v: (int, int, int)) -> bool {
    bounded3(v, SCALE as int) && 16384 <= ls3(v) < SCALE as int
}

/// A sampled direction: the exact normalization of some admissible
/// in-sphere point, hence of unit length up to fixed-point rounding.
pub open spec fn unit_sample(v: (int, int, int)) -> bool {
    &&& bounded3(v, 2 * SCALE as int)
    &&& exists|p: (int, int, int)| in_sphere_sample(p) && v == #[trigger] unit3(p)
}

/// Componentwise sum.
pub open spec fn add3(u: (int, int, int), v: (int, int, int)) -> (int, int, int) {
    (u.0 + v.0, u.1 + v.1, u.2 + v.2)
}

/// Componentwise difference.
pub open spec fn sub3(u: (int, int, int), v: (int, int, int)) -> (int, int, int) {
    (u.0 - v.0, u.1 - v.1, u.2 - v.2)
}

/// Componentwise negation.
pub open spec fn neg3(v: (int, int, int)) -> (int, int, int) {
    (-v.0, -v.1, -v.2)
}

/// Scaling by a fixed-point factor.
pub open spec fn scale3(v: (int, int, int), k: int) -> (int, int, int) {
    (fmul(v.0, k), fmul(v.1, k), fmul(v.2, k))
}

/// Division of each component by a fixed-point factor.
pub open spec fn divs3(v: (int, int, int), k: int) -> (int, int, int) {
    (fdiv(v.0, k), fdiv(v.1, k), fdiv(v.2, k))
}

/// Componentwise fixed-point product (used for color attenuation).
pub open spec fn mul_each3(u: (int, int, int), v: (int, int, int)) -> (int, int, int) {
    (fmul(u.0, v.0), fmul(u.1, v.1), fmul(u.2, v.2))
}

/// Fixed-point dot product.
pub open spec fn dot3(u: (int, int, int), v: (int, int, int)) -> int {
    fmul(u.0, v.0) + fmul(u.1, v.1) + fmul(u.2, v.2)
}

/// The intermediate sums of the dot product all fit in an `i64`.
pub open spec fn dot3_fits(u: (int, int, int), v: (int, int, int)) -> bool {
    &&& fits64(fmul(u.0, v.0))
    &&& fits64(fmul(u.1, v.1))
    &&& fits64(fmul(u.2, v.2))
    &&& fits64(fmul(u.0, v.0) + fmul(u.1, v.1))
    &&& fits64(dot3(u, v))
}

/// Fixed-point cross product.
pub open spec fn cross3(u: (int, int, int), v: (int, int, int)) -> (int, int, int) {
    (
        fmul(u.1, v.2) - fmul(u.2, v.1),
        fmul(u.2, v.0) - fmul(u.0, v.2),
        fmul(u.0, v.1) - fmul(u.1, v.0),
    )
}

/// Squared length, in fixed point.
pub open spec fn ls3(v: (int, int, int)) -> int {
    dot3(v, v)
}

/// Length: the fixed-point square root of the squared length.
pub open spec fn len3(v: (int, int, int)) -> int {
    fsqrt(ls3(v))
}

/// Normalization: each component divided by the length.
pub open spec fn unit3(v: (int, int, int)) -> (int, int, int) {
    divs3(v, len3(v))
}

/// Mirror reflection of `v` about `n`.
pub open spec fn reflect3(v: (int, int, int), n: (int, int, int)) -> (int, int, int) {
    sub3(v, scale3(n, 2 * dot3(v, n)))
}

/// Snell refraction of the unit direction `uv` at normal `n` with index
/// ratio `ratio`. A negative radicand (possible only through rounding,
/// at the edge of total internal reflection) is clamped to zero.
pub open spec fn refract3(uv: (int, int, int), n: (int, int, int), ratio: int) -> (int, int, int) {
    let cos_theta = dot3(neg3(uv), n);
    let par = scale3(add3(uv, scale3(n, cos_theta)), ratio);
    let g = SCALE as int - ls3(par);
    let gc = if g < 0 {
        0
    } else {
        g
    };
    add3(par, scale3(n, -fsqrt(gc)))
}

/// Bounds on the factors bound each scaled component.
pub proof fn lemma_scale3_fits(v: (int, int, int), k: int, bv: int, bk: int)
    requires
        bounded3(v, bv),
        abs_i(k) <= bk,
        0 <= bv,
        0 <= bk,
        bv * bk <= 0x7fff_ffff_ffff_ffff * 0x10000,
    ensures
        fits64(fmul(v.0, k)),
        fits64(fmul(v.1, k)),
        fits64(fmul(v.2, k)),
        bounded3(scale3(v, k), (bv * bk) / 0x10000),
{
    lemma_fmul_bound(v.0, k, bv, bk);
    lemma_fmul_bound(v.1, k, bv, bk);
    lemma_fmul_bound(v.2, k, bv, bk);
    lemma_div_is_ordered(bv * bk, 0x7fff_ffff_ffff_ffffint * 0x10000, 0x10000);
    lemma_div_multiples_vanish(0x7fff_ffff_ffff_ffff, 0x10000);
    assert(0x10000 * 0x7fff_ffff_ffff_ffff == 0x7fff_ffff_ffff_ffff * 0x10000);
    lemma_div_pos_is_pos(bv * bk, 0x10000);
}

/// Bounds on the operands bound every partial sum of the dot product.
pub proof fn lemma_dot3_fits(u: (int, int, int), v: (int, int, int), bu: int, bv: int)
    requires
        bounded3(u, bu),
        bounded3(v, bv),
        0 <= bu,
        0 <= bv,
        3 * (bu * bv) <= 0x7fff_ffff_ffff_ffff * 0x10000,
    ensures
        dot3_fits(u, v),
        abs_i(dot3(u, v)) <= 3 * ((bu * bv) / 0x10000),
{
    lemma_fmul_bound(u.0, v.0, bu, bv);
    lemma_fmul_bound(u.1, v.1, bu, bv);
    lemma_fmul_bound(u.2, v.2, bu, bv);
    let p = bu * bv;
    assert(bu * bv >= 0) by (nonlinear_arith)
        requires
            bu >= 0,
            bv >= 0,
    ;
    let m = p / 0x10000;
    lemma_div_pos_is_pos(p, 0x10000);
    vstd::arithmetic::div_mod::lemma_remainder_lower(p, 0x10000);
    lemma_div_is_ordered(3 * (m * 0x10000), 3 * p, 0x10000);
    lemma_div_is_ordered(3 * p, 0x7fff_ffff_ffff_ffffint * 0x10000, 0x10000);
    lemma_div_multiples_vanish(3 * m, 0x10000);
    assert(0x10000 * (3 * m) == 3 * (m * 0x10000)) by (nonlinear_arith);
    lemma_div_multiples_vanish(0x7fff_ffff_ffff_ffff, 0x10000);
    assert(0x10000 * 0x7fff_ffff_ffff_ffff == 0x7fff_ffff_ffff_ffffint * 0x10000);
}

/// Each squared component is nonnegative, so the squared length is
/// nonnegative and bounds each term.
pub proof fn lemma_ls3_parts(v: (int, int, int))
    ensures
        0 <= fmul(v.0, v.0),
        0 <= fmul(v.1, v.1),
        0 <= fmul(v.2, v.2),
        0 <= ls3(v),
        fmul(v.0, v.0) <= ls3(v),
        fmul(v.1, v.1) <= ls3(v),
        fmul(v.2, v.2) <= ls3(v),
{
    assert(v.0 * v.0 >= 0 && v.1 * v.1 >= 0 && v.2 * v.2 >= 0) by (nonlinear_arith);
    lemma_div_pos_is_pos(v.0 * v.0, 0x10000);
    lemma_div_pos_is_pos(v.1 * v.1, 0x10000);
    lemma_div_pos_is_pos(v.2 * v.2, 0x10000);
}

/// Negating one factor negates the fixed-point product exactly.
pub proof fn lemma_fmul_neg(a: int, b: int)
    ensures
        fmul(-a, b) == -fmul(a, b),
{
    assert((-a) * b == -(a * b)) by (nonlinear_arith);
}

/// Negating a vector preserves its squared length exactly.
pub proof fn lemma_ls3_neg(v: (int, int, int))
    ensures
        ls3(neg3(v)) == ls3(v),
{
    assert((-v.0) * (-v.0) == v.0 * v.0) by (nonlinear_arith);
    assert((-v.1) * (-v.1) == v.1 * v.1) by (nonlinear_arith);
    assert((-v.2) * (-v.2) == v.2 * v.2) by (nonlinear_arith);
}

/// Negating a vector negates its dot product with any other exactly.
pub proof fn lemma_dot3_neg(u: (int, int, int), v: (int, int, int))
    ensures
        dot3(neg3(u), v) == -dot3(u, v),
{
    lemma_fmul_neg(u.0, v.0);
    lemma_fmul_neg(u.1, v.1);
    lemma_fmul_neg(u.2, v.2);
}

impl Vec3 {
    /// Build a vector from fixed-point components.
    pub fn new(x: i64, y: i64, z: i64) -> (r: Vec3)
        ensures
            r@ == (x as int, y as int, z as int),
    {
        Vec3 { x, y, z }
    }

    /// First component.
    pub fn x(&self) -> (r: i64)
        ensures
            r as int == self@.0,
    {
        self.x
    }

    /// Second component.
    pub fn y(&self) -> (r: i64)
        ensures
            r as int == self@.1,
    {
        self.y
    }

    /// Third component.
    pub fn z(&self) -> (r: i64)
        ensures
            r as int == self@.2,
    {
        self.z
    }

    /// Componentwise sum.
    pub fn plus(&self, o: &Vec3) -> (r: Vec3)
        requires
            bounded3(self@, 0x2000_0000_0000_0000),
            bounded3(o@, 0x2000_0000_0000_0000),
        ensures
            r@ == add3(self@, o@),
    {
        Vec3 { x: self.x + o.x, y: self.y + o.y, z: self.z + o.z }
    }

    /// Componentwise difference.
    pub fn minus(&self, o: &Vec3) -> (r: Vec3)
        requires
            bounded3(self@, 0x2000_0000_0000_0000),
            bounded3(o@, 0x2000_0000_0000_0000),
        ensures
            r@ == sub3(self@, o@),
    {
        Vec3 { x: self.x - o.x, y: self.y - o.y, z: self.z - o.z }
    }

    /// Componentwise negation.
    pub fn negate(&self) -> (r: Vec3)
        requires
            bounded3(self@, 0x4000_0000_0000_0000),
        ensures
            r@ == neg3(self@),
    {
        Vec3 { x: -self.x, y: -self.y, z: -self.z }
    }

    /// Scale by a fixed-point factor.
    pub fn scale(&self, k: i64) -> (r: Vec3)
        requires
            fits64(fmul(self@.0, k as int)),
            fits64(fmul(self@.1, k as int)),
            fits64(fmul(self@.2, k as int)),
        ensures
            r@ == scale3(self@, k as int),
    {
        Vec3 { x: fp_mul(self.x, k), y: fp_mul(self.y, k), z: fp_mul(self.z, k) }
    }

    /// Divide each component by a fixed-point factor.
    pub fn div_by(&self, k: i64) -> (r: Vec3)
        requires
            k != 0,
            fits64(fdiv(self@.0, k as int)),
            fits64(fdiv(self@.1, k as int)),
            fits64(fdiv(self@.2, k as int)),
        ensures
            r@ == divs3(self@, k as int),
    {
        Vec3 { x: fp_div(self.x, k), y: fp_div(self.y, k), z: fp_div(self.z, k) }
    }

    /// Componentwise product (color attenuation).
    pub fn mul_each(&self, o: &Vec3) -> (r: Vec3)
        requires
            fits64(fmul(self@.0, o@.0)),
            fits64(fmul(self@.1, o@.1)),
            fits64(fmul(self@.2, o@.2)),
        ensures
            r@ == mul_each3(self@, o@),
    {
        Vec3 { x: fp_mul(self.x, o.x), y: fp_mul(self.y, o.y), z: fp_mul(self.z, o.z) }
    }

    /// Dot product.
    pub fn dot(u: &Vec3, v: &Vec3) -> (r: i64)
        requires
            dot3_fits(u@, v@),
        ensures
            r as int == dot3(u@, v@),
    {
        let a = fp_mul(u.x, v.x);
        let b = fp_mul(u.y, v.y);
        let c = fp_mul(u.z, v.z);
        a + b + c
    }

    /// Cross product.
    pub fn cross(u: &Vec3, v: &Vec3) -> (r: Vec3)
        requires
            bounded3(u@, 0x4000_0000),
            bounded3(v@, 0x4000_0000),
        ensures
            r@ == cross3(u@, v@),
            bounded3(r@, 0x2000_0000_0000),
    {
        proof {
            lemma_fmul_bound(u@.1, v@.2, 0x4000_0000, 0x4000_0000);
            lemma_fmul_bound(u@.2, v@.1, 0x4000_0000, 0x4000_0000);
            lemma_fmul_bound(u@.2, v@.0, 0x4000_0000, 0x4000_0000);
            lemma_fmul_bound(u@.0, v@.2, 0x4000_0000, 0x4000_0000);
            lemma_fmul_bound(u@.0, v@.1, 0x4000_0000, 0x4000_0000);
            lemma_fmul_bound(u@.1, v@.0, 0x4000_0000, 0x4000_0000);
        }
        Vec3 {
            x: fp_mul(u.y, v.z) - fp_mul(u.z, v.y),
            y: fp_mul(u.z, v.x) - fp_mul(u.x, v.z),
            z: fp_mul(u.x, v.y) - fp_mul(u.y, v.x),
        }
    }

    /// Squared length.
    pub fn length_squared(&self) -> (r: i64)
        requires
            dot3_fits(self@, self@),
        ensures
            r as int == ls3(self@),
            r >= 0,
    {
        proof {
            lemma_ls3_parts(self@);
        }
        Self::dot(self, self)
    }

    /// Length.
    pub fn length(&self) -> (r: i64)
        requires
            dot3_fits(self@, self@),
        ensures
            r as int == len3(self@),
            r >= 0,
    {
        let ls = self.length_squared();
        fp_sqrt(ls)
    }

    /// Normalize `v`. The squared length must be at least a quarter
    /// (in fixed point), which keeps every result component within
    /// twice the unit scale.
    pub fn unit_vector(v: Vec3) -> (r: Vec3)
        requires
            dot3_fits(v@, v@),
            ls3(v@) >= 16384,
        ensures
            r@ == unit3(v@),
            bounded3(r@, 2 * SCALE as int),
    {
        proof {
            lemma_unit3_bounded(v@);
        }
        let len = v.length();
        v.div_by(len)
    }

    /// Mirror reflection of `v` about the normal `n`.
    pub fn reflect(v: &Vec3, n: &Vec3) -> (r: Vec3)
        requires
            bounded3(v@, 4 * SCALE as int),
            bounded3(n@, 4 * SCALE as int),
        ensures
            r@ == reflect3(v@, n@),
            bounded3(r@, 0x400_0000),
    {
        proof {
            lemma_dot3_fits(v@, n@, 262144, 262144);
            lemma_scale3_fits(n@, 2 * dot3(v@, n@), 262144, 6291456);
        }
        let d = Vec3::dot(v, n);
        let w = n.scale(2 * d);
        v.minus(&w)
    }

    /// Refract the unit direction `uv` at the normal `n` with index
    /// ratio `ratio` (Snell's law, fixed point).
    pub fn refract(uv: &Vec3, n: &Vec3, ratio: i64) -> (r: Vec3)
        requires
            bounded3(uv@, 2 * SCALE as int),
            bounded3(n@, 4 * SCALE as int),
            0 < ratio <= 8 * SCALE,
        ensures
            r@ == refract3(uv@, n@, ratio as int),
            bounded3(r@, 0x800_0000),
    {
        proof {
            lemma_dot3_fits(neg3(uv@), n@, 131072, 262144);
        }
        let minus_uv = uv.negate();
        let cos_theta = Vec3::dot(&minus_uv, n);
        proof {
            lemma_scale3_fits(n@, cos_theta as int, 262144, 1572864);
        }
        let pre = uv.plus(&n.scale(cos_theta));
        proof {
            lemma_scale3_fits(pre@, ratio as int, 0x80_0000, 524288);
            lemma_dot3_fits(
                scale3(pre@, ratio as int),
                scale3(pre@, ratio as int),
                0x400_0000,
                0x400_0000,
            );
        }
        let par = pre.scale(ratio);
        let lsq = par.length_squared();
        let g: i64 = if lsq > SCALE {
            0
        } else {
            SCALE - lsq
        };
        let sq = fp_sqrt(g);
        proof {
            lemma_fsqrt_le_scale(g as int);
            lemma_scale3_fits(n@, -(sq as int), 262144, 65536);
        }
        let perp = n.scale(-sq);
        par.plus(&perp)
    }

    /// A color with every component drawn uniformly from `[0, 1)`.
    pub fn random() -> (r: Vec3)
        ensures
            0 <= r@.0 < SCALE as int,
            0 <= r@.1 < SCALE as int,
            0 <= r@.2 < SCALE as int,
    {
        let x = random_fp_min_max(0, SCALE);
        let y = random_fp_min_max(0, SCALE);
        let z = random_fp_min_max(0, SCALE);
        Vec3 { x, y, z }
    }

    /// A vector with every component drawn uniformly from `[min, max)`.
    pub fn random_min_max(min: i64, max: i64) -> (r: Vec3)
        requires
            -0x2000_0000_0000_0000 <= min < max <= 0x2000_0000_0000_0000,
        ensures
            bounded3(r@, if -min > max { -min as int } else { max as int }),
            min <= r.x < max,
            min <= r.y < max,
            min <= r.z < max,
    {
        let x = random_fp_min_max(min, max);
        let y = random_fp_min_max(min, max);
        let z = random_fp_min_max(min, max);
        Vec3 { x, y, z }
    }

    /// A point sampled inside the unit sphere, away from the
    /// degenerate center region (squared length in `[1/4, 1)`). Falls
    /// back to a fixed half-unit axis point if rejection sampling
    /// exhausts its attempts.
    pub fn random_in_unit_sphere() -> (r: Vec3)
        ensures
            in_sphere_sample(r@),
            dot3_fits(r@, r@),
    {
        let mut attempts: u32 = 0;
        while attempts < 64
            invariant
                attempts <= 64,
            decreases 64 - attempts,
        {
            let p = Vec3::random_min_max(-SCALE, SCALE);
            proof {
                lemma_dot3_fits(p@, p@, 65536, 65536);
            }
            let lsq = p.length_squared();
            if 16384 <= lsq && lsq < SCALE {
                return p;
            }
            attempts = attempts + 1;
        }
        let fallback = Vec3 { x: 0, y: 0, z: 32768 };
        proof {
            lemma_dot3_fits(fallback@, fallback@, 65536, 65536);
            lemma_tdiv_cancel(0, 65536);
            assert(0int * 0 == 0int * 65536);
            assert(fmul(0, 0) == 0);
            lemma_tdiv_cancel(16384, 65536);
            assert(32768int * 32768 == 16384int * 65536);
            assert(fmul(32768, 32768) == 16384);
        }
        fallback
    }

    /// A direction of roughly unit length, sampled uniformly over the
    /// sphere by normalizing a point from `random_in_unit_sphere`.
    pub fn random_unit_vector() -> (r: Vec3)
        ensures
            unit_sample(r@),
            bounded3(r@, 2 * SCALE as int),
    {
        let p = Vec3::random_in_unit_sphere();
        let r = Vec3::unit_vector(p);
        proof {
            assert(in_sphere_sample(p@) && r@ == unit3(p@));
        }
        r
    }

    /// A point in the unit sphere, flipped if needed so that it lies in
    /// the hemisphere around `normal`.
    pub fn random_in_hemisphere(normal: &Vec3) -> (r: Vec3)
        requires
            bounded3(normal@, 4 * SCALE as int),
        ensures
            in_sphere_sample(r@),
            dot3(r@, normal@) >= 0,
            exists|s: (int, int, int)|
                in_sphere_sample(s) && (r@ == s || r@ == neg3(s)) && dot3(r@, normal@) == abs_i(
                    #[trigger] dot3(s, normal@),
                ),
    {
        let in_unit_sphere = Vec3::random_in_unit_sphere();
        proof {
            lemma_dot3_fits(in_unit_sphere@, normal@, 65536, 262144);
        }
        let d = Vec3::dot(&in_unit_sphere, normal);
        if d > 0 {
            proof {
                assert(in_sphere_sample(in_unit_sphere@) && dot3(in_unit_sphere@, normal@)
                    == abs_i(dot3(in_unit_sphere@, normal@)));
            }
            in_unit_sphere
        } else {
            proof {
                lemma_dot3_neg(in_unit_sphere@, normal@);
                lemma_ls3_neg(in_unit_sphere@);
                assert(in_sphere_sample(neg3(in_unit_sphere@)) && dot3(
                    neg3(in_unit_sphere@),
                    normal@,
                ) == abs_i(dot3(in_unit_sphere@, normal@)));
            }
            in_unit_sphere.negate()
        }
    }
}

/// The fixed-point square root of a value at most one is at most one.
pub proof fn lemma_fsqrt_le_scale(g: int)
    requires
        0 <= g <= SCALE as int,
    ensures
        0 <= fsqrt(g) <= SCALE as int,
{
    lemma_sqrt_floor_props(g * 0x10000);
    let r = sqrt_floor(g * 0x10000);
    assert(g * 0x10000 <= 0x10000 * 0x10000);
    if r > 0x10000 {
        assert(r * r > 0x10000 * 0x10000) by (nonlinear_arith)
            requires
                r > 0x10000,
        ;
    }
}

/// Normalizing a vector whose squared length is at least a quarter
/// yields components within twice the unit scale, and the divisions
/// stay within `i64`.
pub proof fn lemma_unit3_bounded(v: (int, int, int))
    requires
        ls3(v) >= 16384,
        fits64(v.0),
        fits64(v.1),
        fits64(v.2),
    ensures
        len3(v) >= 32768,
        fits64(fdiv(v.0, len3(v))),
        fits64(fdiv(v.1, len3(v))),
        fits64(fdiv(v.2, len3(v))),
        bounded3(unit3(v), 2 * SCALE as int),
{
    let ls = ls3(v);
    let m = ls * 0x10000;
    let len = sqrt_floor(m);
    lemma_sqrt_floor_props(m);
    assert(m >= 16384 * 0x10000);
    if len < 32768 {
        assert((len + 1) * (len + 1) <= 32768 * 32768) by (nonlinear_arith)
            requires
                0 <= len,
                len + 1 <= 32768,
        ;
    }
    assert(len >= 32768);
    lemma_unit3_comp(v, v.0, len, ls);
    lemma_unit3_comp(v, v.1, len, ls);
    lemma_unit3_comp(v, v.2, len, ls);
}

/// One component of the normalization bound: if `x*x` (rounded) is a
/// term of `ls`, then `|x| <= 2*len - 2` and the division is bounded by
/// twice the unit scale.
proof fn lemma_unit3_comp(v: (int, int, int), x: int, len: int, ls: int)
    requires
        ls == ls3(v),
        len == sqrt_floor(ls * 0x10000),
        len >= 32768,
        x == v.0 || x == v.1 || x == v.2,
        ls >= 16384,
    ensures
        abs_i(fdiv(x, len)) <= 2 * SCALE as int,
        fits64(fdiv(x, len)),
{
    lemma_ls3_parts(v);
    let px = fmul(x, x);
    assert(px <= ls);
    // x*x < SCALE * (px + 1)
    assert(x * x >= 0) by (nonlinear_arith);
    lemma_fundamental_div_mod(x * x, 0x10000);
    vstd::arithmetic::div_mod::lemma_remainder_upper(x * x, 0x10000);
    vstd::arithmetic::div_mod::lemma_remainder_lower(x * x, 0x10000);
    assert(x * x == 0x10000 * ((x * x) / 0x10000) + (x * x) % 0x10000);
    assert(tdiv(x * x, 0x10000) == (x * x) / 0x10000);
    assert(x * x < 0x10000 * (px + 1)) by (nonlinear_arith)
        requires
            x * x == 0x10000 * px + (x * x) % 0x10000,
            (x * x) % 0x10000 < 0x10000,
    ;
    // ls * SCALE <= len*len + 2*len
    lemma_sqrt_floor_props(ls * 0x10000);
    assert(ls * 0x10000 < (len + 1) * (len + 1));
    assert(x * x <= (2 * len - 2) * (2 * len - 2)) by (nonlinear_arith)
        requires
            x * x < 0x10000 * (px + 1),
            px <= ls,
            ls * 0x10000 < (len + 1) * (len + 1),
            len >= 32768,
    ;
    assert(abs_i(x) <= 2 * len - 2) by (nonlinear_arith)
        requires
            x * x <= (2 * len - 2) * (2 * len - 2),
            len >= 1,
    ;
    // |fdiv(x, len)| = |x|*SCALE / len <= (2*len)*SCALE / len = 2*SCALE
    lemma_tdiv_mag(x * 0x10000, len);
    assert(abs_i(x * 0x10000) == abs_i(x) * 0x10000) by (nonlinear_arith);
    assert(abs_i(x) * 0x10000 <= 131072 * len) by (nonlinear_arith)
        requires
            abs_i(x) <= 2 * len - 2,
            len >= 1,
    ;
    lemma_tdiv_mono(abs_i(x) * 0x10000, 131072 * len, len);
    lemma_tdiv_cancel(131072, len);
    lemma_div_pos_is_pos(abs_i(x) * 0x10000, len);
    assert(tdiv(abs_i(x) * 0x10000, len) == abs_i(x) * 0x10000 / len);
}

/// Reflection law in a unit axis normal: reflecting any vector about
/// `n = (0, 0, 1)` negates the normal component exactly and keeps the
/// others, with no rounding. In particular an orthogonally incoming
/// ray returns the exact mirror direction.
pub proof fn lemma_reflect_axis_exact(v: (int, int, int))
    ensures
        reflect3(v, (0int, 0int, SCALE as int)) == (v.0, v.1, -v.2),
{
    lemma_fmul_zero(v.0);
    lemma_fmul_zero(v.1);
    lemma_fmul_scale(v.2);
    let d = dot3(v, (0int, 0int, SCALE as int));
    assert(d == v.2);
    lemma_fmul_zero(2 * d);
    lemma_fmul_scale(2 * d);
    assert(fmul(0, 2 * d) == fmul(2 * d, 0)) by {
        assert(0 * (2 * d) == (2 * d) * 0) by (nonlinear_arith);
    }
    assert(fmul(SCALE as int, 2 * d) == 2 * d) by {
        assert((SCALE as int) * (2 * d) == (2 * d) * (SCALE as int)) by (nonlinear_arith);
    }
}

/// Multiplying by zero is exactly zero.
pub proof fn lemma_fmul_zero(a: int)
    ensures
        fmul(a, 0) == 0,
        fmul(0, a) == 0,
{
    assert(a * 0 == 0) by (nonlinear_arith);
    assert(0 * a == 0) by (nonlinear_arith);
    vstd::arithmetic::div_mod::lemma_div_of0(0x10000);
}

/// Refraction law at matched indices: with an index ratio of one, a
/// ray at normal incidence passes through a unit axis normal with its
/// direction exactly unchanged (no bending, and every rounding step is
/// exact).
pub proof fn lemma_refract_matched_exact()
    ensures
        refract3(
            (0int, 0int, -(SCALE as int)),
            (0int, 0int, SCALE as int),
            SCALE as int,
        ) == (0int, 0int, -(SCALE as int)),
{
    let u = (0int, 0int, -(SCALE as int));
    let n = (0int, 0int, SCALE as int);
    lemma_fmul_zero(SCALE as int);
    lemma_fmul_scale(SCALE as int);
    assert(dot3(neg3(u), n) == SCALE as int);
    let cos = dot3(neg3(u), n);
    assert(scale3(n, cos) == (0int, 0int, SCALE as int));
    assert(add3(u, scale3(n, cos)) == (0int, 0int, 0int));
    lemma_fmul_zero(0);
    assert(scale3((0int, 0int, 0int), SCALE as int) == (0int, 0int, 0int)) by {
        lemma_fmul_scale(0);
    }
    let par = scale3(add3(u, scale3(n, cos)), SCALE as int);
    assert(par == (0int, 0int, 0int));
    assert(ls3(par) == 0);
    lemma_sqrt_floor_square(SCALE as int);
    assert(fsqrt(SCALE as int) == SCALE as int);
    lemma_fmul_scale(-(SCALE as int));
    assert(fmul(SCALE as int, -(SCALE as int)) == -(SCALE as int)) by {
        assert((SCALE as int) * (-(SCALE as int)) == (-(SCALE as int)) * (SCALE as int))
            by (nonlinear_arith);
    }
}

} // verus!
