//! The camera: maps viewport-normalized coordinates to primary rays,
//! modeling field of view, aspect ratio, orientation and a thin-lens
//! depth-of-field offset.

use vstd::prelude::*;

verus! {

use crate::fixed::{abs_i, fdiv, fmul, fp_div, fp_mul, lemma_fmul_bound, lemma_tdiv_mag, tdiv,
    SCALE};
use crate::hittable::ray_wf;
use crate::ray::Ray;
use crate::utils::{deg_to_rad, degrees_to_radians, random_fp_min_max};
use crate::vec3::{add3, bounded3, cross3, lemma_dot3_fits, lemma_fmul_zero, lemma_scale3_fits,
    ls3, scale3, sub3, unit3, Vec3};
use vstd::arithmetic::div_mod::{lemma_div_is_ordered, lemma_div_pos_is_pos};

/// A camera, immutable once constructed.
pub struct Camera {
    /// The lens center.
    pub origin: Vec3,
    /// The lower-left corner of the focus-plane viewport.
    pub lower_left_corner: Vec3,
    /// The viewport's horizontal edge vector.
    pub horizontal: Vec3,
    /// The viewport's vertical edge vector.
    pub vertical: Vec3,
    /// The right basis vector of the view frame.
    pub u: Vec3,
    /// The up basis vector of the view frame.
    pub v: Vec3,
    /// Half the aperture.
    pub lens_radius: i64,
}

/// Bounds on a camera's derived fields, sized so that every primary
/// ray is a well-formed world ray.
pub open spec fn camera_wf(c: Camera) -> bool {
    &&& bounded3(c.origin@, 0xF0_0000)
    &&& bounded3(c.lower_left_corner@, 0x2D0_0000)
    &&& bounded3(c.horizontal@, 0x120_0000)
    &&& bounded3(c.vertical@, 0x240_0000)
    &&& bounded3(c.u@, 0x2_0000)
    &&& bounded3(c.v@, 0x8_0000)
    &&& 0 <= c.lens_radius <= 32768
}

/// The viewport height for a vertical field of view, in fixed point:
/// twice the tangent of half the angle.
pub open spec fn viewport_height_spec(vfov_degrees: int) -> int {
    2 * tan_fp_spec(tdiv(deg_to_rad(vfov_degrees), 2))
}

/// The viewport width: the height scaled by the aspect ratio.
pub open spec fn viewport_width_spec(vfov_degrees: int, aspect_ratio: int) -> int {
    fmul(aspect_ratio, viewport_height_spec(vfov_degrees))
}

/// The lens offset of a ray origin for a disk sample `(dx, dy)`.
pub open spec fn camera_offset3(c: Camera, dx: int, dy: int) -> (int, int, int) {
    add3(
        scale3(c.u@, fmul(dx, c.lens_radius as int)),
        scale3(c.v@, fmul(dy, c.lens_radius as int)),
    )
}

/// Spec of `tan_half`: the ratio of the sine and cosine Taylor
/// polynomials (three terms each), in fixed point.
pub open spec fn tan_fp_spec(x: int) -> int {
    let x2 = fmul(x, x);
    let x3 = fmul(x2, x);
    let x4 = fmul(x2, x2);
    let x5 = fmul(x4, x);
    let x6 = fmul(x4, x2);
    let s = x - tdiv(x3, 6) + tdiv(x5, 120);
    let c = SCALE as int - tdiv(x2, 2) + tdiv(x4, 24) - tdiv(x6, 720);
    fdiv(s, c)
}

/// Fixed-point tangent for angles in `[0, pi/4]` (enough for half a
/// right-angle field of view), by truncated Taylor series.
pub fn tan_half(x: i64) -> (r: i64)
    requires
        0 <= x <= 51472,
    ensures
        r as int == tan_fp_spec(x as int),
        0 <= r <= 98304,
{
    proof {
        lemma_tan_parts(x as int);
    }
    let x2 = fp_mul(x, x);
    let x3 = fp_mul(x2, x);
    let x4 = fp_mul(x2, x2);
    let x5 = fp_mul(x4, x);
    let x6 = fp_mul(x4, x2);
    let s = x - ((x3 as u64 / 6) as i64) + ((x5 as u64 / 120) as i64);
    let c = SCALE - ((x2 as u64 / 2) as i64) + ((x4 as u64 / 24) as i64) - ((x6 as u64 / 720)
        as i64);
    fp_div(s, c)
}

/// Bounds on every power and term of the tangent polynomials.
proof fn lemma_tan_parts(x: int)
    requires
        0 <= x <= 51472,
    ensures
        0 <= fmul(x, x) <= 40500,
        0 <= fmul(fmul(x, x), x) <= 31900,
        0 <= fmul(fmul(x, x), fmul(x, x)) <= 25100,
        0 <= fmul(fmul(fmul(x, x), fmul(x, x)), x) <= 19800,
        0 <= fmul(fmul(fmul(x, x), fmul(x, x)), fmul(x, x)) <= 15600,
        ({
            let x2 = fmul(x, x);
            let x3 = fmul(x2, x);
            let x4 = fmul(x2, x2);
            let x5 = fmul(x4, x);
            let x6 = fmul(x4, x2);
            let s = x - tdiv(x3, 6) + tdiv(x5, 120);
            let c = SCALE as int - tdiv(x2, 2) + tdiv(x4, 24) - tdiv(x6, 720);
            &&& -5400 <= s <= 51700
            &&& 45265 <= c <= 66581
            &&& abs_i(fdiv(s, c)) <= 98304
            &&& 0 <= fdiv(s, c)
        }),
{
    lemma_fmul_bound(x, x, 51472, 51472);
    let x2 = fmul(x, x);
    assert(x * x >= 0) by (nonlinear_arith);
    lemma_div_pos_is_pos(x * x, 0x10000);
    lemma_fmul_bound(x2, x, 40500, 51472);
    let x3 = fmul(x2, x);
    assert(x2 * x >= 0) by (nonlinear_arith)
        requires
            x2 >= 0,
            x >= 0,
    ;
    lemma_div_pos_is_pos(x2 * x, 0x10000);
    lemma_fmul_bound(x2, x2, 40500, 40500);
    let x4 = fmul(x2, x2);
    assert(x2 * x2 >= 0) by (nonlinear_arith)
        requires
            x2 >= 0,
    ;
    lemma_div_pos_is_pos(x2 * x2, 0x10000);
    lemma_fmul_bound(x4, x, 25100, 51472);
    let x5 = fmul(x4, x);
    assert(x4 * x >= 0) by (nonlinear_arith)
        requires
            x4 >= 0,
            x >= 0,
    ;
    lemma_div_pos_is_pos(x4 * x, 0x10000);
    lemma_fmul_bound(x4, x2, 25100, 40500);
    let x6 = fmul(x4, x2);
    assert(x4 * x2 >= 0) by (nonlinear_arith)
        requires
            x4 >= 0,
            x2 >= 0,
    ;
    lemma_div_pos_is_pos(x4 * x2, 0x10000);
    lemma_tdiv_small_div(x3, 6);
    lemma_tdiv_small_div(x5, 120);
    lemma_tdiv_small_div(x2, 2);
    lemma_tdiv_small_div(x4, 24);
    lemma_tdiv_small_div(x6, 720);
    lemma_div_is_ordered(x3, 31900, 6);
    lemma_div_is_ordered(x5, 19800, 120);
    lemma_div_is_ordered(x2, 40500, 2);
    lemma_div_is_ordered(x4, 25100, 24);
    lemma_div_is_ordered(x6, 15600, 720);
    let s = x - tdiv(x3, 6) + tdiv(x5, 120);
    let c = SCALE as int - tdiv(x2, 2) + tdiv(x4, 24) - tdiv(x6, 720);
    assert(c >= 45265);
    lemma_tdiv_mag(s * 0x10000, c);
    assert(abs_i(s * 0x10000) == abs_i(s) * 0x10000);
    vstd::arithmetic::div_mod::lemma_div_is_ordered_by_denominator(abs_i(s) * 0x10000, 45265, c);
    lemma_div_is_ordered(abs_i(s) * 0x10000, 51700int * 0x10000, 45265);
    // the sine polynomial is nonnegative: x^3/6 <= x because x2 <= SCALE
    assert(tdiv(x3, 6) <= x3);
    assert(x3 <= x) by {
        assert(x2 * x <= 0x10000int * x) by (nonlinear_arith)
            requires
                0 <= x2 <= 0x10000,
                x >= 0,
        ;
        lemma_div_is_ordered(x2 * x, 0x10000int * x, 0x10000);
        vstd::arithmetic::div_mod::lemma_div_multiples_vanish(x, 0x10000);
    }
    lemma_div_pos_is_pos(s * 0x10000, c);
    assert(tdiv(s * 0x10000, c) == s * 0x10000 / c);
}

/// For nonnegative `a` and positive literal `d`, truncating division
/// agrees with Euclidean division.
proof fn lemma_tdiv_small_div(a: int, d: int)
    requires
        0 <= a,
        0 < d,
    ensures
        tdiv(a, d) == a / d,
        0 <= tdiv(a, d) <= a,
{
    lemma_div_pos_is_pos(a, d);
    vstd::arithmetic::div_mod::lemma_div_nonincreasing(a, d);
}


/// Componentwise bound on a cross product from bounds on its factors.
pub proof fn lemma_cross3_bound(u: (int, int, int), v: (int, int, int), bu: int, bv: int)
    requires
        bounded3(u, bu),
        bounded3(v, bv),
        0 <= bu,
        0 <= bv,
    ensures
        bounded3(cross3(u, v), 2 * ((bu * bv) / 0x10000)),
{
    lemma_fmul_bound(u.1, v.2, bu, bv);
    lemma_fmul_bound(u.2, v.1, bu, bv);
    lemma_fmul_bound(u.2, v.0, bu, bv);
    lemma_fmul_bound(u.0, v.2, bu, bv);
    lemma_fmul_bound(u.0, v.1, bu, bv);
    lemma_fmul_bound(u.1, v.0, bu, bv);
    lemma_div_pos_is_pos(bu * bv, 0x10000);
}

impl Camera {
    /// Build a camera from its viewing parameters. The field of view
    /// is vertical, in fixed-point degrees, at most a right angle (the
    /// tangent's domain). The look points may sit nearly anywhere in
    /// the modeled world; the caps on focus distance and aspect ratio
    /// are the overflow headroom that keeps the viewport algebra and
    /// every primary ray within the world's direction bound.
    #[verifier::rlimit(100)]
    pub fn new(
        look_from: Vec3,
        look_at: Vec3,
        vup: Vec3,
        vfov_degrees: i64,
        aspect_ratio: i64,
        aperture: i64,
        focus_dist: i64,
    ) -> (c: Camera)
        requires
            bounded3(look_from@, 0xF0_0000),
            bounded3(look_at@, 0xF0_0000),
            bounded3(vup@, 0x4_0000),
            ls3(sub3(look_from@, look_at@)) >= 16384,
            0 < vfov_degrees <= 5898240,
            16384 <= aspect_ratio <= 131072,
            0 <= aperture <= SCALE,
            32768 <= focus_dist <= 0x18_0000,
            ls3(cross3(vup@, unit3(sub3(look_from@, look_at@)))) >= 16384,
        ensures
            camera_wf(c),
            c.origin == look_from,
            c.lens_radius as int == tdiv(aperture as int, 2),
            c.u@ == unit3(cross3(vup@, unit3(sub3(look_from@, look_at@)))),
            c.v@ == cross3(unit3(sub3(look_from@, look_at@)), c.u@),
            c.horizontal@ == scale3(
                c.u@,
                fmul(
                    focus_dist as int,
                    viewport_width_spec(vfov_degrees as int, aspect_ratio as int),
                ),
            ),
            c.vertical@ == scale3(
                c.v@,
                fmul(focus_dist as int, viewport_height_spec(vfov_degrees as int)),
            ),
            c.lower_left_corner@ == sub3(
                sub3(
                    sub3(look_from@, scale3(c.horizontal@, 32768)),
                    scale3(c.vertical@, 32768),
                ),
                scale3(unit3(sub3(look_from@, look_at@)), focus_dist as int),
            ),
    {
        let theta = degrees_to_radians(vfov_degrees);
        proof {
            lemma_deg_to_rad_range(vfov_degrees as int);
        }
        let half_theta = ((theta as u64) / 2) as i64;
        proof {
            assert(half_theta as int == tdiv(deg_to_rad(vfov_degrees as int), 2));
        }
        let h = tan_half(half_theta);
        let viewport_height: i64 = 2 * h;
        proof {
            assert(viewport_height as int == viewport_height_spec(vfov_degrees as int));
            lemma_fmul_bound(aspect_ratio as int, viewport_height as int, 131072, 196608);
        }
        let viewport_width = fp_mul(aspect_ratio, viewport_height);

        proof {
            lemma_dot3_fits(
                sub3(look_from@, look_at@),
                sub3(look_from@, look_at@),
                0x1E0_0000,
                0x1E0_0000,
            );
        }
        let w = Vec3::unit_vector(look_from.minus(&look_at));
        let uc = Vec3::cross(&vup, &w);
        proof {
            lemma_cross3_bound(vup@, w@, 0x4_0000, 0x2_0000);
            lemma_dot3_fits(uc@, uc@, 0x20_0000, 0x20_0000);
        }
        let u = Vec3::unit_vector(uc);
        let v = Vec3::cross(&w, &u);
        proof {
            lemma_cross3_bound(w@, u@, 0x2_0000, 0x2_0000);
        }

        proof {
            lemma_fmul_bound(focus_dist as int, viewport_width as int, 0x18_0000, 393216);
            lemma_fmul_bound(focus_dist as int, viewport_height as int, 0x18_0000, 196608);
        }
        let kh = fp_mul(focus_dist, viewport_width);
        let kv = fp_mul(focus_dist, viewport_height);
        proof {
            lemma_scale3_fits(u@, kh as int, 131072, 9437184);
            lemma_scale3_fits(v@, kv as int, 524288, 4718592);
        }
        let horizontal = u.scale(kh);
        let vertical = v.scale(kv);
        proof {
            lemma_scale3_fits(horizontal@, 32768, 18874368, 32768);
            lemma_scale3_fits(vertical@, 32768, 37748736, 32768);
            lemma_scale3_fits(w@, focus_dist as int, 131072, 0x18_0000);
        }
        let half_h = horizontal.scale(32768);
        let half_v = vertical.scale(32768);
        let fw = w.scale(focus_dist);
        let lower_left_corner = look_from.minus(&half_h).minus(&half_v).minus(&fw);
        let lens_radius = ((aperture as u64) / 2) as i64;
        proof {
            lemma_div_pos_is_pos(aperture as int, 2);
            lemma_div_is_ordered(aperture as int, 65536, 2);
        }
        Camera { origin: look_from, lower_left_corner, horizontal, vertical, u, v, lens_radius }
    }

    /// The primary ray through viewport coordinates `(s, t)`: the lens
    /// origin offset along the view basis by a sample from the unit
    /// disk scaled to the lens radius, aimed at the corresponding point
    /// of the focus-plane viewport. With a closed aperture
    /// (`lens_radius == 0`) the ray is exactly the deterministic
    /// pinhole ray.
    #[verifier::rlimit(100)]
    pub fn get_ray(&self, s: i64, t: i64) -> (r: Ray)
        requires
            camera_wf(*self),
            0 <= s <= SCALE,
            0 <= t <= SCALE,
        ensures
            ray_wf(r),
            exists|dx: int, dy: int|
                {
                    &&& -(SCALE as int) <= dx <= SCALE as int
                    &&& -(SCALE as int) <= dy <= SCALE as int
                    &&& fmul(dx, dx) + fmul(dy, dy) < SCALE as int
                    &&& r.orig@ == add3(self.origin@, #[trigger] camera_offset3(*self, dx, dy))
                    &&& r.dir@ == sub3(
                        sub3(
                            add3(
                                add3(
                                    self.lower_left_corner@,
                                    scale3(self.horizontal@, s as int),
                                ),
                                scale3(self.vertical@, t as int),
                            ),
                            self.origin@,
                        ),
                        camera_offset3(*self, dx, dy),
                    )
                },
            self.lens_radius == 0 ==> r.orig == self.origin && r.dir@ == sub3(
                sub3(
                    add3(
                        add3(self.lower_left_corner@, scale3(self.horizontal@, s as int)),
                        scale3(self.vertical@, t as int),
                    ),
                    self.origin@,
                ),
                (0int, 0int, 0int),
            ),
    {
        let (dx, dy) = random_in_unit_disk();
        proof {
            lemma_fmul_bound(dx as int, self.lens_radius as int, 65536, 32768);
            lemma_fmul_bound(dy as int, self.lens_radius as int, 65536, 32768);
            if self.lens_radius == 0 {
                lemma_fmul_zero(dx as int);
                lemma_fmul_zero(dy as int);
            }
        }
        let rdx = fp_mul(dx, self.lens_radius);
        let rdy = fp_mul(dy, self.lens_radius);
        proof {
            lemma_scale3_fits(self.u@, rdx as int, 131072, 32768);
            lemma_scale3_fits(self.v@, rdy as int, 524288, 32768);
            if self.lens_radius == 0 {
                lemma_fmul_zero(self.u@.0);
                lemma_fmul_zero(self.u@.1);
                lemma_fmul_zero(self.u@.2);
                lemma_fmul_zero(self.v@.0);
                lemma_fmul_zero(self.v@.1);
                lemma_fmul_zero(self.v@.2);
            }
            lemma_scale3_fits(self.horizontal@, s as int, 18874368, 65536);
            lemma_scale3_fits(self.vertical@, t as int, 37748736, 65536);
        }
        let offset = self.u.scale(rdx).plus(&self.v.scale(rdy));
        let origin = self.origin.plus(&offset);
        let dir = self
            .lower_left_corner
            .plus(&self.horizontal.scale(s))
            .plus(&self.vertical.scale(t))
            .minus(&self.origin)
            .minus(&offset);
        proof {
            assert(offset@ == camera_offset3(*self, dx as int, dy as int));
            assert(-(SCALE as int) <= dx as int <= SCALE as int && -(SCALE as int) <= dy as int
                <= SCALE as int && fmul(dx as int, dx as int) + fmul(dy as int, dy as int)
                < SCALE as int && origin@ == add3(self.origin@, camera_offset3(*self, dx as int, dy as int)));
        }
        Ray::new(origin, dir)
    }
}

/// The angle in radians of an admissible field of view stays within
/// `[0, pi/2]` scaled, so its half stays within the tangent's domain.
proof fn lemma_deg_to_rad_range(d: int)
    requires
        0 < d <= 5898240,
    ensures
        0 <= deg_to_rad(d) <= 102944,
        0 <= tdiv(deg_to_rad(d), 2) <= 51472,
        tdiv(deg_to_rad(d), 2) == deg_to_rad(d) / 2,
{
    // numerator of the radian conversion: d * pi, at most 90 * pi scaled
    lemma_fmul_bound(d, 205887, 5898240, 205887);
    let num = fmul(d, 205887);
    assert(d * 205887 >= 0) by (nonlinear_arith)
        requires
            d >= 0,
    ;
    lemma_div_pos_is_pos(d * 205887, 0x10000);
    lemma_tdiv_mag(num * 0x10000, 180int * 0x10000);
    assert(abs_i(num * 0x10000) == abs_i(num) * 0x10000);
    vstd::arithmetic::div_mod::lemma_div_is_ordered_by_denominator(
        abs_i(num) * 0x10000,
        180int * 0x10000,
        180int * 0x10000,
    );
    lemma_div_is_ordered(abs_i(num) * 0x10000, 18529830int * 0x10000, 180int * 0x10000);
    assert(num * 0x10000 >= 0);
    lemma_div_pos_is_pos(num * 0x10000, 180int * 0x10000);
    assert(tdiv(num * 0x10000, 180int * 0x10000) == num * 0x10000 / (180int * 0x10000));
    lemma_tdiv_small_div(deg_to_rad(d), 2);
    lemma_div_is_ordered(deg_to_rad(d), 102944int * 2, 2);
}

/// A point sampled in the unit disk (both coordinates within one; the
/// squared radius below one), by bounded rejection sampling with a
/// fixed fallback.
pub fn random_in_unit_disk() -> (p: (i64, i64))
    ensures
        -65536 <= p.0 <= 65536,
        -65536 <= p.1 <= 65536,
        fmul(p.0 as int, p.0 as int) + fmul(p.1 as int, p.1 as int) < SCALE as int,
{
    let mut attempts: u32 = 0;
    while attempts < 64
        invariant
            attempts <= 64,
        decreases 64 - attempts,
    {
        let x = random_fp_min_max(-65536, 65536);
        let y = random_fp_min_max(-65536, 65536);
        proof {
            lemma_fmul_bound(x as int, x as int, 65536, 65536);
            lemma_fmul_bound(y as int, y as int, 65536, 65536);
        }
        let rsq = fp_mul(x, x) + fp_mul(y, y);
        if rsq < SCALE {
            return (x, y);
        }
        attempts = attempts + 1;
    }
    proof {
        lemma_fmul_zero(0);
    }
    (0, 0)
}

} // verus!
