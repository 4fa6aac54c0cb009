//! The path-tracing core: the recursive color estimator, the
//! background gradient, and the resolution of an accumulated color
//! into a pixel.

use vstd::prelude::*;

verus! {

use crate::fixed::{fp_sqrt, fsqrt, lemma_fmul_scale, lemma_fmul_unit, tdiv, SCALE};
use crate::hittable::{ray_wf, Hittable, T_LIMIT};
use crate::hittable_list::{list_hit_spec, list_wf, HittableList};
use crate::sphere::Sphere;
use crate::material::{material_albedo, material_scatter};
use crate::ray::Ray;
use crate::utils::{clamp, clamp_spec};
use crate::vec3::{add3, color_wf, lemma_dot3_fits, lemma_fmul_zero, ls3, mul_each3, scale3,
    unit3, Color, Vec3};
use vstd::arithmetic::div_mod::{lemma_div_is_ordered, lemma_div_pos_is_pos};

/// Lower ray-parameter cutoff for secondary rays (about 0.001), which
/// suppresses self-intersection at the previous hit point.
pub const EPS: i64 = 66;

/// The sky gradient behind the scene: white at the horizon blending to
/// blue at the zenith by the normalized direction's vertical component
/// (clamped into `[-1, 1]`). A direction too short to normalize is
/// answered with plain white.
pub open spec fn background3(r: Ray) -> (int, int, int) {
    if ls3(r.dir@) < 16384 {
        (SCALE as int, SCALE as int, SCALE as int)
    } else {
        let u = unit3(r.dir@);
        let t = tdiv(clamp_spec(u.1, -(SCALE as int), SCALE as int) + SCALE as int, 2);
        add3(
            scale3((SCALE as int, SCALE as int, SCALE as int), SCALE as int - t),
            scale3((32768, 45875, SCALE as int), t),
        )
    }
}

/// The background color has well-formed channels.
pub proof fn lemma_background_wf(r: Ray)
    ensures
        color_wf(background3(r)),
{
    if ls3(r.dir@) >= 16384 {
        let u = unit3(r.dir@);
        let t = tdiv(clamp_spec(u.1, -(SCALE as int), SCALE as int) + SCALE as int, 2);
        assert(t == (clamp_spec(u.1, -(SCALE as int), SCALE as int) + SCALE as int) / 2);
        lemma_div_pos_is_pos(clamp_spec(u.1, -(SCALE as int), SCALE as int) + SCALE as int, 2);
        lemma_div_is_ordered(
            clamp_spec(u.1, -(SCALE as int), SCALE as int) + SCALE as int,
            131072,
            2,
        );
        lemma_fmul_scale(SCALE as int - t);
        lemma_fmul_scale(t);
        lemma_fmul_unit(32768, t);
        lemma_fmul_unit(45875, t);
    }
}

/// Evaluate the background gradient.
pub fn background(r: &Ray) -> (c: Color)
    requires
        ray_wf(*r),
    ensures
        c@ == background3(*r),
        color_wf(c@),
{
    proof {
        lemma_dot3_fits(r.dir@, r.dir@, 134217728, 134217728);
        lemma_background_wf(*r);
    }
    let lsq = r.dir.length_squared();
    if lsq < 16384 {
        return Vec3::new(SCALE, SCALE, SCALE);
    }
    let u = Vec3::unit_vector(r.direction());
    let yc = clamp(u.y(), -SCALE, SCALE);
    let t = (((yc + SCALE) as u64) / 2) as i64;
    proof {
        let tt = t as int;
        lemma_div_pos_is_pos(yc as int + SCALE as int, 2);
        lemma_div_is_ordered(yc as int + SCALE as int, 131072, 2);
        assert(tt == tdiv(yc as int + SCALE as int, 2));
        lemma_fmul_scale(SCALE as int - tt);
        lemma_fmul_scale(tt);
        lemma_fmul_unit(32768, tt);
        lemma_fmul_unit(45875, tt);
    }
    let white = Vec3::new(SCALE, SCALE, SCALE);
    let blue = Vec3::new(32768, 45875, SCALE);
    white.scale(SCALE - t).plus(&blue.scale(t))
}

/// The colors the estimator can return for a ray and a depth budget:
/// exactly black on an exhausted budget; exactly the background
/// gradient on a scene miss; and on a hit, either black (an absorbed
/// ray) or the hit material's attenuation applied componentwise to a
/// color the estimator can return for some ray leaving the hit point
/// with one bounce less. This is the energy-attenuation law of the
/// path-tracing recursion; the scattered ray itself is existential
/// because scattering is randomized.
pub open spec fn estimate_plausible(
    objs: Seq<Sphere>,
    r: Ray,
    depth: int,
    c: (int, int, int),
) -> bool
    decreases depth,
{
    if depth <= 0 {
        c == (0int, 0int, 0int)
    } else {
        match list_hit_spec(objs, r, EPS as int, T_LIMIT as int) {
            Some(rec) => c == (0int, 0int, 0int) || exists|r2: Ray, c2: (int, int, int)|
                #![trigger ray_wf(r2), color_wf(c2)]
                {
                    &&& r2.orig == rec.p
                    &&& ray_wf(r2)
                    &&& color_wf(c2)
                    &&& estimate_plausible(objs, r2, depth - 1, c2)
                    &&& c == mul_each3(material_albedo(rec.material), c2)
                },
            None => c == background3(r),
        }
    }
}

/// One hit step of `estimate_plausible`: a plausible estimate for a
/// ray leaving the hit point, attenuated by the hit material, is a
/// plausible estimate for the incoming ray.
proof fn lemma_estimate_step(
    objs: Seq<Sphere>,
    r: Ray,
    depth: int,
    rec: crate::hittable::HitRecord,
    r2: Ray,
    c2: (int, int, int),
    c: (int, int, int),
)
    requires
        depth > 0,
        list_hit_spec(objs, r, EPS as int, T_LIMIT as int) == Some(rec),
        r2.orig == rec.p,
        ray_wf(r2),
        color_wf(c2),
        estimate_plausible(objs, r2, depth - 1, c2),
        c == mul_each3(material_albedo(rec.material), c2),
    ensures
        estimate_plausible(objs, r, depth, c),
{
    assert(exists|rr: Ray, cc: (int, int, int)|
        #![trigger ray_wf(rr), color_wf(cc)]
        {
            &&& rr.orig == rec.p
            &&& ray_wf(rr)
            &&& color_wf(cc)
            &&& estimate_plausible(objs, rr, depth - 1, cc)
            &&& c == mul_each3(material_albedo(rec.material), cc)
        });
}

/// The recursive Monte-Carlo color estimator.
///
/// With an exhausted depth budget the result is exactly black; on a
/// scene miss it is exactly the background gradient; on a hit, the
/// result is the hit material's attenuation applied componentwise to
/// some well-formed color (the recursive estimate, or black when the
/// ray was absorbed). Every channel stays within `[0, 1]`, and the
/// whole recursion obeys `estimate_plausible`.
pub fn ray_color(r: &Ray, world: &HittableList, depth: i64) -> (c: Color)
    requires
        ray_wf(*r),
        list_wf(world.objects@),
        depth >= 0,
    ensures
        color_wf(c@),
        depth == 0 ==> c@ == (0int, 0int, 0int),
        depth > 0 ==> match list_hit_spec(world.objects@, *r, EPS as int, T_LIMIT as int) {
            Some(rec) => exists|sub: (int, int, int)|
                color_wf(sub) && c@ == #[trigger] mul_each3(material_albedo(rec.material), sub),
            None => c@ == background3(*r),
        },
        estimate_plausible(world.objects@, *r, depth as int, c@),
    decreases depth,
{
    if depth <= 0 {
        return Vec3::new(0, 0, 0);
    }
    let hit = world.hit(r, EPS, T_LIMIT);
    match hit {
        Some(rec) => {
            let mut scattered = Ray::new(Vec3::new(0, 0, 0), Vec3::new(0, 0, 0));
            let mut attenuation = Vec3::new(0, 0, 0);
            if material_scatter(&rec.material, r, &rec, &mut attenuation, &mut scattered) {
                let sub = ray_color(&scattered, world, depth - 1);
                proof {
                    lemma_fmul_unit(attenuation@.0, sub@.0);
                    lemma_fmul_unit(attenuation@.1, sub@.1);
                    lemma_fmul_unit(attenuation@.2, sub@.2);
                }
                let out = attenuation.mul_each(&sub);
                proof {
                    assert(color_wf(sub@) && out@ == mul_each3(
                        material_albedo(rec.material),
                        sub@,
                    ));
                    lemma_estimate_step(
                        world.objects@,
                        *r,
                        depth as int,
                        rec,
                        scattered,
                        sub@,
                        out@,
                    );
                }
                out
            } else {
                proof {
                    let a = material_albedo(rec.material);
                    lemma_fmul_zero(a.0);
                    lemma_fmul_zero(a.1);
                    lemma_fmul_zero(a.2);
                    assert(color_wf((0int, 0int, 0int)) && (0int, 0int, 0int) == mul_each3(
                        a,
                        (0int, 0int, 0int),
                    ));
                    assert(estimate_plausible(
                        world.objects@,
                        *r,
                        depth as int,
                        (0int, 0int, 0int),
                    ));
                }
                Vec3::new(0, 0, 0)
            }
        },
        None => background(r),
    }
}

/// Spec of one channel of `color_to_pixel`: average over the samples,
/// gamma-correct with a square root, clamp just below one, and
/// quantize to a byte.
pub open spec fn channel_byte(c: int, n: int) -> int {
    tdiv(clamp_spec(fsqrt(tdiv(c, n)), 0, 65470), 256)
}

/// Resolve an accumulated linear color into one 8-bit RGB pixel.
pub fn color_to_pixel(pixel_color: Color, samples_per_pixel: i64) -> (rgb: (u8, u8, u8))
    requires
        samples_per_pixel >= 1,
        0 <= pixel_color@.0 <= 0x1_0000_0000_0000,
        0 <= pixel_color@.1 <= 0x1_0000_0000_0000,
        0 <= pixel_color@.2 <= 0x1_0000_0000_0000,
    ensures
        rgb.0 as int == channel_byte(pixel_color@.0, samples_per_pixel as int),
        rgb.1 as int == channel_byte(pixel_color@.1, samples_per_pixel as int),
        rgb.2 as int == channel_byte(pixel_color@.2, samples_per_pixel as int),
{
    let r = channel_to_byte(pixel_color.x(), samples_per_pixel);
    let g = channel_to_byte(pixel_color.y(), samples_per_pixel);
    let b = channel_to_byte(pixel_color.z(), samples_per_pixel);
    (r, g, b)
}

/// Resolve one channel.
fn channel_to_byte(c: i64, n: i64) -> (b: u8)
    requires
        n >= 1,
        0 <= c <= 0x1_0000_0000_0000,
    ensures
        b as int == channel_byte(c as int, n as int),
{
    let avg = ((c as u64) / (n as u64)) as i64;
    proof {
        lemma_div_pos_is_pos(c as int, n as int);
        lemma_div_is_ordered(c as int, 0x1_0000_0000_0000, n as int);
        lemma_div_is_ordered_by_denominator_one(c as int, n as int);
        assert(avg as int == tdiv(c as int, n as int));
    }
    let g = fp_sqrt(avg);
    let cl = clamp(g, 0, 65470);
    proof {
        lemma_div_pos_is_pos(cl as int, 256);
        lemma_div_is_ordered(cl as int, 65470, 256);
        assert(tdiv(cl as int, 256) == cl as int / 256);
    }
    ((cl as u64) / 256) as u8
}

/// For a denominator of at least one, division does not increase a
/// nonnegative numerator.
proof fn lemma_div_is_ordered_by_denominator_one(c: int, n: int)
    requires
        0 <= c,
        1 <= n,
    ensures
        c / n <= c,
{
    vstd::arithmetic::div_mod::lemma_div_nonincreasing(c, n);
}

} // verus!
