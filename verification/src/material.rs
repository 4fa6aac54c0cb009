//! The closed set of scattering behaviors: diffuse, metallic and
//! dielectric materials.

use vstd::prelude::*;

verus! {

use crate::fixed::{abs_i, fdiv, fmul, fp_div, fp_mul, fp_sqrt, fsqrt, lemma_fmul_bound, SCALE};
use crate::hittable::{hit_record_wf, ray_wf, HitRecord};
use crate::ray::Ray;
use crate::utils::{clamp, clamp_spec, random_fp};
use crate::vec3::{add3, color_wf, dot3, in_sphere_sample, lemma_dot3_fits,
    lemma_fsqrt_le_scale, lemma_scale3_fits, ls3, neg3, reflect3, refract3, scale3, unit3,
    unit_sample, Color, Vec3};
use vstd::arithmetic::div_mod::{lemma_div_by_self, lemma_div_is_ordered,
    lemma_div_is_ordered_by_denominator, lemma_div_pos_is_pos};

/// Smallest admissible refractive index (1/4 in fixed point).
pub const REF_IDX_MIN: i64 = 16384;

/// Largest admissible refractive index (8 in fixed point).
pub const REF_IDX_MAX: i64 = 524288;

/// A scattering behavior, attached to a scene object at construction.
#[derive(Clone, Copy, Debug)]
pub enum Material {
    /// Diffuse: scatters everywhere around the normal.
    Lambertian { albedo: Color },
    /// Metallic: mirrors the ray, blurred by `fuzz` in `[0, 1]`.
    Metal { albedo: Color, fuzz: i64 },
    /// Colorless glass with the given refractive index.
    Dielectric { ref_idx: i64 },
}

/// A well-formed material: colors within the unit cube, fuzz within
/// `[0, 1]`, refractive index within `[1/4, 8]`.
pub open spec fn material_wf(m: Material) -> bool {
    match m {
        Material::Lambertian { albedo } => color_wf(albedo@),
        Material::Metal { albedo, fuzz } => color_wf(albedo@) && 0 <= fuzz <= SCALE,
        Material::Dielectric { ref_idx } => REF_IDX_MIN <= ref_idx <= REF_IDX_MAX,
    }
}

/// Spec of `schlick`: the reflectance approximation
/// `r0 + (1 - r0) * (1 - cosine)^5` with `r0 = ((1 - idx) / (1 + idx))^2`,
/// in fixed point.
pub open spec fn schlick_spec(cosine: int, ref_idx: int) -> int {
    let r0p = fdiv(SCALE as int - ref_idx, SCALE as int + ref_idx);
    let r0 = fmul(r0p, r0p);
    let omc = SCALE as int - cosine;
    let p2 = fmul(omc, omc);
    let p4 = fmul(p2, p2);
    let p5 = fmul(p4, omc);
    r0 + fmul(SCALE as int - r0, p5)
}

/// Schlick's reflectance approximation.
pub fn schlick(cosine: i64, ref_idx: i64) -> (r: i64)
    requires
        -0x40_0000 <= cosine <= SCALE,
        REF_IDX_MIN <= ref_idx <= REF_IDX_MAX,
    ensures
        r as int == schlick_spec(cosine as int, ref_idx as int),
{
    proof {
        let num = SCALE as int - ref_idx as int;
        let den = SCALE as int + ref_idx as int;
        let r0p = fdiv(num, den);
        // |r0p| = |num| * SCALE / den <= 458752 * 65536 / 81920 = 367002
        crate::fixed::lemma_tdiv_mag(num * 0x10000, den);
        assert(abs_i(num * 0x10000) == abs_i(num) * 0x10000);
        lemma_div_is_ordered_by_denominator(abs_i(num) * 0x10000, 81920, abs_i(den));
        lemma_div_is_ordered(abs_i(num) * 0x10000, 458752int * 0x10000, 81920);
        assert(abs_i(r0p) <= 367002);
        lemma_fmul_bound(r0p, r0p, 367002, 367002);
        let r0 = fmul(r0p, r0p);
        assert(r0p * r0p >= 0) by (nonlinear_arith);
        lemma_div_pos_is_pos(r0p * r0p, 0x10000);
        let omc = SCALE as int - cosine as int;
        lemma_fmul_bound(omc, omc, 0x41_0000, 0x41_0000);
        let p2 = fmul(omc, omc);
        lemma_fmul_bound(p2, p2, 0x1100_0000, 0x1100_0000);
        let p4 = fmul(p2, p2);
        lemma_fmul_bound(p4, omc, 0x130_0000_0000, 0x41_0000);
        let p5 = fmul(p4, omc);
        lemma_fmul_bound(SCALE as int - r0, p5, 0x20_0000, 0x5000_0000_0000);
    }
    let r0p = fp_div(SCALE - ref_idx, SCALE + ref_idx);
    let r0 = fp_mul(r0p, r0p);
    let omc = SCALE - cosine;
    let p2 = fp_mul(omc, omc);
    let p4 = fp_mul(p2, p2);
    let p5 = fp_mul(p4, omc);
    r0 + fp_mul(SCALE - r0, p5)
}

/// The attenuation a material applies whenever it scatters: its
/// albedo, or white for colorless glass.
pub open spec fn material_albedo(m: Material) -> (int, int, int) {
    match m {
        Material::Lambertian { albedo } => albedo@,
        Material::Metal { albedo, fuzz: _ } => albedo@,
        Material::Dielectric { ref_idx: _ } => (SCALE as int, SCALE as int, SCALE as int),
    }
}

/// The index ratio seen by the ray: `1 / ref_idx` when entering
/// through the front face, `ref_idx` when exiting.
pub open spec fn dielectric_ratio(front_face: bool, ref_idx: int) -> int {
    if front_face {
        fdiv(SCALE as int, ref_idx)
    } else {
        ref_idx
    }
}

/// The cosine a dielectric works with: the incidence cosine clamped
/// into `[-1, 1]` (the upper clamp follows the reference formula; the
/// lower one only guards degenerate numerics).
pub open spec fn dielectric_cos(u: (int, int, int), n: (int, int, int)) -> int {
    clamp_spec(dot3(neg3(u), n), -(SCALE as int), SCALE as int)
}

/// `sin(theta)` derived from the clamped cosine.
pub open spec fn dielectric_sin(u: (int, int, int), n: (int, int, int)) -> int {
    fsqrt(SCALE as int - fmul(dielectric_cos(u, n), dielectric_cos(u, n)))
}

/// Scatter an incoming ray at a hit point.
///
/// Writes the attenuation color and the outgoing ray and returns
/// whether the ray survives; `false` means the ray was absorbed.
/// The random samples drawn inside are existentially quantified in the
/// contract: everything else about the outgoing ray is exact.
pub fn material_scatter(
    material: &Material,
    r_in: &Ray,
    rec: &HitRecord,
    attenuation: &mut Vec3,
    scattered: &mut Ray,
) -> (survives: bool)
    requires
        material_wf(*material),
        hit_record_wf(*rec),
        ray_wf(*r_in),
    ensures
        survives ==> ray_wf(*final(scattered)) && color_wf(final(attenuation)@),
        survives ==> final(scattered).orig == rec.p,
        survives ==> final(attenuation)@ == material_albedo(*material),
        match *material {
            Material::Lambertian { albedo } => {
                &&& survives == true
                &&& *final(attenuation) == albedo
                &&& exists|rv: (int, int, int)|
                    unit_sample(rv) && final(scattered).dir@ == #[trigger] add3(rec.normal@, rv)
            },
            Material::Metal { albedo, fuzz } => {
                if ls3(r_in.dir@) >= 16384 {
                    &&& *final(attenuation) == albedo
                    &&& exists|rv: (int, int, int)|
                        in_sphere_sample(rv) && final(scattered).dir@ == add3(
                            reflect3(unit3(r_in.dir@), rec.normal@),
                            #[trigger] scale3(rv, fuzz as int),
                        )
                    &&& survives == (dot3(final(scattered).dir@, rec.normal@) > 0)
                } else {
                    survives == false
                }
            },
            Material::Dielectric { ref_idx } => {
                if ls3(r_in.dir@) >= 16384 {
                    let u = unit3(r_in.dir@);
                    let ratio = dielectric_ratio(rec.front_face, ref_idx as int);
                    &&& survives == true
                    &&& final(attenuation)@ == (SCALE as int, SCALE as int, SCALE as int)
                    &&& if fmul(ratio, dielectric_sin(u, rec.normal@)) > SCALE as int {
                        final(scattered).dir@ == reflect3(u, rec.normal@)
                    } else {
                        final(scattered).dir@ == reflect3(u, rec.normal@)
                            || final(scattered).dir@ == refract3(u, rec.normal@, ratio)
                    }
                } else {
                    survives == false
                }
            },
        },
{
    match material {
        Material::Lambertian { albedo } => {
            let rv = Vec3::random_unit_vector();
            let dir = rec.normal.plus(&rv);
            *scattered = Ray::new(rec.p, dir);
            *attenuation = *albedo;
            true
        },
        Material::Metal { albedo, fuzz } => {
            proof {
                lemma_dot3_fits(r_in.dir@, r_in.dir@, 134217728, 134217728);
            }
            let lsq = r_in.dir.length_squared();
            if lsq < 16384 {
                return false;
            }
            let u = Vec3::unit_vector(r_in.direction());
            let reflected = Vec3::reflect(&u, &rec.normal);
            let rv = Vec3::random_in_unit_sphere();
            proof {
                lemma_scale3_fits(rv@, *fuzz as int, 65536, 65536);
            }
            let blur = rv.scale(*fuzz);
            let dir = reflected.plus(&blur);
            *scattered = Ray::new(rec.p, dir);
            *attenuation = *albedo;
            proof {
                lemma_dot3_fits(dir@, rec.normal@, 67174400, 262144);
            }
            Vec3::dot(&scattered.direction(), &rec.normal) > 0
        },
        Material::Dielectric { ref_idx } => {
            proof {
                lemma_dot3_fits(r_in.dir@, r_in.dir@, 134217728, 134217728);
            }
            let lsq = r_in.dir.length_squared();
            if lsq < 16384 {
                return false;
            }
            *attenuation = Vec3::new(SCALE, SCALE, SCALE);
            let ratio: i64 = if rec.front_face {
                proof {
                    lemma_div_by_self(*ref_idx as int);
                    lemma_div_is_ordered(*ref_idx as int, 65536int * 65536, *ref_idx as int);
                    lemma_div_is_ordered_by_denominator(65536int * 65536, 16384, *ref_idx as int);
                    crate::fixed::lemma_tdiv_mag(65536int * 65536, *ref_idx as int);
                    assert(abs_i(65536int * 65536) == 65536int * 65536);
                    assert(1 <= fdiv(SCALE as int, *ref_idx as int) <= 262144);
                }
                fp_div(SCALE, *ref_idx)
            } else {
                *ref_idx
            };
            let u = Vec3::unit_vector(r_in.direction());
            proof {
                lemma_dot3_fits(neg3(u@), rec.normal@, 131072, 262144);
            }
            let minus_u = u.negate();
            let d = Vec3::dot(&minus_u, &rec.normal);
            let cos_theta = clamp(d, -SCALE, SCALE);
            proof {
                lemma_fmul_bound(cos_theta as int, cos_theta as int, 65536, 65536);
                assert(cos_theta as int * cos_theta as int >= 0) by (nonlinear_arith);
                lemma_div_pos_is_pos(cos_theta as int * cos_theta as int, 0x10000);
            }
            let cc = fp_mul(cos_theta, cos_theta);
            let sin_theta = fp_sqrt(SCALE - cc);
            proof {
                lemma_fsqrt_le_scale(SCALE as int - cc as int);
                lemma_fmul_bound(ratio as int, sin_theta as int, 524288, 65536);
            }
            let rs = fp_mul(ratio, sin_theta);
            if rs > SCALE {
                let reflected = Vec3::reflect(&u, &rec.normal);
                *scattered = Ray::new(rec.p, reflected);
                return true;
            }
            // Schlick's r0 is symmetric under inverting its index
            // argument, so the raw index yields the same reflectance
            // as the entering ratio.
            let reflect_prob = schlick(cos_theta, *ref_idx);
            if random_fp() < reflect_prob {
                let reflected = Vec3::reflect(&u, &rec.normal);
                *scattered = Ray::new(rec.p, reflected);
                return true;
            }
            let refracted = Vec3::refract(&u, &rec.normal, ratio);
            *scattered = Ray::new(rec.p, refracted);
            true
        },
    }
}

} // verus!
