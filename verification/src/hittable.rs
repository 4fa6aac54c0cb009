//! The intersection contract: the hit record produced by every
//! intersection test, and the trait every intersectable object
//! implements.
//!
//! All geometry lives inside a bounded fixed-point world. The constants
//! below delimit it; every bound is chosen so that no intermediate of
//! the quadratic intersection math can leave the `i64` range.

use vstd::prelude::*;

verus! {

use crate::material::{material_wf, Material};
use crate::ray::Ray;
use crate::vec3::{bounded3, dot3, lemma_dot3_fits, neg3, Vec3};

/// Bound on the components of points, sphere centers and ray origins
/// (256 in real units).
pub const WORLD_MAX: i64 = 16777216;

/// Bound on the components of ray directions (2048 in real units).
pub const DIR_MAX: i64 = 134217728;

/// Bound on ray-parameter intervals (1024 in real units).
pub const T_LIMIT: i64 = 67108864;

/// Bound on the components of a stored surface normal (4 in real
/// units). A candidate hit whose computed normal exceeds it is
/// rejected as numerically degenerate.
pub const NORMAL_MAX: i64 = 262144;

/// Smallest admissible sphere radius magnitude (1/8 in real units).
pub const RADIUS_MIN: i64 = 8192;

/// A ray within the modeled world.
pub open spec fn ray_wf(r: Ray) -> bool {
    bounded3(r.orig@, WORLD_MAX as int) && bounded3(r.dir@, DIR_MAX as int)
}

/// An admissible ray-parameter interval.
pub open spec fn interval_wf(t_min: int, t_max: int) -> bool {
    -T_LIMIT <= t_min <= t_max <= T_LIMIT
}

/// The data produced by a successful intersection test.
#[derive(Clone, Copy, Debug)]
pub struct HitRecord {
    /// The hit point.
    pub p: Vec3,
    /// The unit-ish surface normal, oriented against the incoming ray.
    pub normal: Vec3,
    /// The ray parameter of the hit.
    pub t: i64,
    /// Whether the geometric outward normal already opposed the ray.
    pub front_face: bool,
    /// The material at the hit point.
    pub material: Material,
}

/// A well-formed hit record: point and normal within their bounds, the
/// parameter within the world interval, the material valid.
pub open spec fn hit_record_wf(rec: HitRecord) -> bool {
    &&& bounded3(rec.p@, WORLD_MAX as int)
    &&& bounded3(rec.normal@, NORMAL_MAX as int)
    &&& -T_LIMIT <= rec.t <= T_LIMIT
    &&& material_wf(rec.material)
}

/// The stored normal: the outward normal if it opposes the ray
/// direction, else its negation.
pub open spec fn oriented_normal3(dir: (int, int, int), outward: (int, int, int)) -> (
    int,
    int,
    int,
) {
    if dot3(dir, outward) < 0 {
        outward
    } else {
        neg3(outward)
    }
}

impl HitRecord {
    /// An inert record: everything zero, with a black diffuse material.
    pub fn default() -> (r: HitRecord)
        ensures
            r.p@ == (0int, 0int, 0int),
            r.normal@ == (0int, 0int, 0int),
            r.t == 0,
            r.front_face == false,
            r.material == (Material::Lambertian { albedo: Vec3 { x: 0, y: 0, z: 0 } }),
    {
        HitRecord {
            p: Vec3 { x: 0, y: 0, z: 0 },
            normal: Vec3 { x: 0, y: 0, z: 0 },
            t: 0,
            front_face: false,
            material: Material::Lambertian { albedo: Vec3 { x: 0, y: 0, z: 0 } },
        }
    }

    /// Record whether the ray hits the front face and store the normal
    /// oriented against the ray.
    pub fn set_face_normal(&mut self, r: &Ray, outward_normal: &Vec3)
        requires
            bounded3(r.dir@, DIR_MAX as int),
            bounded3(outward_normal@, NORMAL_MAX as int),
        ensures
            final(self).front_face == (dot3(r.dir@, outward_normal@) < 0),
            final(self).normal@ == oriented_normal3(r.dir@, outward_normal@),
            final(self).p == old(self).p,
            final(self).t == old(self).t,
            final(self).material == old(self).material,
    {
        proof {
            lemma_dot3_fits(r.dir@, outward_normal@, 134217728, 262144);
        }
        let d = Vec3::dot(&r.direction(), outward_normal);
        self.front_face = d < 0;
        self.normal = if self.front_face {
            *outward_normal
        } else {
            outward_normal.negate()
        };
    }
}

/// The capability of being intersected by a ray: an exact spec of the
/// outcome, and an executable test proved to return it.
pub trait Hittable: Sized {
    /// The object's structural invariant.
    spec fn h_wf(&self) -> bool;

    /// The exact outcome of intersecting `r` over `(t_min, t_max)`.
    spec fn hit_spec(&self, r: Ray, t_min: int, t_max: int) -> Option<HitRecord>;

    /// Intersect a ray over the open interval `(t_min, t_max)`.
    fn hit(&self, r: &Ray, t_min: i64, t_max: i64) -> (res: Option<HitRecord>)
        requires
            self.h_wf(),
            ray_wf(*r),
            interval_wf(t_min as int, t_max as int),
        ensures
            res == self.hit_spec(*r, t_min as int, t_max as int),
            match res {
                Some(rec) => hit_record_wf(rec) && t_min < rec.t < t_max,
                None => true,
            },
    ;
}

} // verus!
