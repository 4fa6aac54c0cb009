//! The sphere primitive: the one intersectable object, hit through the
//! quadratic ray-sphere formula.
//!
//! A negative radius flips the outward normal, which models a hollow
//! surface (a glass shell's inner boundary).

use vstd::prelude::*;

verus! {

use crate::fixed::{abs_i, fdiv, fmul, fp_div, fp_mul, fp_sqrt, fsqrt, lemma_fdiv_bound,
    lemma_fmul_bound, SCALE};
use crate::hittable::{hit_record_wf, interval_wf, oriented_normal3, ray_wf, HitRecord, Hittable,
    NORMAL_MAX, RADIUS_MIN, WORLD_MAX};
use crate::material::{material_wf, Material};
use crate::ray::{ray_at3, Ray};
use crate::vec3::{bounded3, cross3, divs3, dot3, lemma_dot3_fits, lemma_fmul_zero,
    lemma_scale3_fits, sub3, Vec3};
use crate::fixed::{lemma_fmul_scale, lemma_sqrt_floor_square, lemma_tdiv_cancel};

/// An intersectable sphere.
pub struct Sphere {
    /// Center point.
    pub center: Vec3,
    /// Radius; negative to model a hollow (inward-facing) surface.
    pub radius: i64,
    /// The material of the surface.
    pub material: Material,
}

/// The sphere's structural invariant: center within the world, radius
/// magnitude within `[RADIUS_MIN, WORLD_MAX]`, material valid.
pub open spec fn sphere_wf(s: Sphere) -> bool {
    &&& bounded3(s.center@, WORLD_MAX as int)
    &&& RADIUS_MIN as int <= abs_i(s.radius as int) <= WORLD_MAX as int
    &&& material_wf(s.material)
}

/// Quadratic coefficient `a = |dir|^2`.
pub open spec fn sphere_a(r: Ray) -> int {
    dot3(r.dir@, r.dir@)
}

/// Quadratic half-coefficient `half_b = dot(orig - center, dir)`.
pub open spec fn sphere_half_b(s: Sphere, r: Ray) -> int {
    dot3(sub3(r.orig@, s.center@), r.dir@)
}

/// Quadratic constant `c = |orig - center|^2 - radius^2`.
pub open spec fn sphere_c(s: Sphere, r: Ray) -> int {
    let oc = sub3(r.orig@, s.center@);
    dot3(oc, oc) - fmul(s.radius as int, s.radius as int)
}

/// Discriminant `half_b^2 - a * c` of the intersection quadratic.
pub open spec fn sphere_disc(s: Sphere, r: Ray) -> int {
    fmul(sphere_half_b(s, r), sphere_half_b(s, r)) - fmul(sphere_a(r), sphere_c(s, r))
}

/// The nearer root `(-half_b - sqrt(disc)) / a`.
pub open spec fn sphere_root_near(s: Sphere, r: Ray) -> int {
    fdiv(-sphere_half_b(s, r) - fsqrt(sphere_disc(s, r)), sphere_a(r))
}

/// The farther root `(-half_b + sqrt(disc)) / a`.
pub open spec fn sphere_root_far(s: Sphere, r: Ray) -> int {
    fdiv(-sphere_half_b(s, r) + fsqrt(sphere_disc(s, r)), sphere_a(r))
}

/// The outward normal at parameter `t`: `(p - center) / radius`. The
/// radius's sign flips it for hollow spheres.
pub open spec fn sphere_outward3(s: Sphere, r: Ray, t: int) -> (int, int, int) {
    divs3(sub3(ray_at3(r.orig@, r.dir@, t), s.center@), s.radius as int)
}

/// Whether the root `t` is accepted: it lies strictly inside the
/// interval and the derived point and normal stay within their bounds
/// (a candidate outside them is numerically degenerate and rejected).
pub open spec fn sphere_accepts(s: Sphere, r: Ray, t_min: int, t_max: int, t: int) -> bool {
    &&& t_min < t < t_max
    &&& bounded3(ray_at3(r.orig@, r.dir@, t), WORLD_MAX as int)
    &&& bounded3(sphere_outward3(s, r, t), NORMAL_MAX as int)
}

/// The record produced for an accepted root `t`.
pub open spec fn sphere_record(s: Sphere, r: Ray, t: int) -> HitRecord {
    let p = ray_at3(r.orig@, r.dir@, t);
    let outward = sphere_outward3(s, r, t);
    let n = oriented_normal3(r.dir@, outward);
    HitRecord {
        p: Vec3 { x: p.0 as i64, y: p.1 as i64, z: p.2 as i64 },
        normal: Vec3 { x: n.0 as i64, y: n.1 as i64, z: n.2 as i64 },
        t: t as i64,
        front_face: dot3(r.dir@, outward) < 0,
        material: s.material,
    }
}

/// The exact outcome of the intersection test: on a positive
/// discriminant and a nondegenerate direction, the nearer root wins if
/// accepted, the farther root is the fallback (for a ray starting
/// inside the sphere), and otherwise there is no hit. A zero
/// discriminant (tangent ray) counts as a miss.
pub open spec fn sphere_hit_spec(s: Sphere, r: Ray, t_min: int, t_max: int) -> Option<HitRecord> {
    if sphere_disc(s, r) > 0 && sphere_a(r) > 0 {
        if sphere_accepts(s, r, t_min, t_max, sphere_root_near(s, r)) {
            Some(sphere_record(s, r, sphere_root_near(s, r)))
        } else if sphere_accepts(s, r, t_min, t_max, sphere_root_far(s, r)) {
            Some(sphere_record(s, r, sphere_root_far(s, r)))
        } else {
            None
        }
    } else {
        None
    }
}

impl Sphere {
    /// Build a sphere.
    pub fn new(center: Vec3, radius: i64, material: Material) -> (s: Sphere)
        requires
            bounded3(center@, WORLD_MAX as int),
            RADIUS_MIN as int <= abs_i(radius as int) <= WORLD_MAX as int,
            material_wf(material),
        ensures
            s.center == center,
            s.radius == radius,
            s.material == material,
            sphere_wf(s),
    {
        Sphere { center, radius, material }
    }

    /// Evaluate one candidate root: accept it exactly when
    /// `sphere_accepts` holds, producing the record of `sphere_record`.
    fn candidate(&self, r: &Ray, t_min: i64, t_max: i64, t: i64) -> (res: Option<HitRecord>)
        requires
            sphere_wf(*self),
            ray_wf(*r),
            interval_wf(t_min as int, t_max as int),
        ensures
            res == if sphere_accepts(*self, *r, t_min as int, t_max as int, t as int) {
                Some(sphere_record(*self, *r, t as int))
            } else {
                None::<HitRecord>
            },
            match res {
                Some(rec) => hit_record_wf(rec) && t_min < rec.t < t_max,
                None => true,
            },
    {
        if !(t_min < t && t < t_max) {
            return None;
        }
        proof {
            lemma_scale3_fits(r.dir@, t as int, 134217728, 67108864);
        }
        let p = r.at(t);
        if p.x > WORLD_MAX || p.x < -WORLD_MAX || p.y > WORLD_MAX || p.y < -WORLD_MAX || p.z
            > WORLD_MAX || p.z < -WORLD_MAX {
            return None;
        }
        let pc = p.minus(&self.center);
        proof {
            lemma_fdiv_bound(pc@.0, self.radius as int, 33554432);
            lemma_fdiv_bound(pc@.1, self.radius as int, 33554432);
            lemma_fdiv_bound(pc@.2, self.radius as int, 33554432);
        }
        let outward = pc.div_by(self.radius);
        if outward.x > NORMAL_MAX || outward.x < -NORMAL_MAX || outward.y > NORMAL_MAX || outward.y
            < -NORMAL_MAX || outward.z > NORMAL_MAX || outward.z < -NORMAL_MAX {
            return None;
        }
        let mut rec = HitRecord {
            p,
            normal: Vec3 { x: 0, y: 0, z: 0 },
            t,
            front_face: false,
            material: self.material,
        };
        rec.set_face_normal(r, &outward);
        Some(rec)
    }
}

impl Hittable for Sphere {
    open spec fn h_wf(&self) -> bool {
        sphere_wf(*self)
    }

    open spec fn hit_spec(&self, r: Ray, t_min: int, t_max: int) -> Option<HitRecord> {
        sphere_hit_spec(*self, r, t_min, t_max)
    }

    fn hit(&self, r: &Ray, t_min: i64, t_max: i64) -> (res: Option<HitRecord>) {
        proof {
            lemma_dot3_fits(r.dir@, r.dir@, 134217728, 134217728);
            lemma_dot3_fits(sub3(r.orig@, self.center@), r.dir@, 33554432, 134217728);
            lemma_dot3_fits(sub3(r.orig@, self.center@), sub3(r.orig@, self.center@), 33554432,
                33554432);
            lemma_fmul_bound(self.radius as int, self.radius as int, 16777216, 16777216);
        }
        let oc = r.origin().minus(&self.center);
        let dir = r.direction();
        let a = Vec3::dot(&dir, &dir);
        let half_b = Vec3::dot(&oc, &dir);
        let oc2 = Vec3::dot(&oc, &oc);
        let rr = fp_mul(self.radius, self.radius);
        let c = oc2 - rr;
        proof {
            lemma_fmul_bound(half_b as int, half_b as int, 206158430208, 206158430208);
            lemma_fmul_bound(a as int, c as int, 824633720832, 55834574848);
        }
        let hb2 = fp_mul(half_b, half_b);
        let ac = fp_mul(a, c);
        let disc = hb2 - ac;
        if disc > 0 && a > 0 {
            let root = fp_sqrt(disc);
            proof {
                assert(root as int <= 1099511627776) by (nonlinear_arith)
                    requires
                        0 <= root as int,
                        (root as int) * (root as int) <= (disc as int) * 0x10000,
                        disc as int <= 0x7fff_ffff_ffff_ffff,
                ;
                lemma_fdiv_bound(-(half_b as int) - root as int, a as int, 1305670057984);
                lemma_fdiv_bound(-(half_b as int) + root as int, a as int, 1305670057984);
            }
            let near = fp_div(-half_b - root, a);
            let res = self.candidate(r, t_min, t_max, near);
            if res.is_some() {
                return res;
            }
            let far = fp_div(-half_b + root, a);
            let res2 = self.candidate(r, t_min, t_max, far);
            if res2.is_some() {
                return res2;
            }
            None
        } else {
            None
        }
    }
}

/// Exact-hit law for an axis-aligned ray from outside a sphere at the
/// origin, with all values multiples of 256 so that no step rounds.
///
/// The ray from `(0, 0, 256k)` straight down the negative z axis hits
/// the sphere of radius `256m` at `t = 256(k - |m|)`, at the point
/// `(0, 0, 256|m|)`; the stored normal is the exact unit vector
/// `(0, 0, 1)`, which is parallel to the vector from the center to the
/// hit point; and the hit is a front face exactly when the radius is
/// positive (a negative radius models a hollow surface whose normal
/// faces inward, so the same ray then reports a back face).
pub proof fn lemma_axis_hit_outside(s: Sphere, r: Ray, t_min: int, t_max: int, m: int, k: int)
    requires
        s.center@ == (0int, 0int, 0int),
        s.radius as int == 256 * m,
        r.orig@ == (0int, 0int, 256 * k),
        r.dir@ == (0int, 0int, -(SCALE as int)),
        32 <= abs_i(m),
        abs_i(m) < k,
        256 * k <= WORLD_MAX as int,
        t_min < 256 * (k - abs_i(m)),
        256 * (k - abs_i(m)) < t_max,
    ensures
        sphere_hit_spec(s, r, t_min, t_max) is Some,
        ({
            let rec = sphere_hit_spec(s, r, t_min, t_max)->Some_0;
            &&& rec.t as int == 256 * (k - abs_i(m))
            &&& rec.p@ == (0int, 0int, 256 * abs_i(m))
            &&& rec.normal@ == (0int, 0int, SCALE as int)
            &&& rec.front_face == (m > 0)
            &&& dot3(rec.normal@, rec.normal@) == SCALE as int
            &&& cross3(rec.normal@, sub3(rec.p@, s.center@)) == (0int, 0int, 0int)
        }),
{
    let am = abs_i(m);
    lemma_fmul_zero(0);
    // a = |dir|^2 = 1
    assert(fmul(-(SCALE as int), -(SCALE as int)) == SCALE as int) by {
        lemma_tdiv_cancel(SCALE as int, 0x10000);
        assert((-(SCALE as int)) * (-(SCALE as int)) == (SCALE as int) * 0x10000)
            by (nonlinear_arith);
    }
    assert(sphere_a(r) == SCALE as int);
    // half_b = -256k
    assert(fmul(256 * k, -(SCALE as int)) == -(256 * k)) by {
        lemma_tdiv_cancel(-(256 * k), 0x10000);
        assert((256 * k) * (-(SCALE as int)) == (-(256 * k)) * 0x10000) by (nonlinear_arith);
    }
    assert(sphere_half_b(s, r) == -(256 * k));
    // |oc|^2 = k*k, radius^2 = m*m
    assert(fmul(256 * k, 256 * k) == k * k) by {
        lemma_tdiv_cancel(k * k, 0x10000);
        assert((256 * k) * (256 * k) == (k * k) * 0x10000) by (nonlinear_arith);
    }
    assert(fmul(256 * m, 256 * m) == m * m) by {
        lemma_tdiv_cancel(m * m, 0x10000);
        assert((256 * m) * (256 * m) == (m * m) * 0x10000) by (nonlinear_arith);
    }
    assert(sphere_c(s, r) == k * k - m * m);
    // disc = (-256k)^2 - 1 * (k*k - m*m) = m*m > 0
    assert(fmul(-(256 * k), -(256 * k)) == k * k) by {
        lemma_tdiv_cancel(k * k, 0x10000);
        assert((-(256 * k)) * (-(256 * k)) == (k * k) * 0x10000) by (nonlinear_arith);
    }
    lemma_fmul_scale(k * k - m * m);
    assert(sphere_disc(s, r) == m * m);
    assert(m * m > 0) by (nonlinear_arith)
        requires
            m != 0,
    ;
    // sqrt(disc) = 256|m| exactly
    assert(fsqrt(m * m) == 256 * am) by {
        assert((m * m) * 0x10000 == (256 * am) * (256 * am)) by (nonlinear_arith)
            requires
                am == abs_i(m),
        ;
        lemma_sqrt_floor_square(256 * am);
    }
    // near root = 256(k - |m|)
    let t = 256 * (k - am);
    assert(sphere_root_near(s, r) == t) by {
        lemma_tdiv_cancel(t, 0x10000);
        assert((256 * k - 256 * am) * 0x10000 == t * 0x10000);
    }
    // the hit point is (0, 0, 256|m|)
    assert(fmul(-(SCALE as int), t) == -t) by {
        lemma_tdiv_cancel(-t, 0x10000);
        assert((-(SCALE as int)) * t == (-t) * 0x10000) by (nonlinear_arith);
    }
    assert(ray_at3(r.orig@, r.dir@, t) == (0int, 0int, 256 * am));
    // the outward normal is the exact unit vector (0, 0, sign(radius))
    let sg: int = if m > 0 {
        1
    } else {
        -1
    };
    assert(fdiv(0, 256 * m) == 0) by {
        lemma_tdiv_cancel(0, 256 * m);
        assert(0int * (256 * m) == 0int * 0x10000) by (nonlinear_arith);
    }
    assert(fdiv(256 * am, 256 * m) == sg * SCALE as int) by {
        lemma_tdiv_cancel(sg * SCALE as int, 256 * m);
        assert((256 * am) * 0x10000 == (sg * SCALE as int) * (256 * m)) by (nonlinear_arith)
            requires
                am == abs_i(m),
                sg == if m > 0 { 1int } else { -1int },
        ;
    }
    assert(sphere_outward3(s, r, t) == (0int, 0int, sg * SCALE as int));
    assert(sphere_accepts(s, r, t_min, t_max, t));
    // orientation: front face exactly for a positive radius
    assert(fmul(-(SCALE as int), sg * SCALE as int) == -(sg * SCALE as int)) by {
        lemma_tdiv_cancel(-(sg * SCALE as int), 0x10000);
        assert((-(SCALE as int)) * (sg * SCALE as int) == (-(sg * SCALE as int)) * 0x10000)
            by (nonlinear_arith);
    }
    assert(dot3(r.dir@, (0int, 0int, sg * SCALE as int)) == -(sg * SCALE as int));
    // the stored normal is (0, 0, 1) either way, and exactly unit
    lemma_fmul_scale(SCALE as int);
    assert(sphere_hit_spec(s, r, t_min, t_max) == Some(sphere_record(s, r, t)));
}

/// Back-face law for a ray starting at the center of a sphere: the
/// nearer root lies behind the origin, the farther root is taken, and
/// the hit reports `front_face == false` with the stored normal still
/// opposing the ray. This exercises the far-root fallback that renders
/// a camera inside a sphere.
pub proof fn lemma_axis_hit_inside(s: Sphere, r: Ray, t_min: int, t_max: int, m: int)
    requires
        s.center@ == (0int, 0int, 0int),
        s.radius as int == 256 * m,
        r.orig@ == (0int, 0int, 0int),
        r.dir@ == (0int, 0int, -(SCALE as int)),
        32 <= m,
        256 * m <= WORLD_MAX as int,
        0 <= t_min < 256 * m,
        256 * m < t_max,
    ensures
        sphere_hit_spec(s, r, t_min, t_max) is Some,
        ({
            let rec = sphere_hit_spec(s, r, t_min, t_max)->Some_0;
            &&& rec.t as int == 256 * m
            &&& rec.p@ == (0int, 0int, -(256 * m))
            &&& rec.normal@ == (0int, 0int, SCALE as int)
            &&& rec.front_face == false
        }),
{
    lemma_fmul_zero(0);
    assert(fmul(-(SCALE as int), -(SCALE as int)) == SCALE as int) by {
        lemma_tdiv_cancel(SCALE as int, 0x10000);
        assert((-(SCALE as int)) * (-(SCALE as int)) == (SCALE as int) * 0x10000)
            by (nonlinear_arith);
    }
    assert(sphere_a(r) == SCALE as int);
    assert(sphere_half_b(s, r) == 0);
    assert(fmul(256 * m, 256 * m) == m * m) by {
        lemma_tdiv_cancel(m * m, 0x10000);
        assert((256 * m) * (256 * m) == (m * m) * 0x10000) by (nonlinear_arith);
    }
    assert(sphere_c(s, r) == -(m * m));
    lemma_fmul_scale(-(m * m));
    assert(sphere_disc(s, r) == m * m);
    assert(m * m > 0) by (nonlinear_arith)
        requires
            m != 0,
    ;
    assert(fsqrt(m * m) == 256 * m) by {
        assert((m * m) * 0x10000 == (256 * m) * (256 * m)) by (nonlinear_arith);
        lemma_sqrt_floor_square(256 * m);
    }
    // the nearer root, -256m, lies behind t_min and is rejected
    assert(sphere_root_near(s, r) == -(256 * m)) by {
        lemma_tdiv_cancel(-(256 * m), 0x10000);
        assert((0 - 256 * m) * 0x10000 == (-(256 * m)) * 0x10000);
    }
    assert(!sphere_accepts(s, r, t_min, t_max, -(256 * m)));
    // the farther root is accepted
    let t = 256 * m;
    assert(sphere_root_far(s, r) == t) by {
        lemma_tdiv_cancel(t, 0x10000);
        assert((0 + 256 * m) * 0x10000 == t * 0x10000);
    }
    assert(fmul(-(SCALE as int), t) == -t) by {
        lemma_tdiv_cancel(-t, 0x10000);
        assert((-(SCALE as int)) * t == (-t) * 0x10000) by (nonlinear_arith);
    }
    assert(ray_at3(r.orig@, r.dir@, t) == (0int, 0int, -(256 * m)));
    assert(fdiv(0, 256 * m) == 0) by {
        lemma_tdiv_cancel(0, 256 * m);
        assert(0int * (256 * m) == 0int * 0x10000) by (nonlinear_arith);
    }
    assert(fdiv(-(256 * m), 256 * m) == -(SCALE as int)) by {
        lemma_tdiv_cancel(-(SCALE as int), 256 * m);
        assert((-(256 * m)) * 0x10000 == (-(SCALE as int)) * (256 * m)) by (nonlinear_arith);
    }
    assert(sphere_outward3(s, r, t) == (0int, 0int, -(SCALE as int)));
    assert(sphere_accepts(s, r, t_min, t_max, t));
    assert(fmul(-(SCALE as int), -(SCALE as int)) == SCALE as int);
    assert(dot3(r.dir@, (0int, 0int, -(SCALE as int))) == SCALE as int);
    assert(sphere_hit_spec(s, r, t_min, t_max) == Some(sphere_record(s, r, t)));
}

} // verus!
