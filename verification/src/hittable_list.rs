//! The scene aggregate: an ordered list of spheres, intersected by
//! linear scan with a shrinking upper bound.
//!
//! `lemma_list_hit_closest` is the aggregate's defining law: the scan
//! returns exactly the closest individual hit over the original
//! interval.

use vstd::prelude::*;

verus! {

use crate::hittable::{hit_record_wf, interval_wf, ray_wf, HitRecord, Hittable, T_LIMIT};
use crate::ray::Ray;
use crate::sphere::{sphere_accepts, sphere_hit_spec, sphere_root_far, sphere_root_near,
    sphere_wf, Sphere};
use crate::fixed::{fsqrt, lemma_sqrt_floor_props, lemma_tdiv_mono};

/// The scene: an ordered collection of spheres.
pub struct HittableList {
    /// The objects, scanned in order.
    pub objects: Vec<Sphere>,
}

/// Every object of the scene is well formed.
pub open spec fn list_wf(objs: Seq<Sphere>) -> bool {
    forall|i: int| 0 <= i < objs.len() ==> sphere_wf(#[trigger] objs[i])
}

/// The shrinking upper bound used while scanning: the best hit's
/// parameter, or the original upper bound when nothing was hit yet.
pub open spec fn scan_bound(best: Option<HitRecord>, t_max: int) -> int {
    match best {
        Some(rec) => rec.t as int,
        None => t_max,
    }
}

/// The scan: query each object over `(t_min, bound)` with the bound
/// tightened to the best hit so far, keeping the latest (closest) hit.
pub open spec fn scan_hit(
    objs: Seq<Sphere>,
    r: Ray,
    t_min: int,
    t_max: int,
    best: Option<HitRecord>,
) -> Option<HitRecord>
    decreases objs.len(),
{
    if objs.len() == 0 {
        best
    } else {
        let cur = sphere_hit_spec(objs[0], r, t_min, scan_bound(best, t_max));
        let next = if cur is Some {
            cur
        } else {
            best
        };
        scan_hit(objs.skip(1), r, t_min, t_max, next)
    }
}

/// The exact outcome of intersecting the whole scene.
pub open spec fn list_hit_spec(objs: Seq<Sphere>, r: Ray, t_min: int, t_max: int) -> Option<
    HitRecord,
> {
    scan_hit(objs, r, t_min, t_max, None)
}

/// An accepted sphere hit lies strictly inside the queried interval and
/// yields a well-formed record.
pub proof fn lemma_sphere_hit_props(s: Sphere, r: Ray, t_min: int, t_max: int)
    requires
        sphere_wf(s),
        -T_LIMIT <= t_min,
        t_max <= T_LIMIT,
    ensures
        match sphere_hit_spec(s, r, t_min, t_max) {
            Some(rec) => t_min < rec.t < t_max,
            None => true,
        },
{
}

/// Shrinking the upper bound keeps a hit exactly when its parameter
/// still lies below the new bound.
pub proof fn lemma_sphere_hit_shrink(s: Sphere, r: Ray, t_min: int, tm1: int, tm2: int)
    requires
        sphere_wf(s),
        -T_LIMIT <= t_min,
        tm1 <= T_LIMIT,
        tm2 <= tm1,
    ensures
        sphere_hit_spec(s, r, t_min, tm2) == match sphere_hit_spec(s, r, t_min, tm1) {
            Some(rec) => if (rec.t as int) < tm2 {
                Some(rec)
            } else {
                None::<HitRecord>
            },
            None => None::<HitRecord>,
        },
{
    if sphere_disc(s, r) > 0 && crate::sphere::sphere_a(r) > 0 {
        let near = sphere_root_near(s, r);
        let far = sphere_root_far(s, r);
        lemma_sphere_roots_ordered(s, r);
        assert(sphere_accepts(s, r, t_min, tm2, near) == (sphere_accepts(s, r, t_min, tm1, near)
            && near < tm2));
        assert(sphere_accepts(s, r, t_min, tm2, far) == (sphere_accepts(s, r, t_min, tm1, far)
            && far < tm2));
    }
}

/// The nearer root never exceeds the farther one.
pub proof fn lemma_sphere_roots_ordered(s: Sphere, r: Ray)
    requires
        crate::sphere::sphere_a(r) > 0,
        sphere_disc(s, r) > 0,
    ensures
        sphere_root_near(s, r) <= sphere_root_far(s, r),
{
    let hb = crate::sphere::sphere_half_b(s, r);
    let root = fsqrt(sphere_disc(s, r));
    lemma_sqrt_floor_props(sphere_disc(s, r) * 0x10000);
    assert(root >= 0);
    assert((-hb - root) * 0x10000 <= (-hb + root) * 0x10000) by (nonlinear_arith)
        requires
            root >= 0,
    ;
    lemma_tdiv_mono((-hb - root) * 0x10000, (-hb + root) * 0x10000, crate::sphere::sphere_a(r));
}

use crate::sphere::sphere_disc;

/// The scan's defining property, generalized over the accumulated best
/// hit: the result is the minimum of the accumulator and every
/// individual hit over the original interval.
proof fn lemma_scan_closest(
    objs: Seq<Sphere>,
    r: Ray,
    t_min: int,
    t_max: int,
    best: Option<HitRecord>,
)
    requires
        list_wf(objs),
        interval_wf(t_min, t_max),
        match best {
            Some(b) => t_min < b.t < t_max,
            None => true,
        },
    ensures
        scan_bound(scan_hit(objs, r, t_min, t_max, best), t_max) <= scan_bound(best, t_max),
        match scan_hit(objs, r, t_min, t_max, best) {
            Some(orec) => {
                &&& t_min < orec.t < t_max
                &&& (best == Some(orec) || exists|i: int|
                    0 <= i < objs.len() && #[trigger] sphere_hit_spec(objs[i], r, t_min, t_max)
                        == Some(orec))
                &&& forall|i: int|
                    0 <= i < objs.len() ==> match #[trigger] sphere_hit_spec(
                        objs[i],
                        r,
                        t_min,
                        t_max,
                    ) {
                        Some(o) => orec.t <= o.t,
                        None => true,
                    }
            },
            None => best is None && forall|i: int|
                0 <= i < objs.len() ==> #[trigger] sphere_hit_spec(objs[i], r, t_min, t_max)
                    is None,
        },
    decreases objs.len(),
{
    if objs.len() == 0 {
    } else {
        let bnd = scan_bound(best, t_max);
        let cur = sphere_hit_spec(objs[0], r, t_min, bnd);
        let h0 = sphere_hit_spec(objs[0], r, t_min, t_max);
        lemma_sphere_hit_shrink(objs[0], r, t_min, t_max, bnd);
        lemma_sphere_hit_props(objs[0], r, t_min, bnd);
        let next = if cur is Some {
            cur
        } else {
            best
        };
        assert(objs.skip(1).len() == objs.len() - 1);
        assert(forall|j: int| 0 <= j < objs.skip(1).len() ==> objs.skip(1)[j] == objs[j + 1]);
        lemma_scan_closest(objs.skip(1), r, t_min, t_max, next);
        let out = scan_hit(objs, r, t_min, t_max, best);
        assert(out == scan_hit(objs.skip(1), r, t_min, t_max, next));
        match out {
            Some(orec) => {
                if best != Some(orec) {
                    if next == Some(orec) {
                        assert(cur == Some(orec));
                        assert(h0 == Some(orec));
                        assert(sphere_hit_spec(objs[0], r, t_min, t_max) == Some(orec));
                    } else {
                        let j = choose|j: int|
                            0 <= j < objs.skip(1).len() && #[trigger] sphere_hit_spec(
                                objs.skip(1)[j],
                                r,
                                t_min,
                                t_max,
                            ) == Some(orec);
                        assert(objs.skip(1)[j] == objs[j + 1]);
                        assert(sphere_hit_spec(objs[j + 1], r, t_min, t_max) == Some(orec));
                    }
                }
                assert forall|i: int| 0 <= i < objs.len() implies match #[trigger] sphere_hit_spec(
                    objs[i],
                    r,
                    t_min,
                    t_max,
                ) {
                    Some(o) => orec.t <= o.t,
                    None => true,
                } by {
                    if i == 0 {
                        if h0 is Some {
                            let o = h0->Some_0;
                            if (o.t as int) < bnd {
                                assert(cur == Some(o));
                                assert(scan_bound(next, t_max) == o.t as int);
                            } else {
                                assert(scan_bound(out, t_max) <= scan_bound(next, t_max) <= bnd);
                            }
                        }
                    } else {
                        assert(objs.skip(1)[i - 1] == objs[i]);
                        assert(match sphere_hit_spec(objs.skip(1)[i - 1], r, t_min, t_max) {
                            Some(o) => orec.t <= o.t,
                            None => true,
                        });
                    }
                }
            },
            None => {
                assert(next is None);
                assert(cur is None && best is None);
                assert(bnd == t_max);
                assert(h0 is None);
                assert forall|i: int| 0 <= i < objs.len() implies #[trigger] sphere_hit_spec(
                    objs[i],
                    r,
                    t_min,
                    t_max,
                ) is None by {
                    if i == 0 {
                    } else {
                        assert(objs.skip(1)[i - 1] == objs[i]);
                        assert(sphere_hit_spec(objs.skip(1)[i - 1], r, t_min, t_max) is None);
                    }
                }
            },
        }
    }
}

/// The aggregate law: intersecting the scene returns exactly the
/// closest hit that any single object returns over the same interval,
/// and misses exactly when every object misses.
pub proof fn lemma_list_hit_closest(objs: Seq<Sphere>, r: Ray, t_min: int, t_max: int)
    requires
        list_wf(objs),
        interval_wf(t_min, t_max),
    ensures
        match list_hit_spec(objs, r, t_min, t_max) {
            Some(orec) => {
                &&& t_min < orec.t < t_max
                &&& exists|i: int|
                    0 <= i < objs.len() && #[trigger] sphere_hit_spec(objs[i], r, t_min, t_max)
                        == Some(orec)
                &&& forall|i: int|
                    0 <= i < objs.len() ==> match #[trigger] sphere_hit_spec(
                        objs[i],
                        r,
                        t_min,
                        t_max,
                    ) {
                        Some(o) => orec.t <= o.t,
                        None => true,
                    }
            },
            None => forall|i: int|
                0 <= i < objs.len() ==> #[trigger] sphere_hit_spec(objs[i], r, t_min, t_max)
                    is None,
        },
{
    lemma_scan_closest(objs, r, t_min, t_max, None);
}

impl HittableList {
    /// A scene holding one object.
    pub fn new_first(object: Sphere) -> (l: HittableList)
        requires
            sphere_wf(object),
        ensures
            l.objects@.len() == 1,
            l.objects@[0] == object,
            list_wf(l.objects@),
    {
        let mut objects: Vec<Sphere> = Vec::new();
        objects.push(object);
        HittableList { objects }
    }

    /// Append an object to the scene.
    pub fn push(&mut self, object: Sphere)
        requires
            sphere_wf(object),
        ensures
            final(self).objects@ == old(self).objects@.push(object),
            list_wf(old(self).objects@) ==> list_wf(final(self).objects@),
    {
        self.objects.push(object);
        proof {
            if list_wf(old(self).objects@) {
                assert(forall|i: int|
                    0 <= i < old(self).objects@.len() ==> self.objects@[i] == old(
                        self,
                    ).objects@[i]);
            }
        }
    }

    /// Remove every object.
    pub fn clear(&mut self)
        ensures
            final(self).objects@.len() == 0,
    {
        self.objects.clear();
    }
}

impl Hittable for HittableList {
    open spec fn h_wf(&self) -> bool {
        list_wf(self.objects@)
    }

    open spec fn hit_spec(&self, r: Ray, t_min: int, t_max: int) -> Option<HitRecord> {
        list_hit_spec(self.objects@, r, t_min, t_max)
    }

    fn hit(&self, r: &Ray, t_min: i64, t_max: i64) -> (res: Option<HitRecord>) {
        let ghost objs = self.objects@;
        let mut best: Option<HitRecord> = None;
        let mut i: usize = 0;
        proof {
            assert(objs.skip(0) =~= objs);
        }
        while i < self.objects.len()
            invariant
                list_wf(objs),
                ray_wf(*r),
                interval_wf(t_min as int, t_max as int),
                objs == self.objects@,
                0 <= i <= objs.len(),
                scan_hit(objs, *r, t_min as int, t_max as int, None) == scan_hit(
                    objs.skip(i as int),
                    *r,
                    t_min as int,
                    t_max as int,
                    best,
                ),
                match best {
                    Some(rec) => hit_record_wf(rec) && t_min < rec.t < t_max,
                    None => true,
                },
            decreases objs.len() - i,
        {
            let bound = match &best {
                Some(rec) => rec.t,
                None => t_max,
            };
            proof {
                assert(objs.skip(i as int).len() > 0);
                assert(objs.skip(i as int)[0] == objs[i as int]);
                assert(objs.skip(i as int).skip(1) =~= objs.skip(i as int + 1));
            }
            let cur = self.objects[i].hit(r, t_min, bound);
            if cur.is_some() {
                best = cur;
            }
            i = i + 1;
        }
        proof {
            assert(objs.skip(objs.len() as int).len() == 0);
        }
        best
    }
}

} // verus!
