//! Rays: an origin point and a direction vector, with the parametric
//! point evaluator `at`.

use vstd::prelude::*;

verus! {

use crate::fixed::{fits64, fmul};
use crate::vec3::{add3, bounded3, scale3, Vec3};

/// A ray. The direction need not be normalized.
#[derive(Clone, Copy, PartialEq, Eq, Structural, Debug)]
pub struct Ray {
    pub orig: Vec3,
    pub dir: Vec3,
}

/// The point reached after traveling `t` along the ray.
pub open spec fn ray_at3(orig: (int, int, int), dir: (int, int, int), t: int) -> (int, int, int) {
    add3(orig, scale3(dir, t))
}

impl Ray {
    /// Build a ray from an origin and a direction.
    pub fn new(orig: Vec3, dir: Vec3) -> (r: Ray)
        ensures
            r.orig == orig,
            r.dir == dir,
    {
        Ray { orig, dir }
    }

    /// The ray's origin.
    pub fn origin(&self) -> (r: Vec3)
        ensures
            r == self.orig,
    {
        self.orig
    }

    /// The ray's direction.
    pub fn direction(&self) -> (r: Vec3)
        ensures
            r == self.dir,
    {
        self.dir
    }

    /// Evaluate the ray at parameter `t`.
    pub fn at(&self, t: i64) -> (r: Vec3)
        requires
            bounded3(self.orig@, 0x1000_0000_0000_0000),
            fits64(fmul(self.dir@.0, t as int)),
            fits64(fmul(self.dir@.1, t as int)),
            fits64(fmul(self.dir@.2, t as int)),
            bounded3(scale3(self.dir@, t as int), 0x1000_0000_0000_0000),
        ensures
            r@ == ray_at3(self.orig@, self.dir@, t as int),
    {
        let step = self.dir.scale(t);
        self.orig.plus(&step)
    }
}

} // verus!
