//! Rays: a starting point and a direction.

use crate::fixed::Fixed;
use crate::vec3::{Point3, Vec3};
use vstd::prelude::*;

verus! {

/// The points `orig + t * dir` for every parameter `t`.
#[derive(Clone, Copy, PartialEq, Eq, Structural, Debug)]
pub struct Ray {
    pub orig: Point3,
    pub dir: Vec3,
}

impl Ray {
    /// What `at` returns: `orig + t * dir`.
    pub open spec fn at_spec(self, t: Fixed) -> Point3 {
        self.orig.plus(self.dir.scaled(t))
    }

    /// The same ray with its direction lengthened: the same points, each at
    /// a parameter that is smaller by the power of two
    /// `dir.lengthening()`.
    pub open spec fn lengthened(self) -> Ray {
        Ray { orig: self.orig, dir: self.dir.lengthened() }
    }

    /// The same ray with its direction shortened: close to the same points,
    /// each at a parameter that is larger by the power of two
    /// `dir.shortening()`.
    pub open spec fn shortened(self) -> Ray {
        Ray { orig: self.orig, dir: self.dir.shortened() }
    }

    /// The ray with the largest component of its direction brought between
    /// one half and one: lengthened where no component is above one,
    /// shortened where one is.
    pub open spec fn aimed(self) -> Ray {
        if self.dir.largest() <= crate::fixed::ONE_RAW {
            self.lengthened()
        } else {
            self.shortened()
        }
    }

    /// The ray from `origin` along `direction`.
    pub fn new(origin: &Point3, direction: &Vec3) -> (r: Ray)
        ensures
            r == (Ray { orig: *origin, dir: *direction }),
    {
        Ray { orig: *origin, dir: *direction }
    }

    /// Where the ray starts.
    pub fn origin(&self) -> (r: Point3)
        ensures
            r == self.orig,
    {
        self.orig
    }

    /// The direction of the ray, as given: not scaled to unit length.
    pub fn direction(&self) -> (r: Vec3)
        ensures
            r == self.dir,
    {
        self.dir
    }

    /// The point of the ray at parameter `t`.
    pub fn at(&self, t: Fixed) -> (r: Point3)
        ensures
            r == self.at_spec(t),
    {
        self.orig + self.dir * t
    }
}

impl Default for Ray {
    /// The ray from the origin with no direction.
    fn default() -> (r: Ray)
        ensures
            r == (Ray { orig: Vec3::zero_spec(), dir: Vec3::zero_spec() }),
    {
        Ray { orig: Vec3::default(), dir: Vec3::default() }
    }
}

} // verus!
