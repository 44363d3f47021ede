//! What a ray can hit, and the record of a hit.

use crate::fixed::Fixed;
use crate::hittable_list::HittableList;
use crate::material::Material;
use crate::ray::Ray;
use crate::sphere::Sphere;
use crate::vec3::{dot, dot_spec, raw_dot, Point3, Vec3};
use core::ops::Neg;
use vstd::prelude::*;

verus! {

/// One intersection of a ray with a surface.
#[derive(Clone, Copy, PartialEq, Eq, Structural, Debug)]
pub struct HitRecord {
    /// Where the ray meets the surface.
    pub p: Point3,
    /// The surface normal, turned against the incoming ray.
    pub normal: Vec3,
    /// The material of the surface.
    pub mat: Material,
    /// The ray's parameter at the hit.
    pub t: Fixed,
    /// Whether the outward normal already pointed against the ray.
    pub front_face: bool,
}

/// Whether `t` lies in the window: above `t_min`, at most `t_max`.
pub open spec fn in_window(t: Fixed, t_min: Fixed, t_max: Fixed) -> bool {
    t_min.raw < t.raw <= t_max.raw
}

impl HitRecord {
    /// Whether a ray along `direction` meets the outside of a surface with
    /// the given outward normal.
    pub open spec fn faces_front(direction: Vec3, outward_normal: Vec3) -> bool {
        dot_spec(direction, outward_normal).raw < 0
    }

    /// What `new` returns.
    pub open spec fn new_spec(
        p: Point3,
        outward_normal: Vec3,
        mat: Material,
        t: Fixed,
        direction: Vec3,
    ) -> HitRecord {
        let front_face = HitRecord::faces_front(direction, outward_normal);
        HitRecord {
            p,
            normal: if front_face {
                outward_normal
            } else {
                outward_normal.negated()
            },
            mat,
            t,
            front_face,
        }
    }

    /// The normal of a record points against the ray: its dot product with
    /// the ray's direction is not positive. This holds where negating the
    /// outward normal does not saturate.
    pub proof fn lemma_normal_opposes_ray(
        p: Point3,
        outward_normal: Vec3,
        mat: Material,
        t: Fixed,
        direction: Vec3,
    )
        requires
            outward_normal.x.raw > i64::MIN,
            outward_normal.y.raw > i64::MIN,
            outward_normal.z.raw > i64::MIN,
        ensures
            dot_spec(
                direction,
                HitRecord::new_spec(p, outward_normal, mat, t, direction).normal,
            ).raw <= 0,
    {
        let d = direction;
        let o = outward_normal;
        assert(raw_dot(d, o.negated()) == -raw_dot(d, o)) by (nonlinear_arith)
            requires
                raw_dot(d, o) == d.x.raw * o.x.raw + d.y.raw * o.y.raw + d.z.raw * o.z.raw,
                raw_dot(d, o.negated()) == d.x.raw * (-o.x.raw) + d.y.raw * (-o.y.raw) + d.z.raw * (
                -o.z.raw),
        ;
    }

    /// The record of a hit at `p` with parameter `t` by a ray along
    /// `direction`. The normal it stores is `outward_normal` or its negation,
    /// whichever points against the ray.
    pub fn new(
        p: &Point3,
        outward_normal: &Vec3,
        mat: &Material,
        t: Fixed,
        direction: &Vec3,
    ) -> (r: HitRecord)
        ensures
            r == HitRecord::new_spec(*p, *outward_normal, *mat, t, *direction),
    {
        let front_face = dot(direction, outward_normal).raw < 0;
        let normal = if front_face {
            *outward_normal
        } else {
            outward_normal.neg()
        };
        HitRecord { p: *p, normal, mat: *mat, t, front_face }
    }
}

/// A thing in the scene: a sphere, or a list of things.
pub enum Hittable {
    Sphere(Sphere),
    List(HittableList),
}

impl Hittable {
    /// What `hit` returns.
    pub open spec fn hit_spec(self, r: Ray, t_min: Fixed, t_max: Fixed) -> Option<HitRecord>
        decreases self,
    {
        match self {
            Hittable::Sphere(s) => s.hit_spec(r, t_min, t_max),
            Hittable::List(l) => l.hit_spec(r, t_min, t_max),
        }
    }

    /// The hit of the ray `r` with a parameter in the window, if there is one.
    pub fn hit(&self, r: &Ray, t_min: Fixed, t_max: Fixed) -> (hit: Option<HitRecord>)
        ensures
            hit == self.hit_spec(*r, t_min, t_max),
        decreases self,
    {
        match self {
            Hittable::Sphere(s) => s.hit(r, t_min, t_max),
            Hittable::List(l) => l.hit(r, t_min, t_max),
        }
    }
}

} // verus!
