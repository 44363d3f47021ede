//! The sphere, the one primitive of the scene.

use crate::fixed::{magnitude, quotient, signed_raw, Fixed, ONE_RAW};
use crate::hittable::{in_window, HitRecord};
use crate::material::Material;
use crate::ray::Ray;
use crate::vec3::{dot, dot_spec, lemma_lengthened, lemma_shortened, raw_dot, Point3, Vec3};
use core::ops::Neg;
use vstd::math::abs;
use vstd::prelude::*;

verus! {

/// A sphere. A negative radius keeps the surface where it is and turns the
/// outward normal inward, which makes the inside of a hollow shell.
pub struct Sphere {
    pub center: Point3,
    pub radius: Fixed,
    pub mat: Material,
}

/// The parameter `t` of a lengthened ray, brought back to the ray as it was
/// given: `t` times `factor`, and `None` where the type cannot hold that
/// product. Such a parameter lies beyond every window.
pub open spec fn scaled_back_spec(t: Fixed, factor: int) -> Option<Fixed> {
    if i64::MIN <= t.raw * factor <= i64::MAX {
        Some(Fixed { raw: (t.raw * factor) as i64 })
    } else {
        None
    }
}

/// The parameter `t` of a lengthened ray, brought back to the ray as it was
/// given.
pub fn scaled_back(t: Fixed, factor: i64) -> (r: Option<Fixed>)
    requires
        1 <= factor < 0x1_0000_0000,
    ensures
        r == scaled_back_spec(t, factor as int),
{
    assert(-0x8000_0000_0000_0000_0000_0000 <= t.raw * factor <= 0x8000_0000_0000_0000_0000_0000)
        by (nonlinear_arith)
        requires
            -0x8000_0000_0000_0000 <= t.raw <= 0x8000_0000_0000_0000,
            1 <= factor < 0x1_0000_0000,
    ;
    let wide: i128 = (t.raw as i128) * (factor as i128);
    if wide < i64::MIN as i128 || wide > i64::MAX as i128 {
        None
    } else {
        Some(Fixed { raw: wide as i64 })
    }
}

/// The parameter `t` of a shortened ray, brought back to the ray as it was
/// given: `t` by `factor`, rounded toward zero.
pub open spec fn scaled_down_spec(t: Fixed, factor: int) -> Fixed {
    Fixed { raw: quotient(t.raw as int, factor) as i64 }
}

/// Scaling down rounds toward zero: the result is a raw value of the type,
/// of the sign of `t` and no larger, and within `factor` of `t` when
/// multiplied back.
pub proof fn lemma_scaled_down(t: Fixed, factor: int)
    requires
        factor >= 1,
    ensures
        scaled_down_spec(t, factor).raw == quotient(t.raw as int, factor),
        t.raw >= 0 ==> 0 <= scaled_down_spec(t, factor).raw <= t.raw,
        t.raw <= 0 ==> t.raw <= scaled_down_spec(t, factor).raw <= 0,
        abs(t.raw - factor * scaled_down_spec(t, factor).raw) < factor,
        t.raw >= 0 ==> t.raw - factor * scaled_down_spec(t, factor).raw >= 0,
        t.raw <= 0 ==> t.raw - factor * scaled_down_spec(t, factor).raw <= 0,
{
    let q = quotient(t.raw as int, factor);
    crate::fixed::lemma_quotient_error(t.raw as int, factor);
    assert(t.raw >= 0 ==> q <= t.raw) by (nonlinear_arith)
        requires
            factor >= 1,
            t.raw >= 0 ==> 0 <= t.raw - factor * q && q >= 0,
    ;
    assert(t.raw <= 0 ==> t.raw <= q) by (nonlinear_arith)
        requires
            factor >= 1,
            t.raw <= 0 ==> t.raw - factor * q <= 0 && q <= 0,
    ;
}

/// The parameter `t` of a shortened ray, brought back to the ray as it was
/// given.
pub fn scaled_down(t: Fixed, factor: i64) -> (r: Fixed)
    requires
        1 <= factor,
    ensures
        r == scaled_down_spec(t, factor as int),
{
    let size: u128 = magnitude(t.raw);
    proof {
        vstd::arithmetic::div_mod::lemma_div_is_ordered_by_denominator(
            size as int,
            1,
            factor as int,
        );
        vstd::arithmetic::div_mod::lemma_div_pos_is_pos(size as int, factor as int);
    }
    Fixed { raw: signed_raw(size / (factor as u128), t.raw < 0) }
}

/// The parameter `t` of the aimed ray, brought back to the ray as it was
/// given: by `factor` where the direction was lengthened, by `shrink`
/// where it was shortened.
pub fn rescaled(t: Fixed, factor: i64, shrink: i64) -> (r: Option<Fixed>)
    requires
        1 <= factor < 0x1_0000_0000,
        1 <= shrink,
    ensures
        r == (if shrink == 1 {
            scaled_back_spec(t, factor as int)
        } else {
            Some(scaled_down_spec(t, shrink as int))
        }),
{
    if shrink == 1 {
        scaled_back(t, factor)
    } else {
        Some(scaled_down(t, shrink))
    }
}

impl Sphere {
    /// The vector from the center to the ray's origin.
    pub open spec fn oc(self, r: Ray) -> Vec3 {
        r.orig.minus(self.center)
    }

    /// The leading coefficient of the quadratic in `t`: the direction's
    /// squared length.
    pub open spec fn quad_a(self, r: Ray) -> Fixed {
        r.dir.length_squared_spec()
    }

    /// Half the linear coefficient: `dot(oc, dir)`.
    pub open spec fn half_b(self, r: Ray) -> Fixed {
        dot_spec(self.oc(r), r.dir)
    }

    /// The constant coefficient: `|oc|^2 - radius^2`.
    pub open spec fn quad_c(self, r: Ray) -> Fixed {
        self.oc(r).length_squared_spec().minus(self.radius.times(self.radius))
    }

    /// A quarter of the quadratic's discriminant: `half_b^2 - a * c`.
    pub open spec fn discriminant(self, r: Ray) -> Fixed {
        self.half_b(r).times(self.half_b(r)).minus(self.quad_a(r).times(self.quad_c(r)))
    }

    /// The smaller root of the quadratic of the ray as it stands,
    /// `(-half_b - sqrt(discriminant)) / a`, or with `far` the larger one,
    /// `(-half_b + sqrt(discriminant)) / a`.
    pub open spec fn root(self, r: Ray, far: bool) -> Fixed {
        let sqrtd = self.discriminant(r).sqrt_spec();
        let numerator = if far {
            self.half_b(r).negated().plus(sqrtd)
        } else {
            self.half_b(r).negated().minus(sqrtd)
        };
        numerator.over(self.quad_a(r))
    }

    /// Whether the quadratic of the ray as it stands has roots to form: the
    /// sphere has a radius, the squared length of the direction is not
    /// rounded to zero, and the discriminant is not negative.
    pub open spec fn has_roots(self, r: Ray) -> bool {
        self.radius.raw != 0 && self.quad_a(r).raw != 0 && self.discriminant(r).raw >= 0
    }

    /// Whether a ray whose direction has no component above one can meet
    /// the sphere at all: the sphere has a radius, the ray a direction, and
    /// the discriminant is not negative.
    ///
    /// The quadratic is that of the lengthened ray. Its coefficients keep
    /// their bits however short the direction is, and its discriminant has
    /// the sign of that of the ray as given.
    pub open spec fn solvable(self, r: Ray) -> bool {
        self.radius.raw != 0 && r.dir.largest() > 0 && self.discriminant(r.lengthened()).raw >= 0
    }

    /// A root as a parameter of a ray whose direction has no component
    /// above one: the root of the lengthened ray, scaled back. `None` where
    /// the type cannot hold it.
    pub open spec fn parameter(self, r: Ray, far: bool) -> Option<Fixed> {
        scaled_back_spec(self.root(r.lengthened(), far), r.dir.lengthening())
    }

    /// Whether the root is a parameter in the window.
    pub open spec fn root_in_window(self, r: Ray, far: bool, t_min: Fixed, t_max: Fixed) -> bool {
        self.parameter(r, far) matches Some(t) && in_window(t, t_min, t_max)
    }

    /// The parameter of the hit of a ray whose direction has no component
    /// above one: the smaller root if it lies in the window, else the larger
    /// root if that one does.
    pub open spec fn hit_parameter(self, r: Ray, t_min: Fixed, t_max: Fixed) -> Option<Fixed> {
        if !self.solvable(r) {
            None
        } else if self.root_in_window(r, false, t_min, t_max) {
            self.parameter(r, false)
        } else if self.root_in_window(r, true, t_min, t_max) {
            self.parameter(r, true)
        } else {
            None
        }
    }

    /// The outward normal at the point `p` of the surface:
    /// `(p - center) / radius`.
    pub open spec fn outward_normal(self, p: Point3) -> Vec3 {
        p.minus(self.center).over(self.radius)
    }

    /// The record of a hit at the point `p` with the parameter `t`, by a ray
    /// along `facing`.
    pub open spec fn record_facing(self, p: Point3, t: Fixed, facing: Vec3) -> HitRecord {
        HitRecord::new_spec(p, self.outward_normal(p), self.mat, t, facing)
    }

    /// The record of the hit at parameter `t` of a ray whose direction has
    /// no component above one. Which side is hit is told from the lengthened
    /// direction: so it shows however short the direction is.
    pub open spec fn record_at(self, r: Ray, t: Fixed) -> HitRecord {
        self.record_facing(r.at_spec(t), t, r.dir.lengthened())
    }

    /// The hit of a ray whose direction has no component above one.
    pub open spec fn short_hit(self, r: Ray, t_min: Fixed, t_max: Fixed) -> Option<HitRecord> {
        match self.hit_parameter(r, t_min, t_max) {
            Some(t) => Some(self.record_at(r, t)),
            None => None,
        }
    }

    /// A root as a parameter of a ray whose direction has a component above
    /// one: the root of the shortened ray, scaled down.
    pub open spec fn long_parameter(self, r: Ray, far: bool) -> Fixed {
        scaled_down_spec(self.root(r.shortened(), far), r.dir.shortening())
    }

    /// The parameter of the hit of a ray whose direction has a component
    /// above one: the smaller root if it lies in the window, else the larger
    /// root if that one does.
    pub open spec fn long_hit_parameter(self, r: Ray, t_min: Fixed, t_max: Fixed) -> Option<
        Fixed,
    > {
        if !self.has_roots(r.shortened()) {
            None
        } else if in_window(self.long_parameter(r, false), t_min, t_max) {
            Some(self.long_parameter(r, false))
        } else if in_window(self.long_parameter(r, true), t_min, t_max) {
            Some(self.long_parameter(r, true))
        } else {
            None
        }
    }

    /// The hit of a ray whose direction has a component above one. Which
    /// side is hit is told from the direction as given.
    pub open spec fn long_hit(self, r: Ray, t_min: Fixed, t_max: Fixed) -> Option<HitRecord> {
        match self.long_hit_parameter(r, t_min, t_max) {
            Some(t) => Some(self.record_facing(r.at_spec(t), t, r.dir)),
            None => None,
        }
    }

    /// What `hit` returns: the hit of the ray with its direction lengthened
    /// where no component is above one, shortened where one is.
    pub open spec fn hit_spec(self, r: Ray, t_min: Fixed, t_max: Fixed) -> Option<HitRecord> {
        if r.dir.largest() <= ONE_RAW {
            self.short_hit(r, t_min, t_max)
        } else {
            self.long_hit(r, t_min, t_max)
        }
    }

    /// The squared length of a lengthened direction is a quarter or more.
    pub proof fn lemma_lengthened_has_length(self, r: Ray)
        requires
            r.dir.largest() > 0,
        ensures
            self.quad_a(r.lengthened()).raw >= 0x4000_0000,
    {
        let long = r.dir.lengthened();
        lemma_lengthened(r.dir, 1);
        let (x, y, z) = (long.x.raw as int, long.y.raw as int, long.z.raw as int);
        let top = long.largest() as int;
        assert(x * x >= 0 && y * y >= 0 && z * z >= 0) by (nonlinear_arith);
        assert(x * x == top * top || y * y == top * top || z * z == top * top) by (nonlinear_arith)
            requires
                top == x || top == -x || top == y || top == -y || top == z || top == -z,
        ;
        assert(top * top >= 0x4000_0000_0000_0000) by (nonlinear_arith)
            requires
                top >= 0x8000_0000,
        ;
        let n = raw_dot(long, long);
        assert(n >= 0x4000_0000_0000_0000);
        crate::fixed::lemma_quotient_error(n, ONE_RAW as int);
        assert(crate::fixed::quotient(n, ONE_RAW as int) >= 0x4000_0000);
    }

    /// The sphere around `cen` with radius `r` and material `m`.
    pub fn new(cen: &Point3, r: Fixed, m: &Material) -> (s: Sphere)
        ensures
            s.center == *cen,
            s.radius == r,
            s.mat == *m,
    {
        Sphere { center: *cen, radius: r, mat: *m }
    }

    /// The first point at which the ray `r` meets the sphere with a
    /// parameter in the window.
    ///
    /// The parameter solves `|orig + t * dir - center|^2 = radius^2`. Of the
    /// two roots the smaller is taken if it lies above `t_min` and at most at
    /// `t_max`, else the larger if that one does. A negative discriminant
    /// gives no hit, and so does a sphere without radius or a ray without
    /// direction.
    ///
    /// The roots are formed for the aimed ray: its direction is that of `r`
    /// times the power of two that brings the largest component between
    /// one half and one. The roots are then scaled by that power. So a short
    /// direction costs no accuracy, and a long one does not overflow the
    /// coefficients.
    pub fn hit(&self, r: &Ray, t_min: Fixed, t_max: Fixed) -> (hit: Option<HitRecord>)
        ensures
            hit == self.hit_spec(*r, t_min, t_max),
            self.discriminant(r.aimed()).raw < 0 ==> hit is None,
            hit matches Some(rec) ==> in_window(rec.t, t_min, t_max) && rec.p == r.at_spec(rec.t)
                && rec.mat == self.mat,
    {
        if self.radius.raw == 0 {
            return None;
        }
        let (short, shrink) = r.direction().shorten();
        let (long, factor) = short.lengthen();
        proof {
            lemma_shortened(r.dir, 1);
            lemma_lengthened(short, 1);
        }
        if long.x.raw == 0 && long.y.raw == 0 && long.z.raw == 0 {
            return None;
        }
        proof {
            self.lemma_lengthened_has_length(Ray { orig: r.orig, dir: short });
        }
        let oc = r.origin() - self.center;
        let a = long.length_squared();
        let half_b = dot(&oc, &long);
        let c = oc.length_squared() - self.radius * self.radius;
        let discriminant = half_b * half_b - a * c;
        if discriminant.raw < 0 {
            return None;
        }
        let sqrtd = discriminant.sqrt();
        let near = rescaled((half_b.neg() - sqrtd) / a, factor, shrink);
        let root = match near {
            Some(t) if t_min.raw < t.raw && t.raw <= t_max.raw => t,
            _ => {
                let far = rescaled((half_b.neg() + sqrtd) / a, factor, shrink);
                match far {
                    Some(t) if t_min.raw < t.raw && t.raw <= t_max.raw => t,
                    _ => {
                        return None;
                    },
                }
            },
        };
        let p = r.at(root);
        let outward_normal = (p - self.center) / self.radius;
        let facing = if shrink == 1 {
            long
        } else {
            r.direction()
        };
        Some(HitRecord::new(&p, &outward_normal, &self.mat, root, &facing))
    }
}

} // verus!
