//! How a surface scatters a ray: diffuse, metal, or clear like glass.

use crate::color::Color;
use crate::fixed::{Fixed, ONE_RAW};
use crate::hittable::HitRecord;
use crate::random::uniform;
use crate::ray::Ray;
use crate::vec3::{
    dot, dot_spec, in_unit_sphere, random_in_unit_sphere, reflect, reflect_spec, refract,
    refract_spec, Vec3,
};
use core::ops::Neg;
use vstd::prelude::*;

verus! {

/// A diffuse surface.
#[derive(Clone, Copy, PartialEq, Eq, Structural, Debug)]
pub struct Lambertian {
    pub albedo: Color,
}

/// A mirror, blurred by `fuzz`.
#[derive(Clone, Copy, PartialEq, Eq, Structural, Debug)]
pub struct Metal {
    pub albedo: Color,
    pub fuzz: Fixed,
}

/// A clear body such as glass or water.
#[derive(Clone, Copy, PartialEq, Eq, Structural, Debug)]
pub struct Dielectric {
    /// The index of refraction.
    pub ir: Fixed,
}

/// The closed set of surface kinds.
#[derive(Clone, Copy, PartialEq, Eq, Structural, Debug)]
pub enum Material {
    Lambertian(Lambertian),
    Metal(Metal),
    Dielectric(Dielectric),
}

/// Whether `u` lies in `[0, 1)`.
pub open spec fn is_unit_draw(u: Fixed) -> bool {
    0 <= u.raw < ONE_RAW
}

impl Lambertian {
    /// What `scatter_with` returns.
    pub open spec fn scatter_spec(self, rec: HitRecord, v: Vec3) -> (bool, Color, Ray) {
        let candidate = rec.normal.plus(v.direction_spec());
        let direction = if candidate.near_zero_spec() {
            rec.normal
        } else {
            candidate
        };
        (true, self.albedo, Ray { orig: rec.p, dir: direction })
    }

    /// The diffuse surface of color `a`.
    pub fn new(a: &Color) -> (m: Lambertian)
        ensures
            m.albedo == *a,
    {
        Lambertian { albedo: *a }
    }

    /// The scattering that the point `v` of the unit sphere decides.
    ///
    /// The new ray leaves the hit point along the normal plus the direction
    /// of `v`, or along the normal alone where that sum is near zero. The
    /// ray is always scattered, and weakened by the albedo.
    pub fn scatter_with(&self, rec: &HitRecord, v: &Vec3) -> (r: (bool, Color, Ray))
        ensures
            r == self.scatter_spec(*rec, *v),
    {
        let mut scatter_direction = rec.normal + v.direction();
        if scatter_direction.near_zero() {
            scatter_direction = rec.normal;
        }
        (true, self.albedo, Ray::new(&rec.p, &scatter_direction))
    }

    /// Scatters at the hit `rec`, with a point drawn inside the unit sphere.
    /// The ray is always scattered, weakened by the albedo, from the hit
    /// point on.
    pub fn scatter(&self, _r_in: &Ray, rec: &HitRecord) -> (r: (bool, Color, Ray))
        ensures
            exists|v: Vec3| in_unit_sphere(v) && r == self.scatter_spec(*rec, v),
            r.0,
            r.1 == self.albedo,
            r.2.orig == rec.p,
    {
        let v = random_in_unit_sphere();
        let r = self.scatter_with(rec, &v);
        assert(in_unit_sphere(v) && r == self.scatter_spec(*rec, v));
        r
    }
}

impl Metal {
    /// The fuzz that `new` stores: `f` below one, else one.
    pub open spec fn fuzz_spec(f: Fixed) -> Fixed {
        if f.raw < ONE_RAW {
            f
        } else {
            Fixed { raw: ONE_RAW }
        }
    }

    /// What `scatter_with` returns.
    pub open spec fn scatter_spec(self, r_in: Ray, rec: HitRecord, v: Vec3) -> (bool, Color, Ray) {
        let reflected = reflect_spec(r_in.dir.direction_spec(), rec.normal);
        let direction = reflected.plus(v.scaled(self.fuzz));
        (dot_spec(direction, rec.normal).raw > 0, self.albedo, Ray { orig: rec.p, dir: direction })
    }

    /// The metal of color `a`; a fuzz of one or more counts as one.
    pub fn new(a: &Color, f: Fixed) -> (m: Metal)
        ensures
            m.albedo == *a,
            m.fuzz == Metal::fuzz_spec(f),
    {
        Metal {
            albedo: *a,
            fuzz: if f.raw < ONE_RAW {
                f
            } else {
                Fixed::one()
            },
        }
    }

    /// The scattering that the point `v` of the unit sphere decides.
    ///
    /// The new ray leaves the hit point along the mirror image of the
    /// incoming direction plus `fuzz * v`. It counts as scattered only if it
    /// leaves the surface, that is if it has a positive dot product with the
    /// normal; otherwise the surface has absorbed it.
    pub fn scatter_with(&self, r_in: &Ray, rec: &HitRecord, v: &Vec3) -> (r: (bool, Color, Ray))
        ensures
            r == self.scatter_spec(*r_in, *rec, *v),
    {
        let reflected = reflect(&r_in.direction().direction(), &rec.normal);
        let scattered = Ray::new(&rec.p, &(reflected + self.fuzz * *v));
        (dot(&scattered.direction(), &rec.normal).raw > 0, self.albedo, scattered)
    }

    /// Scatters at the hit `rec`, with a point drawn inside the unit sphere.
    /// The ray counts as scattered exactly if it leaves the surface; it is
    /// weakened by the albedo and starts at the hit point.
    pub fn scatter(&self, r_in: &Ray, rec: &HitRecord) -> (r: (bool, Color, Ray))
        ensures
            exists|v: Vec3| in_unit_sphere(v) && r == self.scatter_spec(*r_in, *rec, v),
            r.0 == (dot_spec(r.2.dir, rec.normal).raw > 0),
            r.1 == self.albedo,
            r.2.orig == rec.p,
    {
        let v = random_in_unit_sphere();
        let r = self.scatter_with(r_in, rec, &v);
        assert(in_unit_sphere(v) && r == self.scatter_spec(*r_in, *rec, v));
        r
    }
}

impl Dielectric {
    /// The color white: a clear body takes nothing from the light.
    pub open spec fn white() -> Color {
        Vec3 { x: Fixed::int_spec(1), y: Fixed::int_spec(1), z: Fixed::int_spec(1) }
    }

    /// `x` to the fifth power.
    pub open spec fn fifth_power(x: Fixed) -> Fixed {
        x.times(x).times(x).times(x).times(x)
    }

    /// What `reflectance` returns: Schlick's approximation
    /// `r0^2 + (1 - r0^2) * (1 - cosine)^5` with
    /// `r0 = (1 - ref_idx) / (1 + ref_idx)`, and the largest number where
    /// `1 + ref_idx` is zero.
    pub open spec fn reflectance_spec(cosine: Fixed, ref_idx: Fixed) -> Fixed {
        let one = Fixed::int_spec(1);
        if one.plus(ref_idx).raw == 0 {
            Fixed { raw: i64::MAX }
        } else {
            let r0 = one.minus(ref_idx).over(one.plus(ref_idx));
            let r1 = r0.times(r0);
            r1.plus(one.minus(r1).times(Dielectric::fifth_power(one.minus(cosine))))
        }
    }

    /// The ratio of the refractive indices at a hit: `1 / ir` from outside,
    /// `ir` from inside; the largest number for `1 / 0`.
    pub open spec fn ratio_spec(self, front_face: bool) -> Fixed {
        if !front_face {
            self.ir
        } else if self.ir.raw == 0 {
            Fixed { raw: i64::MAX }
        } else {
            Fixed::int_spec(1).over(self.ir)
        }
    }

    /// The cosine of the angle between the incoming ray and the normal, at
    /// most one.
    pub open spec fn cos_theta(r_in: Ray, rec: HitRecord) -> Fixed {
        dot_spec(r_in.dir.direction_spec().negated(), rec.normal).min_spec(Fixed::int_spec(1))
    }

    /// The sine that belongs to `cos_theta`: `sqrt(1 - cos^2)`.
    pub open spec fn sin_theta(r_in: Ray, rec: HitRecord) -> Fixed {
        let cos = Dielectric::cos_theta(r_in, rec);
        Fixed::int_spec(1).minus(cos.times(cos)).sqrt_spec()
    }

    /// Whether the ray is reflected: always where Snell's law has no
    /// solution, else where the reflectance is above the draw `u`.
    pub open spec fn reflects(self, r_in: Ray, rec: HitRecord, u: Fixed) -> bool {
        let ratio = self.ratio_spec(rec.front_face);
        ratio.times(Dielectric::sin_theta(r_in, rec)).raw > ONE_RAW
            || Dielectric::reflectance_spec(Dielectric::cos_theta(r_in, rec), ratio).raw > u.raw
    }

    /// The direction of the reflected ray.
    pub open spec fn reflected(r_in: Ray, rec: HitRecord) -> Vec3 {
        reflect_spec(r_in.dir.direction_spec(), rec.normal)
    }

    /// The direction of the refracted ray.
    pub open spec fn refracted(self, r_in: Ray, rec: HitRecord) -> Vec3 {
        refract_spec(r_in.dir.direction_spec(), rec.normal, self.ratio_spec(rec.front_face))
    }

    /// What `scatter_with` returns.
    pub open spec fn scatter_spec(self, r_in: Ray, rec: HitRecord, u: Fixed) -> (bool, Color, Ray) {
        let direction = if self.reflects(r_in, rec, u) {
            Dielectric::reflected(r_in, rec)
        } else {
            self.refracted(r_in, rec)
        };
        (true, Dielectric::white(), Ray { orig: rec.p, dir: direction })
    }

    /// The clear body with the given index of refraction.
    pub fn new(index_of_refraction: Fixed) -> (m: Dielectric)
        ensures
            m.ir == index_of_refraction,
    {
        Dielectric { ir: index_of_refraction }
    }

    /// Schlick's approximation of the share of light that is reflected.
    pub fn reflectance(cosine: Fixed, ref_idx: Fixed) -> (r: Fixed)
        ensures
            r == Dielectric::reflectance_spec(cosine, ref_idx),
    {
        match (Fixed::one() - ref_idx).checked_div(Fixed::one() + ref_idx) {
            None => Fixed::max_value(),
            Some(r0) => {
                let r1 = r0 * r0;
                let x = Fixed::one() - cosine;
                r1 + (Fixed::one() - r1) * (x * x * x * x * x)
            },
        }
    }

    /// The scattering that the draw `u` from `[0, 1)` decides.
    ///
    /// The ray is reflected where it cannot be refracted or where the
    /// reflectance is above `u`; otherwise it is refracted. It is always
    /// scattered and never weakened.
    pub fn scatter_with(&self, r_in: &Ray, rec: &HitRecord, u: Fixed) -> (r: (bool, Color, Ray))
        ensures
            r == self.scatter_spec(*r_in, *rec, u),
    {
        let refraction_ratio = if rec.front_face {
            match Fixed::one().checked_div(self.ir) {
                Some(q) => q,
                None => Fixed::max_value(),
            }
        } else {
            self.ir
        };
        let unit_direction = r_in.direction().direction();
        let cos_theta = dot(&unit_direction.neg(), &rec.normal).min(Fixed::one());
        let sin_theta = (Fixed::one() - cos_theta * cos_theta).sqrt();
        let direction = if (refraction_ratio * sin_theta).raw > ONE_RAW || Dielectric::reflectance(
            cos_theta,
            refraction_ratio,
        ).raw > u.raw {
            reflect(&unit_direction, &rec.normal)
        } else {
            refract(&unit_direction, &rec.normal, refraction_ratio)
        };
        (true, Vec3::new(Fixed::one(), Fixed::one(), Fixed::one()), Ray::new(&rec.p, &direction))
    }

    /// Scatters at the hit `rec`, with a number drawn from `[0, 1)`. The
    /// ray is always scattered, not weakened, from the hit point on, and it
    /// is either the reflected or the refracted one.
    pub fn scatter(&self, r_in: &Ray, rec: &HitRecord) -> (r: (bool, Color, Ray))
        ensures
            exists|u: Fixed| is_unit_draw(u) && r == self.scatter_spec(*r_in, *rec, u),
            r.0,
            r.1 == Dielectric::white(),
            r.2.orig == rec.p,
            r.2.dir == Dielectric::reflected(*r_in, *rec) || r.2.dir == self.refracted(
                *r_in,
                *rec,
            ),
    {
        let u = uniform(Fixed::zero(), Fixed::one());
        let r = self.scatter_with(r_in, rec, u);
        assert(is_unit_draw(u) && r == self.scatter_spec(*r_in, *rec, u));
        r
    }
}

impl Material {
    /// What `scatter_with` returns.
    pub open spec fn scatter_spec(self, r_in: Ray, rec: HitRecord, v: Vec3, u: Fixed) -> (
        bool,
        Color,
        Ray,
    ) {
        match self {
            Material::Lambertian(m) => m.scatter_spec(rec, v),
            Material::Metal(m) => m.scatter_spec(r_in, rec, v),
            Material::Dielectric(m) => m.scatter_spec(r_in, rec, u),
        }
    }

    /// The scattering that the two draws decide: `v`, a point of the unit
    /// sphere, for a diffuse surface and for metal, and `u`, a number from
    /// `[0, 1)`, for a clear body.
    ///
    /// Returns whether the ray is scattered, by how much each channel is
    /// weakened, and the scattered ray.
    pub fn scatter_with(&self, r_in: &Ray, rec: &HitRecord, v: &Vec3, u: Fixed) -> (r: (
        bool,
        Color,
        Ray,
    ))
        ensures
            r == self.scatter_spec(*r_in, *rec, *v, u),
    {
        match self {
            Material::Lambertian(m) => m.scatter_with(rec, v),
            Material::Metal(m) => m.scatter_with(r_in, rec, v),
            Material::Dielectric(m) => m.scatter_with(r_in, rec, u),
        }
    }

    /// Scatters the ray `r_in` at the hit `rec`, with what it needs drawn at
    /// random. The scattered ray starts at the hit point.
    pub fn scatter(&self, r_in: &Ray, rec: &HitRecord) -> (r: (bool, Color, Ray))
        ensures
            exists|v: Vec3, u: Fixed|
                in_unit_sphere(v) && is_unit_draw(u) && r == self.scatter_spec(*r_in, *rec, v, u),
            r.2.orig == rec.p,
    {
        match self {
            Material::Lambertian(m) => {
                let v = random_in_unit_sphere();
                let r = m.scatter_with(rec, &v);
                let u = Fixed::zero();
                assert(in_unit_sphere(v) && is_unit_draw(u) && r == self.scatter_spec(
                    *r_in,
                    *rec,
                    v,
                    u,
                ));
                r
            },
            Material::Metal(m) => {
                let v = random_in_unit_sphere();
                let r = m.scatter_with(r_in, rec, &v);
                let u = Fixed::zero();
                assert(in_unit_sphere(v) && is_unit_draw(u) && r == self.scatter_spec(
                    *r_in,
                    *rec,
                    v,
                    u,
                ));
                r
            },
            Material::Dielectric(m) => {
                let u = uniform(Fixed::zero(), Fixed::one());
                let r = m.scatter_with(r_in, rec, u);
                let ghost v = Vec3::zero_spec();
                assert(in_unit_sphere(v)) by {
                    assert(0int * 0int == 0) by (nonlinear_arith);
                }
                assert(in_unit_sphere(v) && is_unit_draw(u) && r == self.scatter_spec(
                    *r_in,
                    *rec,
                    v,
                    u,
                ));
                r
            },
        }
    }
}

} // verus!
