//! The camera: from a place on the image to a ray into the scene.

use crate::fixed::Fixed;
use crate::ray::Ray;
use crate::trig::{degrees_to_radians, degrees_to_radians_spec, tan, tan_spec};
use crate::vec3::{cross, cross_spec, Point3, Vec3};
use vstd::prelude::*;

verus! {

/// A camera, fixed once it is made. The viewport is the rectangle spanned by
/// `horizontal` and `vertical` from `lower_left_corner`.
pub struct Camera {
    pub origin: Point3,
    pub lower_left_corner: Point3,
    pub horizontal: Vec3,
    pub vertical: Vec3,
}

impl Camera {
    /// The height of the viewport at distance one, for a vertical field of
    /// view of `vfov` degrees: `2 * tan(vfov / 2)`.
    pub open spec fn viewport_height_spec(vfov: Fixed) -> Fixed {
        Fixed::int_spec(2).times(tan_spec(degrees_to_radians_spec(vfov).over(Fixed::int_spec(2))))
    }

    /// The camera at `origin` whose viewport is spanned by `horizontal` and
    /// `vertical` and lies one step along `-w`, centered.
    pub open spec fn framed(origin: Point3, horizontal: Vec3, vertical: Vec3, w: Vec3) -> Camera {
        let two = Fixed::int_spec(2);
        Camera {
            origin,
            lower_left_corner: origin.minus(horizontal.over(two)).minus(vertical.over(two)).minus(
                w,
            ),
            horizontal,
            vertical,
        }
    }

    /// What `new` returns.
    pub open spec fn new_spec(vfov: Fixed, aspect_ratio: Fixed) -> Camera {
        let zero = Fixed::int_spec(0);
        let viewport_height = Camera::viewport_height_spec(vfov);
        let viewport_width = aspect_ratio.times(viewport_height);
        Camera::framed(
            Vec3 { x: zero, y: zero, z: zero },
            Vec3 { x: viewport_width, y: zero, z: zero },
            Vec3 { x: zero, y: viewport_height, z: zero },
            Vec3 { x: zero, y: zero, z: Fixed::int_spec(1) },
        )
    }

    /// What `look_at` returns.
    pub open spec fn look_at_spec(
        lookfrom: Point3,
        lookat: Point3,
        vup: Vec3,
        vfov: Fixed,
        aspect_ratio: Fixed,
    ) -> Camera {
        let viewport_height = Camera::viewport_height_spec(vfov);
        let viewport_width = aspect_ratio.times(viewport_height);
        let w = lookfrom.minus(lookat).direction_spec();
        let u = cross_spec(vup, w).direction_spec();
        let v = cross_spec(w, u);
        Camera::framed(lookfrom, u.scaled(viewport_width), v.scaled(viewport_height), w)
    }

    /// What `get_ray` returns.
    pub open spec fn get_ray_spec(self, u: Fixed, v: Fixed) -> Ray {
        Ray {
            orig: self.origin,
            dir: self.lower_left_corner.plus(self.horizontal.scaled(u)).plus(
                self.vertical.scaled(v),
            ).minus(self.origin),
        }
    }

    /// The height of the viewport for a vertical field of view of `vfov`
    /// degrees.
    fn viewport_height(vfov: Fixed) -> (h: Fixed)
        ensures
            h == Camera::viewport_height_spec(vfov),
    {
        let two = Fixed::from_int(2);
        assert(two.raw != 0);
        let theta = degrees_to_radians(vfov);
        two * tan(theta / two)
    }

    /// The camera for the given frame.
    fn frame(origin: Point3, horizontal: Vec3, vertical: Vec3, w: Vec3) -> (c: Camera)
        ensures
            c == Camera::framed(origin, horizontal, vertical, w),
    {
        let two = Fixed::from_int(2);
        assert(two.raw != 0);
        Camera {
            origin,
            lower_left_corner: origin - horizontal / two - vertical / two - w,
            horizontal,
            vertical,
        }
    }

    /// The camera at the origin that looks along `-z`, with `y` up.
    ///
    /// `vfov` is the vertical field of view in degrees and `aspect_ratio` the
    /// width of the image over its height. The viewport lies at distance one;
    /// it is `2 * tan(vfov / 2)` high and `aspect_ratio` times as wide.
    pub fn new(vfov: Fixed, aspect_ratio: Fixed) -> (c: Camera)
        ensures
            c == Camera::new_spec(vfov, aspect_ratio),
    {
        let viewport_height = Camera::viewport_height(vfov);
        let viewport_width = aspect_ratio * viewport_height;
        let zero = Fixed::zero();
        Camera::frame(
            Vec3::new(zero, zero, zero),
            Vec3::new(viewport_width, zero, zero),
            Vec3::new(zero, viewport_height, zero),
            Vec3::new(zero, zero, Fixed::one()),
        )
    }

    /// The camera at `lookfrom` that looks toward `lookat`, with `vup`
    /// giving the side that is up.
    ///
    /// With `w` the direction from `lookat` to `lookfrom`, `u` the direction
    /// of `cross(vup, w)` and `v = cross(w, u)`, the viewport is spanned by
    /// `viewport_width * u` and `viewport_height * v`.
    pub fn look_at(
        lookfrom: &Point3,
        lookat: &Point3,
        vup: &Vec3,
        vfov: Fixed,
        aspect_ratio: Fixed,
    ) -> (c: Camera)
        ensures
            c == Camera::look_at_spec(*lookfrom, *lookat, *vup, vfov, aspect_ratio),
    {
        let viewport_height = Camera::viewport_height(vfov);
        let viewport_width = aspect_ratio * viewport_height;
        let w = (*lookfrom - *lookat).direction();
        let u = cross(vup, &w).direction();
        let v = cross(&w, &u);
        Camera::frame(*lookfrom, viewport_width * u, viewport_height * v, w)
    }

    /// The ray from the camera through the point of the viewport at `u` of
    /// its width and `v` of its height, both counted from the lower left
    /// corner. Its direction is not scaled to unit length.
    pub fn get_ray(&self, u: Fixed, v: Fixed) -> (r: Ray)
        ensures
            r == self.get_ray_spec(u, v),
    {
        Ray::new(
            &self.origin,
            &(self.lower_left_corner + u * self.horizontal + v * self.vertical - self.origin),
        )
    }
}

} // verus!
