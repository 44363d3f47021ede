use raytracer::camera::Camera;
use raytracer::fixed::{Fixed, ONE_RAW};
use raytracer::hittable::{HitRecord, Hittable};
use raytracer::hittable_list::HittableList;
use raytracer::material::{Dielectric, Lambertian, Material, Metal};
use raytracer::ray::Ray;
use raytracer::sphere::{rescaled, scaled_back, scaled_down, Sphere};
use raytracer::vec3::{unit_vector, Vec3};

fn fx(x: f64) -> Fixed {
    Fixed { raw: (x * 4294967296.0).round() as i64 }
}

fn val(f: Fixed) -> f64 {
    f.raw as f64 / 4294967296.0
}

fn v3(x: f64, y: f64, z: f64) -> Vec3 {
    Vec3::new(fx(x), fx(y), fx(z))
}

fn close(a: Vec3, b: Vec3, eps: f64) -> bool {
    val((a - b).length()) < eps
}

fn grey() -> Material {
    Material::Lambertian(Lambertian::new(&v3(0.5, 0.5, 0.5)))
}

fn ball(x: f64, y: f64, z: f64, r: f64) -> Sphere {
    Sphere::new(&v3(x, y, z), fx(r), &grey())
}

#[test]
fn ray_at_follows_the_line() {
    let r = Ray::new(&v3(1.0, 2.0, 3.0), &v3(0.0, -1.0, 2.0));
    assert_eq!(r.origin(), v3(1.0, 2.0, 3.0));
    assert_eq!(r.direction(), v3(0.0, -1.0, 2.0));
    assert_eq!(r.at(fx(0.0)), v3(1.0, 2.0, 3.0));
    assert_eq!(r.at(fx(2.5)), v3(1.0, -0.5, 8.0));
    assert_eq!(r.at(fx(-1.0)), v3(1.0, 3.0, 1.0));
    assert_eq!(Ray::default(), Ray::new(&Vec3::default(), &Vec3::default()));
}

#[test]
fn ray_aimed_at_the_center_hits_the_near_side() {
    let s = ball(0.0, 0.0, -1.0, 0.5);
    let r = Ray::new(&v3(0.0, 0.0, 0.0), &v3(0.0, 0.0, -1.0));
    let rec = s.hit(&r, fx(0.001), Fixed::max_value()).unwrap();
    assert_eq!(rec.t, fx(0.5));
    assert!(rec.front_face);
    assert_eq!(rec.p, v3(0.0, 0.0, -0.5));
    assert_eq!(rec.normal, v3(0.0, 0.0, 1.0));
    assert_eq!(rec.mat, grey());
}

#[test]
fn ray_aimed_at_the_center_from_aside() {
    let s = ball(1.0, 2.0, -3.0, 2.0);
    let origin = v3(-4.0, 0.5, 1.0);
    let to_center = v3(1.0, 2.0, -3.0) - origin;
    let distance = val(to_center.length());
    let r = Ray::new(&origin, &unit_vector(&to_center));
    let rec = s.hit(&r, fx(0.001), Fixed::max_value()).unwrap();
    assert!((val(rec.t) - (distance - 2.0)).abs() < 1e-6);
    assert!(rec.front_face);
    let outward = unit_vector(&(rec.p - v3(1.0, 2.0, -3.0)));
    assert!(close(rec.normal, outward, 1e-6));
}

#[test]
fn ray_that_misses_gives_no_hit() {
    let s = ball(0.0, 0.0, -1.0, 0.5);
    let up = Ray::new(&v3(0.0, 0.0, 0.0), &v3(0.0, 1.0, 0.0));
    assert!(s.hit(&up, fx(0.001), Fixed::max_value()).is_none());
    let beside = Ray::new(&v3(0.6, 0.0, 0.0), &v3(0.0, 0.0, -1.0));
    assert!(s.hit(&beside, fx(0.001), Fixed::max_value()).is_none());
}

#[test]
fn ray_that_touches_has_discriminant_zero_and_hits_once() {
    let s = ball(0.0, 0.0, -1.0, 0.5);
    let r = Ray::new(&v3(0.5, 0.0, 0.0), &v3(0.0, 0.0, -1.0));
    let rec = s.hit(&r, fx(0.001), Fixed::max_value()).unwrap();
    assert_eq!(rec.t, fx(1.0));
    assert_eq!(rec.p, v3(0.5, 0.0, -1.0));
}

#[test]
fn window_is_open_below_and_closed_above() {
    let s = ball(0.0, 0.0, -1.0, 0.5);
    let r = Ray::new(&v3(0.0, 0.0, 0.0), &v3(0.0, 0.0, -1.0));
    // the roots are 0.5 and 1.5
    assert_eq!(s.hit(&r, fx(0.0), fx(0.5)).unwrap().t, fx(0.5));
    assert_eq!(s.hit(&r, fx(0.5), fx(2.0)).unwrap().t, fx(1.5));
    assert_eq!(s.hit(&r, fx(0.5), fx(1.5)).unwrap().t, fx(1.5));
    assert!(s.hit(&r, fx(0.5), fx(1.4)).is_none());
    assert!(s.hit(&r, fx(1.5), fx(9.0)).is_none());
    assert!(s.hit(&r, fx(0.0), fx(0.4)).is_none());
}

#[test]
fn from_inside_the_far_root_is_a_back_face() {
    let s = ball(0.0, 0.0, 0.0, 2.0);
    let r = Ray::new(&v3(0.0, 0.0, 0.0), &v3(1.0, 0.0, 0.0));
    let rec = s.hit(&r, fx(0.001), Fixed::max_value()).unwrap();
    assert_eq!(rec.t, fx(2.0));
    assert!(!rec.front_face);
    assert_eq!(rec.normal, v3(-1.0, 0.0, 0.0));
}

#[test]
fn negative_radius_turns_the_normal() {
    let s = ball(0.0, 0.0, -1.0, -0.5);
    let r = Ray::new(&v3(0.0, 0.0, 0.0), &v3(0.0, 0.0, -1.0));
    let rec = s.hit(&r, fx(0.001), Fixed::max_value()).unwrap();
    assert_eq!(rec.t, fx(0.5));
    assert!(!rec.front_face);
    assert_eq!(rec.normal, v3(0.0, 0.0, 1.0));
}

#[test]
fn sphere_without_radius_and_ray_without_direction_hit_nothing() {
    let point = ball(0.0, 0.0, -1.0, 0.0);
    let r = Ray::new(&v3(0.0, 0.0, 0.0), &v3(0.0, 0.0, -1.0));
    assert!(point.hit(&r, fx(0.001), Fixed::max_value()).is_none());
    let s = ball(0.0, 0.0, 0.0, 1.0);
    let still = Ray::new(&v3(0.0, 0.0, 0.0), &Vec3::default());
    assert!(s.hit(&still, fx(-10.0), Fixed::max_value()).is_none());
}

#[test]
fn hit_record_turns_the_normal_against_the_ray() {
    let p = v3(0.0, 0.0, 0.0);
    let n = v3(0.0, 1.0, 0.0);
    let down = HitRecord::new(&p, &n, &grey(), fx(1.0), &v3(0.0, -1.0, 0.0));
    assert!(down.front_face);
    assert_eq!(down.normal, n);
    let up = HitRecord::new(&p, &n, &grey(), fx(1.0), &v3(0.0, 1.0, 0.0));
    assert!(!up.front_face);
    assert_eq!(up.normal, v3(0.0, -1.0, 0.0));
    let along = HitRecord::new(&p, &n, &grey(), fx(1.0), &v3(1.0, 0.0, 0.0));
    assert!(!along.front_face);
}

#[test]
fn list_returns_the_nearest_hit_in_either_order() {
    let near = Hittable::Sphere(ball(0.0, 0.0, -1.0, 0.5));
    let far = Hittable::Sphere(ball(0.0, 0.0, -3.0, 0.5));
    let r = Ray::new(&v3(0.0, 0.0, 0.0), &v3(0.0, 0.0, -1.0));
    let mut a = HittableList::new(near);
    a.add(far);
    let near = Hittable::Sphere(ball(0.0, 0.0, -1.0, 0.5));
    let far = Hittable::Sphere(ball(0.0, 0.0, -3.0, 0.5));
    let mut b = HittableList::new(far);
    b.add(near);
    assert_eq!(a.hit(&r, fx(0.001), Fixed::max_value()).unwrap().t, fx(0.5));
    assert_eq!(b.hit(&r, fx(0.001), Fixed::max_value()).unwrap().t, fx(0.5));
    assert_eq!(a.hit(&r, fx(1.0), Fixed::max_value()).unwrap().t, fx(1.5));
    assert_eq!(a.hit(&r, fx(1.6), Fixed::max_value()).unwrap().t, fx(2.5));
    assert!(a.hit(&r, fx(3.6), Fixed::max_value()).is_none());
}

#[test]
fn list_keeps_the_first_of_two_equal_hits() {
    let red = Material::Lambertian(Lambertian::new(&v3(1.0, 0.0, 0.0)));
    let blue = Material::Lambertian(Lambertian::new(&v3(0.0, 0.0, 1.0)));
    let r = Ray::new(&v3(0.0, 0.0, 0.0), &v3(0.0, 0.0, -1.0));
    let center = v3(0.0, 0.0, -1.0);
    let mut list = HittableList::new(Hittable::Sphere(Sphere::new(&center, fx(0.5), &red)));
    list.add(Hittable::Sphere(Sphere::new(&center, fx(0.5), &blue)));
    assert_eq!(list.hit(&r, fx(0.001), Fixed::max_value()).unwrap().mat, red);
    // a hit exactly at the upper end of the window is still a hit
    assert_eq!(list.hit(&r, fx(0.001), fx(0.5)).unwrap().mat, red);
}

#[test]
fn empty_and_cleared_lists_hit_nothing() {
    let r = Ray::new(&v3(0.0, 0.0, 0.0), &v3(0.0, 0.0, -1.0));
    let empty = HittableList::default();
    assert!(empty.hit(&r, fx(0.001), Fixed::max_value()).is_none());
    let mut list = HittableList::new(Hittable::Sphere(ball(0.0, 0.0, -1.0, 0.5)));
    assert!(list.hit(&r, fx(0.001), Fixed::max_value()).is_some());
    list.clear();
    assert_eq!(list.objects.len(), 0);
    assert!(list.hit(&r, fx(0.001), Fixed::max_value()).is_none());
}

#[test]
fn list_in_a_list_is_searched_too() {
    let inner = HittableList::new(Hittable::Sphere(ball(0.0, 0.0, -1.0, 0.5)));
    let mut outer = HittableList::new(Hittable::Sphere(ball(0.0, 0.0, -3.0, 0.5)));
    outer.add(Hittable::List(inner));
    let world = Hittable::List(outer);
    let r = Ray::new(&v3(0.0, 0.0, 0.0), &v3(0.0, 0.0, -1.0));
    assert_eq!(world.hit(&r, fx(0.001), Fixed::max_value()).unwrap().t, fx(0.5));
}

fn floor_hit(direction: &Vec3) -> HitRecord {
    HitRecord::new(&v3(0.0, 0.0, 0.0), &v3(0.0, 1.0, 0.0), &grey(), fx(1.0), direction)
}

#[test]
fn lambertian_scatters_along_normal_plus_unit_vector() {
    let m = Lambertian::new(&v3(0.8, 0.3, 0.1));
    let rec = floor_hit(&v3(0.0, -1.0, 0.0));
    let (ok, attenuation, scattered) = m.scatter_with(&rec, &v3(0.3, 0.0, 0.4));
    assert!(ok);
    assert_eq!(attenuation, v3(0.8, 0.3, 0.1));
    assert_eq!(scattered.origin(), rec.p);
    // the direction of (0.3, 0, 0.4) is (0.6, 0, 0.8)
    assert!(close(scattered.direction(), v3(0.6, 1.0, 0.8), 1e-9));
    assert_eq!(scattered.direction().y(), fx(1.0));
}

#[test]
fn lambertian_falls_back_to_the_normal() {
    let m = Lambertian::new(&v3(0.8, 0.3, 0.1));
    let rec = floor_hit(&v3(0.0, -1.0, 0.0));
    // the unit vector opposite to the normal cancels it
    let (ok, _, scattered) = m.scatter_with(&rec, &v3(0.0, -0.5, 0.0));
    assert!(ok);
    assert_eq!(scattered.direction(), v3(0.0, 1.0, 0.0));
    // a point without direction adds nothing
    let (_, _, scattered) = m.scatter_with(&rec, &Vec3::default());
    assert_eq!(scattered.direction(), v3(0.0, 1.0, 0.0));
}

#[test]
fn lambertian_scatter_always_succeeds() {
    let m = Lambertian::new(&v3(0.8, 0.3, 0.1));
    let incoming = Ray::new(&v3(0.0, 1.0, 0.0), &v3(0.0, -1.0, 0.0));
    let rec = floor_hit(&incoming.direction());
    for _ in 0..100 {
        let (ok, attenuation, scattered) = m.scatter(&incoming, &rec);
        assert!(ok);
        assert_eq!(attenuation, v3(0.8, 0.3, 0.1));
        // normal plus a unit vector: at most two long, and not below the floor
        assert!(val(scattered.direction().length()) <= 2.000001);
        assert!(scattered.direction().y().raw >= -1);
    }
}

#[test]
fn metal_clamps_fuzz_to_one() {
    let a = v3(0.8, 0.8, 0.8);
    assert_eq!(Metal::new(&a, fx(0.3)).fuzz, fx(0.3));
    assert_eq!(Metal::new(&a, fx(1.0)).fuzz, fx(1.0));
    assert_eq!(Metal::new(&a, fx(7.5)).fuzz, fx(1.0));
    assert_eq!(Metal::new(&a, fx(-0.5)).fuzz, fx(-0.5));
}

#[test]
fn metal_without_fuzz_is_a_mirror() {
    let m = Metal::new(&v3(0.8, 0.6, 0.2), fx(0.0));
    let incoming = Ray::new(&v3(-3.0, 4.0, 0.0), &v3(3.0, -4.0, 0.0));
    let rec = floor_hit(&incoming.direction());
    let (ok, attenuation, scattered) = m.scatter_with(&incoming, &rec, &v3(0.3, 0.2, 0.1));
    assert!(ok);
    assert_eq!(attenuation, v3(0.8, 0.6, 0.2));
    assert_eq!(scattered.origin(), rec.p);
    assert!(close(scattered.direction(), v3(0.6, 0.8, 0.0), 1e-8));
    for _ in 0..20 {
        let (ok, _, again) = m.scatter(&incoming, &rec);
        assert!(ok);
        assert_eq!(again, scattered);
    }
}

#[test]
fn metal_absorbs_what_fuzz_pushes_below_the_surface() {
    let m = Metal::new(&v3(0.8, 0.6, 0.2), fx(1.0));
    // a grazing ray: its mirror image barely leaves the surface
    let incoming = Ray::new(&v3(-1.0, 0.01, 0.0), &v3(1.0, -0.01, 0.0));
    let rec = floor_hit(&incoming.direction());
    let (ok, _, scattered) = m.scatter_with(&incoming, &rec, &v3(0.0, -0.5, 0.0));
    assert!(!ok);
    assert!(scattered.direction().y().raw < 0);
    let (ok, _, _) = m.scatter_with(&incoming, &rec, &v3(0.0, 0.5, 0.0));
    assert!(ok);
}

#[test]
fn reflectance_at_normal_incidence_is_r0_squared() {
    // glass: r0 = (1 - 1.5) / (1 + 1.5) = -0.2, r0^2 = 0.04
    let r = Dielectric::reflectance(fx(1.0), fx(1.5));
    assert!((val(r) - 0.04).abs() < 1e-8);
    // grazing: everything is reflected
    let g = Dielectric::reflectance(fx(0.0), fx(1.5));
    assert!((val(g) - 1.0).abs() < 1e-8);
    let mid = Dielectric::reflectance(fx(0.5), fx(1.5));
    assert!((val(mid) - (0.04 + 0.96 * 0.5f64.powi(5))).abs() < 1e-8);
    assert_eq!(Dielectric::reflectance(fx(0.5), fx(-1.0)).raw, i64::MAX);
}

#[test]
fn dielectric_refracts_or_reflects_by_the_draw() {
    let glass = Dielectric::new(fx(1.5));
    let incoming = Ray::new(&v3(0.0, 1.0, 0.0), &v3(0.0, -1.0, 0.0));
    let rec = floor_hit(&incoming.direction());
    assert!(rec.front_face);
    // reflectance is 0.04: a draw above it refracts, straight through
    let (ok, attenuation, through) = glass.scatter_with(&incoming, &rec, fx(0.5));
    assert!(ok);
    assert_eq!(attenuation, v3(1.0, 1.0, 1.0));
    assert!(close(through.direction(), v3(0.0, -1.0, 0.0), 1e-8));
    // a draw below it reflects
    let (ok, _, back) = glass.scatter_with(&incoming, &rec, fx(0.01));
    assert!(ok);
    assert!(close(back.direction(), v3(0.0, 1.0, 0.0), 1e-8));
}

#[test]
fn dielectric_reflects_totally_from_inside_at_a_flat_angle() {
    let glass = Dielectric::new(fx(1.5));
    // leaving the glass at 60 degrees to the normal: 1.5 * sin(60) > 1
    let direction = v3(0.8660254, 0.5, 0.0);
    let rec = HitRecord::new(&v3(0.0, 0.0, 0.0), &v3(0.0, 1.0, 0.0), &grey(), fx(1.0), &direction);
    assert!(!rec.front_face);
    let incoming = Ray::new(&v3(-0.8660254, -0.5, 0.0), &direction);
    let (ok, _, scattered) = glass.scatter_with(&incoming, &rec, fx(0.999));
    assert!(ok);
    assert!(close(scattered.direction(), v3(0.8660254, -0.5, 0.0), 1e-6));
}

#[test]
fn dielectric_with_index_zero_still_scatters() {
    let odd = Dielectric::new(fx(0.0));
    let incoming = Ray::new(&v3(1.0, 1.0, 0.0), &v3(-1.0, -1.0, 0.0));
    let rec = floor_hit(&incoming.direction());
    let (ok, _, scattered) = odd.scatter_with(&incoming, &rec, fx(0.5));
    assert!(ok);
    assert!(close(scattered.direction(), unit_vector(&v3(-1.0, 1.0, 0.0)), 1e-8));
}

#[test]
fn material_dispatches_to_its_kind() {
    let incoming = Ray::new(&v3(0.0, 1.0, 0.0), &v3(0.0, -1.0, 0.0));
    let rec = floor_hit(&incoming.direction());
    let v = v3(0.3, 0.0, 0.4);
    let u = fx(0.5);
    let l = Lambertian::new(&v3(0.1, 0.2, 0.3));
    let m = Metal::new(&v3(0.1, 0.2, 0.3), fx(0.5));
    let d = Dielectric::new(fx(1.5));
    assert_eq!(
        Material::Lambertian(l).scatter_with(&incoming, &rec, &v, u),
        l.scatter_with(&rec, &v)
    );
    assert_eq!(
        Material::Metal(m).scatter_with(&incoming, &rec, &v, u),
        m.scatter_with(&incoming, &rec, &v)
    );
    assert_eq!(
        Material::Dielectric(d).scatter_with(&incoming, &rec, &v, u),
        d.scatter_with(&incoming, &rec, u)
    );
    for kind in [Material::Lambertian(l), Material::Metal(m), Material::Dielectric(d)] {
        let (_, _, scattered) = kind.scatter(&incoming, &rec);
        assert_eq!(scattered.origin(), rec.p);
    }
}

#[test]
fn camera_of_a_quarter_turn_has_a_viewport_two_high() {
    let c = Camera::new(Fixed::from_int(90), Fixed::from_int(2));
    assert_eq!(c.origin, Vec3::default());
    assert!(close(c.horizontal, v3(4.0, 0.0, 0.0), 1e-6));
    assert!(close(c.vertical, v3(0.0, 2.0, 0.0), 1e-6));
    assert!(close(c.lower_left_corner, v3(-2.0, -1.0, -1.0), 1e-6));
    assert_eq!(c.horizontal.y().raw, 0);
    assert_eq!(c.vertical.x().raw, 0);
}

#[test]
fn camera_rays_pass_through_the_viewport() {
    let c = Camera::new(Fixed::from_int(90), Fixed::from_int(2));
    let lower_left = c.get_ray(fx(0.0), fx(0.0));
    assert_eq!(lower_left.origin(), Vec3::default());
    assert_eq!(lower_left.direction(), c.lower_left_corner);
    let center = c.get_ray(fx(0.5), fx(0.5));
    assert!(close(center.direction(), v3(0.0, 0.0, -1.0), 1e-6));
    let upper_right = c.get_ray(fx(1.0), fx(1.0));
    assert!(close(upper_right.direction(), v3(2.0, 1.0, -1.0), 1e-6));
}

#[test]
fn camera_height_follows_the_tangent() {
    for (degrees, height) in [(60, 1.1547005), (20, 0.3526540), (120, 3.4641016)] {
        let c = Camera::new(Fixed::from_int(degrees), Fixed::one());
        assert!((val(c.vertical.y()) - height).abs() < 1e-5);
        assert!((val(c.horizontal.x()) - height).abs() < 1e-5);
    }
}

#[test]
fn camera_looks_from_one_point_at_another() {
    let c = Camera::look_at(
        &v3(0.0, 0.0, 0.0),
        &v3(0.0, 0.0, -1.0),
        &v3(0.0, 1.0, 0.0),
        Fixed::from_int(90),
        Fixed::from_int(2),
    );
    let plain = Camera::new(Fixed::from_int(90), Fixed::from_int(2));
    assert_eq!(c.origin, plain.origin);
    assert_eq!(c.horizontal, plain.horizontal);
    assert_eq!(c.vertical, plain.vertical);
    assert_eq!(c.lower_left_corner, plain.lower_left_corner);
    let side = Camera::look_at(
        &v3(3.0, 0.0, 0.0),
        &v3(0.0, 0.0, 0.0),
        &v3(0.0, 1.0, 0.0),
        Fixed::from_int(90),
        Fixed::one(),
    );
    assert_eq!(side.origin, v3(3.0, 0.0, 0.0));
    assert!(close(side.get_ray(fx(0.5), fx(0.5)).direction(), v3(-1.0, 0.0, 0.0), 1e-6));
    assert!(close(side.horizontal, v3(0.0, 0.0, -2.0), 1e-6));
    assert!(close(side.vertical, v3(0.0, 2.0, 0.0), 1e-6));
}

#[test]
fn one_raw_is_two_to_the_thirty_two() {
    assert_eq!(ONE_RAW, 4294967296);
}

#[test]
fn short_ray_aimed_at_a_far_ball_hits_it() {
    // a direction of length 2^-17: its squared length is below one raw unit
    let s = ball(0.0, 0.0, -1000.0, 0.5);
    let direction = Vec3::new(Fixed::zero(), Fixed::zero(), Fixed { raw: -(1 << 15) });
    let r = Ray::new(&v3(0.0, 0.0, 0.0), &direction);
    assert_eq!(direction.length_squared().raw, 0);
    let rec = s.hit(&r, fx(0.001), Fixed::max_value()).unwrap();
    assert_eq!(rec.t, Fixed::from_int(131006464));
    assert_eq!(rec.p, v3(0.0, 0.0, -999.5));
    assert!(rec.front_face);
    assert_eq!(rec.normal, v3(0.0, 0.0, 1.0));
}

#[test]
fn short_ray_aimed_at_a_near_ball_hits_its_near_side() {
    // a direction of length 2^-16: its squared length is one raw unit
    let s = ball(0.0, 0.0, -1.0, 0.5);
    let direction = Vec3::new(Fixed::zero(), Fixed::zero(), Fixed { raw: -(1 << 16) });
    let r = Ray::new(&v3(0.0, 0.0, 0.0), &direction);
    let rec = s.hit(&r, fx(0.001), Fixed::max_value()).unwrap();
    assert_eq!(rec.t, Fixed::from_int(32768));
    assert_eq!(rec.p, v3(0.0, 0.0, -0.5));
    assert!(rec.front_face);
    assert_eq!(rec.normal, v3(0.0, 0.0, 1.0));
    // beyond the near side the far side is next
    let behind = s.hit(&r, Fixed::from_int(32768), Fixed::max_value()).unwrap();
    assert_eq!(behind.t, Fixed::from_int(3 * 32768));
    assert_eq!(behind.p, v3(0.0, 0.0, -1.5));
    assert!(!behind.front_face);
    assert_eq!(behind.normal, v3(0.0, 0.0, 1.0));
}

#[test]
fn the_hit_does_not_depend_on_the_length_of_the_direction() {
    let s = ball(0.25, -0.5, -3.0, 1.0);
    let origin = v3(0.0, 0.0, 0.0);
    let whole = Ray::new(&origin, &v3(0.125, -0.25, -1.0));
    let expected = s.hit(&whole, fx(0.001), Fixed::max_value()).unwrap();
    assert!(expected.front_face);
    for shift in 1..=28 {
        // the same direction, shorter by a power of two: the parameter is
        // longer by that power, and the record is the same
        let scale = Fixed { raw: ONE_RAW >> shift };
        let short = Ray::new(&origin, &(whole.direction() * scale));
        let rec = s.hit(&short, fx(0.001), Fixed::max_value()).unwrap();
        assert_eq!(rec.t.raw, expected.t.raw << shift, "shift {}", shift);
        assert!(close(rec.p, expected.p, 1e-8), "shift {}", shift);
        assert_eq!(rec.front_face, expected.front_face);
        assert!(close(rec.normal, expected.normal, 1e-8), "shift {}", shift);
    }
}

#[test]
fn the_shortest_direction_still_hits() {
    // one raw unit along z: the point of the ray moves by 2^-32 for a step of one
    let s = ball(0.0, 0.0, -0.75, 0.5);
    let direction = Vec3::new(Fixed::zero(), Fixed::zero(), Fixed { raw: -1 });
    let r = Ray::new(&v3(0.0, 0.0, 0.0), &direction);
    let rec = s.hit(&r, fx(0.001), Fixed::max_value()).unwrap();
    // the surface is a quarter away: 2^30 steps of 2^-32
    assert_eq!(rec.t, Fixed::from_int(1 << 30));
    assert_eq!(rec.p, v3(0.0, 0.0, -0.25));
    assert!(rec.front_face);
    assert_eq!(rec.normal, v3(0.0, 0.0, 1.0));
}

#[test]
fn a_root_that_the_type_cannot_hold_is_no_hit() {
    // the surface is 999.5 away and a step moves by 2^-32: the parameter
    // would be above the largest number
    let s = ball(0.0, 0.0, -1000.0, 0.5);
    let direction = Vec3::new(Fixed::zero(), Fixed::zero(), Fixed { raw: -1 });
    let r = Ray::new(&v3(0.0, 0.0, 0.0), &direction);
    assert!(s.hit(&r, fx(0.001), Fixed::max_value()).is_none());
}

#[test]
fn long_ray_aimed_at_a_ball_hits_its_near_side() {
    // a direction of length 2^17: its squared length is beyond the type
    let s = ball(0.0, 0.0, -1000.0, 0.5);
    let direction = Vec3::new(Fixed::zero(), Fixed::zero(), Fixed::from_int(-(1 << 17)));
    let r = Ray::new(&v3(0.0, 0.0, 0.0), &direction);
    let rec = s.hit(&r, fx(0.001), Fixed::max_value()).unwrap();
    // 999.5 / 2^17
    assert_eq!(rec.t, Fixed { raw: (1999 << 31) >> 17 });
    assert_eq!(rec.p, v3(0.0, 0.0, -999.5));
    assert!(rec.front_face);
    assert_eq!(rec.normal, v3(0.0, 0.0, 1.0));
    let behind = s.hit(&r, rec.t, Fixed::max_value()).unwrap();
    assert_eq!(behind.t, Fixed { raw: (2001 << 31) >> 17 });
    assert_eq!(behind.p, v3(0.0, 0.0, -1000.5));
    assert!(!behind.front_face);
    assert_eq!(behind.normal, v3(0.0, 0.0, 1.0));
}

#[test]
fn the_hit_does_not_depend_on_the_length_of_a_long_direction() {
    let s = ball(0.25, -0.5, -3.0, 1.0);
    let origin = v3(0.0, 0.0, 0.0);
    let whole = Ray::new(&origin, &v3(0.125, -0.25, -1.0));
    let expected = s.hit(&whole, Fixed::zero(), Fixed::max_value()).unwrap();
    assert!(expected.front_face);
    for shift in 1..=30 {
        // the same direction, longer by a power of two: the parameter is
        // shorter by that power, rounded toward zero
        let direction = whole.direction();
        let long = Vec3::new(
            Fixed { raw: direction.x().raw << shift },
            Fixed { raw: direction.y().raw << shift },
            Fixed { raw: direction.z().raw << shift },
        );
        let r = Ray::new(&origin, &long);
        let rec = s.hit(&r, Fixed::zero(), Fixed::max_value()).unwrap();
        assert_eq!(rec.t.raw, expected.t.raw >> shift, "shift {}", shift);
        // the point moves by the length of the direction for each step of the parameter
        let step = (1u64 << shift) as f64 / 4294967296.0;
        assert!(close(rec.p, expected.p, 2.0 * step), "shift {}", shift);
        assert_eq!(rec.front_face, expected.front_face);
        if shift <= 12 {
            assert!(close(rec.normal, expected.normal, 4.0 * step), "shift {}", shift);
        }
    }
}

#[test]
fn the_longest_direction_still_hits() {
    // the direction is 2^31 long: a step of 2^-32 in the parameter moves the point by a half
    let s = ball(0.0, 0.0, -1000.0, 0.5);
    let direction = Vec3::new(Fixed::zero(), Fixed::zero(), Fixed { raw: i64::MIN });
    let r = Ray::new(&v3(0.0, 0.0, 0.0), &direction);
    let rec = s.hit(&r, Fixed::zero(), Fixed::max_value()).unwrap();
    assert_eq!(rec.t, Fixed { raw: 1999 });
    assert_eq!(rec.p, v3(0.0, 0.0, -999.5));
    assert!(rec.front_face);
    assert_eq!(rec.normal, v3(0.0, 0.0, 1.0));
}

#[test]
fn a_long_ray_that_passes_beside_the_ball_misses_it() {
    let s = ball(0.0, 2.0, -5.0, 1.0);
    let direction = v3(0.0, 0.0, -70000.0);
    let r = Ray::new(&v3(0.0, 0.0, 0.0), &direction);
    assert!(s.hit(&r, Fixed::zero(), Fixed::max_value()).is_none());
    let grazing = ball(0.0, 0.75, -5.0, 1.0);
    let rec = grazing.hit(&r, Fixed::zero(), Fixed::max_value()).unwrap();
    assert!(rec.front_face);
    assert!((val(rec.p.z()) - (-5.0 + (1.0f64 - 0.5625).sqrt())).abs() < 1e-4);
}

#[test]
fn parameters_are_scaled_between_the_aimed_ray_and_the_ray_as_given() {
    // back from a lengthened ray: times the factor, or nothing where the type cannot hold it
    assert_eq!(scaled_back(Fixed { raw: -7 }, 4), Some(Fixed { raw: -28 }));
    assert_eq!(scaled_back(Fixed { raw: 1 << 40 }, 1 << 22), Some(Fixed { raw: 1 << 62 }));
    assert_eq!(scaled_back(Fixed { raw: 1 << 40 }, 1 << 23), None);
    assert_eq!(scaled_back(Fixed { raw: -(1 << 40) }, 1 << 23), Some(Fixed { raw: i64::MIN }));
    // back from a shortened ray: by the factor, rounded toward zero
    assert_eq!(scaled_down(Fixed { raw: 7 }, 2), Fixed { raw: 3 });
    assert_eq!(scaled_down(Fixed { raw: -7 }, 2), Fixed { raw: -3 });
    assert_eq!(scaled_down(Fixed { raw: -1 }, 1 << 31), Fixed { raw: 0 });
    assert_eq!(scaled_down(Fixed { raw: i64::MIN }, 1), Fixed { raw: i64::MIN });
    assert_eq!(scaled_down(Fixed { raw: i64::MIN }, 1 << 31), Fixed { raw: -ONE_RAW });
    // either way
    assert_eq!(rescaled(Fixed { raw: 5 }, 8, 1), Some(Fixed { raw: 40 }));
    assert_eq!(rescaled(Fixed { raw: 45 }, 1, 8), Some(Fixed { raw: 5 }));
    assert_eq!(rescaled(Fixed { raw: i64::MAX }, 2, 1), None);
}
