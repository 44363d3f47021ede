use raytracer::fixed::{Fixed, ONE_RAW};
use raytracer::hittable::{HitRecord, Hittable};
use raytracer::hittable_list::HittableList;
use raytracer::material::{Lambertian, Material};
use raytracer::ray::Ray;
use raytracer::sphere::Sphere;
use raytracer::vec3::{cross, dot, reflect, unit_vector, Vec3};

/// A ray from near the origin, roughly down the z axis.
fn ray_down_the_axis(g: &mut Lcg) -> Ray {
    let direction =
        Vec3::new(Fixed { raw: g.raw(31) }, Fixed { raw: g.raw(31) }, Fixed::from_int(-1));
    Ray::new(&g.vec(30), &direction)
}

/// A small generator of test values, the same on every run.
struct Lcg(u64);

impl Lcg {
    fn next(&mut self) -> u64 {
        self.0 = self.0.wrapping_mul(6364136223846793005).wrapping_add(1442695040888963407);
        self.0 >> 11
    }

    /// A raw value of at most `bits` bits, of either sign.
    fn raw(&mut self, bits: u32) -> i64 {
        let magnitude = (self.next() % (1u64 << bits)) as i64;
        if self.next() % 2 == 0 {
            magnitude
        } else {
            -magnitude
        }
    }

    fn vec(&mut self, bits: u32) -> Vec3 {
        Vec3::new(
            Fixed { raw: self.raw(bits) },
            Fixed { raw: self.raw(bits) },
            Fixed { raw: self.raw(bits) },
        )
    }
}

fn norm1(v: &Vec3) -> i128 {
    (v.x().raw as i128).abs() + (v.y().raw as i128).abs() + (v.z().raw as i128).abs()
}

#[test]
fn cross_product_is_orthogonal_within_the_bound() {
    let mut g = Lcg(1);
    for round in 0..2000 {
        let bits = 1 + (round % 40) as u32;
        let u = g.vec(bits);
        let v = g.vec(bits);
        let c = cross(&u, &v);
        assert!((dot(&c, &u).raw as i128).abs() * (ONE_RAW as i128) <= norm1(&u));
        assert!((dot(&c, &v).raw as i128).abs() * (ONE_RAW as i128) <= norm1(&v));
    }
}

#[test]
fn cross_product_of_short_vectors_is_exactly_orthogonal() {
    let mut g = Lcg(2);
    for _ in 0..500 {
        // every component below a third: the sum of the absolute values is below one
        let u = g.vec(30);
        let v = g.vec(36);
        let c = cross(&u, &v);
        assert_eq!(dot(&c, &u).raw, 0);
    }
}

#[test]
fn unit_vector_length_is_within_the_bound() {
    let mut g = Lcg(3);
    for round in 0..4000 {
        let bits = 1 + (round % 63) as u32;
        let v = g.vec(bits);
        if v.length().raw == 0 {
            continue;
        }
        let r = unit_vector(&v).length().raw;
        assert!(ONE_RAW - 4 <= r && r <= ONE_RAW, "{:?}", v);
    }
}

#[test]
fn unit_vector_of_the_shortest_and_the_longest_vectors() {
    let tiny = Fixed { raw: 1 };
    let zero = Fixed::zero();
    let half_root = 0.5f64.sqrt();
    let short = unit_vector(&Vec3::new(tiny, tiny, zero));
    assert!((short.x().raw as f64 / 4294967296.0 - half_root).abs() < 1e-9);
    assert_eq!(short.x(), short.y());
    assert_eq!(short.z(), zero);
    assert_eq!(unit_vector(&Vec3::new(zero, -tiny, zero)), Vec3::new(zero, -Fixed::one(), zero));
    let most = Fixed { raw: i64::MAX };
    let least = Fixed { raw: i64::MIN };
    let long = unit_vector(&Vec3::new(most, least, most));
    let third_root = (1.0f64 / 3.0).sqrt();
    assert!((long.x().raw as f64 / 4294967296.0 - third_root).abs() < 1e-9);
    assert!((long.y().raw as f64 / 4294967296.0 + third_root).abs() < 1e-9);
    for v in [short, long] {
        let r = v.length().raw;
        assert!(ONE_RAW - 4 <= r && r <= ONE_RAW);
    }
}

#[test]
fn double_reflection_is_within_the_bound() {
    let mut g = Lcg(4);
    let ss = (ONE_RAW as i128) * (ONE_RAW as i128);
    for round in 0..2000 {
        let v = g.vec(1 + (round % 45) as u32);
        // a normal near unit length: a unit vector, stretched by up to a millionth
        let rough = g.vec(40);
        if rough.length().raw == 0 {
            continue;
        }
        let stretch = Fixed { raw: ONE_RAW + g.raw(12) };
        let n = unit_vector(&rough) * stretch;
        let back = reflect(&reflect(&v, &n), &n);
        let d = (dot(&v, &n).raw as i128).abs();
        let square = |c: Fixed| (c.raw as i128) * (c.raw as i128);
        let nn = square(n.x()) + square(n.y()) + square(n.z());
        // the length is within a millionth of one
        assert!(1_000_000 * (n.length().raw as i128 - ONE_RAW as i128).abs() <= ONE_RAW as i128);
        assert!(499_000 * (nn - ss).abs() <= ss);
        let slack = 15_000_000 * ss + 4_000_008 * d * (nn - ss).abs();
        for (a, b) in [(back.x(), v.x()), (back.y(), v.y()), (back.z(), v.z())] {
            let off = (a.raw as i128 - b.raw as i128).abs();
            assert!(1_000_000 * ss * off <= slack, "{:?} {:?}", v, n);
            assert!(124_700 * (off - 15) <= d, "{:?} {:?}", v, n);
        }
        // the dot product is at most the product of the lengths
        let vv = square(v.x()) + square(v.y()) + square(v.z());
        // (the products are too long for integers here)
        let scaled = (d * ONE_RAW as i128) as f64;
        assert!(scaled * scaled <= (vv as f64) * (nn as f64) * (1.0 + 1e-12));
    }
}

#[test]
fn double_reflection_at_an_axis_is_exact() {
    let mut g = Lcg(5);
    let one = Fixed::one();
    let zero = Fixed::zero();
    for _ in 0..500 {
        let v = g.vec(50);
        let axes =
            [Vec3::new(one, zero, zero), Vec3::new(zero, -one, zero), Vec3::new(zero, zero, one)];
        for n in axes {
            assert_eq!(reflect(&reflect(&v, &n), &n), v);
        }
    }
}

#[test]
fn record_normal_points_against_the_ray() {
    let mut g = Lcg(6);
    let grey = Material::Lambertian(Lambertian::new(&Vec3::default()));
    for round in 0..2000 {
        let bits = 1 + (round % 50) as u32;
        let direction = g.vec(bits);
        let outward = g.vec(bits);
        let rec = HitRecord::new(&Vec3::default(), &outward, &grey, Fixed::one(), &direction);
        assert!(dot(&direction, &rec.normal).raw <= 0);
        assert_eq!(rec.front_face, dot(&direction, &outward).raw < 0);
    }
}

fn scattered_balls(g: &mut Lcg, count: usize) -> Vec<Sphere> {
    let mut balls = Vec::new();
    for k in 0..count {
        let shade = Fixed::from_ratio(k as i64, count as i64);
        let material = Material::Lambertian(Lambertian::new(&Vec3::new(shade, shade, shade)));
        // somewhere in front of the origin, down the z axis
        let depth = Fixed::from_int(-2 - (g.next() % 4) as i64);
        let center = Vec3::new(Fixed { raw: g.raw(33) }, Fixed { raw: g.raw(33) }, depth);
        let radius = Fixed { raw: (1 << 30) + g.raw(32).abs() };
        balls.push(Sphere::new(&center, radius, &material));
    }
    balls
}

#[test]
fn list_hit_is_the_first_nearest_hit_of_its_members() {
    let mut g = Lcg(7);
    let t_min = Fixed::from_ratio(1, 1000);
    let t_max = Fixed::max_value();
    let mut hits = 0;
    for _ in 0..300 {
        let balls = scattered_balls(&mut g, 6);
        let r = ray_down_the_axis(&mut g);
        let mut list = HittableList::default();
        let mut expected: Option<HitRecord> = None;
        for ball in &balls {
            if let Some(rec) = ball.hit(&r, t_min, t_max) {
                if expected.map_or(true, |best| rec.t.raw < best.t.raw) {
                    expected = Some(rec);
                }
            }
            list.add(Hittable::Sphere(Sphere::new(&ball.center, ball.radius, &ball.mat)));
        }
        assert_eq!(list.hit(&r, t_min, t_max), expected);
        if expected.is_some() {
            hits += 1;
        }
    }
    assert!(hits > 20);
}

#[test]
fn order_of_the_members_does_not_change_the_distance() {
    let mut g = Lcg(8);
    let t_min = Fixed::from_ratio(1, 1000);
    let t_max = Fixed::max_value();
    let mut hits = 0;
    for _ in 0..300 {
        let balls = scattered_balls(&mut g, 5);
        let r = ray_down_the_axis(&mut g);
        let mut forward = HittableList::default();
        let mut backward = HittableList::default();
        for ball in balls.iter() {
            forward.add(Hittable::Sphere(Sphere::new(&ball.center, ball.radius, &ball.mat)));
        }
        for ball in balls.iter().rev() {
            backward.add(Hittable::Sphere(Sphere::new(&ball.center, ball.radius, &ball.mat)));
        }
        let a = forward.hit(&r, t_min, t_max).map(|rec| rec.t);
        let b = backward.hit(&r, t_min, t_max).map(|rec| rec.t);
        assert_eq!(a, b);
        if a.is_some() {
            hits += 1;
        }
    }
    assert!(hits > 20);
}

#[test]
fn smaller_window_keeps_the_hit_or_loses_it() {
    let mut g = Lcg(9);
    let t_min = Fixed::from_ratio(1, 1000);
    let mut kept = 0;
    let mut lost = 0;
    for _ in 0..300 {
        let balls = scattered_balls(&mut g, 4);
        let r = ray_down_the_axis(&mut g);
        let mut list = HittableList::default();
        for ball in balls {
            list.add(Hittable::Sphere(ball));
        }
        let world = Hittable::List(list);
        let large = Fixed { raw: g.raw(35).abs() };
        let small = Fixed { raw: large.raw / 2 };
        let in_large = world.hit(&r, t_min, large);
        let expected = in_large.filter(|rec| rec.t.raw <= small.raw);
        assert_eq!(world.hit(&r, t_min, small), expected);
        if let Some(rec) = in_large {
            assert!(t_min.raw < rec.t.raw && rec.t.raw <= large.raw);
            kept += if expected.is_some() { 1 } else { 0 };
            lost += if expected.is_none() { 1 } else { 0 };
        }
    }
    assert!(kept > 5 && lost > 5);
}

#[test]
fn hit_points_lie_on_the_surface_within_the_bound() {
    let mut g = Lcg(10);
    let t_min = Fixed::from_ratio(1, 1000);
    let t_max = Fixed::max_value();
    let real = |c: Fixed| c.raw as f64 / 4294967296.0;
    let ulp = 1.0 / 4294967296.0;
    let mut hits = 0;
    for _ in 0..2000 {
        let balls = scattered_balls(&mut g, 1);
        let ball = &balls[0];
        let r = ray_down_the_axis(&mut g);
        let rec = match ball.hit(&r, t_min, t_max) {
            Some(rec) => rec,
            None => continue,
        };
        hits += 1;
        let oc = r.origin() - ball.center;
        let d = r.direction();
        let t = real(rec.t);
        // the point of the ray at t, with nothing rounded
        let p = [
            real(oc.x()) + t * real(d.x()),
            real(oc.y()) + t * real(d.y()),
            real(oc.z()) + t * real(d.z()),
        ];
        let off = (p[0] * p[0] + p[1] * p[1] + p[2] * p[2] - real(ball.radius).powi(2)).abs();
        let a = real(d.length_squared());
        let h = real(dot(&oc, &d));
        let c = real(oc.length_squared() - ball.radius * ball.radius);
        let root = real((Fixed { raw: fx_raw(h * h - a * c) }).sqrt());
        let bound =
            ulp * (2.0 * (1.0 + root) + 2.0 * root * a + a * a + a * ((t.abs() + 1.0).powi(2) + 1.0));
        assert!(a * off <= bound * 1.001 + 1e-15, "{:?} {:?}", ball.center, r);
    }
    assert!(hits > 200);
}

fn fx_raw(x: f64) -> i64 {
    (x * 4294967296.0).round() as i64
}

#[test]
fn the_near_root_is_a_front_face_and_the_far_root_a_back_face() {
    let mut g = Lcg(11);
    let one = ONE_RAW as i128;
    let mut fronts = 0;
    let mut backs = 0;
    for round in 0..4000 {
        let balls = scattered_balls(&mut g, 1);
        let ball = &balls[0];
        let r = ray_down_the_axis(&mut g);
        // every other round look from further on, so that only the far root is ahead
        let t_min = if round % 2 == 0 { Fixed::from_ratio(1, 1000) } else { Fixed::from_int(3) };
        let rec = match ball.hit(&r, t_min, Fixed::max_value()) {
            Some(rec) => rec,
            None => continue,
        };
        // the two roots, as the sphere computes them
        let oc = r.origin() - ball.center;
        let d = r.direction();
        let a = d.length_squared();
        let h = dot(&oc, &d);
        let c = oc.length_squared() - ball.radius * ball.radius;
        let root = (h * h - a * c).sqrt();
        let near = (-h - root) / a;
        let far = (-h + root) / a;
        let margin = one * a.raw as i128
            + one * one
            + one * (rec.t.raw as i128).abs()
            + (one + ball.radius.raw as i128) * norm1(&d)
            + ball.radius.raw as i128 * one;
        if (root.raw as i128) * one * one < margin {
            continue;
        }
        let outward = (rec.p - ball.center) / ball.radius;
        if rec.t == near {
            assert!(rec.front_face, "{:?} {:?}", ball.center, r);
            assert_eq!(rec.normal, outward);
            fronts += 1;
        } else {
            assert_eq!(rec.t, far);
            assert!(!rec.front_face, "{:?} {:?}", ball.center, r);
            assert_eq!(rec.normal, -outward);
            backs += 1;
        }
        // the outward normal has unit length, within the bound
        let real = |c: Fixed| c.raw as f64 / 4294967296.0;
        let ulp = 1.0 / 4294967296.0;
        let (ar, rad, dr, tr) = (real(a), real(ball.radius), real(root), real(rec.t));
        let w = rec.p - ball.center;
        let w1 = real(w.x()).abs() + real(w.y()).abs() + real(w.z()).abs();
        let nn = real(outward.x()).powi(2) + real(outward.y()).powi(2) + real(outward.z()).powi(2);
        let bound = ulp
            * (2.0 * (1.0 + dr) + 2.0 * dr * ar + ar * ar
                + ar * ((tr.abs() + 1.0).powi(2) + 1.0)
                + ar * (2.0 * (1.0 + rad) * w1 + 3.0 * ulp + 3.0 * rad * rad * ulp));
        assert!(ar * rad * rad * (nn - 1.0).abs() <= bound * 1.001 + 1e-15);
        // the normal is the direction from the center to the point
        let pointing = unit_vector(&(rec.p - ball.center));
        let gap = (outward - pointing).length().raw;
        assert!(gap < 43000, "{:?} {:?}", ball.center, r);
    }
    assert!(fronts > 100 && backs > 30, "{} {}", fronts, backs);
}

#[test]
fn hits_of_short_rays_lie_on_the_surface_and_show_their_side() {
    let mut g = Lcg(12);
    let t_min = Fixed::from_ratio(1, 1000);
    let t_max = Fixed::max_value();
    let real = |c: Fixed| c.raw as f64 / 4294967296.0;
    let ulp = 1.0 / 4294967296.0;
    let one = ONE_RAW as i128;
    let mut hits = 0;
    for round in 0..4000 {
        let ball = &scattered_balls(&mut g, 1)[0];
        let whole = ray_down_the_axis(&mut g);
        // the same ray with a direction that is shorter by a power of two
        let shift = 1 + (round % 20) as u32;
        let short = Vec3::new(
            Fixed { raw: whole.direction().x().raw >> shift << 0 },
            Fixed { raw: whole.direction().y().raw >> shift << 0 },
            Fixed { raw: whole.direction().z().raw >> shift << 0 },
        );
        let r = Ray::new(&whole.origin(), &short);
        let rec = match ball.hit(&r, t_min, t_max) {
            Some(rec) => rec,
            None => continue,
        };
        hits += 1;
        // the point of the ray at t, with nothing rounded, is on the surface
        let oc = r.origin() - ball.center;
        let t = real(rec.t);
        let p = [
            real(oc.x()) + t * real(short.x()),
            real(oc.y()) + t * real(short.y()),
            real(oc.z()) + t * real(short.z()),
        ];
        let off = (p[0] * p[0] + p[1] * p[1] + p[2] * p[2] - real(ball.radius).powi(2)).abs();
        // the quadratic of the lengthened ray, as the sphere forms it
        let (long, factor) = short.lengthen();
        let a = long.length_squared();
        let h = dot(&oc, &long);
        let c = oc.length_squared() - ball.radius * ball.radius;
        let root = (h * h - a * c).sqrt();
        let near = (-h - root) / a;
        let far = (-h + root) / a;
        let u = real(rec.t) / factor as f64;
        let (ar, dr) = (real(a), real(root));
        assert!(ar >= 0.25);
        let bound = ulp
            * (2.0 * (1.0 + dr) + 2.0 * dr * ar + ar * ar + ar * ((u.abs() + 1.0).powi(2) + 1.0));
        assert!(ar * off <= bound * 1.001 + 1e-15, "{:?} {:?}", ball.center, r);
        // the side, where the root of the discriminant shows through the rounding
        let margin = one * a.raw as i128
            + one * one
            + one * (rec.t.raw as i128 / factor as i128).abs()
            + (one + ball.radius.raw as i128) * norm1(&long)
            + ball.radius.raw as i128 * one;
        if (root.raw as i128) * one * one < margin {
            continue;
        }
        let outward = (rec.p - ball.center) / ball.radius;
        if rec.t.raw as i128 == near.raw as i128 * factor as i128 {
            assert!(rec.front_face, "{:?} {:?}", ball.center, r);
            assert_eq!(rec.normal, outward);
        } else {
            assert_eq!(rec.t.raw as i128, far.raw as i128 * factor as i128);
            assert!(!rec.front_face, "{:?} {:?}", ball.center, r);
            assert_eq!(rec.normal, -outward);
        }
        // the normal has unit length and opposes the ray
        let length = real(rec.normal.length());
        assert!((length - 1.0).abs() < 1e-5, "{:?} {:?}", ball.center, r);
        assert!(dot(&short, &rec.normal).raw <= 0);
    }
    assert!(hits > 300, "{}", hits);
}

#[test]
fn hollow_balls_hit_where_the_solid_ones_do_with_the_normal_turned() {
    let mut g = Lcg(21);
    let t_min = Fixed::from_ratio(1, 1000);
    let t_max = Fixed::max_value();
    let mut hits = 0;
    for round in 0..2000 {
        let ball = &scattered_balls(&mut g, 1)[0];
        let hollow = Sphere::new(&ball.center, -ball.radius, &ball.mat);
        let whole = ray_down_the_axis(&mut g);
        let shift = (round % 18) as u32;
        let short = Vec3::new(
            Fixed { raw: whole.direction().x().raw >> shift },
            Fixed { raw: whole.direction().y().raw >> shift },
            Fixed { raw: whole.direction().z().raw >> shift },
        );
        let r = Ray::new(&whole.origin(), &short);
        let (solid, turned) = (ball.hit(&r, t_min, t_max), hollow.hit(&r, t_min, t_max));
        assert_eq!(solid.is_some(), turned.is_some());
        let (solid, turned) = match (solid, turned) {
            (Some(a), Some(b)) => (a, b),
            _ => continue,
        };
        hits += 1;
        assert_eq!(solid.t, turned.t);
        assert_eq!(solid.p, turned.p);
        let outward = (turned.p - hollow.center) / hollow.radius;
        assert_eq!(outward, -((solid.p - ball.center) / ball.radius));
        let length = outward.length().raw as f64 / 4294967296.0;
        assert!((length - 1.0).abs() < 1e-5, "{:?} {:?}", ball.center, r);
        assert!(dot(&short, &turned.normal).raw <= 0);
    }
    assert!(hits > 150, "{}", hits);
}

#[test]
fn hits_of_long_rays_stay_within_a_step_of_those_of_the_shortened_ray() {
    let mut g = Lcg(33);
    let t_min = Fixed::zero();
    let t_max = Fixed::max_value();
    let one = ONE_RAW as i128;
    let mut hits = 0;
    let mut sided = 0;
    for round in 0..4000 {
        let ball = &scattered_balls(&mut g, 1)[0];
        let whole = ray_down_the_axis(&mut g);
        // the same ray with a direction that is longer by about a power of two
        let shift = 1 + (round % 30) as u32;
        let low = ((1i64 << shift) - 1).min(1 << 20);
        let long = Vec3::new(
            Fixed { raw: (whole.direction().x().raw << shift) + (g.next() as i64 & low) },
            Fixed { raw: (whole.direction().y().raw << shift) - (g.next() as i64 & low) },
            Fixed { raw: (whole.direction().z().raw << shift) - (g.next() as i64 & low) },
        );
        let r = Ray::new(&whole.origin(), &long);
        let (short, factor) = long.shorten();
        assert_eq!(factor, 1i64 << shift);
        assert!(norm1(&short) >= 1 << 31);
        let beside = Ray::new(&whole.origin(), &short);
        // the roots of the shortened ray, as the sphere forms them
        let oc = r.origin() - ball.center;
        let a = short.length_squared();
        let h = dot(&oc, &short);
        let c = oc.length_squared() - ball.radius * ball.radius;
        let discriminant = h * h - a * c;
        let rec = ball.hit(&r, t_min, t_max);
        if discriminant.raw < 0 {
            assert!(rec.is_none());
            continue;
        }
        let root = discriminant.sqrt();
        let near = (-h - root) / a;
        let far = (-h + root) / a;
        let rec = match rec {
            Some(rec) => rec,
            None => {
                assert!(near.raw / factor <= 0 && far.raw / factor <= 0);
                continue;
            }
        };
        hits += 1;
        let u = if near.raw / factor > 0 { near } else { far };
        assert_eq!(rec.t.raw, u.raw / factor);
        assert_eq!(rec.front_face, dot(&long, &((rec.p - ball.center) / ball.radius)).raw < 0);
        // the point is within a step of the direction of where the shortened ray is at its root
        let at_root = beside.at(u);
        let bound = one * (factor as i128 + 1) + (u.raw as i128).abs();
        for axis in 0..3 {
            let apart = (rec.p[axis].raw as i128 - at_root[axis].raw as i128).abs();
            assert!(one * apart <= bound, "{:?} {:?}", ball.center, r);
        }
        // the normal has unit length, up to rounding and the slip between the two rays
        let outward = (rec.p - ball.center) / ball.radius;
        let unit = 4294967296.0f64;
        let (af, sq, uf) = (a.raw as f64, root.raw as f64, (u.raw as f64).abs());
        let radius = ball.radius.raw as f64;
        let gap = unit * (factor as f64 - 1.0) + uf;
        let span = norm1(&short) as f64 * uf + unit * norm1(&oc) as f64;
        let w1 = norm1(&(rec.p - ball.center)) as f64;
        let squared: f64 = (0..3).map(|axis| (outward[axis].raw as f64).powi(2)).sum();
        let lhs = af * radius * radius * (squared - unit * unit).abs();
        let rhs = unit * (2.0 * (unit + sq) * unit * unit + 2.0 * sq * unit * af + af * af)
            + af * (unit * (uf + unit).powi(2) + unit * unit * unit)
            + af * (2.0 * gap * span
                + 3.0 * gap * gap
                + 2.0 * unit * (unit + radius) * w1
                + 3.0 * unit * unit
                + 3.0 * radius * radius);
        assert!(lhs <= rhs * 1.000001, "{:?} {:?}", ball.center, r);
        // the side, where the root of the discriminant shows through the rounding and the slip
        let k1 = norm1(&short) as f64;
        let margin = unit * af + unit * unit + unit * uf + unit * k1 + radius * k1 + radius * unit
            + gap * k1
            + radius * norm1(&outward) as f64;
        if sq * unit * unit >= margin * 1.000001 {
            assert_eq!(rec.front_face, u == near, "{:?} {:?}", ball.center, r);
            sided += 1;
        }
    }
    assert!(hits > 300, "{}", hits);
    assert!(sided > 200, "{}", sided);
}

#[test]
fn rays_aimed_at_the_center_hit_at_the_distance_less_the_radius() {
    let mut g = Lcg(47);
    let t_min = Fixed::from_ratio(1, 1000);
    let t_max = Fixed::max_value();
    let unit = 4294967296.0f64;
    let mut hits = 0;
    for round in 0..3000 {
        // the center lies along `base` from the origin, and the direction is a multiple of it
        let base = g.vec(18);
        if norm1(&base) < 1 << 16 {
            continue;
        }
        let far_off = 20000 + (g.next() % 40000) as i64;
        let pace = 1 + (g.next() % (1 << (1 + round % 12))) as i64;
        let times = |v: &Vec3, k: i64| {
            Vec3::new(
                Fixed { raw: v.x().raw * k },
                Fixed { raw: v.y().raw * k },
                Fixed { raw: v.z().raw * k },
            )
        };
        let center = times(&base, far_off);
        let direction = times(&base, pace);
        let radius = Fixed { raw: (1 << 29) + g.raw(30).abs() };
        let ball = Sphere::new(&center, radius, &Material::Lambertian(Lambertian::new(&base)));
        let r = Ray::new(&Vec3::default(), &direction);
        let oc = r.origin() - center;
        let distance = length_of(&oc);
        if distance <= radius.raw as f64 / unit * 1.01 {
            continue;
        }
        let rec = ball.hit(&r, t_min, t_max).unwrap();
        hits += 1;
        assert!(rec.front_face);
        // the parameter, against the distance to the surface over the length of the direction
        let expected = (distance - radius.raw as f64 / unit) / length_of(&direction);
        let t = rec.t.raw as f64 / unit;
        assert!((t - expected).abs() <= 1e-5 * expected, "{} {} {:?}", t, expected, r);
        // the bound, in raw values
        let (long, _) = direction.lengthen();
        let a = long.length_squared();
        let h = dot(&oc, &long);
        let c = oc.length_squared() - radius * radius;
        let root = (h * h - a * c).sqrt();
        let near = (-h - root) / a;
        let (af, sq, uf) = (a.raw as f64, root.raw as f64, (near.raw as f64).abs());
        let slack = unit * (2.0 * (unit + sq) * unit * unit + 2.0 * sq * unit * af + af * af)
            + af * (unit * (uf + unit).powi(2) + unit * unit * unit);
        let dd: f64 = (0..3).map(|axis| (direction[axis].raw as f64).powi(2)).sum();
        let hd: f64 = (0..3).map(|axis| oc[axis].raw as f64 * direction[axis].raw as f64).sum();
        let along = dd * rec.t.raw as f64 + hd * unit;
        let apart = (along * along - dd * (radius.raw as f64).powi(2) * unit * unit).abs();
        assert!(af * apart <= dd * slack * 1.000001 + along * along * 1e-12, "{:?}", r);
    }
    assert!(hits > 2000, "{}", hits);
}

fn length_of(v: &Vec3) -> f64 {
    let squared: f64 = (0..3).map(|axis| (v[axis].raw as f64 / 4294967296.0).powi(2)).sum();
    squared.sqrt()
}
