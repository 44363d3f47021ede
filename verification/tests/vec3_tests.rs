use raytracer::fixed::{Fixed, ONE_RAW};
use raytracer::vec3::{
    cross, dot, first_in_unit_sphere, random_in_unit_sphere, random_unit_vector, reflect, refract,
    unit_vector, Vec3,
};

fn fx(x: f64) -> Fixed {
    Fixed { raw: (x * 4294967296.0).round() as i64 }
}

fn val(f: Fixed) -> f64 {
    f.raw as f64 / 4294967296.0
}

fn v3(x: f64, y: f64, z: f64) -> Vec3 {
    Vec3::new(fx(x), fx(y), fx(z))
}

#[test]
fn components_come_back() {
    let v = v3(1.0, -2.0, 3.5);
    assert_eq!(v.x(), fx(1.0));
    assert_eq!(v.y(), fx(-2.0));
    assert_eq!(v.z(), fx(3.5));
    assert_eq!(v[0], fx(1.0));
    assert_eq!(v[1], fx(-2.0));
    assert_eq!(v[2], fx(3.5));
}

#[test]
fn default_is_the_zero_vector() {
    assert_eq!(Vec3::default(), v3(0.0, 0.0, 0.0));
}

#[test]
fn arithmetic_is_component_wise() {
    let u = v3(1.0, 2.0, 3.0);
    let v = v3(0.5, -1.0, 4.0);
    assert_eq!(u + v, v3(1.5, 1.0, 7.0));
    assert_eq!(u - v, v3(0.5, 3.0, -1.0));
    assert_eq!(-u, v3(-1.0, -2.0, -3.0));
    assert_eq!(u * v, v3(0.5, -2.0, 12.0));
    assert_eq!(u * fx(2.0), v3(2.0, 4.0, 6.0));
    assert_eq!(fx(2.0) * u, v3(2.0, 4.0, 6.0));
    assert_eq!(u / fx(2.0), v3(0.5, 1.0, 1.5));
}

#[test]
fn dot_and_cross_of_the_axes() {
    let ex = v3(1.0, 0.0, 0.0);
    let ey = v3(0.0, 1.0, 0.0);
    let ez = v3(0.0, 0.0, 1.0);
    assert_eq!(dot(&ex, &ey).raw, 0);
    assert_eq!(dot(&ex, &ex).raw, ONE_RAW);
    assert_eq!(cross(&ex, &ey), ez);
    assert_eq!(cross(&ey, &ez), ex);
    assert_eq!(cross(&ez, &ex), ey);
    assert_eq!(cross(&ey, &ex), -ez);
}

#[test]
fn dot_is_rounded_once() {
    // three products of half a raw unit each: together one and a half
    let u = Vec3::new(Fixed { raw: 1 << 31 }, Fixed { raw: 1 << 31 }, Fixed { raw: 1 << 31 });
    let v = Vec3::new(Fixed { raw: 1 }, Fixed { raw: 1 }, Fixed { raw: 1 });
    assert_eq!(dot(&u, &v).raw, 1);
}

#[test]
fn dot_with_the_largest_components_saturates() {
    let m = Fixed { raw: i64::MIN };
    let u = Vec3::new(m, m, m);
    assert_eq!(dot(&u, &u).raw, i64::MAX);
    assert_eq!(dot(&u, &(-u)).raw, i64::MIN);
    assert_eq!(u.length().raw, i64::MAX);
}

#[test]
fn cross_is_orthogonal_to_both() {
    let u = v3(1.25, -2.5, 3.0);
    let v = v3(-0.75, 4.0, 0.5);
    let c = cross(&u, &v);
    assert!(val(dot(&c, &u)).abs() < 1e-8);
    assert!(val(dot(&c, &v)).abs() < 1e-8);
}

#[test]
fn length_of_a_pythagorean_triple() {
    let v = v3(3.0, 4.0, 0.0);
    assert_eq!(v.length(), fx(5.0));
    assert_eq!(v.length_squared(), fx(25.0));
    let w = v3(2.0, 3.0, 6.0);
    assert_eq!(w.length(), fx(7.0));
}

#[test]
fn length_of_a_tiny_vector_is_not_lost() {
    let v = Vec3::new(Fixed { raw: 3 }, Fixed { raw: 4 }, Fixed { raw: 0 });
    assert_eq!(v.length().raw, 5);
    assert_eq!(v.length_squared().raw, 0);
}

#[test]
fn unit_vector_has_length_one() {
    for v in [v3(3.0, 4.0, 0.0), v3(1.0, 1.0, 1.0), v3(-0.3, 0.01, 12.0), v3(0.001, 0.0, 0.0)] {
        let u = unit_vector(&v);
        assert!((val(u.length()) - 1.0).abs() < 1e-6);
    }
    assert_eq!(unit_vector(&v3(0.0, 0.0, -7.0)), v3(0.0, 0.0, -1.0));
}

#[test]
fn direction_of_the_zero_vector_is_itself() {
    assert_eq!(Vec3::default().direction(), Vec3::default());
    assert_eq!(v3(0.0, 2.0, 0.0).direction(), v3(0.0, 1.0, 0.0));
}

#[test]
fn near_zero_is_below_ten_to_the_minus_eight() {
    assert!(Vec3::default().near_zero());
    let just_below = Fixed { raw: 42 };
    let just_above = Fixed { raw: 43 };
    assert!(Vec3::new(just_below, -just_below, just_below).near_zero());
    assert!(!Vec3::new(just_below, just_above, just_below).near_zero());
    assert!(!Vec3::new(just_below, just_below, -just_above).near_zero());
    assert!(!v3(0.0, 0.0, 1e-7).near_zero());
}

#[test]
fn reflect_mirrors_at_the_normal() {
    let v = v3(1.0, -1.0, 0.0);
    let n = v3(0.0, 1.0, 0.0);
    assert_eq!(reflect(&v, &n), v3(1.0, 1.0, 0.0));
}

#[test]
fn reflect_twice_comes_back() {
    let v = v3(0.3, -0.8, 0.5);
    for n in [v3(0.0, 1.0, 0.0), v3(1.0, 0.0, 0.0), v3(0.0, 0.0, -1.0)] {
        assert_eq!(reflect(&reflect(&v, &n), &n), v);
    }
    let n = unit_vector(&v3(1.0, 2.0, -2.0));
    let back = reflect(&reflect(&v, &n), &n);
    assert!(val((back - v).length()) < 1e-8);
}

#[test]
fn refract_with_equal_indices_goes_straight() {
    let uv = unit_vector(&v3(1.0, -1.0, 0.0));
    let n = v3(0.0, 1.0, 0.0);
    let out = refract(&uv, &n, Fixed::one());
    assert!(val((out - uv).length()) < 1e-8);
}

#[test]
fn refract_follows_snell() {
    // from air into glass, 45 degrees: sin(out) = sin(45) / 1.5
    let uv = unit_vector(&v3(1.0, -1.0, 0.0));
    let n = v3(0.0, 1.0, 0.0);
    let out = refract(&uv, &n, Fixed::from_ratio(2, 3));
    let sin_out = val(out.x());
    assert!((sin_out - (0.5f64.sqrt() / 1.5)).abs() < 1e-8);
    assert!(val(out.y()) < 0.0);
    assert!((val(out.length()) - 1.0).abs() < 1e-8);
}

#[test]
fn random_vectors_stay_in_range() {
    for _ in 0..200 {
        let v = Vec3::random();
        for c in [v.x(), v.y(), v.z()] {
            assert!(-ONE_RAW <= c.raw && c.raw < ONE_RAW);
        }
        let w = Vec3::random_range(fx(2.0), fx(2.5));
        for c in [w.x(), w.y(), w.z()] {
            assert!(fx(2.0).raw <= c.raw && c.raw < fx(2.5).raw);
        }
    }
}

#[test]
fn random_draws_differ() {
    let first = Vec3::random();
    let mut all_equal = true;
    for _ in 0..20 {
        if Vec3::random() != first {
            all_equal = false;
        }
    }
    assert!(!all_equal);
}

#[test]
fn random_points_lie_in_the_unit_sphere() {
    for _ in 0..200 {
        let p = random_in_unit_sphere();
        assert!(p.length_squared().raw < ONE_RAW);
    }
}

#[test]
fn random_unit_vectors_have_length_one() {
    for _ in 0..200 {
        let u = random_unit_vector();
        assert!((val(u.length()) - 1.0).abs() < 1e-6);
    }
}

#[test]
fn random_points_are_draws_and_not_the_fallback() {
    // the origin comes only after a long run of misses: it is not what is drawn
    let origin = Vec3::default();
    let mut distinct = 0;
    let first = random_in_unit_sphere();
    for _ in 0..200 {
        let p = random_in_unit_sphere();
        assert!(p != origin);
        for c in [p.x(), p.y(), p.z()] {
            assert!(-ONE_RAW <= c.raw && c.raw < ONE_RAW);
        }
        if p != first {
            distinct += 1;
        }
    }
    assert!(distinct > 190);
}

#[test]
fn first_candidate_inside_the_sphere_is_taken() {
    let outside = v3(0.9, 0.9, 0.9);
    let on_the_sphere = v3(1.0, 0.0, 0.0);
    let inside = v3(0.5, -0.5, 0.5);
    let also_inside = v3(0.1, 0.0, 0.0);
    assert_eq!(first_in_unit_sphere(&vec![outside, inside, also_inside]), inside);
    assert_eq!(first_in_unit_sphere(&vec![also_inside, inside]), also_inside);
    assert_eq!(first_in_unit_sphere(&vec![outside, on_the_sphere, outside, inside]), inside);
    // where every candidate misses, and where there is none, the origin
    assert_eq!(first_in_unit_sphere(&vec![outside, on_the_sphere]), Vec3::default());
    assert_eq!(first_in_unit_sphere(&Vec::new()), Vec3::default());
    assert_eq!(first_in_unit_sphere(&vec![outside; 128]), Vec3::default());
}

#[test]
fn lengthening_doubles_until_a_component_is_one_half() {
    let (same, one) = v3(0.5, 0.0, -0.25).lengthen();
    assert_eq!((same, one), (v3(0.5, 0.0, -0.25), 1));
    let (same, one) = v3(3.0, -7.0, 0.0).lengthen();
    assert_eq!((same, one), (v3(3.0, -7.0, 0.0), 1));
    let (long, factor) = v3(0.125, -0.0625, 0.0).lengthen();
    assert_eq!((long, factor), (v3(0.5, -0.25, 0.0), 4));
    let tiny = Vec3::new(Fixed { raw: 3 }, Fixed { raw: -1 }, Fixed { raw: 0 });
    let (long, factor) = tiny.lengthen();
    assert_eq!(factor, 1 << 30);
    assert_eq!(long, Vec3::new(Fixed { raw: 3 << 30 }, Fixed { raw: -(1 << 30) }, Fixed::zero()));
    let (zero, one) = Vec3::default().lengthen();
    assert_eq!((zero, one), (Vec3::default(), 1));
}

#[test]
fn shortening_halves_until_no_component_is_above_one() {
    let (same, one) = v3(1.0, 0.0, -0.25).shorten();
    assert_eq!((same, one), (v3(1.0, 0.0, -0.25), 1));
    let (same, one) = Vec3::default().shorten();
    assert_eq!((same, one), (Vec3::default(), 1));
    let (short, factor) = v3(3.0, -7.0, 0.5).shorten();
    assert_eq!((short, factor), (v3(0.375, -0.875, 0.0625), 8));
    // halving rounds toward zero, whatever the sign
    let odd = Vec3::new(Fixed { raw: ONE_RAW + 1 }, Fixed { raw: -3 }, Fixed { raw: 3 });
    let (short, factor) = odd.shorten();
    assert_eq!(factor, 2);
    assert_eq!(short, Vec3::new(Fixed { raw: ONE_RAW / 2 }, Fixed { raw: -1 }, Fixed { raw: 1 }));
    let longest = Vec3::new(Fixed { raw: i64::MIN }, Fixed { raw: i64::MAX }, Fixed { raw: -1 });
    let (short, factor) = longest.shorten();
    assert_eq!(factor, 1 << 31);
    assert_eq!(
        short,
        Vec3::new(Fixed { raw: -ONE_RAW }, Fixed { raw: ONE_RAW - 1 }, Fixed::zero())
    );
}
