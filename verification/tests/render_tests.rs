use raytracer::camera::Camera;
use raytracer::color::{channel_byte, gamma, scale_color_by_samples, write_color, write_decimal};
use raytracer::fixed::Fixed;
use raytracer::hittable::Hittable;
use raytracer::hittable_list::HittableList;
use raytracer::material::{Lambertian, Material, Metal};
use raytracer::ppm::write_header;
use raytracer::ray::Ray;
use raytracer::render::{
    coordinate, ray_color, ray_color_with, sky, Draw, PixelSample, Renderer,
};
use raytracer::sphere::Sphere;
use raytracer::vec3::Vec3;

fn fx(x: f64) -> Fixed {
    Fixed { raw: (x * 4294967296.0).round() as i64 }
}

fn val(f: Fixed) -> f64 {
    f.raw as f64 / 4294967296.0
}

fn v3(x: f64, y: f64, z: f64) -> Vec3 {
    Vec3::new(fx(x), fx(y), fx(z))
}

fn close(a: Vec3, b: Vec3, eps: f64) -> bool {
    val((a - b).length()) < eps
}

fn mirror_world() -> Hittable {
    let mirror = Material::Metal(Metal::new(&v3(0.8, 0.8, 0.8), fx(0.0)));
    Hittable::List(HittableList::new(Hittable::Sphere(Sphere::new(
        &v3(0.0, 0.0, -1.0),
        fx(0.5),
        &mirror,
    ))))
}

fn draw(x: f64, y: f64, z: f64, u: f64) -> Draw {
    Draw { v: v3(x, y, z), u: fx(u) }
}

fn small_renderer(max_depth: u32, samples_per_pixel: u32) -> Renderer {
    Renderer {
        camera: Camera::new(Fixed::from_int(90), Fixed::one()),
        world: mirror_world(),
        image_width: 2,
        image_height: 2,
        samples_per_pixel,
        max_depth,
    }
}

/// One sample for each of four pixels. The third pixel that is written, the
/// lower left one, is sampled at its upper right corner, which is the
/// middle of the image; the others at their lower left corners.
fn corner_samples() -> Vec<Vec<PixelSample>> {
    let mut samples: Vec<Vec<PixelSample>> = Vec::new();
    for k in 0..4 {
        let jitter = if k == 2 { fx(0.5) } else { fx(0.0) };
        samples.push(vec![PixelSample {
            du: jitter,
            dv: jitter,
            draws: vec![draw(0.0, 0.0, 0.0, 0.0); 8],
        }]);
    }
    samples
}

#[test]
fn depth_zero_is_black() {
    let world = mirror_world();
    let black = Vec3::default();
    for direction in [v3(0.0, 0.0, -1.0), v3(0.0, 1.0, 0.0), v3(0.3, -0.2, 0.9), Vec3::default()] {
        let r = Ray::new(&v3(0.0, 0.0, 0.0), &direction);
        assert_eq!(ray_color(&r, &world, 0), black);
        assert_eq!(ray_color_with(&r, &world, 0, &vec![draw(0.1, 0.2, 0.3, 0.4)]), black);
    }
    let empty = Hittable::List(HittableList::default());
    let r = Ray::new(&v3(0.0, 0.0, 0.0), &v3(0.0, 1.0, 0.0));
    assert_eq!(ray_color(&r, &empty, 0), black);
}

#[test]
fn sky_blends_white_into_blue() {
    let up = sky(&Ray::new(&Vec3::default(), &v3(0.0, 2.0, 0.0)));
    assert!(close(up, v3(0.5, 0.7, 1.0), 1e-8));
    let down = sky(&Ray::new(&Vec3::default(), &v3(0.0, -3.0, 0.0)));
    assert!(close(down, v3(1.0, 1.0, 1.0), 1e-8));
    let level = sky(&Ray::new(&Vec3::default(), &v3(1.0, 0.0, 0.0)));
    assert!(close(level, v3(0.75, 0.85, 1.0), 1e-8));
    let nowhere = sky(&Ray::new(&Vec3::default(), &Vec3::default()));
    assert!(close(nowhere, v3(0.75, 0.85, 1.0), 1e-8));
}

#[test]
fn a_ray_that_misses_has_the_color_of_the_sky() {
    let world = mirror_world();
    let r = Ray::new(&v3(0.0, 0.0, 0.0), &v3(0.0, 1.0, 0.0));
    assert_eq!(ray_color(&r, &world, 5), sky(&r));
    assert_eq!(ray_color_with(&r, &world, 5, &Vec::new()), sky(&r));
}

#[test]
fn a_mirror_shows_the_sky_behind_the_camera() {
    let world = mirror_world();
    let r = Ray::new(&v3(0.0, 0.0, 0.0), &v3(0.0, 0.0, -1.0));
    let behind = Ray::new(&v3(0.0, 0.0, -0.5), &v3(0.0, 0.0, 1.0));
    let expected = v3(0.8, 0.8, 0.8) * sky(&behind);
    assert_eq!(ray_color_with(&r, &world, 2, &vec![draw(0.0, 0.0, 0.0, 0.0); 2]), expected);
    assert_eq!(ray_color(&r, &world, 2), expected);
    // with one bounce allowed the reflected ray brings back nothing
    assert_eq!(ray_color_with(&r, &world, 1, &vec![draw(0.0, 0.0, 0.0, 0.0)]), Vec3::default());
    assert_eq!(ray_color(&r, &world, 1), Vec3::default());
    // a hit with no draw left is black
    assert_eq!(ray_color_with(&r, &world, 2, &Vec::new()), Vec3::default());
}

#[test]
fn a_diffuse_ball_weakens_the_sky_by_its_albedo() {
    let matte = Material::Lambertian(Lambertian::new(&v3(0.5, 0.25, 1.0)));
    let world = Hittable::Sphere(Sphere::new(&v3(0.0, 0.0, -1.0), fx(0.5), &matte));
    let r = Ray::new(&v3(0.0, 0.0, 0.0), &v3(0.0, 0.0, -1.0));
    // the draw has no direction, so the ray leaves along the normal
    let out = Ray::new(&v3(0.0, 0.0, -0.5), &v3(0.0, 0.0, 1.0));
    let expected = v3(0.5, 0.25, 1.0) * sky(&out);
    assert_eq!(ray_color_with(&r, &world, 3, &vec![draw(0.0, 0.0, 0.0, 0.0); 3]), expected);
    for _ in 0..50 {
        let c = ray_color(&r, &world, 50);
        for (channel, albedo) in [(c.x(), 0.5), (c.y(), 0.25), (c.z(), 1.0)] {
            assert!(0 <= channel.raw && val(channel) <= albedo);
        }
    }
}

#[test]
fn absorbed_rays_are_black() {
    let rough = Material::Metal(Metal::new(&v3(0.8, 0.8, 0.8), fx(1.0)));
    let world = Hittable::Sphere(Sphere::new(&v3(0.0, 0.0, -1.0), fx(0.5), &rough));
    // a grazing ray, whose mirror image the fuzz pushes into the ball
    let r = Ray::new(&v3(0.499, 0.0, 0.0), &v3(0.0, 0.0, -1.0));
    let c = ray_color_with(&r, &world, 5, &vec![draw(-0.9, 0.0, 0.0, 0.0); 5]);
    assert_eq!(c, Vec3::default());
}

#[test]
fn summed_color_of_four_over_four_samples() {
    let sum = v3(4.0, 4.0, 4.0);
    // before the clamp each channel is exactly one
    assert_eq!(gamma(sum.x(), 4), Fixed::one());
    assert_eq!(gamma(sum.y(), 4), Fixed::one());
    assert_eq!(gamma(sum.z(), 4), Fixed::one());
    let scaled = scale_color_by_samples(&sum, 4);
    let limit = Fixed::from_ratio(999, 1000);
    assert_eq!(scaled, Vec3::new(limit, limit, limit));
    assert_eq!(channel_byte(scaled.x()), 255);
    assert_eq!(channel_byte(scaled.y()), 255);
    assert_eq!(channel_byte(scaled.z()), 255);
    let mut line = Vec::new();
    write_color(&mut line, &scaled);
    assert_eq!(line, b"255 255 255\n".to_vec());
}

#[test]
fn scaling_takes_the_root_of_the_mean() {
    let scaled = scale_color_by_samples(&v3(1.0, 0.25, 0.0), 1);
    assert_eq!(scaled, Vec3::new(Fixed::from_ratio(999, 1000), fx(0.5), fx(0.0)));
    let mean = scale_color_by_samples(&v3(25.0, 50.0, 9.0), 100);
    assert!(close(mean, v3(0.5, 0.5f64.sqrt(), 0.3), 1e-8));
    let dark = scale_color_by_samples(&v3(-3.0, -0.001, 0.0), 2);
    assert_eq!(dark, Vec3::default());
}

#[test]
fn channel_bytes_cover_the_range() {
    assert_eq!(channel_byte(fx(0.0)), 0);
    assert_eq!(channel_byte(fx(0.5)), 127);
    assert_eq!(channel_byte(Fixed::from_ratio(999, 1000)), 255);
    assert_eq!(channel_byte(fx(1.0)), 255);
    assert_eq!(channel_byte(fx(100.0)), 255);
    assert_eq!(channel_byte(Fixed::max_value()), 255);
    assert_eq!(channel_byte(fx(-0.5)), 0);
    assert_eq!(channel_byte(Fixed { raw: i64::MIN }), 0);
    assert_eq!(channel_byte(fx(0.0039)), 0);
    assert_eq!(channel_byte(fx(0.004)), 1);
}

#[test]
fn decimal_digits_are_written_most_significant_first() {
    let cases =
        [(0u32, "0"), (7, "7"), (10, "10"), (255, "255"), (1000, "1000"), (4294967295, "4294967295")];
    for (n, text) in cases {
        let mut out = b"x".to_vec();
        write_decimal(&mut out, n);
        assert_eq!(String::from_utf8(out).unwrap(), format!("x{}", text));
    }
}

#[test]
fn pixel_line_holds_three_numbers() {
    let mut out = Vec::new();
    write_color(&mut out, &v3(0.0, 0.5, 0.999));
    write_color(&mut out, &v3(0.1, 0.2, 0.3));
    assert_eq!(String::from_utf8(out).unwrap(), "0 127 255\n25 51 76\n");
}

#[test]
fn header_has_three_lines() {
    let mut out = Vec::new();
    write_header(&mut out, 400, 225);
    assert_eq!(String::from_utf8(out).unwrap(), "P3\n400 225\n255\n");
}

#[test]
fn coordinates_run_from_zero_to_one() {
    assert_eq!(coordinate(0, fx(0.0), 2), fx(0.0));
    assert_eq!(coordinate(1, fx(0.0), 2), fx(1.0));
    assert_eq!(coordinate(0, fx(0.5), 2), fx(0.5));
    assert_eq!(coordinate(3, fx(0.5), 8), fx(0.5));
    assert_eq!(coordinate(100, fx(0.0), 401), fx(0.25));
}

#[test]
fn sample_ray_goes_through_the_pixel() {
    let r = small_renderer(1, 1);
    assert!(close(r.sample_ray(0, 0, fx(0.0), fx(0.0)).direction(), v3(-1.0, -1.0, -1.0), 1e-6));
    assert!(close(r.sample_ray(1, 1, fx(0.0), fx(0.0)).direction(), v3(1.0, 1.0, -1.0), 1e-6));
    assert!(close(r.sample_ray(0, 0, fx(0.5), fx(0.5)).direction(), v3(0.0, 0.0, -1.0), 1e-6));
}

#[test]
fn two_by_two_image_of_a_mirror_ball() {
    let r = small_renderer(1, 1);
    let samples = corner_samples();
    let first = r.render_with(&samples);
    // the top row first; the ray through the middle hits the mirror, and with
    // one bounce allowed its reflection brings back nothing
    assert_eq!(
        String::from_utf8(first.clone()).unwrap(),
        "P3\n2 2\n255\n199 223 255\n199 223 255\n0 0 0\n242 247 255\n"
    );
    // the same samples give the same image
    assert_eq!(r.render_with(&samples), first);
}

#[test]
fn with_more_bounces_the_mirror_shows_the_sky() {
    let r = small_renderer(5, 1);
    let out = r.render_with(&corner_samples());
    assert_eq!(
        String::from_utf8(out).unwrap(),
        "P3\n2 2\n255\n199 223 255\n199 223 255\n198 211 228\n242 247 255\n"
    );
}

#[test]
fn pixel_is_the_scaled_sum_of_its_samples() {
    let r = small_renderer(5, 2);
    let samples = vec![
        PixelSample { du: fx(0.0), dv: fx(0.0), draws: vec![draw(0.0, 0.0, 0.0, 0.0); 5] },
        PixelSample { du: fx(0.5), dv: fx(0.5), draws: vec![draw(0.0, 0.0, 0.0, 0.0); 5] },
    ];
    let a = ray_color_with(&r.sample_ray(0, 0, fx(0.0), fx(0.0)), &r.world, 5, &samples[0].draws);
    let b = ray_color_with(&r.sample_ray(0, 0, fx(0.5), fx(0.5)), &r.world, 5, &samples[1].draws);
    assert_eq!(r.pixel_with(0, 0, &samples), scale_color_by_samples(&(a + b), 2));
}

#[test]
fn random_image_has_the_right_shape() {
    let r = small_renderer(4, 3);
    let text = String::from_utf8(r.render()).unwrap();
    let lines: Vec<&str> = text.lines().collect();
    assert_eq!(lines.len(), 3 + 4);
    assert_eq!(&lines[..3], &["P3", "2 2", "255"]);
    for line in &lines[3..] {
        let channels: Vec<u32> = line.split(' ').map(|c| c.parse().unwrap()).collect();
        assert_eq!(channels.len(), 3);
        for c in channels {
            assert!(c <= 255);
        }
    }
    assert!(text.ends_with('\n'));
}

#[test]
fn random_pixel_of_the_sky_is_blue() {
    let mut r = small_renderer(4, 10);
    r.world = Hittable::List(HittableList::default());
    for _ in 0..10 {
        let c = r.pixel(1, 1);
        assert_eq!(c.z(), Fixed::from_ratio(999, 1000));
        assert!(val(c.x()) > 0.7 && val(c.x()) < val(c.y()));
    }
}

#[test]
fn random_draws_are_valid() {
    for _ in 0..100 {
        let d = Draw::random();
        assert!(d.v.length_squared().raw < Fixed::one().raw);
        assert!(0 <= d.u.raw && d.u.raw < Fixed::one().raw);
    }
}

#[test]
fn two_diffuse_balls_under_the_sky() {
    let zero = Fixed::zero();
    let one = Fixed::one();
    let radius = raytracer::trig::cos(raytracer::trig::degrees_to_radians(Fixed::from_int(45)));
    let blue = Material::Lambertian(Lambertian::new(&Vec3::new(zero, zero, one)));
    let red = Material::Lambertian(Lambertian::new(&Vec3::new(one, zero, zero)));
    let mut world = HittableList::default();
    world.add(Hittable::Sphere(Sphere::new(&Vec3::new(-radius, zero, -one), radius, &blue)));
    world.add(Hittable::Sphere(Sphere::new(&Vec3::new(radius, zero, -one), radius, &red)));
    let r = Renderer {
        camera: Camera::new(Fixed::from_int(90), Fixed::from_ratio(16, 9)),
        world: Hittable::List(world),
        image_width: 32,
        image_height: 18,
        samples_per_pixel: 4,
        max_depth: 10,
    };
    let text = String::from_utf8(r.render()).unwrap();
    let lines: Vec<&str> = text.lines().collect();
    assert_eq!(lines.len(), 3 + 32 * 18);
    assert_eq!(&lines[..3], &["P3", "32 18", "255"]);
    let pixel = |column: usize, row_from_top: usize| -> Vec<u32> {
        lines[3 + row_from_top * 32 + column].split(' ').map(|c| c.parse().unwrap()).collect()
    };
    // the middle of the left half shows the blue ball, that of the right half the red one
    let left = pixel(8, 9);
    let right = pixel(24, 9);
    assert!(left[0] == 0 && left[1] == 0, "{:?}", left);
    assert!(right[1] == 0 && right[2] == 0, "{:?}", right);
    // above the balls there is sky: more blue than red
    let sky = pixel(16, 0);
    assert!(sky[2] == 255 && sky[0] > 150 && sky[0] < sky[1], "{:?}", sky);
}

#[test]
fn rows_from_the_top_make_the_image() {
    // with no bounce allowed every pixel is black, whatever is drawn
    let r = small_renderer(0, 2);
    let mut by_rows = Vec::new();
    write_header(&mut by_rows, 2, 2);
    r.write_row(&mut by_rows, 0);
    r.write_row(&mut by_rows, 1);
    assert_eq!(by_rows, r.render());
    assert_eq!(String::from_utf8(by_rows).unwrap(), "P3\n2 2\n255\n0 0 0\n0 0 0\n0 0 0\n0 0 0\n");
}

#[test]
fn a_row_holds_one_line_for_each_pixel_and_keeps_what_was_written() {
    let mut r = small_renderer(3, 2);
    r.image_width = 5;
    r.world = Hittable::List(HittableList::default());
    let mut out = b"kept\n".to_vec();
    r.write_row(&mut out, 0);
    let text = String::from_utf8(out).unwrap();
    let lines: Vec<&str> = text.lines().collect();
    assert_eq!(lines.len(), 1 + 5);
    assert_eq!(lines[0], "kept");
    // the top row shows the sky: its blue is full everywhere
    for line in &lines[1..] {
        assert!(line.ends_with(" 255"), "{}", line);
    }
    // the bottom row looks down, where the sky is whiter
    let mut bottom = Vec::new();
    r.write_row(&mut bottom, 1);
    let bottom = String::from_utf8(bottom).unwrap();
    let red = |line: &str| -> u32 { line.split(' ').next().unwrap().parse().unwrap() };
    assert!(red(bottom.lines().next().unwrap()) > red(lines[1]));
}

#[test]
fn a_scattered_ray_is_never_cut_short() {
    // a mirror ball: after the bounce the ray sees the sky behind the camera,
    // never black
    let world = mirror_world();
    let r = Ray::new(&v3(0.0, 0.0, 0.0), &v3(0.0, 0.0, -1.0));
    for depth in 2..6 {
        let c = ray_color(&r, &world, depth);
        assert!(close(c, v3(0.75 * 0.8, 0.85 * 0.8, 0.8), 1e-8));
    }
    let white_mirror = Material::Metal(Metal::new(&v3(1.0, 1.0, 1.0), fx(0.0)));
    let ball = Hittable::Sphere(Sphere::new(&v3(0.0, 0.0, -1.0), fx(0.5), &white_mirror));
    assert!(close(ray_color(&r, &ball, 2), v3(0.75, 0.85, 1.0), 1e-8));
}
