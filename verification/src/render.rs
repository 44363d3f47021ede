//! The renderer: the color a ray brings back, a pixel from its samples, and
//! the image from its pixels.

use crate::camera::Camera;
use crate::color::{
    pixel_line_spec, scale_color_by_samples, scale_color_by_samples_spec, write_color, Color,
};
use crate::fixed::{Fixed, ONE_RAW};
use crate::hittable::Hittable;
use crate::material::is_unit_draw;
use crate::ppm::{header_spec, write_header};
use crate::random::uniform;
use crate::ray::Ray;
use crate::vec3::{in_unit_sphere, random_in_unit_sphere, Vec3};
use core::ops::AddAssign;
use vstd::prelude::*;

verus! {

/// What one bounce may need of chance: a point of the unit sphere and a
/// number from `[0, 1)`.
#[derive(Clone, Copy, PartialEq, Eq, Structural, Debug)]
pub struct Draw {
    pub v: Vec3,
    pub u: Fixed,
}

impl Draw {
    /// Whether the point lies inside the unit sphere and the number in
    /// `[0, 1)`.
    pub open spec fn valid(self) -> bool {
        in_unit_sphere(self.v) && is_unit_draw(self.u)
    }

    /// A draw from the thread's generator.
    pub fn random() -> (d: Draw)
        ensures
            d.valid(),
    {
        Draw { v: random_in_unit_sphere(), u: uniform(Fixed::zero(), Fixed::one()) }
    }
}

/// Whether every draw of the sequence is valid.
pub open spec fn all_valid(draws: Seq<Draw>) -> bool {
    forall|k: int| 0 <= k < draws.len() ==> (#[trigger] draws[k]).valid()
}

/// Whether the draws are valid and there is one for each of `depth`
/// bounces, so that no bounce finds the draws used up.
pub open spec fn enough_draws(draws: Seq<Draw>, depth: nat) -> bool {
    all_valid(draws) && draws.len() >= depth
}

/// The draw of the origin and of zero: a valid draw, to stand where a ray
/// takes none.
pub open spec fn idle_draw() -> Draw {
    Draw { v: Vec3::zero_spec(), u: Fixed { raw: 0 } }
}

/// `count` idle draws.
pub open spec fn idle_draws(count: nat) -> Seq<Draw> {
    Seq::new(count, |k: int| idle_draw())
}

/// Idle draws are valid draws.
pub proof fn lemma_idle_draws_are_valid(count: nat)
    ensures
        idle_draw().valid(),
        enough_draws(idle_draws(count), count),
{
    assert(in_unit_sphere(Vec3::zero_spec())) by {
        assert(0int * 0int == 0) by (nonlinear_arith);
    }
    assert forall|k: int| 0 <= k < idle_draws(count).len() implies (#[trigger] idle_draws(
        count,
    )[k]).valid() by {}
}

/// A valid draw before enough draws for `depth` bounces makes enough for one
/// bounce more.
pub proof fn lemma_one_more_draw(first: Draw, rest: Seq<Draw>, depth: nat)
    requires
        first.valid(),
        enough_draws(rest, depth),
    ensures
        enough_draws(seq![first] + rest, depth + 1),
        (seq![first] + rest)[0] == first,
        (seq![first] + rest).skip(1) == rest,
{
    let draws = seq![first] + rest;
    assert(draws.skip(1) =~= rest);
    assert forall|k: int| 0 <= k < draws.len() implies (#[trigger] draws[k]).valid() by {
        if k > 0 {
            assert(draws[k] == rest[k - 1]);
        }
    }
}

/// The color black.
pub open spec fn black() -> Color {
    Vec3::zero_spec()
}

/// The lower end of the window in which hits are looked for: 0.001. It
/// keeps a scattered ray from hitting the surface it has just left.
pub open spec fn shadow_bias() -> Fixed {
    Fixed::ratio_spec(1, 1000)
}

/// What `sky` returns: white blended into sky blue by
/// `t = 0.5 * (y + 1)`, where `y` is the height of the ray's direction.
pub open spec fn sky_spec(r: Ray) -> Color {
    let one = Fixed::int_spec(1);
    let t = Fixed::ratio_spec(1, 2).times(r.dir.direction_spec().y.plus(one));
    let white = Vec3 { x: one, y: one, z: one };
    let blue = Vec3 { x: Fixed::ratio_spec(1, 2), y: Fixed::ratio_spec(7, 10), z: one };
    white.scaled(one.minus(t)).plus(blue.scaled(t))
}

/// The color that the ray `r` brings back from the scene `world` after at
/// most `depth` bounces, where the bounces use `draws` in turn.
///
/// With no bounce left the color is black. A ray that hits nothing has the
/// color of the sky. A ray that hits a surface is scattered by the
/// material with the first draw: absorbed, it is black; scattered, it has
/// the color of the scattered ray, weakened channel by channel. A hit for
/// which no draw is left is black.
pub open spec fn ray_color_spec(world: Hittable, r: Ray, depth: nat, draws: Seq<Draw>) -> Color
    decreases depth,
{
    if depth == 0 {
        black()
    } else {
        match world.hit_spec(r, shadow_bias(), Fixed { raw: i64::MAX }) {
            None => sky_spec(r),
            Some(rec) => if draws.len() == 0 {
                black()
            } else {
                let (success, attenuation, scattered) = rec.mat.scatter_spec(
                    r,
                    rec,
                    draws[0].v,
                    draws[0].u,
                );
                if success {
                    attenuation.times(
                        ray_color_spec(world, scattered, (depth - 1) as nat, draws.skip(1)),
                    )
                } else {
                    black()
                }
            },
        }
    }
}

/// The color of the sky in the direction of the ray.
pub fn sky(r: &Ray) -> (c: Color)
    ensures
        c == sky_spec(*r),
{
    let unit_direction = r.direction().direction();
    let t = Fixed::from_ratio(1, 2) * (unit_direction.y() + Fixed::one());
    (Fixed::one() - t) * Vec3::new(Fixed::one(), Fixed::one(), Fixed::one()) + t * Vec3::new(
        Fixed::from_ratio(1, 2),
        Fixed::from_ratio(7, 10),
        Fixed::one(),
    )
}

/// The color of the ray where the bounces use the draws from `next` on.
fn ray_color_from(r: &Ray, world: &Hittable, depth: u32, draws: &Vec<Draw>, next: usize) -> (c:
    Color)
    requires
        next <= draws.len(),
    ensures
        c == ray_color_spec(*world, *r, depth as nat, draws@.skip(next as int)),
    decreases depth,
{
    if depth == 0 {
        return Vec3::default();
    }
    match world.hit(r, Fixed::from_ratio(1, 1000), Fixed::max_value()) {
        None => sky(r),
        Some(rec) => {
            if next >= draws.len() {
                return Vec3::default();
            }
            let draw = draws[next];
            let (success, attenuation, scattered) = rec.mat.scatter_with(r, &rec, &draw.v, draw.u);
            if success {
                let inner = ray_color_from(&scattered, world, depth - 1, draws, next + 1);
                proof {
                    assert(draws@.skip(next as int).skip(1) =~= draws@.skip(next + 1));
                }
                attenuation * inner
            } else {
                Vec3::default()
            }
        },
    }
}

/// The color that the ray `r` brings back from `world` after at most
/// `depth` bounces, where the bounces take their chance from `draws`, one
/// draw each.
pub fn ray_color_with(r: &Ray, world: &Hittable, depth: u32, draws: &Vec<Draw>) -> (c: Color)
    ensures
        c == ray_color_spec(*world, *r, depth as nat, draws@),
{
    assert(draws@.skip(0) =~= draws@);
    ray_color_from(r, world, depth, draws, 0)
}

/// The color that the ray `r` brings back from `world` after at most
/// `depth` bounces, each scattered at random.
///
/// With `depth` zero the color is black, whatever the ray and the scene. A
/// ray that hits nothing has the color of the sky. In every case the color
/// is what some valid draws give, one for each bounce that `depth` allows:
/// so a ray that is scattered has the weakened color of the scattered ray,
/// and is never cut short for want of a draw.
pub fn ray_color(r: &Ray, world: &Hittable, depth: u32) -> (c: Color)
    ensures
        depth == 0 ==> c == black(),
        depth > 0 && world.hit_spec(*r, shadow_bias(), Fixed { raw: i64::MAX }) is None ==> c
            == sky_spec(*r),
        exists|draws: Seq<Draw>| #[trigger]
            enough_draws(draws, depth as nat) && c == ray_color_spec(
                *world,
                *r,
                depth as nat,
                draws,
            ),
    decreases depth,
{
    if depth == 0 {
        proof {
            lemma_idle_draws_are_valid(0);
        }
        return Vec3::default();
    }
    match world.hit(r, Fixed::from_ratio(1, 1000), Fixed::max_value()) {
        None => {
            proof {
                lemma_idle_draws_are_valid(depth as nat);
                assert(sky_spec(*r) == ray_color_spec(
                    *world,
                    *r,
                    depth as nat,
                    idle_draws(depth as nat),
                ));
            }
            sky(r)
        },
        Some(rec) => {
            let (success, attenuation, scattered) = rec.mat.scatter(r, &rec);
            let ghost (v, u) = choose|v: Vec3, u: Fixed|
                in_unit_sphere(v) && is_unit_draw(u) && (success, attenuation, scattered)
                    == rec.mat.scatter_spec(*r, rec, v, u);
            let ghost first = Draw { v, u };
            if success {
                let inner = ray_color(&scattered, world, depth - 1);
                let ghost rest = choose|draws: Seq<Draw>| #[trigger]
                    enough_draws(draws, (depth - 1) as nat) && inner == ray_color_spec(
                        *world,
                        scattered,
                        (depth - 1) as nat,
                        draws,
                    );
                let c = attenuation * inner;
                proof {
                    lemma_one_more_draw(first, rest, (depth - 1) as nat);
                    let draws = seq![first] + rest;
                    assert(enough_draws(draws, depth as nat));
                    assert(c == ray_color_spec(*world, *r, depth as nat, draws));
                }
                c
            } else {
                proof {
                    // the ray is absorbed: the draws that are left stay idle
                    lemma_idle_draws_are_valid((depth - 1) as nat);
                    let rest = idle_draws((depth - 1) as nat);
                    lemma_one_more_draw(first, rest, (depth - 1) as nat);
                    let draws = seq![first] + rest;
                    assert(enough_draws(draws, depth as nat));
                    assert(black() == ray_color_spec(*world, *r, depth as nat, draws));
                }
                Vec3::default()
            }
        },
    }
}

/// The chance that one sample of a pixel uses, as a mathematical value: the
/// jitter within the pixel, and the draws of the bounces.
pub struct Path {
    pub du: Fixed,
    pub dv: Fixed,
    pub draws: Seq<Draw>,
}

impl Path {
    /// Whether both jitters lie in `[0, 1)` and the draws are valid draws,
    /// one for each of `depth` bounces.
    pub open spec fn valid(self, depth: nat) -> bool {
        is_unit_draw(self.du) && is_unit_draw(self.dv) && enough_draws(self.draws, depth)
    }
}

/// The chance that one sample of a pixel uses: the jitter within the pixel,
/// and the draws of the bounces.
pub struct PixelSample {
    pub du: Fixed,
    pub dv: Fixed,
    pub draws: Vec<Draw>,
}

impl View for PixelSample {
    type V = Path;

    open spec fn view(&self) -> Path {
        Path { du: self.du, dv: self.dv, draws: self.draws@ }
    }
}

/// The samples of one pixel as mathematical values.
pub open spec fn paths_of(samples: Seq<PixelSample>) -> Seq<Path> {
    Seq::new(samples.len(), |k: int| samples[k]@)
}

/// The samples of every pixel as mathematical values.
pub open spec fn image_paths_of(samples: Seq<Vec<PixelSample>>) -> Seq<Seq<Path>> {
    Seq::new(samples.len(), |k: int| paths_of(samples[k]@))
}

/// Whether every path of the sequence is valid for `depth` bounces.
pub open spec fn paths_valid(paths: Seq<Path>, depth: nat) -> bool {
    forall|k: int| 0 <= k < paths.len() ==> (#[trigger] paths[k]).valid(depth)
}

/// What `coordinate` returns: `(index + jitter) / (extent - 1)`.
pub open spec fn coordinate_spec(index: u32, jitter: Fixed, extent: u32) -> Fixed {
    Fixed::int_spec(index as int).plus(jitter).over(Fixed::int_spec(extent - 1))
}

/// The place of a sample along one side of the image, from 0 at the first
/// pixel to 1 at the last one. The side has at least two pixels.
pub fn coordinate(index: u32, jitter: Fixed, extent: u32) -> (r: Fixed)
    requires
        extent >= 2,
    ensures
        r == coordinate_spec(index, jitter, extent),
{
    let last = Fixed::from_int((extent - 1) as i64);
    assert(last.raw != 0) by {
        assert((extent - 1) * ONE_RAW >= ONE_RAW) by (nonlinear_arith)
            requires
                extent - 1 >= 1,
        ;
    }
    (Fixed::from_int(index as i64) + jitter) / last
}

/// All that a rendering takes: the camera, the scene, the size of the
/// image, the number of samples for each pixel and the limit of bounces.
pub struct Renderer {
    pub camera: Camera,
    pub world: Hittable,
    pub image_width: u32,
    pub image_height: u32,
    pub samples_per_pixel: u32,
    pub max_depth: u32,
}

impl Renderer {
    /// Whether the image has at least two pixels each way and every pixel at
    /// least one sample: what the divisions of a rendering need.
    pub open spec fn ready(self) -> bool {
        self.image_width >= 2 && self.image_height >= 2 && self.samples_per_pixel >= 1
    }

    /// What `sample_ray` returns.
    pub open spec fn sample_ray_spec(self, i: u32, j: u32, du: Fixed, dv: Fixed) -> Ray {
        self.camera.get_ray_spec(
            coordinate_spec(i, du, self.image_width),
            coordinate_spec(j, dv, self.image_height),
        )
    }

    /// The color of one sample of the pixel in column `i` and row `j`.
    pub open spec fn sample_spec(self, i: u32, j: u32, path: Path) -> Color {
        ray_color_spec(
            self.world,
            self.sample_ray_spec(i, j, path.du, path.dv),
            self.max_depth as nat,
            path.draws,
        )
    }

    /// The sum of the colors of the samples, added in their order.
    pub open spec fn sum_spec(self, i: u32, j: u32, paths: Seq<Path>) -> Color
        decreases paths.len(),
    {
        if paths.len() == 0 {
            black()
        } else {
            self.sum_spec(i, j, paths.drop_last()).plus(self.sample_spec(i, j, paths.last()))
        }
    }

    /// The color of the pixel in column `i` and row `j`: the sum of its
    /// samples, scaled by their number.
    #[verifier::opaque]
    pub open spec fn pixel_spec(self, i: u32, j: u32, paths: Seq<Path>) -> Color {
        scale_color_by_samples_spec(self.sum_spec(i, j, paths), self.samples_per_pixel)
    }

    /// The column of the `k`-th pixel that is written.
    pub open spec fn column(self, k: int) -> u32 {
        (k % (self.image_width as int)) as u32
    }

    /// The row of the `k`-th pixel that is written, counted from the bottom:
    /// the top row is written first.
    pub open spec fn row(self, k: int) -> u32 {
        (self.image_height - 1 - k / (self.image_width as int)) as u32
    }

    /// The lines of the first `k` pixels.
    pub open spec fn lines_spec(self, samples: Seq<Seq<Path>>, k: nat) -> Seq<u8>
        decreases k,
    {
        if k == 0 {
            Seq::<u8>::empty()
        } else {
            self.lines_spec(samples, (k - 1) as nat) + pixel_line_spec(
                self.pixel_spec(self.column(k - 1), self.row(k - 1), samples[k - 1]),
            )
        }
    }

    /// The image: the header, then one line for each pixel, row by row from
    /// the top, each row from the left.
    pub open spec fn image_spec(self, samples: Seq<Seq<Path>>) -> Seq<u8> {
        header_spec(self.image_width, self.image_height) + self.lines_spec(
            samples,
            (self.image_width * self.image_height) as nat,
        )
    }

    /// Whether each member of `samples` holds `samples_per_pixel` samples.
    pub open spec fn counts_fit(self, samples: Seq<Vec<PixelSample>>) -> bool {
        forall|k: int|
            0 <= k < samples.len() ==> (#[trigger] samples[k]).len() == self.samples_per_pixel
    }

    /// Whether `paths` holds the samples of one pixel: `samples_per_pixel`
    /// paths, each valid and with a draw for each of `max_depth` bounces.
    pub open spec fn paths_fit(self, paths: Seq<Path>) -> bool {
        paths_valid(paths, self.max_depth as nat) && paths.len() == self.samples_per_pixel
    }

    /// Whether each member of `samples` holds the samples of one pixel.
    pub open spec fn all_fit(self, samples: Seq<Seq<Path>>) -> bool {
        forall|k: int| 0 <= k < samples.len() ==> #[trigger] self.paths_fit(samples[k])
    }

    /// Whether `samples` holds the samples of every pixel of the image.
    pub open spec fn samples_fit(self, samples: Seq<Seq<Path>>) -> bool {
        samples.len() == self.image_width * self.image_height && self.all_fit(samples)
    }

    /// Samples that fit still fit with the samples of one more pixel.
    proof fn lemma_fit_push(self, all: Seq<Seq<Path>>, last: Seq<Path>)
        requires
            self.all_fit(all),
            self.paths_fit(last),
        ensures
            self.all_fit(all.push(last)),
    {
        let next = all.push(last);
        assert forall|k: int| 0 <= k < next.len() implies #[trigger] self.paths_fit(next[k]) by {
            if k < all.len() {
                assert(next[k] == all[k]);
                assert(self.paths_fit(all[k]));
            } else {
                assert(next[k] == last);
            }
        }
    }

    /// The lines of the first `k` pixels do not depend on later samples.
    proof fn lemma_lines_prefix(self, a: Seq<Seq<Path>>, b: Seq<Seq<Path>>, k: nat)
        requires
            k <= a.len(),
            k <= b.len(),
            forall|m: int| 0 <= m < k ==> a[m] == b[m],
        ensures
            self.lines_spec(a, k) == self.lines_spec(b, k),
        decreases k,
    {
        if k > 0 {
            self.lemma_lines_prefix(a, b, (k - 1) as nat);
        }
    }

    /// The lines of the first `k + 1` pixels are those of the first `k`
    /// and the line of the pixel that the paths `last` give.
    proof fn lemma_lines_push(self, all: Seq<Seq<Path>>, last: Seq<Path>, k: nat)
        requires
            k == all.len(),
        ensures
            self.lines_spec(all.push(last), k + 1) == self.lines_spec(all, k) + pixel_line_spec(
                self.pixel_spec(self.column(k as int), self.row(k as int), last),
            ),
    {
        let next = all.push(last);
        assert(next[k as int] == last);
        self.lemma_lines_prefix(all, next, k);
    }

    /// One step of writing the image: with the line of the next pixel
    /// appended, the output holds the lines of one pixel more.
    proof fn lemma_render_step(
        self,
        all: Seq<Seq<Path>>,
        last: Seq<Path>,
        before: Seq<u8>,
        after: Seq<u8>,
    )
        requires
            self.all_fit(all),
            self.paths_fit(last),
            before == header_spec(self.image_width, self.image_height) + self.lines_spec(
                all,
                all.len(),
            ),
            after == before + pixel_line_spec(
                self.pixel_spec(self.column(all.len() as int), self.row(all.len() as int), last),
            ),
        ensures
            self.all_fit(all.push(last)),
            after == header_spec(self.image_width, self.image_height) + self.lines_spec(
                all.push(last),
                all.len() + 1,
            ),
    {
        self.lemma_lines_push(all, last, all.len());
        self.lemma_fit_push(all, last);
        let header = header_spec(self.image_width, self.image_height);
        let lines = self.lines_spec(all, all.len());
        let line = pixel_line_spec(
            self.pixel_spec(self.column(all.len() as int), self.row(all.len() as int), last),
        );
        assert((header + lines) + line =~= header + (lines + line));
    }

    /// The ray through the pixel in column `i` and row `j`, moved within the
    /// pixel by the jitter `du` and `dv`.
    pub fn sample_ray(&self, i: u32, j: u32, du: Fixed, dv: Fixed) -> (r: Ray)
        requires
            self.ready(),
        ensures
            r == self.sample_ray_spec(i, j, du, dv),
    {
        let u = coordinate(i, du, self.image_width);
        let v = coordinate(j, dv, self.image_height);
        self.camera.get_ray(u, v)
    }

    /// The color of the pixel in column `i` and row `j` from the given
    /// samples, one for each of `samples_per_pixel`.
    pub fn pixel_with(&self, i: u32, j: u32, samples: &Vec<PixelSample>) -> (c: Color)
        requires
            self.ready(),
            samples.len() == self.samples_per_pixel,
        ensures
            c == self.pixel_spec(i, j, paths_of(samples@)),
    {
        let ghost paths = paths_of(samples@);
        let mut sum = Vec3::default();
        let mut s: usize = 0;
        while s < samples.len()
            invariant
                s <= samples.len(),
                self.ready(),
                paths == paths_of(samples@),
                sum == self.sum_spec(i, j, paths.take(s as int)),
            decreases samples.len() - s,
        {
            let sample = &samples[s];
            let r = self.sample_ray(i, j, sample.du, sample.dv);
            let color = ray_color_with(&r, &self.world, self.max_depth, &sample.draws);
            proof {
                let next = paths.take(s + 1);
                assert(next.drop_last() =~= paths.take(s as int));
                assert(next.last() == samples@[s as int]@);
            }
            sum.add_assign(color);
            s += 1;
        }
        assert(paths.take(samples.len() as int) =~= paths);
        reveal(Renderer::pixel_spec);
        scale_color_by_samples(&sum, self.samples_per_pixel)
    }

    /// The color of the pixel in column `i` and row `j`, from
    /// `samples_per_pixel` samples taken at random.
    pub fn pixel(&self, i: u32, j: u32) -> (c: Color)
        requires
            self.ready(),
        ensures
            exists|paths: Seq<Path>| #[trigger]
                self.paths_fit(paths) && c == self.pixel_spec(i, j, paths),
    {
        let ghost mut paths: Seq<Path> = Seq::empty();
        let mut sum = Vec3::default();
        let mut s: u32 = 0;
        while s < self.samples_per_pixel
            invariant
                s <= self.samples_per_pixel,
                self.ready(),
                paths.len() == s,
                paths_valid(paths, self.max_depth as nat),
                sum == self.sum_spec(i, j, paths),
            decreases self.samples_per_pixel - s,
        {
            let du = uniform(Fixed::zero(), Fixed::one());
            let dv = uniform(Fixed::zero(), Fixed::one());
            let r = self.sample_ray(i, j, du, dv);
            let color = ray_color(&r, &self.world, self.max_depth);
            proof {
                let draws = choose|draws: Seq<Draw>| #[trigger]
                    enough_draws(draws, self.max_depth as nat) && color == ray_color_spec(
                        self.world,
                        r,
                        self.max_depth as nat,
                        draws,
                    );
                let path = Path { du, dv, draws };
                let next = paths.push(path);
                assert(next.drop_last() =~= paths);
                assert(next.last() == path);
                assert forall|k: int| 0 <= k < next.len() implies (#[trigger] next[k]).valid(
                    self.max_depth as nat,
                ) by {
                    if k < paths.len() {
                        assert(next[k] == paths[k]);
                    }
                }
                paths = next;
            }
            sum.add_assign(color);
            s += 1;
        }
        assert(self.paths_fit(paths));
        reveal(Renderer::pixel_spec);
        scale_color_by_samples(&sum, self.samples_per_pixel)
    }

    /// The column and the row of the `k`-th pixel that is written.
    fn place(&self, k: u64) -> (p: (u32, u32))
        requires
            self.ready(),
            k < self.image_width * self.image_height,
        ensures
            p.0 == self.column(k as int),
            p.1 == self.row(k as int),
    {
        let width: u64 = self.image_width as u64;
        assert(k / width < self.image_height) by (nonlinear_arith)
            requires
                k < self.image_width * self.image_height,
                width == self.image_width,
                width >= 2,
        ;
        let i: u32 = (k % width) as u32;
        let j: u32 = self.image_height - 1 - (k / width) as u32;
        (i, j)
    }

    /// The number of pixels of the image.
    fn pixel_count(&self) -> (n: u64)
        ensures
            n == self.image_width * self.image_height,
    {
        assert(self.image_width * self.image_height <= 0xffff_ffff * 0xffff_ffff)
            by (nonlinear_arith)
            requires
                self.image_width <= 0xffff_ffff,
                self.image_height <= 0xffff_ffff,
        ;
        (self.image_width as u64) * (self.image_height as u64)
    }

    /// The image from the given samples: for each pixel, in the order in
    /// which the pixels are written, one list of `samples_per_pixel` samples.
    pub fn render_with(&self, samples: &Vec<Vec<PixelSample>>) -> (out: Vec<u8>)
        requires
            self.ready(),
            samples.len() == self.image_width * self.image_height,
            self.counts_fit(samples@),
        ensures
            out@ == self.image_spec(image_paths_of(samples@)),
    {
        let ghost all = image_paths_of(samples@);
        let mut out: Vec<u8> = Vec::new();
        write_header(&mut out, self.image_width, self.image_height);
        let total: u64 = self.pixel_count();
        let mut k: u64 = 0;
        while k < total
            invariant
                k <= total,
                self.ready(),
                total == self.image_width * self.image_height,
                samples.len() == total,
                self.counts_fit(samples@),
                all == image_paths_of(samples@),
                out@ == header_spec(self.image_width, self.image_height) + self.lines_spec(
                    all,
                    k as nat,
                ),
            decreases total - k,
        {
            let (i, j) = self.place(k);
            assert(samples@[k as int].len() == self.samples_per_pixel);
            let color = self.pixel_with(i, j, &samples[k as usize]);
            let ghost before = out@;
            write_color(&mut out, &color);
            proof {
                let header = header_spec(self.image_width, self.image_height);
                let lines = self.lines_spec(all, k as nat);
                let line = pixel_line_spec(color);
                assert(all[k as int] == paths_of(samples@[k as int]@));
                assert(self.lines_spec(all, (k + 1) as nat) == lines + line);
                assert((header + lines) + line =~= header + (lines + line));
            }
            k += 1;
        }
        out
    }

    /// The image, every sample taken at random.
    pub fn render(&self) -> (out: Vec<u8>)
        requires
            self.ready(),
        ensures
            exists|samples: Seq<Seq<Path>>| #[trigger]
                self.samples_fit(samples) && out@ == self.image_spec(samples),
    {
        let ghost mut all: Seq<Seq<Path>> = Seq::empty();
        let mut out: Vec<u8> = Vec::new();
        write_header(&mut out, self.image_width, self.image_height);
        let total: u64 = self.pixel_count();
        let mut k: u64 = 0;
        while k < total
            invariant
                k <= total,
                self.ready(),
                total == self.image_width * self.image_height,
                all.len() == k,
                self.all_fit(all),
                out@ == header_spec(self.image_width, self.image_height) + self.lines_spec(
                    all,
                    k as nat,
                ),
            decreases total - k,
        {
            let (i, j) = self.place(k);
            let color = self.pixel(i, j);
            let ghost before = out@;
            write_color(&mut out, &color);
            proof {
                let paths = choose|paths: Seq<Path>| #[trigger]
                    self.paths_fit(paths) && color == self.pixel_spec(i, j, paths);
                self.lemma_render_step(all, paths, before, out@);
                all = all.push(paths);
            }
            k += 1;
        }
        assert(self.samples_fit(all));
        out
    }

    /// The lines of the first `k` pixels of the row that is `top` rows below
    /// the top of the image, from the left.
    pub open spec fn row_spec(self, top: u32, samples: Seq<Seq<Path>>, k: nat) -> Seq<u8>
        decreases k,
    {
        if k == 0 {
            Seq::<u8>::empty()
        } else {
            self.row_spec(top, samples, (k - 1) as nat) + pixel_line_spec(
                self.pixel_spec((k - 1) as u32, (self.image_height - 1 - top) as u32, samples[k - 1]),
            )
        }
    }

    /// Whether `samples` holds the samples of every pixel of one row.
    pub open spec fn row_fits(self, samples: Seq<Seq<Path>>) -> bool {
        samples.len() == self.image_width && self.all_fit(samples)
    }

    /// The lines of the first `k` pixels of a row do not depend on later
    /// samples.
    proof fn lemma_row_prefix(self, top: u32, a: Seq<Seq<Path>>, b: Seq<Seq<Path>>, k: nat)
        requires
            k <= a.len(),
            k <= b.len(),
            forall|m: int| 0 <= m < k ==> a[m] == b[m],
        ensures
            self.row_spec(top, a, k) == self.row_spec(top, b, k),
        decreases k,
    {
        if k > 0 {
            self.lemma_row_prefix(top, a, b, (k - 1) as nat);
        }
    }

    /// One step of writing a row: with the line of the next pixel appended,
    /// the output holds the lines of one pixel more.
    proof fn lemma_row_step(
        self,
        top: u32,
        row: Seq<Seq<Path>>,
        last: Seq<Path>,
        start: Seq<u8>,
        before: Seq<u8>,
        after: Seq<u8>,
    )
        requires
            self.all_fit(row),
            self.paths_fit(last),
            before == start + self.row_spec(top, row, row.len()),
            after == before + pixel_line_spec(
                self.pixel_spec(row.len() as u32, (self.image_height - 1 - top) as u32, last),
            ),
        ensures
            self.all_fit(row.push(last)),
            after == start + self.row_spec(top, row.push(last), row.len() + 1),
    {
        let next = row.push(last);
        assert(next[row.len() as int] == last);
        self.lemma_row_prefix(top, row, next, row.len());
        self.lemma_fit_push(row, last);
        let lines = self.row_spec(top, row, row.len());
        let line = pixel_line_spec(
            self.pixel_spec(row.len() as u32, (self.image_height - 1 - top) as u32, last),
        );
        assert((start + lines) + line =~= start + (lines + line));
    }

    /// The image is its rows, from the top: the lines of the pixels up to
    /// pixel `k` of row `top` are those up to the start of that row and
    /// then the lines of the first `k` pixels of the row.
    pub proof fn lemma_lines_by_rows(self, samples: Seq<Seq<Path>>, top: u32, k: nat)
        requires
            self.ready(),
            top < self.image_height,
            k <= self.image_width,
            samples.len() >= top * self.image_width + self.image_width,
        ensures
            top * self.image_width >= 0,
            self.lines_spec(samples, (top * self.image_width + k) as nat) == self.lines_spec(
                samples,
                (top * self.image_width) as nat,
            ) + self.row_spec(
                top,
                samples.subrange(
                    top * self.image_width as int,
                    top * self.image_width + self.image_width as int,
                ),
                k,
            ),
        decreases k,
    {
        let width = self.image_width as int;
        let start = top * width;
        assert(start >= 0) by (nonlinear_arith)
            requires
                start == top * width,
                width >= 0,
                top >= 0,
        ;
        let row = samples.subrange(start, start + width);
        let before = self.lines_spec(samples, start as nat);
        if k == 0 {
            assert(before + Seq::<u8>::empty() =~= before);
        } else {
            self.lemma_lines_by_rows(samples, top, (k - 1) as nat);
            let at = start + k - 1;
            assert(at == top * width + (k - 1));
            vstd::arithmetic::div_mod::lemma_fundamental_div_mod_converse(
                at,
                width,
                top as int,
                k - 1,
            );
            assert(self.column(at) == (k - 1) as u32);
            assert(self.row(at) == (self.image_height - 1 - top) as u32);
            assert(row[k - 1] == samples[at]);
            let line = pixel_line_spec(self.pixel_spec(self.column(at), self.row(at), samples[at]));
            let part = self.row_spec(top, row, (k - 1) as nat);
            assert(self.lines_spec(samples, (at + 1) as nat) == self.lines_spec(
                samples,
                at as nat,
            ) + line);
            assert(self.row_spec(top, row, k) == part + line);
            assert((before + part) + line =~= before + (part + line));
        }
    }

    /// Appends to `out` the lines of the row that is `top` rows below the
    /// top of the image, every sample taken at random: one line for each
    /// pixel, from the left.
    pub fn write_row(&self, out: &mut Vec<u8>, top: u32)
        requires
            self.ready(),
            top < self.image_height,
        ensures
            exists|samples: Seq<Seq<Path>>| #[trigger]
                self.row_fits(samples) && final(out)@ == old(out)@ + self.row_spec(
                    top,
                    samples,
                    self.image_width as nat,
                ),
    {
        let ghost start = out@;
        let ghost mut row: Seq<Seq<Path>> = Seq::empty();
        let j: u32 = self.image_height - 1 - top;
        let mut i: u32 = 0;
        assert(out@ =~= start + self.row_spec(top, row, 0));
        while i < self.image_width
            invariant
                i <= self.image_width,
                self.ready(),
                top < self.image_height,
                j == self.image_height - 1 - top,
                row.len() == i,
                self.all_fit(row),
                out@ == start + self.row_spec(top, row, i as nat),
            decreases self.image_width - i,
        {
            let color = self.pixel(i, j);
            let ghost before = out@;
            write_color(out, &color);
            proof {
                let paths = choose|paths: Seq<Path>| #[trigger]
                    self.paths_fit(paths) && color == self.pixel_spec(i, j, paths);
                self.lemma_row_step(top, row, paths, start, before, out@);
                row = row.push(paths);
            }
            i += 1;
        }
        assert(self.row_fits(row));
    }
}

} // verus!
