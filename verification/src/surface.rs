//! Why a hit lies on the surface of its sphere.
//!
//! The parameter of a hit is a root of the quadratic
//! `a * t^2 + 2 * half_b * t + c` that the sphere and the ray give. Here it
//! is shown that the root which `Sphere::hit` computes solves that
//! quadratic up to rounding, that the point of the ray at that parameter
//! lies on the sphere, on which side it is hit, and that the normal has unit
//! length.
//!
//! The first half of the file is about a ray as it stands, whose direction
//! has a squared length that is not rounded to zero. The second half
//! carries each result over to any ray with a direction, through the ray
//! with the lengthened direction for which `Sphere::hit` forms the roots:
//! the two rays have the same points, and the lengthened one always has a
//! squared length of a quarter or more.
//!
//! A ray whose direction has a component above one is shortened first. The
//! third part of the file says what that costs: the point of the ray as
//! given is within a step of its own direction of the point of the
//! shortened ray, and each result comes again with that slip added.
//!
//! Then come the two statements that put the results together for what
//! `Sphere::hit` returns in a scene of moderate size, where nothing
//! saturates: `lemma_hit_in_a_moderate_scene` and
//! `lemma_long_hit_in_a_moderate_scene`. The file ends with the ray that is
//! aimed at the center of the sphere: it is hit where the center is as far
//! as the radius.

use crate::accuracy::{components_within, fits, lemma_weighted_sum_bound, raw_norm1};
use crate::fixed::{
    lemma_abs_mul, lemma_quotient_error, lemma_sqrt_is_floor, lemma_sqrt_is_not_negative, quotient,
    ONE_RAW,
};
use crate::ray::Ray;
use crate::sphere::Sphere;
use crate::hittable::HitRecord;
use crate::vec3::{dot_spec, raw_dot};
use vstd::math::abs;
use vstd::prelude::*;

verus! {

/// The numerator of a root: `-half_b - sqrt(discriminant)`, or with `far`
/// `-half_b + sqrt(discriminant)`, over the integers.
pub open spec fn root_numerator(s: Sphere, r: Ray, far: bool) -> int {
    if far {
        -s.half_b(r).raw + s.discriminant(r).sqrt_spec().raw
    } else {
        -s.half_b(r).raw - s.discriminant(r).sqrt_spec().raw
    }
}

/// Whether the root is computed without saturation.
pub open spec fn root_fits(s: Sphere, r: Ray, far: bool) -> bool {
    let one = ONE_RAW as int;
    let a = s.quad_a(r).raw as int;
    let h = s.half_b(r).raw as int;
    let c = s.quad_c(r).raw as int;
    &&& fits(quotient(h * h, one))
    &&& fits(quotient(a * c, one))
    &&& fits(quotient(h * h, one) - quotient(a * c, one))
    &&& fits(-h)
    &&& fits(root_numerator(s, r, far))
    &&& fits(quotient(root_numerator(s, r, far) * one, a))
}

/// What is left of the quadratic at the parameter `t`, all in raw values:
/// `2^96` times `a * t^2 + 2 * half_b * t + c`.
pub open spec fn residual(s: Sphere, r: Ray, t: int) -> int {
    let one = ONE_RAW as int;
    s.quad_a(r).raw * (t * t) + 2 * ((s.half_b(r).raw * one) * t) + s.quad_c(r).raw * (one * one)
}

/// The algebra of a root: with the errors of the four roundings named, `a`
/// times what is left of the quadratic is made of those errors alone.
proof fn lemma_root_algebra(
    one: int,
    a: int,
    h: int,
    c: int,
    t: int,
    sq: int,
    side: int,
    qh: int,
    qac: int,
    r1: int,
    r2: int,
    r3: int,
    r4: int,
)
    requires
        side == 1 || side == -1,
        a * t == (side * sq - h) * one - r1,
        one * qh == h * h - r2,
        one * qac == a * c - r3,
        sq * sq == (qh - qac) * one - r4,
    ensures
        a * (a * (t * t) + 2 * ((h * one) * t) + c * (one * one)) == (r3 - r2 - r4) * (one * one)
            - 2 * (side * ((sq * one) * r1)) + r1 * r1,
{
    let oo = one * one;
    // g = a * t + h * one = side * sq * one - r1
    let g = a * t + h * one;
    assert(g == side * (sq * one) - r1) by (nonlinear_arith)
        requires
            g == a * t + h * one,
            a * t == (side * sq - h) * one - r1,
    ;
    // the square of g, from its two forms
    let k = sq * one;
    assert(g * g == (side * k) * (side * k) - 2 * ((side * k) * r1) + r1 * r1) by (nonlinear_arith)
        requires
            g == side * k - r1,
    ;
    assert((side * k) * (side * k) == k * k) by (nonlinear_arith)
        requires
            side == 1 || side == -1,
    ;
    assert((side * k) * r1 == side * (k * r1)) by (nonlinear_arith);
    assert(k * k == (sq * sq) * oo) by (nonlinear_arith)
        requires
            k == sq * one,
            oo == one * one,
    ;
    let d = qh - qac;
    assert((sq * sq) * oo == (d * one) * oo - r4 * oo) by (nonlinear_arith)
        requires
            sq * sq == d * one - r4,
    ;
    assert((d * one) * oo == (one * d) * oo && one * d == one * qh - one * qac)
        by (nonlinear_arith)
        requires
            d == qh - qac,
    ;
    let e = h * h - a * c - r2 + r3;
    assert(one * d == e);
    assert(e * oo == (h * h) * oo - (a * c) * oo - r2 * oo + r3 * oo) by (nonlinear_arith)
        requires
            e == h * h - a * c - r2 + r3,
    ;
    let at = a * t;
    let ho = h * one;
    assert(g * g == at * at + 2 * (at * ho) + ho * ho) by (nonlinear_arith)
        requires
            g == at + ho,
    ;
    assert(at * at == a * (a * (t * t)) && at * ho == a * ((h * one) * t) && ho * ho == (h * h)
        * oo) by (nonlinear_arith)
        requires
            at == a * t,
            ho == h * one,
            oo == one * one,
    ;
    assert((a * c) * oo == a * (c * oo)) by (nonlinear_arith);
    assert(a * (a * (t * t) + 2 * ((h * one) * t) + c * oo) == a * (a * (t * t)) + 2 * (a * ((h
        * one) * t)) + a * (c * oo)) by (nonlinear_arith);
    assert((r3 - r2 - r4) * oo == r3 * oo - r2 * oo - r4 * oo) by (nonlinear_arith);
}

/// The root that a hit takes solves the quadratic of its sphere and ray,
/// up to rounding.
///
/// Where the root is computed without saturation, with `a` the squared
/// length of the direction, `d` the root of the discriminant and `t` the
/// root, all as real numbers: `a * |a * t^2 + 2 * half_b * t + c|` is at
/// most `2^-32` times `2 * (1 + d) + 2 * d * a + a^2`. For a direction of
/// unit length that leaves `2^-32` times `3 + 4 * d`.
pub proof fn lemma_root_solves_quadratic(s: Sphere, r: Ray, far: bool)
    requires
        s.has_roots(r),
        root_fits(s, r, far),
    ensures
        ({
            let one = ONE_RAW as int;
            let a = s.quad_a(r).raw as int;
            let sq = s.discriminant(r).sqrt_spec().raw as int;
            let t = s.root(r, far).raw as int;
            &&& a > 0
            &&& sq >= 0
            &&& a * abs(residual(s, r, t)) <= 2 * ((one + sq) * (one * one)) + 2 * ((sq * one) * a)
                + a * a
        }),
{
    let one = ONE_RAW as int;
    let a = s.quad_a(r).raw as int;
    let h = s.half_b(r).raw as int;
    let c = s.quad_c(r).raw as int;
    assert(raw_dot(r.dir, r.dir) >= 0) by (nonlinear_arith)
        requires
            raw_dot(r.dir, r.dir) == r.dir.x.raw * r.dir.x.raw + r.dir.y.raw * r.dir.y.raw
                + r.dir.z.raw * r.dir.z.raw,
    ;
    assert(a > 0);
    // the discriminant and its root
    let qh = quotient(h * h, one);
    let qac = quotient(a * c, one);
    lemma_quotient_error(h * h, one);
    lemma_quotient_error(a * c, one);
    assert(h * h >= 0) by (nonlinear_arith);
    let r2 = h * h - one * qh;
    let r3 = a * c - one * qac;
    let disc = s.discriminant(r);
    assert(disc.raw == qh - qac);
    let sq = disc.sqrt_spec().raw as int;
    let r4 = (qh - qac) * one - sq * sq;
    if disc.raw > 0 {
        lemma_sqrt_is_floor(disc);
        assert((sq + 1) * (sq + 1) == sq * sq + 2 * sq + 1) by (nonlinear_arith);
    } else {
        assert(sq == 0);
        assert(sq * sq == 0 && (qh - qac) * one == 0) by (nonlinear_arith)
            requires
                sq == 0,
                qh - qac == 0,
        ;
    }
    assert(0 <= r4 <= 2 * sq);
    // the root
    let side: int = if far {
        1
    } else {
        -1
    };
    let num = root_numerator(s, r, far);
    assert(num == side * sq - h) by (nonlinear_arith)
        requires
            side == 1 || side == -1,
            num == (if side == 1 {
                -h + sq
            } else {
                -h - sq
            }),
    ;
    lemma_quotient_error(num * one, a);
    let t = quotient(num * one, a);
    assert(s.root(r, far).raw == t);
    let r1 = num * one - a * t;
    lemma_root_algebra(one, a, h, c, t, sq, side, qh, qac, r1, r2, r3, r4);
    // the errors, bounded
    let oo = one * one;
    let part1 = (r3 - r2 - r4) * oo;
    let part2 = 2 * (side * ((sq * one) * r1));
    let part3 = r1 * r1;
    assert(oo >= 1);
    lemma_abs_mul(r3 - r2 - r4, oo);
    assert(abs(part1) <= (2 * one + 2 * sq) * oo) by (nonlinear_arith)
        requires
            abs(part1) == abs(r3 - r2 - r4) * abs(oo),
            abs(oo) == oo,
            oo >= 1,
            0 <= abs(r3 - r2 - r4) <= 2 * one + 2 * sq,
    ;
    lemma_abs_mul(sq * one, r1);
    lemma_abs_mul(side, (sq * one) * r1);
    assert(sq * one >= 0) by (nonlinear_arith)
        requires
            sq >= 0,
            one >= 0,
    ;
    lemma_abs_mul(2, side * ((sq * one) * r1));
    assert(abs(part2) <= 2 * ((sq * one) * a)) by (nonlinear_arith)
        requires
            abs(part2) == 2 * (abs(side) * (abs(sq * one) * abs(r1))),
            abs(side) == 1,
            abs(sq * one) == sq * one,
            sq * one >= 0,
            0 <= abs(r1) < a,
    ;
    assert(0 <= part3 <= a * a) by (nonlinear_arith)
        requires
            part3 == r1 * r1,
            -a < r1 < a,
    ;
    let left = a * residual(s, r, t);
    assert(left == part1 - part2 + part3);
    lemma_abs_mul(a, residual(s, r, t));
    assert((2 * one + 2 * sq) * oo == 2 * ((one + sq) * oo)) by (nonlinear_arith);
}

/// Whether the three coefficients of the quadratic are computed without
/// saturation.
pub open spec fn coefficients_fit(s: Sphere, r: Ray) -> bool {
    let one = ONE_RAW as int;
    let oc = s.oc(r);
    &&& fits(quotient(raw_dot(r.dir, r.dir), one))
    &&& fits(quotient(raw_dot(oc, r.dir), one))
    &&& fits(quotient(raw_dot(oc, oc), one))
    &&& fits(quotient(s.radius.raw * s.radius.raw, one))
    &&& fits(quotient(raw_dot(oc, oc), one) - quotient(s.radius.raw * s.radius.raw, one))
}

/// How far the point of the ray at the parameter `t` is from the surface,
/// all in raw values and with nothing rounded: `2^128` times
/// `|oc + t * dir|^2 - radius^2`, written out as
/// `|dir|^2 * t^2 + 2 * dot(oc, dir) * t + |oc|^2 - radius^2`.
pub open spec fn off_surface(s: Sphere, r: Ray, t: int) -> int {
    let one = ONE_RAW as int;
    let oc = s.oc(r);
    raw_dot(r.dir, r.dir) * (t * t) + 2 * ((raw_dot(oc, r.dir) * one) * t) + (raw_dot(oc, oc)
        - s.radius.raw * s.radius.raw) * (one * one)
}

/// The algebra between the quadratic of the rounded coefficients and the
/// exact one.
proof fn lemma_coefficients_algebra(
    one: int,
    a: int,
    h: int,
    c: int,
    t: int,
    dd: int,
    ud: int,
    uu: int,
    rr: int,
    ea: int,
    eh: int,
    ec: int,
)
    requires
        one * a == dd - ea,
        one * h == ud - eh,
        one * c == uu - rr - ec,
    ensures
        dd * (t * t) + 2 * ((ud * one) * t) + (uu - rr) * (one * one) == one * (a * (t * t) + 2 * ((h
            * one) * t) + c * (one * one)) + (ea * (t * t) + 2 * ((eh * one) * t) + ec * (one
            * one)),
{
    let oo = one * one;
    let tt = t * t;
    assert(dd * tt == (one * a) * tt + ea * tt) by (nonlinear_arith)
        requires
            one * a == dd - ea,
    ;
    assert((ud * one) * t == ((one * h) * one) * t + (eh * one) * t) by (nonlinear_arith)
        requires
            one * h == ud - eh,
    ;
    assert((uu - rr) * oo == (one * c) * oo + ec * oo) by (nonlinear_arith)
        requires
            one * c == uu - rr - ec,
    ;
    let (x, y, z) = (a * tt, (h * one) * t, c * oo);
    assert(one * (x + 2 * y + z) == one * x + 2 * (one * y) + one * z) by (nonlinear_arith);
    assert(one * x == (one * a) * tt) by (nonlinear_arith)
        requires
            x == a * tt,
    ;
    assert(one * y == ((one * h) * one) * t) by (nonlinear_arith)
        requires
            y == (h * one) * t,
    ;
    assert(one * z == (one * c) * oo) by (nonlinear_arith)
        requires
            z == c * oo,
    ;
}

/// The point of the ray at the parameter of a hit lies on the sphere, up
/// to rounding.
///
/// Where nothing is saturated, with `a` the squared length of the
/// direction, `d` the root of the discriminant and `t` the root, all as
/// real numbers, and with `oc + t * dir` taken exactly:
/// `a * ||oc + t * dir|^2 - radius^2|` is at most `2^-32` times
/// `2 * (1 + d) + 2 * d * a + a^2 + a * ((|t| + 1)^2 + 1)`. So the parameter of
/// a hit is a parameter at which the ray meets the surface: for a
/// direction of unit length, its distance to the surface along the ray.
pub proof fn lemma_hit_point_is_on_the_surface(s: Sphere, r: Ray, far: bool)
    requires
        s.has_roots(r),
        coefficients_fit(s, r),
        root_fits(s, r, far),
    ensures
        ({
            let one = ONE_RAW as int;
            let a = s.quad_a(r).raw as int;
            let sq = s.discriminant(r).sqrt_spec().raw as int;
            let t = s.root(r, far).raw as int;
            let reach = abs(t) + one;
            &&& a > 0
            &&& sq >= 0
            &&& a * abs(off_surface(s, r, t)) <= one * (2 * ((one + sq) * (one * one)) + 2 * ((sq
                * one) * a) + a * a) + a * (one * (reach * reach) + one * (one * one))
        }),
{
    let one = ONE_RAW as int;
    let oo = one * one;
    let oc = s.oc(r);
    let a = s.quad_a(r).raw as int;
    let h = s.half_b(r).raw as int;
    let c = s.quad_c(r).raw as int;
    let t = s.root(r, far).raw as int;
    let sq = s.discriminant(r).sqrt_spec().raw as int;
    lemma_root_solves_quadratic(s, r, far);
    let (dd, ud, uu) = (raw_dot(r.dir, r.dir), raw_dot(oc, r.dir), raw_dot(oc, oc));
    let rr = s.radius.raw * s.radius.raw;
    lemma_quotient_error(dd, one);
    lemma_quotient_error(ud, one);
    lemma_quotient_error(uu, one);
    lemma_quotient_error(rr, one);
    let ea = dd - one * a;
    let eh = ud - one * h;
    let ec = uu - rr - one * c;
    assert(-one < ea < one && -one < eh < one && -(2 * one) < ec < 2 * one);
    lemma_coefficients_algebra(one, a, h, c, t, dd, ud, uu, rr, ea, eh, ec);
    let res = residual(s, r, t);
    let extra = ea * (t * t) + 2 * ((eh * one) * t) + ec * oo;
    assert(off_surface(s, r, t) == one * res + extra);
    // the part of the coefficients: at most one * (|t| + one)^2
    let reach = abs(t) + one;
    assert(t * t == abs(t) * abs(t)) by (nonlinear_arith);
    lemma_abs_mul(ea, t * t);
    lemma_abs_mul(eh * one, t);
    lemma_abs_mul(eh, one);
    lemma_abs_mul(ec, oo);
    let at = abs(t) as int;
    assert(abs(ea * (t * t)) <= one * (at * at)) by (nonlinear_arith)
        requires
            abs(ea * (t * t)) == abs(ea) * abs(t * t),
            abs(t * t) == at * at,
            t * t == at * at,
            0 <= abs(ea) <= one,
            at >= 0,
    ;
    assert(abs((eh * one) * t) <= oo * at) by (nonlinear_arith)
        requires
            abs((eh * one) * t) == abs(eh * one) * abs(t),
            abs(eh * one) == abs(eh) * abs(one),
            abs(one) == one,
            abs(t) == at,
            0 <= abs(eh) <= one,
            at >= 0,
            oo == one * one,
            one >= 1,
    ;
    assert(abs(ec * oo) <= 2 * (one * oo)) by (nonlinear_arith)
        requires
            abs(ec * oo) == abs(ec) * abs(oo),
            abs(oo) == oo,
            0 <= abs(ec) <= 2 * one,
            oo >= 0,
    ;
    assert(one * (reach * reach) == one * (at * at) + 2 * (oo * at) + one * oo)
        by (nonlinear_arith)
        requires
            reach == at + one,
            oo == one * one,
    ;
    assert(abs(extra) <= one * (reach * reach) + one * oo);
    // together
    lemma_abs_mul(one, res);
    lemma_abs_mul(a, one * res + extra);
    assert(a * abs(one * res + extra) <= one * (a * abs(res)) + a * abs(extra))
        by (nonlinear_arith)
        requires
            abs(one * res + extra) <= one * abs(res) + abs(extra),
            a > 0,
    ;
    assert(a * abs(extra) <= a * (one * (reach * reach) + one * oo)) by (nonlinear_arith)
        requires
            abs(extra) <= one * (reach * reach) + one * oo,
            a > 0,
    ;
    let bound = 2 * ((one + sq) * oo) + 2 * ((sq * one) * a) + a * a;
    assert(one * (a * abs(res)) <= one * bound) by (nonlinear_arith)
        requires
            a * abs(res) <= bound,
            one >= 1,
    ;
}

/// Whether one component of the record of a hit at the parameter `t` is
/// computed without saturation: the step along the ray, the point, the
/// vector from the center to the point, and the normal.
pub open spec fn component_fits(origin: int, center: int, direction: int, radius: int, t: int)
    -> bool {
    let one = ONE_RAW as int;
    let step = quotient(direction * t, one);
    &&& fits(origin - center)
    &&& fits(step)
    &&& fits(origin + step)
    &&& fits(origin + step - center)
    &&& fits(quotient((origin + step - center) * one, radius))
}

/// Whether the record of a hit at the parameter `t` is computed without
/// saturation.
pub open spec fn record_fits(s: Sphere, r: Ray, t: int) -> bool {
    &&& component_fits(
        r.orig.x.raw as int,
        s.center.x.raw as int,
        r.dir.x.raw as int,
        s.radius.raw as int,
        t,
    )
    &&& component_fits(
        r.orig.y.raw as int,
        s.center.y.raw as int,
        r.dir.y.raw as int,
        s.radius.raw as int,
        t,
    )
    &&& component_fits(
        r.orig.z.raw as int,
        s.center.z.raw as int,
        r.dir.z.raw as int,
        s.radius.raw as int,
        t,
    )
}

/// How large the root of the discriminant has to be for the side of a hit
/// to show through the rounding, in raw values times `2^64`: as real
/// numbers, `2^-32` times `a + 1 + |t| + (1 + radius) * |dir|_1 + radius`,
/// where `|dir|_1` is the sum of the absolute values of the components of
/// the direction.
pub open spec fn face_margin(s: Sphere, r: Ray, t: int) -> int {
    let one = ONE_RAW as int;
    one * s.quad_a(r).raw + one * one + one * abs(t) + one * raw_norm1(r.dir) + s.radius.raw
        * raw_norm1(r.dir) + s.radius.raw * one
}

/// One component of a record, over the integers: the step `m` along the
/// ray, the vector `w` from the center to the point and the normal `n`,
/// with the errors `e` and `f` of the two roundings.
proof fn lemma_record_component(origin: int, center: int, direction: int, radius: int, t: int)
    -> (parts: (int, int, int, int, int))
    requires
        radius > 0,
        component_fits(origin, center, direction, radius, t),
    ensures
        ({
            let one = ONE_RAW as int;
            let (m, e, w, n, f) = parts;
            &&& m == quotient(direction * t, one)
            &&& direction * t == one * m + e
            &&& -one < e < one
            &&& w == (origin - center) + m
            &&& n == quotient(w * one, radius)
            &&& w * one == radius * n + f
            &&& -radius < f < radius
        }),
{
    let one = ONE_RAW as int;
    let m = quotient(direction * t, one);
    lemma_quotient_error(direction * t, one);
    let w = origin + m - center;
    let n = quotient(w * one, radius);
    lemma_quotient_error(w * one, radius);
    (m, direction * t - one * m, w, n, w * one - radius * n)
}

/// The algebra of the side of a hit: the dot product of the direction with
/// the normal, times the radius, is the root of the discriminant with its
/// sign, up to the errors of the roundings.
proof fn lemma_face_algebra(
    one: int,
    a: int,
    h: int,
    t: int,
    root: int,
    r1: int,
    ea: int,
    eh: int,
    radius: int,
    d: (int, int, int),
    u: (int, int, int),
    m: (int, int, int),
    e: (int, int, int),
    w: (int, int, int),
    n: (int, int, int),
    f: (int, int, int),
)
    requires
        a * t == (root - h) * one - r1,
        d.0 * d.0 + d.1 * d.1 + d.2 * d.2 == one * a + ea,
        u.0 * d.0 + u.1 * d.1 + u.2 * d.2 == one * h + eh,
        d.0 * t == one * m.0 + e.0,
        d.1 * t == one * m.1 + e.1,
        d.2 * t == one * m.2 + e.2,
        w.0 == u.0 + m.0,
        w.1 == u.1 + m.1,
        w.2 == u.2 + m.2,
        w.0 * one == radius * n.0 + f.0,
        w.1 * one == radius * n.1 + f.1,
        w.2 * one == radius * n.2 + f.2,
    ensures
        radius * (d.0 * n.0 + d.1 * n.1 + d.2 * n.2) == root * (one * one) - one * r1 + one * eh + ea
            * t - (e.0 * d.0 + e.1 * d.1 + e.2 * d.2) - (f.0 * d.0 + f.1 * d.1 + f.2 * d.2),
{
    // radius * d.n = one * d.w - f.d
    lemma_face_term(one, radius, d.0, w.0, n.0, f.0);
    lemma_face_term(one, radius, d.1, w.1, n.1, f.1);
    lemma_face_term(one, radius, d.2, w.2, n.2, f.2);
    let dn = d.0 * n.0 + d.1 * n.1 + d.2 * n.2;
    let dw = d.0 * w.0 + d.1 * w.1 + d.2 * w.2;
    let fd = f.0 * d.0 + f.1 * d.1 + f.2 * d.2;
    assert(radius * dn == radius * (d.0 * n.0) + radius * (d.1 * n.1) + radius * (d.2 * n.2))
        by (nonlinear_arith)
        requires
            dn == d.0 * n.0 + d.1 * n.1 + d.2 * n.2,
    ;
    assert(one * dw == one * (d.0 * w.0) + one * (d.1 * w.1) + one * (d.2 * w.2))
        by (nonlinear_arith)
        requires
            dw == d.0 * w.0 + d.1 * w.1 + d.2 * w.2,
    ;
    assert(radius * dn == one * dw - fd);
    // one * d.w = one * u.d + dd * t - e.d
    lemma_step_term(one, d.0, u.0, m.0, e.0, w.0, t);
    lemma_step_term(one, d.1, u.1, m.1, e.1, w.1, t);
    lemma_step_term(one, d.2, u.2, m.2, e.2, w.2, t);
    let ud = u.0 * d.0 + u.1 * d.1 + u.2 * d.2;
    let dd = d.0 * d.0 + d.1 * d.1 + d.2 * d.2;
    let ed = e.0 * d.0 + e.1 * d.1 + e.2 * d.2;
    assert(one * ud == one * (u.0 * d.0) + one * (u.1 * d.1) + one * (u.2 * d.2))
        by (nonlinear_arith)
        requires
            ud == u.0 * d.0 + u.1 * d.1 + u.2 * d.2,
    ;
    assert(dd * t == (d.0 * d.0) * t + (d.1 * d.1) * t + (d.2 * d.2) * t) by (nonlinear_arith)
        requires
            dd == d.0 * d.0 + d.1 * d.1 + d.2 * d.2,
    ;
    assert(one * dw == one * ud + dd * t - ed);
    // one * u.d + dd * t = one * (a * t + h * one) + one * eh + ea * t
    assert(one * ud == one * (one * h) + one * eh) by (nonlinear_arith)
        requires
            ud == one * h + eh,
    ;
    assert(dd * t == (one * a) * t + ea * t) by (nonlinear_arith)
        requires
            dd == one * a + ea,
    ;
    assert((one * a) * t == one * (a * t)) by (nonlinear_arith);
    assert(one * (a * t) == one * ((root - h) * one) - one * r1) by (nonlinear_arith)
        requires
            a * t == (root - h) * one - r1,
    ;
    assert(one * ((root - h) * one) == root * (one * one) - one * (one * h)) by (nonlinear_arith);
}

/// One term of `radius * dot(dir, normal)`.
proof fn lemma_face_term(one: int, radius: int, d: int, w: int, n: int, f: int)
    requires
        w * one == radius * n + f,
    ensures
        radius * (d * n) == one * (d * w) - f * d,
{
    assert(d * (w * one) == d * (radius * n) + d * f) by (nonlinear_arith)
        requires
            w * one == radius * n + f,
    ;
    assert(d * (w * one) == one * (d * w) && d * (radius * n) == radius * (d * n) && d * f == f * d)
        by (nonlinear_arith);
}

/// One term of `2^32 * dot(dir, w)`.
proof fn lemma_step_term(one: int, d: int, u: int, m: int, e: int, w: int, t: int)
    requires
        d * t == one * m + e,
        w == u + m,
    ensures
        one * (d * w) == one * (u * d) + (d * d) * t - e * d,
{
    assert(d * w == u * d + d * m) by (nonlinear_arith)
        requires
            w == u + m,
    ;
    assert(one * (d * m) == d * (one * m)) by (nonlinear_arith);
    assert(d * (one * m) == d * (d * t) - d * e) by (nonlinear_arith)
        requires
            d * t == one * m + e,
    ;
    assert(d * (d * t) == (d * d) * t && d * e == e * d) by (nonlinear_arith);
    assert(one * (d * w) == one * (u * d) + one * (d * m)) by (nonlinear_arith)
        requires
            d * w == u * d + d * m,
    ;
}

/// The bound of the side of a hit: where the root of the discriminant is
/// at least the margin, the errors of the roundings cannot turn the sign.
/// What the steps along the ray are off beyond their rounding is `extra`,
/// and `depth` is how far from zero the dot product is to be.
proof fn lemma_face_bound(
    one: int,
    a: int,
    t: int,
    sq: int,
    r1: int,
    ea: int,
    eh: int,
    radius: int,
    d1: int,
    ed: int,
    fd: int,
    dn: int,
    side: int,
    extra: int,
    depth: int,
)
    requires
        one >= 1,
        radius > 0,
        a > 0,
        d1 >= 0,
        extra >= 0,
        -a < r1 < a,
        -one < ea < one,
        -one < eh < one,
        abs(ed) <= (one - 1) * d1 + extra,
        abs(fd) <= (radius - 1) * d1,
        sq * (one * one) >= one * a + one * one + one * abs(t) + one * d1 + radius * d1 + radius
            * depth + extra,
        side == 1 || side == -1,
        radius * dn == (side * sq) * (one * one) - one * r1 + one * eh + ea * t - ed - fd,
    ensures
        side == -1 ==> dn <= -depth,
        side == 1 ==> dn >= depth,
{
    let oo = one * one;
    lemma_abs_mul(ea, t);
    assert(abs(ea * t) <= one * abs(t)) by (nonlinear_arith)
        requires
            abs(ea * t) == abs(ea) * abs(t),
            0 <= abs(ea) <= one,
            abs(t) >= 0,
    ;
    assert((one - 1) * d1 <= one * d1 && (radius - 1) * d1 <= radius * d1) by (nonlinear_arith)
        requires
            d1 >= 0,
    ;
    assert(-(one * a) < one * r1 < one * a && -oo < one * eh < oo) by (nonlinear_arith)
        requires
            -a < r1 < a,
            -one < eh < one,
            one >= 1,
            oo == one * one,
    ;
    if side == -1 {
        assert((side * sq) * oo == -(sq * oo)) by (nonlinear_arith)
            requires
                side == -1,
        ;
        assert(radius * dn <= -(radius * depth));
        assert(dn <= -depth) by (nonlinear_arith)
            requires
                radius * dn <= -(radius * depth),
                radius > 0,
        ;
    } else {
        assert((side * sq) * oo == sq * oo) by (nonlinear_arith)
            requires
                side == 1,
        ;
        assert(radius * dn >= radius * depth);
        assert(dn >= depth) by (nonlinear_arith)
            requires
                radius * dn >= radius * depth,
                radius > 0,
        ;
    }
}

/// A ray that enters a sphere meets a front face, and one that leaves it a
/// back face.
///
/// At the smaller root of a sphere with a radius above zero the ray goes
/// in, and at the larger root it comes out: the dot product of its
/// direction with the outward normal is `-sqrt(discriminant) / radius` at
/// the one and `+sqrt(discriminant) / radius` at the other. So the record
/// of a hit at the smaller root is a front face, and its normal is the
/// outward one, `(p - center) / radius`; at the larger root it is a back
/// face with that normal negated. This holds where nothing is saturated
/// and the root of the discriminant is large enough to show through the
/// rounding: at least `face_margin`.
pub proof fn lemma_side_of_a_hit(s: Sphere, r: Ray, far: bool)
    requires
        s.has_roots(r),
        s.radius.raw > 0,
        coefficients_fit(s, r),
        root_fits(s, r, far),
        record_fits(s, r, s.root(r, far).raw as int),
        s.discriminant(r).sqrt_spec().raw * (ONE_RAW * ONE_RAW) >= face_margin(
            s,
            r,
            s.root(r, far).raw as int,
        ),
    ensures
        s.record_facing(r.at_spec(s.root(r, far)), s.root(r, far), r.dir).front_face == !far,
        s.record_facing(r.at_spec(s.root(r, far)), s.root(r, far), r.dir).normal == (if far {
            s.outward_normal(r.at_spec(s.root(r, far))).negated()
        } else {
            s.outward_normal(r.at_spec(s.root(r, far)))
        }),
{
    let one = ONE_RAW as int;
    let oo = one * one;
    let a = s.quad_a(r).raw as int;
    let h = s.half_b(r).raw as int;
    let sq = s.discriminant(r).sqrt_spec().raw as int;
    let t = s.root(r, far).raw as int;
    let radius = s.radius.raw as int;
    let side: int = if far {
        1
    } else {
        -1
    };
    lemma_root_solves_quadratic(s, r, far);
    // the root
    let num = root_numerator(s, r, far);
    lemma_quotient_error(num * one, a);
    let r1 = num * one - a * t;
    assert(num == side * sq - h) by (nonlinear_arith)
        requires
            side == 1 || side == -1,
            num == (if side == 1 {
                -h + sq
            } else {
                -h - sq
            }),
    ;
    assert(a * t == (side * sq - h) * one - r1);
    // the coefficients
    let oc = s.oc(r);
    let dd = raw_dot(r.dir, r.dir);
    let ud = raw_dot(oc, r.dir);
    lemma_quotient_error(dd, one);
    lemma_quotient_error(ud, one);
    let ea = dd - one * a;
    let eh = ud - one * h;
    assert(dd >= 0) by (nonlinear_arith)
        requires
            dd == r.dir.x.raw * r.dir.x.raw + r.dir.y.raw * r.dir.y.raw + r.dir.z.raw
                * r.dir.z.raw,
    ;
    // the record, component by component
    let d = (r.dir.x.raw as int, r.dir.y.raw as int, r.dir.z.raw as int);
    let u = (oc.x.raw as int, oc.y.raw as int, oc.z.raw as int);
    let (m0, e0, w0, n0, f0) = lemma_record_component(
        r.orig.x.raw as int,
        s.center.x.raw as int,
        d.0,
        radius,
        t,
    );
    let (m1, e1, w1, n1, f1) = lemma_record_component(
        r.orig.y.raw as int,
        s.center.y.raw as int,
        d.1,
        radius,
        t,
    );
    let (m2, e2, w2, n2, f2) = lemma_record_component(
        r.orig.z.raw as int,
        s.center.z.raw as int,
        d.2,
        radius,
        t,
    );
    let p = r.at_spec(s.root(r, far));
    let outward = s.outward_normal(p);
    assert(outward.x.raw == n0 && outward.y.raw == n1 && outward.z.raw == n2);
    assert(ud == u.0 * d.0 + u.1 * d.1 + u.2 * d.2);
    lemma_face_algebra(
        one,
        a,
        h,
        t,
        side * sq,
        r1,
        ea,
        eh,
        radius,
        d,
        u,
        (m0, m1, m2),
        (e0, e1, e2),
        (w0, w1, w2),
        (n0, n1, n2),
        (f0, f1, f2),
    );
    let dn = d.0 * n0 + d.1 * n1 + d.2 * n2;
    assert(raw_dot(r.dir, outward) == dn);
    // the errors, bounded
    let d1 = raw_norm1(r.dir) as int;
    lemma_weighted_sum_bound((e0, e1, e2), d, one);
    lemma_weighted_sum_bound((f0, f1, f2), d, radius);
    lemma_face_bound(
        one,
        a,
        t,
        sq,
        r1,
        ea,
        eh,
        radius,
        d1,
        e0 * d.0 + e1 * d.1 + e2 * d.2,
        f0 * d.0 + f1 * d.1 + f2 * d.2,
        dn,
        side,
        0,
        one,
    );
    lemma_quotient_error(dn, one);
    if far {
        assert(quotient(dn, one) >= 0);
        assert(dot_spec(r.dir, outward).raw >= 0);
        assert(!HitRecord::faces_front(r.dir, outward));
    } else {
        assert(quotient(dn, one) < 0);
        assert(dot_spec(r.dir, outward).raw < 0);
        assert(HitRecord::faces_front(r.dir, outward));
    }
}

/// One component of the squared length of a normal: with `x` the exact
/// point, `w` the rounded one and `n` the normal, `(radius * n)^2` is
/// `x^2` less what the two roundings take.
proof fn lemma_normal_term(
    one: int,
    t: int,
    radius: int,
    d: int,
    u: int,
    m: int,
    e: int,
    w: int,
    n: int,
    f: int,
)
    requires
        d * t == one * m + e,
        w == u + m,
        w * one == radius * n + f,
    ensures
        (radius * radius) * (n * n) == (one * one) * (u * u) + 2 * ((one * t) * (u * d)) + (t * t)
            * (d * d) - 2 * (one * (w * (e + f))) - e * e + f * f,
{
    let x = one * u + d * t;
    let sw = one * w;
    assert(sw == x - e) by (nonlinear_arith)
        requires
            sw == one * w,
            w == u + m,
            x == one * u + d * t,
            d * t == one * m + e,
    ;
    assert(x * x == sw * sw + 2 * (sw * e) + e * e) by (nonlinear_arith)
        requires
            sw == x - e,
    ;
    let rn = radius * n;
    assert(rn == sw - f) by (nonlinear_arith)
        requires
            rn == radius * n,
            sw == one * w,
            w * one == radius * n + f,
    ;
    assert(rn * rn == sw * sw - 2 * (sw * f) + f * f) by (nonlinear_arith)
        requires
            rn == sw - f,
    ;
    assert(rn * rn == (radius * radius) * (n * n)) by (nonlinear_arith)
        requires
            rn == radius * n,
    ;
    assert(sw * e + sw * f == one * (w * (e + f))) by (nonlinear_arith)
        requires
            sw == one * w,
    ;
    let (ou, dt) = (one * u, d * t);
    assert(x * x == ou * ou + 2 * (ou * dt) + dt * dt) by (nonlinear_arith)
        requires
            x == ou + dt,
    ;
    assert(ou * ou == (one * one) * (u * u) && ou * dt == (one * t) * (u * d) && dt * dt == (t * t)
        * (d * d)) by (nonlinear_arith)
        requires
            ou == one * u,
            dt == d * t,
    ;
}

/// What the roundings of one component of a normal take is small.
proof fn lemma_normal_term_bound(one: int, radius: int, w: int, e: int, f: int)
    requires
        one >= 1,
        radius >= 1,
        -one < e < one,
        -radius < f < radius,
    ensures
        abs(-2 * (one * (w * (e + f))) - e * e + f * f) <= 2 * ((one * (one + radius)) * abs(w)) + one
            * one + radius * radius,
{
    lemma_abs_mul(w, e + f);
    lemma_abs_mul(one, w * (e + f));
    assert(abs(one) * (abs(w) * abs(e + f)) <= (one * (one + radius)) * abs(w)) by (nonlinear_arith)
        requires
            abs(one) == one,
            one >= 1,
            0 <= abs(e + f) <= one + radius,
            abs(w) >= 0,
    ;
    assert(0 <= e * e <= one * one && 0 <= f * f <= radius * radius) by (nonlinear_arith)
        requires
            -one < e < one,
            -radius < f < radius,
    ;
}

/// The vector from the center of the sphere to the point of the ray at the
/// parameter `t`.
pub open spec fn from_center(s: Sphere, r: Ray, t: crate::fixed::Fixed) -> crate::vec3::Vec3 {
    r.at_spec(t).minus(s.center)
}

/// The normal at a point of a ray is as far from unit length as the
/// point is from the surface, up to rounding.
///
/// With `w = p - center` for the point `p` of the ray at `t` and `n` for
/// the outward normal `w / radius` there, `radius^2 * (|n|^2 - 1)` differs
/// from `off_surface` by at most
/// `2 * 2^32 * (2^32 + radius) * |w|_1 + 3 * 2^64 + 3 * radius^2`, all in
/// raw values.
pub proof fn lemma_normal_length_at(s: Sphere, r: Ray, t: crate::fixed::Fixed)
    requires
        s.radius.raw > 0,
        record_fits(s, r, t.raw as int),
    ensures
        ({
            let one = ONE_RAW as int;
            let radius = s.radius.raw as int;
            let w1 = raw_norm1(from_center(s, r, t)) as int;
            let normal = s.outward_normal(r.at_spec(t));
            abs((radius * radius) * (normal.raw_norm_squared() - one * one) - off_surface(
                s,
                r,
                t.raw as int,
            )) <= 2 * ((one * (one + radius)) * w1) + 3 * (one * one) + 3 * (radius * radius)
        }),
{
    let one = ONE_RAW as int;
    let oo = one * one;
    let radius = s.radius.raw as int;
    let at = t;
    let t = at.raw as int;
    let oc = s.oc(r);
    let d = (r.dir.x.raw as int, r.dir.y.raw as int, r.dir.z.raw as int);
    let u = (oc.x.raw as int, oc.y.raw as int, oc.z.raw as int);
    let (m0, e0, w0, n0, f0) = lemma_record_component(
        r.orig.x.raw as int,
        s.center.x.raw as int,
        d.0,
        radius,
        t,
    );
    let (m1, e1, w1, n1, f1) = lemma_record_component(
        r.orig.y.raw as int,
        s.center.y.raw as int,
        d.1,
        radius,
        t,
    );
    let (m2, e2, w2, n2, f2) = lemma_record_component(
        r.orig.z.raw as int,
        s.center.z.raw as int,
        d.2,
        radius,
        t,
    );
    let normal = s.outward_normal(r.at_spec(at));
    let w = from_center(s, r, at);
    assert(normal.x.raw == n0 && normal.y.raw == n1 && normal.z.raw == n2);
    assert(w.x.raw == w0 && w.y.raw == w1 && w.z.raw == w2);
    lemma_normal_term(one, t, radius, d.0, u.0, m0, e0, w0, n0, f0);
    lemma_normal_term(one, t, radius, d.1, u.1, m1, e1, w1, n1, f1);
    lemma_normal_term(one, t, radius, d.2, u.2, m2, e2, w2, n2, f2);
    lemma_normal_term_bound(one, radius, w0, e0, f0);
    lemma_normal_term_bound(one, radius, w1, e1, f1);
    lemma_normal_term_bound(one, radius, w2, e2, f2);
    let rr = radius * radius;
    let nn = normal.raw_norm_squared();
    let (c0, c1, c2) = (
        -2 * (one * (w0 * (e0 + f0))) - e0 * e0 + f0 * f0,
        -2 * (one * (w1 * (e1 + f1))) - e1 * e1 + f1 * f1,
        -2 * (one * (w2 * (e2 + f2))) - e2 * e2 + f2 * f2,
    );
    let off = off_surface(s, r, t);
    lemma_normal_sum(
        one,
        t,
        rr,
        d,
        u,
        (n0, n1, n2),
        (c0, c1, c2),
        nn,
        off,
        raw_dot(r.dir, r.dir),
        raw_dot(oc, r.dir),
        raw_dot(oc, oc),
    );
    // the three corrections, bounded together
    let a1 = raw_norm1(w) as int;
    let k = one * (one + radius);
    assert(2 * (k * abs(w0)) + 2 * (k * abs(w1)) + 2 * (k * abs(w2)) == 2 * (k * a1))
        by (nonlinear_arith)
        requires
            a1 == abs(w0) + abs(w1) + abs(w2),
    ;
    assert(abs(c0 + c1 + c2) <= 2 * (k * a1) + 3 * oo + 3 * rr);
}

/// The normal at a hit has unit length, up to rounding.
///
/// The outward normal at the point `p` of a hit is `(p - center) / radius`:
/// parallel to `p - center` and of the same sense for a radius above zero.
/// With `a` the squared length of the direction, `w = p - center`, `d` the
/// root of the discriminant and `t` the root, all as real numbers, its
/// squared length differs from one by no more than this: `a * radius^2`
/// times the difference is at most `2^-32` times
/// `2 * (1 + d) + 2 * d * a + a^2 + a * ((|t| + 1)^2 + 1)
///  + a * (2 * (1 + radius) * |w|_1 + 3 + 3 * radius^2)`.
pub proof fn lemma_normal_has_unit_length(s: Sphere, r: Ray, far: bool)
    requires
        s.has_roots(r),
        s.radius.raw > 0,
        coefficients_fit(s, r),
        root_fits(s, r, far),
        record_fits(s, r, s.root(r, far).raw as int),
    ensures
        ({
            let one = ONE_RAW as int;
            let a = s.quad_a(r).raw as int;
            let radius = s.radius.raw as int;
            let sq = s.discriminant(r).sqrt_spec().raw as int;
            let t = s.root(r, far).raw as int;
            let reach = abs(t) + one;
            let w1 = raw_norm1(from_center(s, r, s.root(r, far))) as int;
            let normal = s.outward_normal(r.at_spec(s.root(r, far)));
            (a * (radius * radius)) * abs(normal.raw_norm_squared() - one * one) <= one * (2 * ((one
                + sq) * (one * one)) + 2 * ((sq * one) * a) + a * a) + a * (one * (reach * reach)
                + one * (one * one)) + a * (2 * ((one * (one + radius)) * w1) + 3 * (one * one) + 3
                * (radius * radius))
        }),
{
    let one = ONE_RAW as int;
    let oo = one * one;
    let a = s.quad_a(r).raw as int;
    let radius = s.radius.raw as int;
    let root = s.root(r, far);
    lemma_hit_point_is_on_the_surface(s, r, far);
    lemma_normal_length_at(s, r, root);
    let rr = radius * radius;
    let nn = s.outward_normal(r.at_spec(root)).raw_norm_squared();
    let off = off_surface(s, r, root.raw as int);
    let a1 = raw_norm1(from_center(s, r, root)) as int;
    let slack = 2 * ((one * (one + radius)) * a1) + 3 * oo + 3 * rr;
    lemma_normal_bound(a, rr, nn - oo, off, rr * (nn - oo) - off, slack);
}

/// The sum of the three components: `radius^2` times how far the squared
/// length of the normal is from one is how far the point is from the
/// surface, and what the roundings take.
proof fn lemma_normal_sum(
    one: int,
    t: int,
    rr: int,
    d: (int, int, int),
    u: (int, int, int),
    n: (int, int, int),
    c: (int, int, int),
    nn: int,
    off: int,
    dd: int,
    ud: int,
    uu: int,
)
    requires
        nn == n.0 * n.0 + n.1 * n.1 + n.2 * n.2,
        dd == d.0 * d.0 + d.1 * d.1 + d.2 * d.2,
        ud == u.0 * d.0 + u.1 * d.1 + u.2 * d.2,
        uu == u.0 * u.0 + u.1 * u.1 + u.2 * u.2,
        off == dd * (t * t) + 2 * ((ud * one) * t) + (uu - rr) * (one * one),
        rr * (n.0 * n.0) == (one * one) * (u.0 * u.0) + 2 * ((one * t) * (u.0 * d.0)) + (t * t) * (
        d.0 * d.0) + c.0,
        rr * (n.1 * n.1) == (one * one) * (u.1 * u.1) + 2 * ((one * t) * (u.1 * d.1)) + (t * t) * (
        d.1 * d.1) + c.1,
        rr * (n.2 * n.2) == (one * one) * (u.2 * u.2) + 2 * ((one * t) * (u.2 * d.2)) + (t * t) * (
        d.2 * d.2) + c.2,
    ensures
        rr * (nn - one * one) == off + (c.0 + c.1 + c.2),
{
    let oo = one * one;
    let tt = t * t;
    let ot = one * t;
    assert(rr * nn == rr * (n.0 * n.0) + rr * (n.1 * n.1) + rr * (n.2 * n.2)) by (nonlinear_arith)
        requires
            nn == n.0 * n.0 + n.1 * n.1 + n.2 * n.2,
    ;
    assert(oo * uu == oo * (u.0 * u.0) + oo * (u.1 * u.1) + oo * (u.2 * u.2)) by (nonlinear_arith)
        requires
            uu == u.0 * u.0 + u.1 * u.1 + u.2 * u.2,
    ;
    assert(ot * ud == ot * (u.0 * d.0) + ot * (u.1 * d.1) + ot * (u.2 * d.2)) by (nonlinear_arith)
        requires
            ud == u.0 * d.0 + u.1 * d.1 + u.2 * d.2,
    ;
    assert(tt * dd == tt * (d.0 * d.0) + tt * (d.1 * d.1) + tt * (d.2 * d.2)) by (nonlinear_arith)
        requires
            dd == d.0 * d.0 + d.1 * d.1 + d.2 * d.2,
    ;
    assert(dd * tt == tt * dd && (ud * one) * t == ot * ud && (uu - rr) * oo == oo * uu - rr * oo
        && rr * (nn - oo) == rr * nn - rr * oo) by (nonlinear_arith)
        requires
            ot == one * t,
    ;
}

/// From how far the point is from the surface to how far the normal is
/// from unit length.
proof fn lemma_normal_bound(a: int, rr: int, gap: int, off: int, taken: int, slack: int)
    requires
        a > 0,
        rr * gap == off + taken,
        abs(taken) <= slack,
    ensures
        (a * rr) * abs(gap) <= a * abs(off) + a * slack,
{
    lemma_abs_mul(rr, gap);
    assert(abs(rr * gap) <= abs(off) + slack);
    assert((a * rr) * abs(gap) == a * (rr * abs(gap))) by (nonlinear_arith);
    assert(rr * abs(gap) <= abs(rr) * abs(gap)) by (nonlinear_arith)
        requires
            abs(gap) >= 0,
            rr <= abs(rr),
    ;
    assert(a * (rr * abs(gap)) <= a * (abs(off) + slack)) by (nonlinear_arith)
        requires
            rr * abs(gap) <= abs(off) + slack,
            a > 0,
    ;
    assert(a * (abs(off) + slack) == a * abs(off) + a * slack) by (nonlinear_arith);
}

/// Whether the roots of the ray as given are formed without saturation:
/// those of the lengthened ray are, and the root scaled back is a number
/// that the type holds.
pub open spec fn hit_fits(s: Sphere, r: Ray, far: bool) -> bool {
    &&& coefficients_fit(s, r.lengthened())
    &&& root_fits(s, r.lengthened(), far)
    &&& s.parameter(r, far) is Some
}

/// The parameter scaled back, times the direction as given, is the
/// parameter times the lengthened direction: component by component, and
/// so the two rays reach the same point.
proof fn lemma_same_step(d: int, long: int, t: int, f: int)
    requires
        long == d * f,
    ensures
        d * (t * f) == long * t,
{
    assert(d * (t * f) == (d * f) * t) by (nonlinear_arith);
}

/// The ray as given, at the root scaled back, is where the lengthened ray
/// is at the root: the same point, bit for bit.
pub proof fn lemma_same_point(s: Sphere, r: Ray, far: bool)
    requires
        s.parameter(r, far) is Some,
    ensures
        r.at_spec(s.parameter(r, far).unwrap()) == r.lengthened().at_spec(
            s.root(r.lengthened(), far),
        ),
        s.parameter(r, far).unwrap().raw == s.root(r.lengthened(), far).raw
            * r.dir.lengthening(),
        r.dir.lengthening() >= 1,
{
    let f = r.dir.lengthening();
    let long = r.dir.lengthened();
    let t = s.root(r.lengthened(), far).raw as int;
    crate::vec3::lemma_lengthened(r.dir, 1);
    assert(long.x.raw * 1 == long.x.raw && long.y.raw * 1 == long.y.raw && long.z.raw * 1
        == long.z.raw);
    lemma_same_step(r.dir.x.raw as int, long.x.raw as int, t, f);
    lemma_same_step(r.dir.y.raw as int, long.y.raw as int, t, f);
    lemma_same_step(r.dir.z.raw as int, long.z.raw as int, t, f);
}

/// How far a point of the ray is from the surface does not depend on
/// which of the two rays it is taken from.
proof fn lemma_same_distance(s: Sphere, r: Ray, t: int)
    ensures
        off_surface(s, r, t * r.dir.lengthening()) == off_surface(s, r.lengthened(), t),
{
    let f = r.dir.lengthening();
    let long = r.dir.lengthened();
    let oc = s.oc(r);
    assert(s.oc(r.lengthened()) == oc);
    crate::vec3::lemma_lengthened(r.dir, 1);
    let d = (r.dir.x.raw as int, r.dir.y.raw as int, r.dir.z.raw as int);
    let l = (long.x.raw as int, long.y.raw as int, long.z.raw as int);
    assert(l.0 == d.0 * f && l.1 == d.1 * f && l.2 == d.2 * f);
    let dd = raw_dot(r.dir, r.dir);
    let ll = raw_dot(long, long);
    lemma_longer_dot(r.dir, long, f, long);
    lemma_longer_dot(r.dir, long, f, r.dir);
    lemma_dot_commutes(r.dir, long);
    assert(ll == (f * f) * dd) by (nonlinear_arith)
        requires
            ll == f * raw_dot(r.dir, long),
            raw_dot(r.dir, long) == f * dd,
    ;
    let ud = raw_dot(oc, r.dir);
    let ul = raw_dot(oc, long);
    lemma_longer_dot(r.dir, long, f, oc);
    lemma_dot_commutes(oc, long);
    lemma_dot_commutes(oc, r.dir);
    assert(ul == f * ud);
    let one = ONE_RAW as int;
    let tf = t * f;
    assert(dd * (tf * tf) == ((f * f) * dd) * (t * t)) by (nonlinear_arith)
        requires
            tf == t * f,
    ;
    assert((ud * one) * tf == ((f * ud) * one) * t) by (nonlinear_arith)
        requires
            tf == t * f,
    ;
}

/// The point of a ray at the parameter of a hit lies on the sphere, up to
/// rounding, however short the direction of the ray is.
///
/// With `t` the parameter, `oc + t * dir` taken exactly, and for the
/// lengthened ray `a` the squared length of its direction, a quarter or
/// more, `d` the root of its discriminant and `u` its root, all as real
/// numbers: `a * ||oc + t * dir|^2 - radius^2|` is at most `2^-32` times
/// `2 * (1 + d) + 2 * d * a + a^2 + a * ((|u| + 1)^2 + 1)`. So the
/// parameter of a hit is a parameter at which the ray meets the surface.
pub proof fn lemma_hit_lies_on_the_surface(s: Sphere, r: Ray, far: bool)
    requires
        s.solvable(r),
        hit_fits(s, r, far),
    ensures
        ({
            let one = ONE_RAW as int;
            let long = r.lengthened();
            let a = s.quad_a(long).raw as int;
            let sq = s.discriminant(long).sqrt_spec().raw as int;
            let reach = abs(s.root(long, far).raw as int) + one;
            let t = s.parameter(r, far).unwrap().raw as int;
            &&& a >= 0x4000_0000
            &&& sq >= 0
            &&& a * abs(off_surface(s, r, t)) <= one * (2 * ((one + sq) * (one * one)) + 2 * ((sq
                * one) * a) + a * a) + a * (one * (reach * reach) + one * (one * one))
        }),
{
    let long = r.lengthened();
    s.lemma_lengthened_has_length(r);
    lemma_hit_point_is_on_the_surface(s, long, far);
    lemma_same_point(s, r, far);
    lemma_same_distance(s, r, s.root(long, far).raw as int);
}

/// A ray that enters a sphere meets a front face, and one that leaves it a
/// back face, however short the direction of the ray is.
///
/// The record of a hit at the smaller root of a sphere with a radius above
/// zero is a front face, and its normal is the outward one,
/// `(p - center) / radius`; at the larger root it is a back face with that
/// normal negated. This holds where nothing is saturated and the root of
/// the discriminant of the lengthened ray is large enough to show through
/// the rounding: at least `face_margin`.
pub proof fn lemma_side_of_the_hit(s: Sphere, r: Ray, far: bool)
    requires
        s.solvable(r),
        s.radius.raw > 0,
        hit_fits(s, r, far),
        record_fits(s, r.lengthened(), s.root(r.lengthened(), far).raw as int),
        s.discriminant(r.lengthened()).sqrt_spec().raw * (ONE_RAW * ONE_RAW) >= face_margin(
            s,
            r.lengthened(),
            s.root(r.lengthened(), far).raw as int,
        ),
    ensures
        s.record_at(r, s.parameter(r, far).unwrap()).front_face == !far,
        s.record_at(r, s.parameter(r, far).unwrap()).normal == (if far {
            s.outward_normal(r.at_spec(s.parameter(r, far).unwrap())).negated()
        } else {
            s.outward_normal(r.at_spec(s.parameter(r, far).unwrap()))
        }),
{
    let long = r.lengthened();
    s.lemma_lengthened_has_length(r);
    lemma_side_of_a_hit(s, long, far);
    lemma_same_point(s, r, far);
}

/// The normal at a hit has unit length, up to rounding, however short the
/// direction of the ray is.
///
/// The outward normal at the point `p` of a hit is `(p - center) / radius`:
/// parallel to `p - center`, and of the same sense for a radius above zero.
/// With `w = p - center`, and for the lengthened ray `a` the squared
/// length of its direction, a quarter or more, `d` the root of its
/// discriminant and `u` its root, all as real numbers: `a * radius^2`
/// times how far the squared length of the normal is from one is at most
/// `2^-32` times
/// `2 * (1 + d) + 2 * d * a + a^2 + a * ((|u| + 1)^2 + 1)
///  + a * (2 * (1 + radius) * |w|_1 + 3 + 3 * radius^2)`.
pub proof fn lemma_normal_of_the_hit_has_unit_length(s: Sphere, r: Ray, far: bool)
    requires
        s.solvable(r),
        s.radius.raw > 0,
        hit_fits(s, r, far),
        record_fits(s, r.lengthened(), s.root(r.lengthened(), far).raw as int),
    ensures
        ({
            let one = ONE_RAW as int;
            let long = r.lengthened();
            let a = s.quad_a(long).raw as int;
            let radius = s.radius.raw as int;
            let sq = s.discriminant(long).sqrt_spec().raw as int;
            let reach = abs(s.root(long, far).raw as int) + one;
            let p = r.at_spec(s.parameter(r, far).unwrap());
            let w1 = raw_norm1(p.minus(s.center)) as int;
            let normal = s.outward_normal(p);
            &&& a >= 0x4000_0000
            &&& (a * (radius * radius)) * abs(normal.raw_norm_squared() - one * one) <= one * (2 * ((
            one + sq) * (one * one)) + 2 * ((sq * one) * a) + a * a) + a * (one * (reach * reach)
                + one * (one * one)) + a * (2 * ((one * (one + radius)) * w1) + 3 * (one * one) + 3
                * (radius * radius))
        }),
{
    let long = r.lengthened();
    s.lemma_lengthened_has_length(r);
    lemma_normal_has_unit_length(s, long, far);
    lemma_same_point(s, r, far);
}

/// The normal of a record opposes the ray as given, and a ray as given
/// that goes against the outward normal meets a front face.
///
/// Which side is hit is told from the lengthened direction. That is the
/// direction as given times a number from one on, so the sign it finds is
/// the sign of the dot product with the direction as given, wherever that
/// one does not round to zero.
pub proof fn lemma_record_opposes_the_ray(s: Sphere, r: Ray, t: crate::fixed::Fixed)
    requires
        s.outward_normal(r.at_spec(t)).x.raw > i64::MIN,
        s.outward_normal(r.at_spec(t)).y.raw > i64::MIN,
        s.outward_normal(r.at_spec(t)).z.raw > i64::MIN,
    ensures
        dot_spec(r.dir, s.record_at(r, t).normal).raw <= 0,
        dot_spec(r.dir, s.outward_normal(r.at_spec(t))).raw < 0 ==> s.record_at(r, t).front_face,
{
    let one = ONE_RAW as int;
    let p = r.at_spec(t);
    let outward = s.outward_normal(p);
    let long = r.dir.lengthened();
    let f = r.dir.lengthening();
    crate::vec3::lemma_lengthened(r.dir, 1);
    HitRecord::lemma_normal_opposes_ray(p, outward, s.mat, t, long);
    let normal = s.record_at(r, t).normal;
    lemma_longer_dot(r.dir, long, f, normal);
    lemma_longer_dot(r.dir, long, f, outward);
    lemma_quotient_error(raw_dot(long, normal), one);
    lemma_quotient_error(raw_dot(r.dir, normal), one);
    lemma_quotient_error(raw_dot(long, outward), one);
    lemma_quotient_error(raw_dot(r.dir, outward), one);
    let (x, y) = (raw_dot(r.dir, normal), raw_dot(r.dir, outward));
    assert(x < one) by (nonlinear_arith)
        requires
            f * x < one,
            f >= 1,
            one >= 1,
    ;
    if y <= -one {
        assert(f * y <= -one) by (nonlinear_arith)
            requires
                y <= -one,
                f >= 1,
                one >= 1,
        ;
    }
}

/// The dot product with a lengthened vector is the dot product with the
/// vector, times the lengthening.
proof fn lemma_longer_dot(
    d: crate::vec3::Vec3,
    long: crate::vec3::Vec3,
    f: int,
    n: crate::vec3::Vec3,
)
    requires
        long.x.raw == d.x.raw * f,
        long.y.raw == d.y.raw * f,
        long.z.raw == d.z.raw * f,
    ensures
        raw_dot(long, n) == f * raw_dot(d, n),
{
    lemma_longer_term(d.x.raw as int, f, n.x.raw as int);
    lemma_longer_term(d.y.raw as int, f, n.y.raw as int);
    lemma_longer_term(d.z.raw as int, f, n.z.raw as int);
    let (a, b, c) = (d.x.raw * n.x.raw, d.y.raw * n.y.raw, d.z.raw * n.z.raw);
    assert(f * (a + b + c) == f * a + f * b + f * c) by (nonlinear_arith);
}

/// One term of `lemma_longer_dot`.
proof fn lemma_longer_term(d: int, f: int, n: int)
    ensures
        (d * f) * n == f * (d * n),
{
    assert((d * f) * n == f * (d * n)) by (nonlinear_arith);
}

/// The dot product does not depend on the order of its factors.
proof fn lemma_dot_commutes(u: crate::vec3::Vec3, v: crate::vec3::Vec3)
    ensures
        raw_dot(u, v) == raw_dot(v, u),
{
    assert(u.x.raw * v.x.raw == v.x.raw * u.x.raw && u.y.raw * v.y.raw == v.y.raw * u.y.raw
        && u.z.raw * v.z.raw == v.z.raw * u.z.raw) by (nonlinear_arith);
}

/// The dot product of two vectors with components of at most `bu` and
/// `bv` is at most `3 * bu * bv`.
proof fn lemma_dot_within(u: crate::vec3::Vec3, v: crate::vec3::Vec3, bu: int, bv: int)
    requires
        components_within(u, bu),
        components_within(v, bv),
    ensures
        abs(raw_dot(u, v)) <= 3 * (bu * bv),
{
    lemma_product_within(u.x.raw as int, v.x.raw as int, bu, bv);
    lemma_product_within(u.y.raw as int, v.y.raw as int, bu, bv);
    lemma_product_within(u.z.raw as int, v.z.raw as int, bu, bv);
}

/// The product of two numbers of at most `ba` and `bb` in absolute value
/// is at most `ba * bb`.
proof fn lemma_product_within(a: int, b: int, ba: int, bb: int)
    requires
        abs(a) <= ba,
        abs(b) <= bb,
    ensures
        abs(a * b) <= ba * bb,
{
    lemma_abs_mul(a, b);
    assert(abs(a) * abs(b) <= ba * bb) by (nonlinear_arith)
        requires
            0 <= abs(a) <= ba,
            0 <= abs(b) <= bb,
    ;
}

/// The quotient by `2^32` of a number of at most `2^32 * b` in absolute
/// value is at most `b`.
proof fn lemma_quotient_within(x: int, b: int)
    requires
        b >= 0,
        abs(x) <= ONE_RAW * b,
    ensures
        abs(quotient(x, ONE_RAW as int)) <= b,
{
    lemma_quotient_error(x, ONE_RAW as int);
}

/// In a scene of moderate size nothing is saturated in forming the roots,
/// however short the direction of the ray is.
///
/// Where no coordinate of the origin of the ray or of the center of the
/// sphere is above 2048 in absolute value, the radius is at most 4096 and
/// at least `2^-12`, and no component of the direction is above one, the
/// coefficients and the roots of the lengthened ray and the record of a
/// hit are formed without saturation. What is left to ask of a hit is that
/// the type holds its parameter.
pub proof fn lemma_moderate_scene_fits(s: Sphere, r: Ray, far: bool)
    requires
        components_within(r.orig, 0x800_0000_0000),
        components_within(s.center, 0x800_0000_0000),
        0x10_0000 <= abs(s.radius.raw as int) <= 0x1000_0000_0000,
        0 < r.dir.largest() <= ONE_RAW,
    ensures
        coefficients_fit(s, r.lengthened()),
        root_fits(s, r.lengthened(), far),
        record_fits(s, r.lengthened(), s.root(r.lengthened(), far).raw as int),
        s.quad_a(r.lengthened()).raw >= 0x4000_0000,
        abs(s.root(r.lengthened(), far).raw as int) <= 0x2_0000_0000_0000,
{
    let one = ONE_RAW as int;
    let long = r.lengthened();
    let oc = s.oc(long);
    crate::vec3::lemma_lengthened(r.dir, 1);
    s.lemma_lengthened_has_length(r);
    let bd = one;
    let bu = 0x1000_0000_0000int;
    assert(components_within(long.dir, bd));
    assert(components_within(oc, bu));
    // the three coefficients
    lemma_dot_within(long.dir, long.dir, bd, bd);
    lemma_dot_within(oc, long.dir, bu, bd);
    lemma_dot_within(oc, oc, bu, bu);
    lemma_product_within(s.radius.raw as int, s.radius.raw as int, bu, bu);
    assert(bd * bd == one * one && bu * bd == one * bu) by (nonlinear_arith)
        requires
            bd == one,
    ;
    assert(bu * bu == one * 0x100_0000_0000_0000) by (nonlinear_arith)
        requires
            bu == 0x1000_0000_0000,
            one == 0x1_0000_0000,
    ;
    lemma_quotient_within(raw_dot(long.dir, long.dir), 3 * one);
    lemma_quotient_within(raw_dot(oc, long.dir), 3 * bu);
    lemma_quotient_within(raw_dot(oc, oc), 0x300_0000_0000_0000);
    lemma_quotient_within(s.radius.raw * s.radius.raw, 0x100_0000_0000_0000);
    let a = s.quad_a(long).raw as int;
    let h = s.half_b(long).raw as int;
    let c = s.quad_c(long).raw as int;
    assert(abs(a) <= 3 * one && abs(h) <= 3 * bu && abs(c) <= 0x400_0000_0000_0000);
    // the discriminant
    lemma_product_within(h, h, 3 * bu, 3 * bu);
    lemma_product_within(a, c, 3 * one, 0x400_0000_0000_0000);
    assert((3 * bu) * (3 * bu) == one * 0x900_0000_0000_0000 && (3 * one) * 0x400_0000_0000_0000
        == one * 0xc00_0000_0000_0000) by (nonlinear_arith)
        requires
            bu == 0x1000_0000_0000,
            one == 0x1_0000_0000,
    ;
    lemma_quotient_within(h * h, 0x900_0000_0000_0000);
    lemma_quotient_within(a * c, 0xc00_0000_0000_0000);
    let disc = s.discriminant(long);
    assert(abs(disc.raw as int) <= 0x1500_0000_0000_0000);
    // its root: the square of the root is at most 2^32 times the discriminant
    lemma_sqrt_is_not_negative(disc);
    let sq = disc.sqrt_spec().raw as int;
    if disc.raw > 0 {
        lemma_sqrt_is_floor(disc);
        assert(sq < 0x5000_0000_0000) by (nonlinear_arith)
            requires
                sq >= 0,
                sq * sq <= disc.raw * one,
                disc.raw <= 0x1500_0000_0000_0000,
                one == 0x1_0000_0000,
        ;
    }
    let num = root_numerator(s, long, far);
    assert(abs(num) <= 0x8000_0000_0000);
    // the root: the divisor is a quarter or more
    lemma_quotient_error(num * one, a);
    let t = quotient(num * one, a);
    lemma_abs_mul(a, t);
    lemma_abs_mul(num, one);
    assert(abs(t) <= 0x2_0000_0000_0000) by (nonlinear_arith)
        requires
            a * abs(t) <= abs(num) * one,
            a >= 0x4000_0000,
            abs(num) <= 0x8000_0000_0000,
            one == 0x1_0000_0000,
            abs(t) >= 0,
    ;
    assert(s.root(long, far).raw == t);
    // the record, component by component
    let radius = s.radius.raw as int;
    let (o, c, d) = (r.orig, s.center, long.dir);
    lemma_component_fits(o.x.raw as int, c.x.raw as int, d.x.raw as int, radius, t);
    lemma_component_fits(o.y.raw as int, c.y.raw as int, d.y.raw as int, radius, t);
    lemma_component_fits(o.z.raw as int, c.z.raw as int, d.z.raw as int, radius, t);
}

/// In a scene of moderate size nothing is saturated in forming the hit of
/// a ray whose direction has a component above one, however long the
/// direction is.
///
/// The scene is that of `lemma_moderate_scene_fits`. The coefficients and
/// the roots of the shortened ray and the record of the ray as given are
/// formed without saturation.
pub proof fn lemma_moderate_scene_fits_long_rays(s: Sphere, r: Ray, far: bool)
    requires
        components_within(r.orig, 0x800_0000_0000),
        components_within(s.center, 0x800_0000_0000),
        0x10_0000 <= abs(s.radius.raw as int) <= 0x1000_0000_0000,
        r.dir.largest() > ONE_RAW,
    ensures
        coefficients_fit(s, r.shortened()),
        root_fits(s, r.shortened(), far),
        record_fits(s, r, s.long_parameter(r, far).raw as int),
        s.quad_a(r.shortened()).raw >= 0x4000_0000,
{
    let one = ONE_RAW as int;
    let near = r.shortened();
    let f = r.dir.shortening();
    let root = s.root(near, far);
    let u = root.raw as int;
    let t = s.long_parameter(r, far).raw as int;
    crate::vec3::lemma_shortened(r.dir, 1);
    crate::vec3::lemma_shortening_is_bounded(r.dir);
    crate::vec3::lemma_lengthened(near.dir, 1);
    crate::sphere::lemma_scaled_down(root, f);
    lemma_moderate_scene_fits(s, near, far);
    let radius = s.radius.raw as int;
    let (o, c, d, k) = (r.orig, s.center, r.dir, near.dir);
    assert(d.x.raw * 1 == d.x.raw && d.y.raw * 1 == d.y.raw && d.z.raw * 1 == d.z.raw);
    lemma_long_step(d.x.raw as int, k.x.raw as int, f, u, t);
    lemma_long_step(d.y.raw as int, k.y.raw as int, f, u, t);
    lemma_long_step(d.z.raw as int, k.z.raw as int, f, u, t);
    lemma_product_within(k.x.raw as int, u, one, 0x2_0000_0000_0000);
    lemma_product_within(k.y.raw as int, u, one, 0x2_0000_0000_0000);
    lemma_product_within(k.z.raw as int, u, one, 0x2_0000_0000_0000);
    assert(one * (f - 1) + abs(u) <= one * 0x2_0002_0000) by (nonlinear_arith)
        requires
            1 <= f <= 0x2_0000_0000,
            abs(u) <= 0x2_0000_0000_0000,
            one == 0x1_0000_0000,
    ;
    assert(one * 0x2_0000_0000_0000 + one * 0x2_0002_0000 <= one * 0x3_0000_0000_0000)
        by (nonlinear_arith)
        requires
            one == 0x1_0000_0000,
    ;
    lemma_long_component_fits(o.x.raw as int, c.x.raw as int, d.x.raw as int, radius, t);
    lemma_long_component_fits(o.y.raw as int, c.y.raw as int, d.y.raw as int, radius, t);
    lemma_long_component_fits(o.z.raw as int, c.z.raw as int, d.z.raw as int, radius, t);
}

/// One component of the record of a long ray in a scene of moderate size
/// is formed without saturation.
proof fn lemma_long_component_fits(origin: int, center: int, direction: int, radius: int, t: int)
    requires
        abs(origin) <= 0x800_0000_0000,
        abs(center) <= 0x800_0000_0000,
        abs(direction * t) <= ONE_RAW * 0x3_0000_0000_0000,
        0x10_0000 <= abs(radius),
    ensures
        component_fits(origin, center, direction, radius, t),
{
    let one = ONE_RAW as int;
    lemma_quotient_within(direction * t, 0x3_0000_0000_0000);
    let step = quotient(direction * t, one);
    let w = origin + step - center;
    assert(abs(w) <= 0x3_1000_0000_0000);
    lemma_abs_mul(w, one);
    let q = abs(w * one) as int / abs(radius) as int;
    vstd::arithmetic::div_mod::lemma_fundamental_div_mod(abs(w * one) as int, abs(radius) as int);
    vstd::arithmetic::div_mod::lemma_mod_bound(abs(w * one) as int, abs(radius) as int);
    vstd::arithmetic::div_mod::lemma_div_pos_is_pos(abs(w * one) as int, abs(radius) as int);
    assert(q <= 0x4000_0000_0000_0000) by (nonlinear_arith)
        requires
            q >= 0,
            abs(radius) * q <= abs(w * one),
            abs(w * one) == abs(w) * one,
            abs(w) <= 0x3_1000_0000_0000,
            abs(radius) >= 0x10_0000,
            one == 0x1_0000_0000,
    ;
}

/// One component of the record of a hit in a scene of moderate size is
/// formed without saturation.
proof fn lemma_component_fits(origin: int, center: int, direction: int, radius: int, t: int)
    requires
        abs(origin) <= 0x800_0000_0000,
        abs(center) <= 0x800_0000_0000,
        abs(direction) <= ONE_RAW,
        0x10_0000 <= abs(radius),
        abs(t) <= 0x2_0000_0000_0000,
    ensures
        component_fits(origin, center, direction, radius, t),
{
    let one = ONE_RAW as int;
    lemma_product_within(direction, t, one, 0x2_0000_0000_0000);
    lemma_quotient_within(direction * t, 0x2_0000_0000_0000);
    let step = quotient(direction * t, one);
    let w = origin + step - center;
    assert(abs(w) <= 0x2_1000_0000_0000);
    // |w * one| / |radius| <= 2^50 * 2^32 / 2^20
    lemma_abs_mul(w, one);
    let q = abs(w * one) as int / abs(radius) as int;
    vstd::arithmetic::div_mod::lemma_fundamental_div_mod(abs(w * one) as int, abs(radius) as int);
    vstd::arithmetic::div_mod::lemma_mod_bound(abs(w * one) as int, abs(radius) as int);
    vstd::arithmetic::div_mod::lemma_div_pos_is_pos(abs(w * one) as int, abs(radius) as int);
    assert(q <= 0x4000_0000_0000_0000) by (nonlinear_arith)
        requires
            q >= 0,
            abs(radius) * q <= abs(w * one),
            abs(w * one) == abs(w) * one,
            abs(w) <= 0x2_1000_0000_0000,
            abs(radius) >= 0x10_0000,
            one == 0x1_0000_0000,
    ;
}

/// The sphere with the radius negated: the same surface, with the
/// outward normal turned.
pub open spec fn turned(s: Sphere) -> Sphere {
    Sphere { center: s.center, radius: s.radius.negated(), mat: s.mat }
}

/// Whether the quotient of `w` by the radius is a raw value whose negation
/// is one too.
pub open spec fn turns(w: int, radius: int) -> bool {
    i64::MIN < quotient(w * ONE_RAW, radius) <= i64::MAX
}

/// Turning a sphere leaves its quadratic as it is and negates its outward
/// normal.
pub proof fn lemma_turned(s: Sphere, r: Ray, far: bool, p: crate::vec3::Vec3)
    requires
        s.radius.raw > i64::MIN,
        s.radius.raw != 0,
        turns(p.minus(s.center).x.raw as int, s.radius.raw as int),
        turns(p.minus(s.center).y.raw as int, s.radius.raw as int),
        turns(p.minus(s.center).z.raw as int, s.radius.raw as int),
    ensures
        turned(s).quad_c(r) == s.quad_c(r),
        turned(s).discriminant(r) == s.discriminant(r),
        turned(s).root(r, far) == s.root(r, far),
        turned(s).outward_normal(p).raw_norm_squared() == s.outward_normal(p).raw_norm_squared(),
{
    let radius = s.radius.raw as int;
    assert((-radius) * (-radius) == radius * radius) by (nonlinear_arith);
    let m = turned(s);
    assert(m.radius.raw == -radius);
    assert(m.oc(r) == s.oc(r));
    assert(m.quad_c(r) == s.quad_c(r));
    let (a, b) = (m.outward_normal(p), s.outward_normal(p));
    let w = p.minus(s.center);
    lemma_turned_component(w.x.raw as int, radius);
    lemma_turned_component(w.y.raw as int, radius);
    lemma_turned_component(w.z.raw as int, radius);
    assert(a.x.raw == -b.x.raw && a.y.raw == -b.y.raw && a.z.raw == -b.z.raw);
    assert(raw_dot(a, a) == raw_dot(b, b)) by (nonlinear_arith)
        requires
            raw_dot(a, a) == a.x.raw * a.x.raw + a.y.raw * a.y.raw + a.z.raw * a.z.raw,
            raw_dot(b, b) == b.x.raw * b.x.raw + b.y.raw * b.y.raw + b.z.raw * b.z.raw,
            a.x.raw == -b.x.raw,
            a.y.raw == -b.y.raw,
            a.z.raw == -b.z.raw,
    ;
}

/// A quotient by a negated divisor is the quotient negated.
proof fn lemma_turned_component(w: int, radius: int)
    requires
        radius != 0,
    ensures
        quotient(w * ONE_RAW, -radius) == -quotient(w * ONE_RAW, radius),
{
}

/// The normal at a hit of a sphere with a negative radius has unit length
/// too, up to rounding: it is the normal of the sphere with the radius
/// above zero, negated.
///
/// The bound is that of `lemma_normal_of_the_hit_has_unit_length`, with
/// the absolute value of the radius.
pub proof fn lemma_normal_of_a_hollow_hit_has_unit_length(s: Sphere, r: Ray, far: bool)
    requires
        s.solvable(r),
        i64::MIN < s.radius.raw < 0,
        hit_fits(s, r, far),
        record_fits(s, r.lengthened(), s.root(r.lengthened(), far).raw as int),
        s.outward_normal(r.at_spec(s.parameter(r, far).unwrap())).x.raw > i64::MIN,
        s.outward_normal(r.at_spec(s.parameter(r, far).unwrap())).y.raw > i64::MIN,
        s.outward_normal(r.at_spec(s.parameter(r, far).unwrap())).z.raw > i64::MIN,
    ensures
        ({
            let one = ONE_RAW as int;
            let long = r.lengthened();
            let a = s.quad_a(long).raw as int;
            let radius = s.radius.raw as int;
            let sq = s.discriminant(long).sqrt_spec().raw as int;
            let reach = abs(s.root(long, far).raw as int) + one;
            let p = r.at_spec(s.parameter(r, far).unwrap());
            let w1 = raw_norm1(p.minus(s.center)) as int;
            let normal = s.outward_normal(p);
            &&& a >= 0x4000_0000
            &&& (a * (radius * radius)) * abs(normal.raw_norm_squared() - one * one) <= one * (2 * ((
            one + sq) * (one * one)) + 2 * ((sq * one) * a) + a * a) + a * (one * (reach * reach)
                + one * (one * one)) + a * (2 * ((one * (one - radius)) * w1) + 3 * (one * one) + 3
                * (radius * radius))
        }),
{
    let m = turned(s);
    let long = r.lengthened();
    let radius = s.radius.raw as int;
    lemma_same_point(s, r, far);
    let p = r.at_spec(s.parameter(r, far).unwrap());
    assert(p == long.at_spec(s.root(long, far)));
    let w = p.minus(s.center);
    let t = s.root(long, far).raw as int;
    // the record of the given sphere, component by component
    assert(w.x.raw == long.orig.x.raw + quotient(long.dir.x.raw * t, ONE_RAW as int)
        - s.center.x.raw);
    assert(w.y.raw == long.orig.y.raw + quotient(long.dir.y.raw * t, ONE_RAW as int)
        - s.center.y.raw);
    assert(w.z.raw == long.orig.z.raw + quotient(long.dir.z.raw * t, ONE_RAW as int)
        - s.center.z.raw);
    assert(turns(w.x.raw as int, radius) && turns(w.y.raw as int, radius) && turns(
        w.z.raw as int,
        radius,
    ));
    lemma_turned(s, long, far, p);
    lemma_turned(s, long, true, p);
    lemma_turned(s, long, false, p);
    assert((-radius) * (-radius) == radius * radius) by (nonlinear_arith);
    lemma_turned_component(p.minus(s.center).x.raw as int, radius);
    lemma_turned_component(p.minus(s.center).y.raw as int, radius);
    lemma_turned_component(p.minus(s.center).z.raw as int, radius);
    assert(m.solvable(r));
    assert(coefficients_fit(m, long));
    assert(root_fits(m, long, far));
    assert(m.parameter(r, far) == s.parameter(r, far));
    assert(record_fits(m, long, m.root(long, far).raw as int));
    lemma_normal_of_the_hit_has_unit_length(m, r, far);
}

/// How far a ray moves along one axis for the parameter `t`, in raw units:
/// `direction * t`, rounded toward zero.
pub open spec fn step(direction: int, t: int) -> int {
    quotient(direction * t, ONE_RAW as int)
}

/// A ray whose direction has a component above one, beside the shortened
/// ray that `Sphere::hit` solves for it.
///
/// The shortened ray needs no lengthening, so what is shown above of a ray
/// and its root holds of it as it stands. The ray as given, at the root
/// scaled down, is where the shortened ray is at the root, up to rounding:
/// along each axis the two steps differ by at most the power of two between
/// the directions plus one, and the root's `2^-32`-th part, in raw units.
/// That is one step of the parameter along the direction as given.
pub proof fn lemma_long_ray_stays_close(s: Sphere, r: Ray, far: bool)
    requires
        r.dir.largest() > ONE_RAW,
    ensures
        ({
            let near = r.shortened();
            let f = r.dir.shortening();
            let u = s.root(near, far).raw as int;
            let t = s.long_parameter(r, far).raw as int;
            let one = ONE_RAW as int;
            &&& 0x8000_0000 <= near.dir.largest() <= one
            &&& f >= 2
            &&& near.lengthened() == near
            &&& s.solvable(near) == s.has_roots(near)
            &&& s.parameter(near, far) == Some(s.root(near, far))
            &&& abs(u - f * t) < f
            &&& one * abs(step(r.dir.x.raw as int, t) - step(near.dir.x.raw as int, u)) <= one * (f
                + 1) + abs(u)
            &&& one * abs(step(r.dir.y.raw as int, t) - step(near.dir.y.raw as int, u)) <= one * (f
                + 1) + abs(u)
            &&& one * abs(step(r.dir.z.raw as int, t) - step(near.dir.z.raw as int, u)) <= one * (f
                + 1) + abs(u)
        }),
{
    let near = r.shortened();
    let f = r.dir.shortening();
    let root = s.root(near, far);
    let u = root.raw as int;
    let t = s.long_parameter(r, far).raw as int;
    crate::vec3::lemma_shortened(r.dir, 1);
    crate::vec3::lemma_lengthened(near.dir, 1);
    crate::sphere::lemma_scaled_down(root, f);
    assert(u * 1 == u);
    if s.radius.raw != 0 {
        s.lemma_lengthened_has_length(near);
    }
    assert(r.dir.x.raw * 1 == r.dir.x.raw && r.dir.y.raw * 1 == r.dir.y.raw && r.dir.z.raw * 1
        == r.dir.z.raw);
    lemma_long_step(r.dir.x.raw as int, near.dir.x.raw as int, f, u, t);
    lemma_long_step(r.dir.y.raw as int, near.dir.y.raw as int, f, u, t);
    lemma_long_step(r.dir.z.raw as int, near.dir.z.raw as int, f, u, t);
}

/// One axis of a long ray: the direction `d` was divided by `f` to `short`
/// and the root `u` by `f` to `t`, both rounded toward zero.
proof fn lemma_long_step(d: int, short: int, f: int, u: int, t: int)
    requires
        f >= 1,
        abs(d - short * f) <= f - 1,
        abs(short) <= ONE_RAW,
        abs(u - f * t) < f,
        u >= 0 ==> 0 <= t && 0 <= u - f * t,
        u <= 0 ==> t <= 0 && u - f * t <= 0,
    ensures
        abs(d * t - short * u) <= ONE_RAW * (f - 1) + abs(u),
        ONE_RAW * abs(step(d, t) - step(short, u)) <= ONE_RAW * (f + 1) + abs(u),
{
    let one = ONE_RAW as int;
    let e = d - short * f;
    let g = u - f * t;
    // d * t = short * u - short * g + e * t
    assert(d * t == short * u - short * g + e * t) by (nonlinear_arith)
        requires
            e == d - short * f,
            g == u - f * t,
    ;
    lemma_abs_mul(short, g);
    lemma_abs_mul(e, t);
    assert(abs(short) * abs(g) <= one * (f - 1)) by (nonlinear_arith)
        requires
            abs(short) <= one,
            0 <= abs(g) <= f - 1,
            0 <= abs(short),
    ;
    // f * |t| <= |u|, so (f - 1) * |t| <= |u|
    assert(f * abs(t) <= abs(u)) by (nonlinear_arith)
        requires
            f >= 1,
            abs(u - f * t) < f,
            u >= 0 ==> 0 <= t,
            u <= 0 ==> t <= 0,
            u >= 0 ==> u - f * t >= 0,
            u <= 0 ==> u - f * t <= 0,
    ;
    assert(abs(e) * abs(t) <= abs(u)) by (nonlinear_arith)
        requires
            0 <= abs(e) <= f - 1,
            f * abs(t) <= abs(u),
            0 <= abs(t),
    ;
    assert(abs(d * t - short * u) <= one * (f - 1) + abs(u));
    lemma_quotient_error(d * t, one);
    lemma_quotient_error(short * u, one);
    let (p, q) = (step(d, t), step(short, u));
    assert(one * abs(p - q) <= abs(d * t - short * u) + 2 * one) by (nonlinear_arith)
        requires
            one > 0,
            -one < d * t - one * p < one,
            -one < short * u - one * q < one,
    ;
}

/// How far the long ray at `t` is from the shortened ray at `u`, in the
/// products of raw values: `2^32` times the power of two between the
/// directions, less one, plus the size of the root.
pub open spec fn slip(s: Sphere, r: Ray, far: bool) -> int {
    ONE_RAW * (r.dir.shortening() - 1) + abs(s.root(r.shortened(), far).raw as int)
}

/// A long ray at its parameter is as far from the surface as the
/// shortened ray at its root, up to the slip between the two.
///
/// With `s` for the slip, `u` for the root of the shortened ray, `d` for
/// its direction and `oc` for the vector from the center to the origin, the
/// two values of `off_surface` differ by at most
/// `2 * s * (|d|_1 * |u| + 2^32 * |oc|_1) + 3 * s^2`. How far the shortened
/// ray is from the surface says `lemma_hit_lies_on_the_surface`.
pub proof fn lemma_long_hit_lies_near_the_surface(s: Sphere, r: Ray, far: bool)
    requires
        r.dir.largest() > ONE_RAW,
    ensures
        ({
            let near = r.shortened();
            let u = s.root(near, far).raw as int;
            let t = s.long_parameter(r, far).raw as int;
            let reach = raw_norm1(near.dir) * abs(u) + ONE_RAW * raw_norm1(s.oc(r));
            &&& s.oc(near) == s.oc(r)
            &&& slip(s, r, far) >= ONE_RAW
            &&& abs(off_surface(s, r, t) - off_surface(s, near, u)) <= 2 * (slip(s, r, far)
                * reach) + 3 * (slip(s, r, far) * slip(s, r, far))
        }),
{
    let near = r.shortened();
    let f = r.dir.shortening();
    let root = s.root(near, far);
    let u = root.raw as int;
    let t = s.long_parameter(r, far).raw as int;
    let one = ONE_RAW as int;
    let gap = slip(s, r, far);
    let oc = s.oc(r);
    crate::vec3::lemma_shortened(r.dir, 1);
    crate::sphere::lemma_scaled_down(root, f);
    assert(r.dir.x.raw * 1 == r.dir.x.raw && r.dir.y.raw * 1 == r.dir.y.raw && r.dir.z.raw * 1
        == r.dir.z.raw);
    let d = (r.dir.x.raw as int, r.dir.y.raw as int, r.dir.z.raw as int);
    let k = (near.dir.x.raw as int, near.dir.y.raw as int, near.dir.z.raw as int);
    let o = (oc.x.raw as int, oc.y.raw as int, oc.z.raw as int);
    lemma_long_step(d.0, k.0, f, u, t);
    lemma_long_step(d.1, k.1, f, u, t);
    lemma_long_step(d.2, k.2, f, u, t);
    let (g0, n0) = lemma_long_term(one, d.0, k.0, o.0, t, u, gap);
    let (g1, n1) = lemma_long_term(one, d.1, k.1, o.1, t, u, gap);
    let (g2, n2) = lemma_long_term(one, d.2, k.2, o.2, t, u, gap);
    let rr = s.radius.raw * s.radius.raw;
    lemma_off_surface_by_axes(one, d, o, t, rr, (g0, g1, g2), off_surface(s, r, t));
    lemma_off_surface_by_axes(one, k, o, u, rr, (n0, n1, n2), off_surface(s, near, u));
    let reach = raw_norm1(near.dir) * abs(u) + one * raw_norm1(oc);
    let (a0, a1, a2, au) = (abs(k.0), abs(k.1), abs(k.2), abs(u));
    let (b0, b1, b2) = (abs(o.0), abs(o.1), abs(o.2));
    assert(gap * (a0 * au + one * b0) + gap * (a1 * au + one * b1) + gap * (a2 * au + one * b2)
        == gap * reach) by (nonlinear_arith)
        requires
            reach == (a0 + a1 + a2) * au + one * (b0 + b1 + b2),
    ;
}

/// One axis of the distance from the surface, for the long ray and for
/// the shortened one, and how far the two are apart.
proof fn lemma_long_term(one: int, d: int, short: int, o: int, t: int, u: int, gap: int) -> (r: (
    int,
    int,
))
    requires
        one > 0,
        abs(d * t - short * u) <= gap,
    ensures
        r.0 == (d * d) * (t * t) + 2 * (((o * d) * one) * t) + (o * o) * (one * one),
        r.1 == (short * short) * (u * u) + 2 * (((o * short) * one) * u) + (o * o) * (one * one),
        abs(r.0 - r.1) <= 2 * (gap * (abs(short) * abs(u) + one * abs(o))) + gap * gap,
{
    let x = d * t;
    let y = short * u;
    let e = x - y;
    let given = (d * d) * (t * t) + 2 * (((o * d) * one) * t) + (o * o) * (one * one);
    let near = (short * short) * (u * u) + 2 * (((o * short) * one) * u) + (o * o) * (one * one);
    assert((d * d) * (t * t) == x * x && ((o * d) * one) * t == (one * o) * x) by (nonlinear_arith)
        requires
            x == d * t,
    ;
    assert((short * short) * (u * u) == y * y && ((o * short) * one) * u == (one * o) * y)
        by (nonlinear_arith)
        requires
            y == short * u,
    ;
    assert(x * x - y * y == 2 * (y * e) + e * e && (one * o) * x - (one * o) * y == (one * o) * e)
        by (nonlinear_arith)
        requires
            e == x - y,
    ;
    assert(given - near == 2 * (y * e) + e * e + 2 * ((one * o) * e));
    lemma_abs_mul(y, e);
    lemma_abs_mul(short, u);
    lemma_abs_mul(one * o, e);
    lemma_abs_mul(one, o);
    lemma_abs_mul(e, e);
    let (ay, ae, ao) = (abs(short) * abs(u), abs(e), one * abs(o));
    assert(abs(y * e) == ay * ae && abs((one * o) * e) == (abs(one) * abs(o)) * ae && e * e == ae
        * ae);
    assert(ay * ae <= gap * ay && ao * ae <= gap * ao && ae * ae <= gap * gap) by (nonlinear_arith)
        requires
            0 <= ae <= gap,
            ay >= 0,
            ao >= 0,
    ;
    assert(gap * (ay + ao) == gap * ay + gap * ao) by (nonlinear_arith);
    (given, near)
}

/// The distance from the surface as the sum of its three axes.
proof fn lemma_off_surface_by_axes(
    one: int,
    d: (int, int, int),
    o: (int, int, int),
    t: int,
    rr: int,
    g: (int, int, int),
    off: int,
)
    requires
        g.0 == (d.0 * d.0) * (t * t) + 2 * (((o.0 * d.0) * one) * t) + (o.0 * o.0) * (one * one),
        g.1 == (d.1 * d.1) * (t * t) + 2 * (((o.1 * d.1) * one) * t) + (o.1 * o.1) * (one * one),
        g.2 == (d.2 * d.2) * (t * t) + 2 * (((o.2 * d.2) * one) * t) + (o.2 * o.2) * (one * one),
        off == (d.0 * d.0 + d.1 * d.1 + d.2 * d.2) * (t * t) + 2 * (((o.0 * d.0 + o.1 * d.1 + o.2
            * d.2) * one) * t) + (o.0 * o.0 + o.1 * o.1 + o.2 * o.2 - rr) * (one * one),
    ensures
        off == g.0 + g.1 + g.2 - rr * (one * one),
{
    let tt = t * t;
    let oo = one * one;
    assert((d.0 * d.0 + d.1 * d.1 + d.2 * d.2) * tt == (d.0 * d.0) * tt + (d.1 * d.1) * tt + (d.2
        * d.2) * tt) by (nonlinear_arith);
    assert(((o.0 * d.0 + o.1 * d.1 + o.2 * d.2) * one) * t == ((o.0 * d.0) * one) * t + ((o.1
        * d.1) * one) * t + ((o.2 * d.2) * one) * t) by (nonlinear_arith);
    assert((o.0 * o.0 + o.1 * o.1 + o.2 * o.2 - rr) * oo == (o.0 * o.0) * oo + (o.1 * o.1) * oo + (
    o.2 * o.2) * oo - rr * oo) by (nonlinear_arith);
}

/// The normal at the hit of a long ray has unit length, up to rounding
/// and the slip.
///
/// `a * radius^2` times the difference between the squared length of the
/// normal and one is at most what `lemma_normal_has_unit_length` allows the
/// shortened ray, with the point of the long ray in the place of that of
/// the shortened one, and `a` times what the slip adds to the distance
/// from the surface.
pub proof fn lemma_normal_of_a_long_hit_has_unit_length(s: Sphere, r: Ray, far: bool)
    requires
        r.dir.largest() > ONE_RAW,
        s.has_roots(r.shortened()),
        s.radius.raw > 0,
        coefficients_fit(s, r.shortened()),
        root_fits(s, r.shortened(), far),
        record_fits(s, r, s.long_parameter(r, far).raw as int),
    ensures
        ({
            let one = ONE_RAW as int;
            let near = r.shortened();
            let a = s.quad_a(near).raw as int;
            let radius = s.radius.raw as int;
            let sq = s.discriminant(near).sqrt_spec().raw as int;
            let u = s.root(near, far).raw as int;
            let reach = abs(u) + one;
            let p = r.at_spec(s.long_parameter(r, far));
            let w1 = raw_norm1(p.minus(s.center)) as int;
            let normal = s.outward_normal(p);
            let gap = slip(s, r, far);
            let span = raw_norm1(near.dir) * abs(u) + one * raw_norm1(s.oc(r));
            &&& a >= 0x4000_0000
            &&& (a * (radius * radius)) * abs(normal.raw_norm_squared() - one * one) <= one * (2 * ((
            one + sq) * (one * one)) + 2 * ((sq * one) * a) + a * a) + a * (one * (reach * reach)
                + one * (one * one)) + a * (2 * (gap * span) + 3 * (gap * gap) + 2 * ((one * (one
                + radius)) * w1) + 3 * (one * one) + 3 * (radius * radius))
        }),
{
    let one = ONE_RAW as int;
    let oo = one * one;
    let near = r.shortened();
    let a = s.quad_a(near).raw as int;
    let radius = s.radius.raw as int;
    let u = s.root(near, far).raw as int;
    let at = s.long_parameter(r, far);
    let gap = slip(s, r, far);
    crate::vec3::lemma_shortened(r.dir, 1);
    crate::vec3::lemma_lengthened(near.dir, 1);
    s.lemma_lengthened_has_length(near);
    lemma_hit_point_is_on_the_surface(s, near, far);
    lemma_long_hit_lies_near_the_surface(s, r, far);
    lemma_normal_length_at(s, r, at);
    let rr = radius * radius;
    let nn = s.outward_normal(r.at_spec(at)).raw_norm_squared();
    let w1 = raw_norm1(from_center(s, r, at)) as int;
    let span = raw_norm1(near.dir) * abs(u) + one * raw_norm1(s.oc(r));
    let off = off_surface(s, near, u);
    let slack = 2 * (gap * span) + 3 * (gap * gap) + 2 * ((one * (one + radius)) * w1) + 3 * oo + 3
        * rr;
    lemma_normal_bound(a, rr, nn - oo, off, rr * (nn - oo) - off, slack);
}

/// A long ray that enters a sphere meets a front face, and one that leaves
/// it a back face.
///
/// As `lemma_side_of_a_hit`, for the record of a ray whose direction has a
/// component above one. The side is told from the direction as given and
/// the normal at the point of the ray as given; the root of the
/// discriminant has to show through the slip between the two rays as
/// well: it is at least `face_margin` of the shortened ray plus the slip
/// times `|dir|_1` of the shortened ray plus the radius times `|n|_1` of
/// the outward normal.
pub proof fn lemma_side_of_a_long_hit(s: Sphere, r: Ray, far: bool)
    requires
        r.dir.largest() > ONE_RAW,
        s.has_roots(r.shortened()),
        s.radius.raw > 0,
        coefficients_fit(s, r.shortened()),
        root_fits(s, r.shortened(), far),
        record_fits(s, r, s.long_parameter(r, far).raw as int),
        s.discriminant(r.shortened()).sqrt_spec().raw * (ONE_RAW * ONE_RAW) >= face_margin(
            s,
            r.shortened(),
            s.root(r.shortened(), far).raw as int,
        ) + slip(s, r, far) * raw_norm1(r.dir.shortened()) + s.radius.raw * raw_norm1(
            s.outward_normal(r.at_spec(s.long_parameter(r, far))),
        ),
    ensures
        ({
            let t = s.long_parameter(r, far);
            let record = s.record_facing(r.at_spec(t), t, r.dir);
            &&& record.front_face == !far
            &&& record.normal == (if far {
                s.outward_normal(r.at_spec(t)).negated()
            } else {
                s.outward_normal(r.at_spec(t))
            })
        }),
{
    let one = ONE_RAW as int;
    let near = r.shortened();
    let a = s.quad_a(near).raw as int;
    let h = s.half_b(near).raw as int;
    let sq = s.discriminant(near).sqrt_spec().raw as int;
    let root = s.root(near, far);
    let u = root.raw as int;
    let at = s.long_parameter(r, far);
    let t = at.raw as int;
    let f = r.dir.shortening();
    let gap = slip(s, r, far);
    let radius = s.radius.raw as int;
    let side: int = if far {
        1
    } else {
        -1
    };
    crate::vec3::lemma_shortened(r.dir, 1);
    crate::sphere::lemma_scaled_down(root, f);
    lemma_root_solves_quadratic(s, near, far);
    // the root
    let num = root_numerator(s, near, far);
    lemma_quotient_error(num * one, a);
    let r1 = num * one - a * u;
    assert(num == side * sq - h) by (nonlinear_arith)
        requires
            side == 1 || side == -1,
            num == (if side == 1 {
                -h + sq
            } else {
                -h - sq
            }),
    ;
    assert(a * u == (side * sq - h) * one - r1);
    // the coefficients
    let oc = s.oc(near);
    let dd = raw_dot(near.dir, near.dir);
    let ud = raw_dot(oc, near.dir);
    lemma_quotient_error(dd, one);
    lemma_quotient_error(ud, one);
    let ea = dd - one * a;
    let eh = ud - one * h;
    assert(dd >= 0) by (nonlinear_arith)
        requires
            dd == near.dir.x.raw * near.dir.x.raw + near.dir.y.raw * near.dir.y.raw
                + near.dir.z.raw * near.dir.z.raw,
    ;
    // the record of the ray as given, component by component
    let d = (r.dir.x.raw as int, r.dir.y.raw as int, r.dir.z.raw as int);
    let k = (near.dir.x.raw as int, near.dir.y.raw as int, near.dir.z.raw as int);
    let o = (oc.x.raw as int, oc.y.raw as int, oc.z.raw as int);
    let (m0, x0, w0, n0, f0) = lemma_record_component(
        r.orig.x.raw as int,
        s.center.x.raw as int,
        d.0,
        radius,
        t,
    );
    let (m1, x1, w1, ny, f1) = lemma_record_component(
        r.orig.y.raw as int,
        s.center.y.raw as int,
        d.1,
        radius,
        t,
    );
    let (m2, x2, w2, n2, f2) = lemma_record_component(
        r.orig.z.raw as int,
        s.center.z.raw as int,
        d.2,
        radius,
        t,
    );
    let p = r.at_spec(at);
    let outward = s.outward_normal(p);
    assert(outward.x.raw == n0 && outward.y.raw == ny && outward.z.raw == n2);
    assert(ud == o.0 * k.0 + o.1 * k.1 + o.2 * k.2);
    // the steps of the ray as given, as steps of the shortened ray
    assert(d.0 * 1 == d.0 && d.1 * 1 == d.1 && d.2 * 1 == d.2);
    lemma_long_step(d.0, k.0, f, u, t);
    lemma_long_step(d.1, k.1, f, u, t);
    lemma_long_step(d.2, k.2, f, u, t);
    let (e0, e1, e2) = (k.0 * u - one * m0, k.1 * u - one * m1, k.2 * u - one * m2);
    lemma_face_algebra(
        one,
        a,
        h,
        u,
        side * sq,
        r1,
        ea,
        eh,
        radius,
        k,
        o,
        (m0, m1, m2),
        (e0, e1, e2),
        (w0, w1, w2),
        (n0, ny, n2),
        (f0, f1, f2),
    );
    let dn = k.0 * n0 + k.1 * ny + k.2 * n2;
    assert(raw_dot(near.dir, outward) == dn);
    // the errors, bounded
    let k1 = raw_norm1(near.dir) as int;
    lemma_weighted_sum_bound((e0, e1, e2), k, gap + one);
    lemma_weighted_sum_bound((f0, f1, f2), k, radius);
    assert((gap + one - 1) * k1 == (one - 1) * k1 + gap * k1) by (nonlinear_arith);
    assert(gap * k1 >= 0) by (nonlinear_arith)
        requires
            gap >= 0,
            k1 >= 0,
    ;
    let n1 = raw_norm1(outward) as int;
    assert(radius * (one + n1) == radius * one + radius * n1) by (nonlinear_arith);
    lemma_face_bound(
        one,
        a,
        u,
        sq,
        r1,
        ea,
        eh,
        radius,
        k1,
        e0 * k.0 + e1 * k.1 + e2 * k.2,
        f0 * k.0 + f1 * k.1 + f2 * k.2,
        dn,
        side,
        gap * k1,
        one + n1,
    );
    // from the shortened direction to the direction as given
    let g = (d.0 - k.0 * f, d.1 - k.1 * f, d.2 - k.2 * f);
    let whole = d.0 * n0 + d.1 * ny + d.2 * n2;
    lemma_weighted_sum_bound(g, (n0, ny, n2), f);
    let gn = g.0 * n0 + g.1 * ny + g.2 * n2;
    lemma_whole_term(d.0, k.0, f, n0);
    lemma_whole_term(d.1, k.1, f, ny);
    lemma_whole_term(d.2, k.2, f, n2);
    assert(f * dn == f * (k.0 * n0) + f * (k.1 * ny) + f * (k.2 * n2)) by (nonlinear_arith)
        requires
            dn == k.0 * n0 + k.1 * ny + k.2 * n2,
    ;
    assert(whole == f * dn + gn);
    assert(raw_dot(r.dir, outward) == whole);
    assert(abs(gn) <= (f - 1) * n1);
    lemma_quotient_error(whole, one);
    if far {
        assert(f * dn >= f * (one + n1)) by (nonlinear_arith)
            requires
                dn >= one + n1,
                f >= 1,
        ;
        assert(f * (one + n1) - (f - 1) * n1 >= one) by (nonlinear_arith)
            requires
                f >= 1,
                n1 >= 0,
                one >= 1,
        ;
        assert(quotient(whole, one) >= 0);
        assert(dot_spec(r.dir, outward).raw >= 0);
        assert(!HitRecord::faces_front(r.dir, outward));
    } else {
        assert(f * dn <= -(f * (one + n1))) by (nonlinear_arith)
            requires
                dn <= -(one + n1),
                f >= 1,
        ;
        assert(f * (one + n1) - (f - 1) * n1 >= one) by (nonlinear_arith)
            requires
                f >= 1,
                n1 >= 0,
                one >= 1,
        ;
        assert(whole <= -one);
        assert(quotient(whole, one) < 0);
        assert(dot_spec(r.dir, outward).raw < 0);
        assert(HitRecord::faces_front(r.dir, outward));
    }
}

/// One term of the dot product with the direction as given, by the
/// shortened direction and what the shortening has cut off.
proof fn lemma_whole_term(d: int, k: int, f: int, n: int)
    ensures
        d * n == f * (k * n) + (d - k * f) * n,
{
    assert(d * n == f * (k * n) + (d - k * f) * n) by (nonlinear_arith);
}

/// How far from the surface the rounding can leave a hit, as
/// `lemma_hit_lies_on_the_surface` bounds it: for the aimed ray `long`,
/// with `a` the squared length of its direction, `d` the root of its
/// discriminant and `u` its root as real numbers, `2^-32` times
/// `2 * (1 + d) + 2 * d * a + a^2 + a * ((|u| + 1)^2 + 1)`.
pub open spec fn surface_slack(s: Sphere, long: Ray, far: bool) -> int {
    let one = ONE_RAW as int;
    let a = s.quad_a(long).raw as int;
    let sq = s.discriminant(long).sqrt_spec().raw as int;
    let reach = abs(s.root(long, far).raw as int) + one;
    one * (2 * ((one + sq) * (one * one)) + 2 * ((sq * one) * a) + a * a) + a * (one * (reach
        * reach) + one * (one * one))
}

/// Whether the scene is of moderate size: no coordinate of the origin of
/// the ray or of the center of the sphere is above 2048 in absolute value,
/// and the radius is at least `2^-12` and at most 4096.
pub open spec fn moderate(s: Sphere, r: Ray) -> bool {
    &&& components_within(r.orig, 0x800_0000_0000)
    &&& components_within(s.center, 0x800_0000_0000)
    &&& 0x10_0000 <= s.radius.raw <= 0x1000_0000_0000
}

/// What `Sphere::hit` returns in a scene of moderate size, for a ray
/// whose direction has no component above one, however short it is.
///
/// A hit is the first crossing in the window: at the smaller root, or at
/// the larger where the smaller is not in the window. Its point is the
/// point of the ray at its parameter and lies on the surface up to
/// `surface_slack`; the outward normal there has unit length up to that
/// and the rounding of the normal; and the hit is a front face at the
/// smaller root and a back face at the larger, where the root of the
/// discriminant is at least `face_margin`.
pub proof fn lemma_hit_in_a_moderate_scene(
    s: Sphere,
    r: Ray,
    t_min: crate::fixed::Fixed,
    t_max: crate::fixed::Fixed,
)
    requires
        moderate(s, r),
        r.dir.largest() <= ONE_RAW,
        s.hit_spec(r, t_min, t_max) is Some,
    ensures
        ({
            let rec = s.hit_spec(r, t_min, t_max).unwrap();
            let far = !s.root_in_window(r, false, t_min, t_max);
            let long = r.lengthened();
            let one = ONE_RAW as int;
            let a = s.quad_a(long).raw as int;
            let radius = s.radius.raw as int;
            let sq = s.discriminant(long).sqrt_spec().raw as int;
            let w1 = raw_norm1(rec.p.minus(s.center)) as int;
            &&& s.solvable(r)
            &&& s.parameter(r, far) == Some(rec.t)
            &&& crate::hittable::in_window(rec.t, t_min, t_max)
            &&& rec.p == r.at_spec(rec.t)
            &&& a >= 0x4000_0000
            &&& a * abs(off_surface(s, r, rec.t.raw as int)) <= surface_slack(s, long, far)
            &&& (a * (radius * radius)) * abs(s.outward_normal(rec.p).raw_norm_squared() - one
                * one) <= surface_slack(s, long, far) + a * (2 * ((one * (one + radius)) * w1) + 3
                * (one * one) + 3 * (radius * radius))
            &&& sq * (one * one) >= face_margin(s, long, s.root(long, far).raw as int) ==> {
                &&& rec.front_face == !far
                &&& rec.normal == (if far {
                    s.outward_normal(rec.p).negated()
                } else {
                    s.outward_normal(rec.p)
                })
            }
        }),
{
    let far = !s.root_in_window(r, false, t_min, t_max);
    let long = r.lengthened();
    let one = ONE_RAW as int;
    assert(s.hit_spec(r, t_min, t_max) == s.short_hit(r, t_min, t_max));
    assert(s.hit_parameter(r, t_min, t_max) is Some);
    assert(s.solvable(r));
    assert(s.root_in_window(r, far, t_min, t_max));
    lemma_moderate_scene_fits(s, r, far);
    lemma_hit_lies_on_the_surface(s, r, far);
    lemma_normal_of_the_hit_has_unit_length(s, r, far);
    let sq = s.discriminant(long).sqrt_spec().raw as int;
    if sq * (one * one) >= face_margin(s, long, s.root(long, far).raw as int) {
        lemma_side_of_the_hit(s, r, far);
    }
}

/// What `Sphere::hit` returns in a scene of moderate size, for a ray
/// whose direction has a component above one, however long it is.
///
/// As `lemma_hit_in_a_moderate_scene`, with the shortened ray as the aimed
/// one. The slip between the ray as given and the shortened ray adds to
/// each bound: see `lemma_long_hit_lies_near_the_surface`.
pub proof fn lemma_long_hit_in_a_moderate_scene(
    s: Sphere,
    r: Ray,
    t_min: crate::fixed::Fixed,
    t_max: crate::fixed::Fixed,
)
    requires
        moderate(s, r),
        r.dir.largest() > ONE_RAW,
        s.hit_spec(r, t_min, t_max) is Some,
    ensures
        ({
            let rec = s.hit_spec(r, t_min, t_max).unwrap();
            let far = !crate::hittable::in_window(s.long_parameter(r, false), t_min, t_max);
            let near = r.shortened();
            let one = ONE_RAW as int;
            let a = s.quad_a(near).raw as int;
            let radius = s.radius.raw as int;
            let sq = s.discriminant(near).sqrt_spec().raw as int;
            let u = s.root(near, far).raw as int;
            let gap = slip(s, r, far);
            let span = raw_norm1(near.dir) * abs(u) + one * raw_norm1(s.oc(r));
            let w1 = raw_norm1(rec.p.minus(s.center)) as int;
            &&& s.has_roots(near)
            &&& s.long_parameter(r, far) == rec.t
            &&& crate::hittable::in_window(rec.t, t_min, t_max)
            &&& rec.p == r.at_spec(rec.t)
            &&& a >= 0x4000_0000
            &&& a * abs(off_surface(s, r, rec.t.raw as int)) <= surface_slack(s, near, far) + a * (
            2 * (gap * span) + 3 * (gap * gap))
            &&& (a * (radius * radius)) * abs(s.outward_normal(rec.p).raw_norm_squared() - one
                * one) <= surface_slack(s, near, far) + a * (2 * (gap * span) + 3 * (gap * gap)
                + 2 * ((one * (one + radius)) * w1) + 3 * (one * one) + 3 * (radius * radius))
            &&& sq * (one * one) >= face_margin(s, near, u) + gap * raw_norm1(near.dir) + radius
                * raw_norm1(s.outward_normal(rec.p)) ==> {
                &&& rec.front_face == !far
                &&& rec.normal == (if far {
                    s.outward_normal(rec.p).negated()
                } else {
                    s.outward_normal(rec.p)
                })
            }
        }),
{
    let far = !crate::hittable::in_window(s.long_parameter(r, false), t_min, t_max);
    let near = r.shortened();
    let one = ONE_RAW as int;
    let a = s.quad_a(near).raw as int;
    let u = s.root(near, far).raw as int;
    let t = s.long_parameter(r, far).raw as int;
    assert(s.hit_spec(r, t_min, t_max) == s.long_hit(r, t_min, t_max));
    assert(s.long_hit_parameter(r, t_min, t_max) is Some);
    assert(s.has_roots(near));
    crate::vec3::lemma_shortened(r.dir, 1);
    crate::vec3::lemma_lengthened(near.dir, 1);
    s.lemma_lengthened_has_length(near);
    lemma_moderate_scene_fits_long_rays(s, r, far);
    lemma_hit_point_is_on_the_surface(s, near, far);
    lemma_long_hit_lies_near_the_surface(s, r, far);
    let gap = slip(s, r, far);
    let span = raw_norm1(near.dir) * abs(u) + one * raw_norm1(s.oc(r));
    let apart = 2 * (gap * span) + 3 * (gap * gap);
    assert(a * abs(off_surface(s, r, t)) <= a * abs(off_surface(s, near, u)) + a * apart)
        by (nonlinear_arith)
        requires
            a > 0,
            abs(off_surface(s, r, t)) <= abs(off_surface(s, near, u)) + apart,
    ;
    lemma_normal_of_a_long_hit_has_unit_length(s, r, far);
    let sq = s.discriminant(near).sqrt_spec().raw as int;
    let outward = s.outward_normal(r.at_spec(s.long_parameter(r, far)));
    if sq * (one * one) >= face_margin(s, near, u) + gap * raw_norm1(near.dir) + s.radius.raw
        * raw_norm1(outward) {
        lemma_side_of_a_long_hit(s, r, far);
    }
}

/// Whether the ray is aimed at the center of the sphere: its direction is
/// a multiple of the vector from its origin to the center, by a number
/// above zero. Over the raw values that is: the dot product of `oc` and the
/// direction is below zero, and its square is the product of the two
/// squared lengths.
pub open spec fn aimed_at_center(s: Sphere, r: Ray) -> bool {
    let oc = s.oc(r);
    let h = raw_dot(oc, r.dir);
    h < 0 && h * h == raw_dot(r.dir, r.dir) * raw_dot(oc, oc)
}

/// How far along the ray the parameter `t` is from the point next to the
/// center, in raw values: `|dir|^2 * t + dot(oc, dir)`, which is `|dir|`
/// times the distance.
pub open spec fn along(s: Sphere, r: Ray, t: int) -> int {
    raw_dot(r.dir, r.dir) * t + raw_dot(s.oc(r), r.dir) * ONE_RAW
}

/// A ray aimed at the center meets the surface at the distance of the
/// center less the radius.
///
/// For such a ray the point next to the center is the center, at the
/// parameter `|oc| / |dir|`. So how far the ray at `t` is from the surface
/// is how far its distance from that point is from the radius:
/// `|dir|^2 * off_surface` is `along^2 - |dir|^2 * radius^2`, all in raw
/// values, with nothing rounded. Where `off_surface` is within a bound, as
/// `lemma_hit_lies_on_the_surface` says of a hit, `t` is that near to
/// `(|oc| - radius) / |dir|` or to `(|oc| + radius) / |dir|`, the smaller
/// root to the first.
pub proof fn lemma_aimed_ray_meets_at_the_radius(s: Sphere, r: Ray, t: int)
    requires
        aimed_at_center(s, r),
    ensures
        raw_dot(r.dir, r.dir) * off_surface(s, r, t) == along(s, r, t) * along(s, r, t) - raw_dot(
            r.dir,
            r.dir,
        ) * ((s.radius.raw * s.radius.raw) * (ONE_RAW * ONE_RAW)),
{
    let one = ONE_RAW as int;
    let oo = one * one;
    let oc = s.oc(r);
    let dd = raw_dot(r.dir, r.dir);
    let h = raw_dot(oc, r.dir);
    let uu = raw_dot(oc, oc);
    let rr = s.radius.raw * s.radius.raw;
    let tt = t * t;
    let hs = h * one;
    let x = dd * t;
    let off = off_surface(s, r, t);
    assert(off == dd * tt + 2 * (hs * t) + (uu - rr) * oo);
    assert(dd * off == dd * (dd * tt) + dd * (2 * (hs * t)) + dd * ((uu - rr) * oo))
        by (nonlinear_arith)
        requires
            off == dd * tt + 2 * (hs * t) + (uu - rr) * oo,
    ;
    assert(dd * (dd * tt) == x * x) by (nonlinear_arith)
        requires
            x == dd * t,
            tt == t * t,
    ;
    assert(dd * (2 * (hs * t)) == 2 * (x * hs)) by (nonlinear_arith)
        requires
            x == dd * t,
    ;
    assert(dd * ((uu - rr) * oo) == (dd * uu) * oo - dd * (rr * oo)) by (nonlinear_arith);
    assert((h * h) * oo == hs * hs) by (nonlinear_arith)
        requires
            hs == h * one,
            oo == one * one,
    ;
    assert((x + hs) * (x + hs) == x * x + 2 * (x * hs) + hs * hs) by (nonlinear_arith);
}

/// The hit of a ray aimed at the center is at the distance of the center
/// less the radius, or plus the radius, up to rounding, however short the
/// direction of the ray is.
///
/// With `a` the squared length of the lengthened direction, a quarter or
/// more, and `|dir|^2` that of the direction as given, in raw values:
/// `a` times how far `along^2` is from `|dir|^2 * radius^2` is at most
/// `|dir|^2` times `surface_slack`.
pub proof fn lemma_aimed_hit_is_at_the_radius(s: Sphere, r: Ray, far: bool)
    requires
        s.solvable(r),
        hit_fits(s, r, far),
        aimed_at_center(s, r),
    ensures
        ({
            let t = s.parameter(r, far).unwrap().raw as int;
            let a = s.quad_a(r.lengthened()).raw as int;
            let dd = raw_dot(r.dir, r.dir);
            &&& a >= 0x4000_0000
            &&& dd > 0
            &&& a * abs(along(s, r, t) * along(s, r, t) - dd * ((s.radius.raw * s.radius.raw) * (
            ONE_RAW * ONE_RAW))) <= dd * surface_slack(s, r.lengthened(), far)
        }),
{
    let t = s.parameter(r, far).unwrap().raw as int;
    let a = s.quad_a(r.lengthened()).raw as int;
    let dd = raw_dot(r.dir, r.dir);
    let off = off_surface(s, r, t);
    let slack = surface_slack(s, r.lengthened(), far);
    lemma_hit_lies_on_the_surface(s, r, far);
    lemma_aimed_ray_meets_at_the_radius(s, r, t);
    crate::vec3::lemma_length_of_zero(r.dir);
    lemma_abs_mul(dd, off);
    assert(a * (dd * abs(off)) <= dd * slack) by (nonlinear_arith)
        requires
            a * abs(off) <= slack,
            dd > 0,
    ;
}

} // verus!
