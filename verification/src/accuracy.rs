//! How far rounding moves the vector operations from the exact results.

use crate::fixed::{
    floor_sqrt, is_floor_sqrt, lemma_abs_mul, lemma_floor_sqrt_exists, lemma_quotient_error,
    lemma_quotient_of_multiple, quotient, Fixed, ONE_RAW,
};
use crate::vec3::{
    cross_spec, dot_spec, lemma_length_of_zero, raw_dot, reflect_spec, stretch_goal,
    unit_vector_spec, Vec3,
};
use vstd::math::abs;
use vstd::prelude::*;

verus! {

/// Whether `x` is a raw value: whether it needs no saturation.
pub open spec fn fits(x: int) -> bool {
    i64::MIN <= x <= i64::MAX
}

/// The sum of the absolute values of the raw components.
pub open spec fn raw_norm1(u: Vec3) -> nat {
    abs(u.x.raw as int) + abs(u.y.raw as int) + abs(u.z.raw as int)
}

/// Whether no component of the cross product of `u` and `v` is saturated.
pub open spec fn cross_fits(u: Vec3, v: Vec3) -> bool {
    &&& fits(quotient(u.y.raw * v.z.raw - u.z.raw * v.y.raw, ONE_RAW as int))
    &&& fits(quotient(u.z.raw * v.x.raw - u.x.raw * v.z.raw, ONE_RAW as int))
    &&& fits(quotient(u.x.raw * v.y.raw - u.y.raw * v.x.raw, ONE_RAW as int))
}

/// A sum of three products in which each first factor is below `bound` in
/// absolute value is at most `bound - 1` times the sum of the absolute
/// values of the second factors.
pub(crate) proof fn lemma_weighted_sum_bound(e: (int, int, int), w: (int, int, int), bound: int)
    requires
        bound >= 1,
        -bound < e.0 < bound,
        -bound < e.1 < bound,
        -bound < e.2 < bound,
    ensures
        abs(e.0 * w.0 + e.1 * w.1 + e.2 * w.2) <= (bound - 1) * (abs(w.0) + abs(w.1) + abs(w.2)),
{
    lemma_product_bound(e.0, w.0, bound);
    lemma_product_bound(e.1, w.1, bound);
    lemma_product_bound(e.2, w.2, bound);
    assert((bound - 1) * (abs(w.0) + abs(w.1) + abs(w.2)) == (bound - 1) * abs(w.0) + (bound - 1)
        * abs(w.1) + (bound - 1) * abs(w.2)) by (nonlinear_arith);
}

/// A product whose first factor is below `bound` in absolute value is at
/// most `bound - 1` times the absolute value of the second.
proof fn lemma_product_bound(e: int, w: int, bound: int)
    requires
        bound >= 1,
        -bound < e < bound,
    ensures
        -((bound - 1) * abs(w)) <= e * w <= (bound - 1) * abs(w),
{
    assert(-((bound - 1) * abs(w)) <= e * w <= (bound - 1) * abs(w)) by (nonlinear_arith)
        requires
            bound >= 1,
            -bound < e < bound,
    ;
}

/// A vector times its cross product with another is zero: the identity
/// behind the orthogonality of the cross product.
proof fn lemma_triple_identity(a0: int, a1: int, a2: int, b0: int, b1: int, b2: int)
    ensures
        (a1 * b2 - a2 * b1) * a0 + (a2 * b0 - a0 * b2) * a1 + (a0 * b1 - a1 * b0) * a2 == 0,
        (a1 * b2 - a2 * b1) * b0 + (a2 * b0 - a0 * b2) * b1 + (a0 * b1 - a1 * b0) * b2 == 0,
{
    assert((a1 * b2 - a2 * b1) * a0 + (a2 * b0 - a0 * b2) * a1 + (a0 * b1 - a1 * b0) * a2 == 0)
        by (nonlinear_arith);
    assert((a1 * b2 - a2 * b1) * b0 + (a2 * b0 - a0 * b2) * b1 + (a0 * b1 - a1 * b0) * b2 == 0)
        by (nonlinear_arith);
}

/// With `s * q = c - e` in each component, `s` times the dot product of `q`
/// with `w` is the dot product of `c` with `w` less that of `e` with `w`.
proof fn lemma_scaled_dot(
    s: int,
    q0: int,
    q1: int,
    q2: int,
    c0: int,
    c1: int,
    c2: int,
    e0: int,
    e1: int,
    e2: int,
    w0: int,
    w1: int,
    w2: int,
)
    requires
        s * q0 == c0 - e0,
        s * q1 == c1 - e1,
        s * q2 == c2 - e2,
    ensures
        s * (q0 * w0 + q1 * w1 + q2 * w2) == (c0 * w0 + c1 * w1 + c2 * w2) - (e0 * w0 + e1 * w1 + e2
            * w2),
{
    assert(s * (q0 * w0) == (c0 - e0) * w0) by (nonlinear_arith)
        requires
            s * q0 == c0 - e0,
    ;
    assert(s * (q1 * w1) == (c1 - e1) * w1) by (nonlinear_arith)
        requires
            s * q1 == c1 - e1,
    ;
    assert(s * (q2 * w2) == (c2 - e2) * w2) by (nonlinear_arith)
        requires
            s * q2 == c2 - e2,
    ;
    assert((c0 - e0) * w0 == c0 * w0 - e0 * w0) by (nonlinear_arith);
    assert((c1 - e1) * w1 == c1 * w1 - e1 * w1) by (nonlinear_arith);
    assert((c2 - e2) * w2 == c2 * w2 - e2 * w2) by (nonlinear_arith);
    assert(s * (q0 * w0 + q1 * w1 + q2 * w2) == s * (q0 * w0) + s * (q1 * w1) + s * (q2 * w2))
        by (nonlinear_arith);
}

/// The cross product is orthogonal to both of its factors, up to rounding.
///
/// Where no component of `cross(u, v)` is saturated, its dot product with
/// `u` is at most `2^-32` times the sum of the absolute values of the
/// components of `u`, and likewise for `v`. In particular it is exactly zero
/// where that sum is below one.
pub proof fn lemma_cross_is_orthogonal(u: Vec3, v: Vec3)
    requires
        cross_fits(u, v),
    ensures
        abs(dot_spec(cross_spec(u, v), u).raw as int) * ONE_RAW <= raw_norm1(u),
        abs(dot_spec(cross_spec(u, v), v).raw as int) * ONE_RAW <= raw_norm1(v),
{
    let s = ONE_RAW as int;
    let c = cross_spec(u, v);
    let (u0, u1, u2) = (u.x.raw as int, u.y.raw as int, u.z.raw as int);
    let (v0, v1, v2) = (v.x.raw as int, v.y.raw as int, v.z.raw as int);
    let c0 = u1 * v2 - u2 * v1;
    let c1 = u2 * v0 - u0 * v2;
    let c2 = u0 * v1 - u1 * v0;
    let (q0, q1, q2) = (c.x.raw as int, c.y.raw as int, c.z.raw as int);
    assert(q0 == quotient(c0, s));
    assert(q1 == quotient(c1, s));
    assert(q2 == quotient(c2, s));
    lemma_quotient_error(c0, s);
    lemma_quotient_error(c1, s);
    lemma_quotient_error(c2, s);
    let (e0, e1, e2) = (c0 - s * q0, c1 - s * q1, c2 - s * q2);
    lemma_triple_identity(u0, u1, u2, v0, v1, v2);
    lemma_scaled_dot(s, q0, q1, q2, c0, c1, c2, e0, e1, e2, u0, u1, u2);
    lemma_scaled_dot(s, q0, q1, q2, c0, c1, c2, e0, e1, e2, v0, v1, v2);
    lemma_weighted_sum_bound((e0, e1, e2), (u0, u1, u2), s);
    lemma_weighted_sum_bound((e0, e1, e2), (v0, v1, v2), s);
    assert(raw_dot(c, u) == q0 * u0 + q1 * u1 + q2 * u2);
    assert(raw_dot(c, v) == q0 * v0 + q1 * v1 + q2 * v2);
    lemma_scaled_bound(raw_dot(c, u), raw_norm1(u) as int, s);
    lemma_scaled_bound(raw_dot(c, v), raw_norm1(v) as int, s);
    lemma_quotient_error(raw_dot(c, u), s);
    lemma_quotient_error(raw_dot(c, v), s);
}

/// From `|s * x| <= (s - 1) * n` follows `|x| <= n`.
proof fn lemma_scaled_bound(x: int, n: int, s: int)
    requires
        s >= 1,
        n >= 0,
        abs(s * x) <= (s - 1) * n,
    ensures
        abs(x) <= n,
{
    assert(abs(x) <= n) by (nonlinear_arith)
        requires
            s >= 1,
            n >= 0,
            -((s - 1) * n) <= s * x <= (s - 1) * n,
    ;
}

/// Of two numbers from zero on, the smaller has the smaller square.
proof fn lemma_square_le(a: int, b: int)
    requires
        0 <= a <= b,
    ensures
        a * a <= b * b,
{
    assert(a * a <= b * b) by (nonlinear_arith)
        requires
            0 <= a <= b,
    ;
}

/// Of two numbers from zero on, the one with the smaller square is smaller.
proof fn lemma_square_lt_converse(a: int, b: int)
    requires
        0 <= a,
        0 <= b,
        a * a < b * b,
    ensures
        a < b,
{
    if a >= b {
        lemma_square_le(b, a);
    }
}

/// The square of a product is the product of the squares.
proof fn lemma_square_of_product(a: int, b: int)
    ensures
        (a * b) * (a * b) == (a * a) * (b * b),
{
    assert((a * b) * (a * b) == (a * a) * (b * b)) by (nonlinear_arith);
}

/// A factor goes into each term of a sum of three.
proof fn lemma_distribute3(k: int, a: int, b: int, c: int)
    ensures
        k * (a + b + c) == k * a + k * b + k * c,
{
    assert(k * (a + b + c) == k * a + k * b + k * c) by (nonlinear_arith);
}

/// One component of a normalised vector.
///
/// With `a` the absolute value of the component, `l` the length that
/// divides it and `w` the quotient of `a * s` by `l`, rounded down: `w` is
/// at most `s`, and `l * w` falls short of `a * s` by less than `l`, which
/// bounds its square from both sides.
proof fn lemma_normalised_component(a: int, l: int, s: int, w: int)
    requires
        0 <= a <= l,
        0 < l,
        0 < s,
        w == (a * s) / l,
    ensures
        0 <= w <= s,
        (l * w) * (l * w) <= (a * s) * (a * s),
        (a * s) * (a * s) <= (l * w) * (l * w) + 2 * (l * (a * s)),
{
    let t = a * s;
    assert(0 <= t <= l * s) by (nonlinear_arith)
        requires
            0 <= a <= l,
            0 < s,
            t == a * s,
    ;
    vstd::arithmetic::div_mod::lemma_fundamental_div_mod(t, l);
    vstd::arithmetic::div_mod::lemma_mod_bound(t, l);
    vstd::arithmetic::div_mod::lemma_div_pos_is_pos(t, l);
    let p = l * w;
    assert(p <= t < p + l);
    assert(w <= s) by (nonlinear_arith)
        requires
            l * w <= l * s,
            0 < l,
    ;
    assert(0 <= p) by (nonlinear_arith)
        requires
            p == l * w,
            0 <= w,
            0 < l,
    ;
    lemma_square_le(p, t);
    if t >= l {
        lemma_square_le(t - l, p);
        assert((t - l) * (t - l) == t * t - 2 * (l * t) + l * l) by (nonlinear_arith);
        assert(l * l >= 0) by (nonlinear_arith);
    } else {
        assert(t * t <= 2 * (l * t)) by (nonlinear_arith)
            requires
                0 <= t < l,
        ;
        assert(p * p >= 0) by (nonlinear_arith);
    }
}

/// A component is at most as long as the vector.
proof fn lemma_component_below_length(a: int, rest: int, l: int)
    requires
        0 <= a,
        0 <= rest,
        0 <= l,
        a * a + rest < (l + 1) * (l + 1),
    ensures
        a <= l,
{
    lemma_square_lt_converse(a, l + 1);
}

/// A vector that is not zero is stretched until its largest component is
/// `2^61` or more.
pub proof fn lemma_stretched_is_large(v: Vec3)
    requires
        v.largest() > 0,
    ensures
        v.stretched().largest() >= stretch_goal(),
    decreases v.stretch_left(),
{
    if v.largest() < stretch_goal() {
        lemma_stretched_is_large(v.doubled());
    }
}

/// A unit vector has length one, up to rounding, whatever the length of the
/// vector it was made from.
///
/// For every `v` that `unit_vector` takes, the length of `unit_vector(v)`
/// is at most one and at least `1 - 4 * 2^-32`.
pub proof fn lemma_unit_vector_has_unit_length(v: Vec3)
    requires
        v.length_spec().raw > 0,
    ensures
        ONE_RAW - 4 <= unit_vector_spec(v).length_spec().raw <= ONE_RAW,
{
    let s = ONE_RAW as int;
    lemma_length_of_zero(v);
    lemma_stretched_is_large(v);
    let big = v.stretched();
    let (x0, x1, x2) = (big.x.raw as int, big.y.raw as int, big.z.raw as int);
    let (a0, a1, a2) = (abs(x0) as int, abs(x1) as int, abs(x2) as int);
    let n = big.raw_norm_squared();
    assert(x0 * x0 == a0 * a0 && x1 * x1 == a1 * a1 && x2 * x2 == a2 * a2) by (nonlinear_arith)
        requires
            a0 == abs(x0),
            a1 == abs(x1),
            a2 == abs(x2),
    ;
    assert(a0 * a0 >= 0 && a1 * a1 >= 0 && a2 * a2 >= 0) by (nonlinear_arith);
    assert(n == a0 * a0 + a1 * a1 + a2 * a2);
    lemma_floor_sqrt_exists(n as nat);
    let l = floor_sqrt(n);
    lemma_component_below_length(a0, a1 * a1 + a2 * a2, l);
    lemma_component_below_length(a1, a0 * a0 + a2 * a2, l);
    lemma_component_below_length(a2, a0 * a0 + a1 * a1, l);
    // the length of the stretched vector is at least its largest component
    assert(l >= stretch_goal());
    // the components of the unit vector
    let unit = unit_vector_spec(v);
    let (w0, w1, w2) = ((a0 * s) / l, (a1 * s) / l, (a2 * s) / l);
    lemma_normalised_component(a0, l, s, w0);
    lemma_normalised_component(a1, l, s, w1);
    lemma_normalised_component(a2, l, s, w2);
    assert(abs(x0 * s) == a0 * s && abs(x1 * s) == a1 * s && abs(x2 * s) == a2 * s);
    assert(abs(unit.x.raw as int) == w0);
    assert(abs(unit.y.raw as int) == w1);
    assert(abs(unit.z.raw as int) == w2);
    let m = unit.raw_norm_squared();
    assert(m == w0 * w0 + w1 * w1 + w2 * w2) by (nonlinear_arith)
        requires
            m == unit.x.raw * unit.x.raw + unit.y.raw * unit.y.raw + unit.z.raw * unit.z.raw,
            w0 == abs(unit.x.raw as int),
            w1 == abs(unit.y.raw as int),
            w2 == abs(unit.z.raw as int),
    ;
    assert(0 <= w0 * w0 <= s * s && 0 <= w1 * w1 <= s * s && 0 <= w2 * w2 <= s * s)
        by (nonlinear_arith)
        requires
            0 <= w0 <= s,
            0 <= w1 <= s,
            0 <= w2 <= s,
    ;
    lemma_floor_sqrt_exists(m as nat);
    let r = floor_sqrt(m);
    // r <= 2 * s, so the length of the unit vector is not saturated
    assert(s * s == 0x1_0000_0000_0000_0000);
    assert((2 * s) * (2 * s) == 4 * (s * s)) by (nonlinear_arith);
    if r >= 2 * s {
        lemma_square_le(2 * s, r);
    }
    assert(unit.length_spec().raw == r);
    lemma_unit_length_bounds(s, l, n, m, r, (a0, a1, a2), (w0, w1, w2));
    // l is above s, so l * (r - s) < s leaves no room for r above s
    assert(r <= s) by (nonlinear_arith)
        requires
            l * (r - s) < s,
            l > s,
            s > 0,
    ;
}

/// The arithmetic behind `lemma_unit_vector_has_unit_length`: from the
/// bounds of the components to the bounds of the length.
proof fn lemma_unit_length_bounds(s: int, l: int, n: int, m: int, r: int, a: (int, int, int), w: (
    int,
    int,
    int,
))
    requires
        s >= 8,
        l > 0,
        is_floor_sqrt(n, l),
        is_floor_sqrt(m, r),
        0 <= a.0 <= l,
        0 <= a.1 <= l,
        0 <= a.2 <= l,
        n == a.0 * a.0 + a.1 * a.1 + a.2 * a.2,
        m == w.0 * w.0 + w.1 * w.1 + w.2 * w.2,
        (l * w.0) * (l * w.0) <= (a.0 * s) * (a.0 * s),
        (l * w.1) * (l * w.1) <= (a.1 * s) * (a.1 * s),
        (l * w.2) * (l * w.2) <= (a.2 * s) * (a.2 * s),
        (a.0 * s) * (a.0 * s) <= (l * w.0) * (l * w.0) + 2 * (l * (a.0 * s)),
        (a.1 * s) * (a.1 * s) <= (l * w.1) * (l * w.1) + 2 * (l * (a.1 * s)),
        (a.2 * s) * (a.2 * s) <= (l * w.2) * (l * w.2) + 2 * (l * (a.2 * s)),
    ensures
        r >= s - 4,
        l * (r - s) < s,
{
    let (a0, a1, a2) = a;
    let (w0, w1, w2) = w;
    let ll = l * l;
    let ss = s * s;
    // l^2 * m is the sum of the squares of l * w
    lemma_square_of_product(l, w0);
    lemma_square_of_product(l, w1);
    lemma_square_of_product(l, w2);
    lemma_distribute3(ll, w0 * w0, w1 * w1, w2 * w2);
    assert(ll * m == (l * w0) * (l * w0) + (l * w1) * (l * w1) + (l * w2) * (l * w2));
    // s^2 * n is the sum of the squares of a * s
    lemma_square_of_product(s, a0);
    lemma_square_of_product(s, a1);
    lemma_square_of_product(s, a2);
    lemma_distribute3(ss, a0 * a0, a1 * a1, a2 * a2);
    assert(a0 * s == s * a0 && a1 * s == s * a1 && a2 * s == s * a2) by (nonlinear_arith);
    assert(ss * n == (a0 * s) * (a0 * s) + (a1 * s) * (a1 * s) + (a2 * s) * (a2 * s));
    assert(ll * m <= ss * n);
    // from above: l^2 * r^2 <= l^2 * m <= s^2 * n < s^2 * (l + 1)^2
    assert(ll * (r * r) <= ll * m) by (nonlinear_arith)
        requires
            r * r <= m,
            ll >= 0,
    ;
    assert(ll >= 1) by (nonlinear_arith)
        requires
            ll == l * l,
            l >= 1,
    ;
    assert(ss * n < ss * ((l + 1) * (l + 1))) by (nonlinear_arith)
        requires
            n < (l + 1) * (l + 1),
            ss == s * s,
            s >= 8,
    ;
    assert(ll * (r * r) == (l * r) * (l * r)) by (nonlinear_arith)
        requires
            ll == l * l,
    ;
    assert(ss * ((l + 1) * (l + 1)) == (s * (l + 1)) * (s * (l + 1))) by (nonlinear_arith)
        requires
            ss == s * s,
    ;
    assert(0 <= l * r && 0 <= s * (l + 1)) by (nonlinear_arith)
        requires
            l > 0,
            r >= 0,
            s >= 8,
    ;
    lemma_square_lt_converse(l * r, s * (l + 1));
    assert(l * (r - s) == l * r - l * s && s * (l + 1) == l * s + s) by (nonlinear_arith);
    // from below: l^2 * m >= s^2 * n - 2 * l * s * (a0 + a1 + a2) >= l^2 * (s^2 - 6 * s)
    assert(2 * (l * (a0 * s)) + 2 * (l * (a1 * s)) + 2 * (l * (a2 * s)) <= 6 * (ll * s))
        by (nonlinear_arith)
        requires
            ll == l * l,
            0 <= a0 <= l,
            0 <= a1 <= l,
            0 <= a2 <= l,
            l > 0,
            s >= 8,
    ;
    assert(ss * n >= ss * ll) by (nonlinear_arith)
        requires
            n >= l * l,
            ll == l * l,
            ss == s * s,
    ;
    assert(ll * m >= ss * ll - 6 * (ll * s));
    assert(ss * ll - 6 * (ll * s) == ll * (ss - 6 * s)) by (nonlinear_arith);
    assert(m >= ss - 6 * s) by (nonlinear_arith)
        requires
            ll * m >= ll * (ss - 6 * s),
            ll >= 1,
    ;
    assert((s - 4) * (s - 4) <= ss - 6 * s) by (nonlinear_arith)
        requires
            ss == s * s,
            s >= 8,
    ;
    if r < s - 4 {
        lemma_square_le(r + 1, s - 4);
    }
}

/// Whether `reflect(v, n)` is computed without saturation.
pub open spec fn reflect_fits(v: Vec3, n: Vec3) -> bool {
    let d = quotient(raw_dot(v, n), ONE_RAW as int);
    &&& fits(2 * d)
    &&& fits(quotient(n.x.raw * (2 * d), ONE_RAW as int))
    &&& fits(quotient(n.y.raw * (2 * d), ONE_RAW as int))
    &&& fits(quotient(n.z.raw * (2 * d), ONE_RAW as int))
    &&& fits(v.x.raw - quotient(n.x.raw * (2 * d), ONE_RAW as int))
    &&& fits(v.y.raw - quotient(n.y.raw * (2 * d), ONE_RAW as int))
    &&& fits(v.z.raw - quotient(n.z.raw * (2 * d), ONE_RAW as int))
}

/// Whether no component of `n` is above one by more than two millionths,
/// in absolute value: as it is for every vector whose length is within a
/// millionth of one.
pub open spec fn near_unit_cube(n: Vec3) -> bool {
    &&& 1_000_000 * abs(n.x.raw as int) <= 1_000_002 * ONE_RAW
    &&& 1_000_000 * abs(n.y.raw as int) <= 1_000_002 * ONE_RAW
    &&& 1_000_000 * abs(n.z.raw as int) <= 1_000_002 * ONE_RAW
}

/// What one reflection computes, over the integers: the dot product `d`
/// with its rounding error `e`, and for each component what is taken off,
/// `t`, with its rounding error `f`.
proof fn lemma_reflect_parts(v: Vec3, n: Vec3) -> (parts: (int, int, (int, int, int), (
    int,
    int,
    int,
)))
    requires
        reflect_fits(v, n),
    ensures
        ({
            let s = ONE_RAW as int;
            let (d, e, t, f) = parts;
            let r = reflect_spec(v, n);
            &&& d == dot_spec(v, n).raw
            &&& s * d == raw_dot(v, n) - e
            &&& -s < e < s
            &&& s * t.0 == 2 * (n.x.raw * d) - f.0
            &&& s * t.1 == 2 * (n.y.raw * d) - f.1
            &&& s * t.2 == 2 * (n.z.raw * d) - f.2
            &&& -s < f.0 < s
            &&& -s < f.1 < s
            &&& -s < f.2 < s
            &&& r.x.raw == v.x.raw - t.0
            &&& r.y.raw == v.y.raw - t.1
            &&& r.z.raw == v.z.raw - t.2
        }),
{
    let s = ONE_RAW as int;
    let p = raw_dot(v, n);
    let d = quotient(p, s);
    lemma_quotient_error(p, s);
    assert(dot_spec(v, n).raw == d);
    let k = 2 * d;
    lemma_quotient_of_multiple(k, s);
    assert((2 * s) * d == s * k) by (nonlinear_arith)
        requires
            k == 2 * d,
    ;
    assert(Fixed::int_spec(2).raw == 2 * s);
    assert(Fixed::int_spec(2).times(dot_spec(v, n)).raw == k);
    let t = (quotient(n.x.raw * k, s), quotient(n.y.raw * k, s), quotient(n.z.raw * k, s));
    lemma_quotient_error(n.x.raw * k, s);
    lemma_quotient_error(n.y.raw * k, s);
    lemma_quotient_error(n.z.raw * k, s);
    let f = (n.x.raw * k - s * t.0, n.y.raw * k - s * t.1, n.z.raw * k - s * t.2);
    assert(n.x.raw * (2 * d) == 2 * (n.x.raw * d) && n.y.raw * (2 * d) == 2 * (n.y.raw * d)
        && n.z.raw * (2 * d) == 2 * (n.z.raw * d)) by (nonlinear_arith);
    (d, p - s * d, t, f)
}

/// An equation multiplied by a number: from `s * t = 2 * (n * d) - f` to
/// `s * (t * n) = 2 * (d * (n * n)) - f * n`.
proof fn lemma_times_component(s: int, t: int, n: int, d: int, f: int)
    requires
        s * t == 2 * (n * d) - f,
    ensures
        s * (t * n) == 2 * (d * (n * n)) - f * n,
{
    assert(s * (t * n) == (s * t) * n) by (nonlinear_arith);
    assert((2 * (n * d) - f) * n == 2 * (d * (n * n)) - f * n) by (nonlinear_arith);
}

/// The sum of two dot products that a double reflection computes, `d` and
/// `d2`: it is as far from zero as the normal is from unit length, up to
/// rounding.
proof fn lemma_double_reflection_dots(
    s: int,
    n: (int, int, int),
    d: int,
    e: int,
    p: int,
    t: (int, int, int),
    f: (int, int, int),
    d2: int,
    e2: int,
    p2: int,
)
    requires
        s >= 1,
        1_000_000 * abs(n.0) <= 1_000_002 * s,
        1_000_000 * abs(n.1) <= 1_000_002 * s,
        1_000_000 * abs(n.2) <= 1_000_002 * s,
        s * d == p - e,
        -s < e < s,
        s * t.0 == 2 * (n.0 * d) - f.0,
        s * t.1 == 2 * (n.1 * d) - f.1,
        s * t.2 == 2 * (n.2 * d) - f.2,
        -s < f.0 < s,
        -s < f.1 < s,
        -s < f.2 < s,
        p2 == p - (t.0 * n.0 + t.1 * n.1 + t.2 * n.2),
        s * d2 == p2 - e2,
        -s < e2 < s,
    ensures
        (s * s) * abs(d + d2) <= 2 * (abs(d) * abs(n.0 * n.0 + n.1 * n.1 + n.2 * n.2 - s * s)) + 6
            * (s * s),
{
    let nn = n.0 * n.0 + n.1 * n.1 + n.2 * n.2;
    let ss = s * s;
    let tn = t.0 * n.0 + t.1 * n.1 + t.2 * n.2;
    let fnn = f.0 * n.0 + f.1 * n.1 + f.2 * n.2;
    lemma_times_component(s, t.0, n.0, d, f.0);
    lemma_times_component(s, t.1, n.1, d, f.1);
    lemma_times_component(s, t.2, n.2, d, f.2);
    lemma_distribute3(s, t.0 * n.0, t.1 * n.1, t.2 * n.2);
    lemma_distribute3(d, n.0 * n.0, n.1 * n.1, n.2 * n.2);
    assert(s * tn == 2 * (d * nn) - fnn);
    // s * p2 and s * p, each through its dot product
    assert(s * p2 == s * p - s * tn) by (nonlinear_arith)
        requires
            p2 == p - tn,
    ;
    assert(s * (s * d) == s * p - s * e) by (nonlinear_arith)
        requires
            s * d == p - e,
    ;
    assert(s * (s * d2) == s * p2 - s * e2) by (nonlinear_arith)
        requires
            s * d2 == p2 - e2,
    ;
    assert(s * (s * d) == ss * d && s * (s * d2) == ss * d2 && ss * (d + d2) == ss * d + ss * d2)
        by (nonlinear_arith)
        requires
            ss == s * s,
    ;
    // s^2 * (d + d2) = 2 * d * (s^2 - nn) + s * (e - e2) + f.n
    assert(d * (ss - nn) == d * ss - d * nn && d * ss == ss * d) by (nonlinear_arith);
    assert(ss * (d + d2) == 2 * (d * (ss - nn)) + (s * e - s * e2) + fnn);
    // the three parts, bounded
    lemma_abs_mul(d, ss - nn);
    lemma_weighted_sum_bound(f, n, s);
    let n1 = abs(n.0) + abs(n.1) + abs(n.2);
    assert((s - 1) * n1 <= 4 * ss) by (nonlinear_arith)
        requires
            0 <= n1,
            1_000_000 * n1 <= 3_000_006 * s,
            s >= 1,
            ss == s * s,
    ;
    assert(-(2 * ss) <= s * e - s * e2 <= 2 * ss) by (nonlinear_arith)
        requires
            -s < e < s,
            -s < e2 < s,
            s >= 1,
            ss == s * s,
    ;
    lemma_abs_mul(ss, d + d2);
    assert(ss >= 1) by (nonlinear_arith)
        requires
            s >= 1,
            ss == s * s,
    ;
    assert(abs(nn - ss) == abs(ss - nn));
}

/// One component after a double reflection: what the two reflections take
/// off together, `t + t2`, is bounded by the sum of the two dot products.
proof fn lemma_double_reflection_component(
    s: int,
    n: int,
    d: int,
    d2: int,
    t: int,
    t2: int,
    f: int,
    f2: int,
    bound: int,
)
    requires
        s >= 1,
        1_000_000 * abs(n) <= 1_000_002 * s,
        s * t == 2 * (n * d) - f,
        s * t2 == 2 * (n * d2) - f2,
        -s < f < s,
        -s < f2 < s,
        (s * s) * abs(d + d2) <= bound,
    ensures
        1_000_000 * ((s * s) * abs(t + t2)) <= 2_000_004 * bound + 2_000_000 * (s * s),
{
    let ss = s * s;
    let g = d + d2;
    assert(s * (t + t2) == 2 * (n * g) - (f + f2)) by (nonlinear_arith)
        requires
            s * t == 2 * (n * d) - f,
            s * t2 == 2 * (n * d2) - f2,
            g == d + d2,
    ;
    lemma_abs_mul(n, g);
    assert(1_000_000 * (abs(n) * abs(g)) <= 1_000_002 * (s * abs(g))) by (nonlinear_arith)
        requires
            0 <= abs(n),
            1_000_000 * abs(n) <= 1_000_002 * s,
            0 <= abs(g),
    ;
    lemma_abs_mul(s, t + t2);
    assert(1_000_000 * (s * abs(t + t2)) <= 2_000_004 * (s * abs(g)) + 2_000_000 * s);
    assert(1_000_000 * abs(t + t2) <= 2_000_004 * abs(g) + 2_000_000) by (nonlinear_arith)
        requires
            1_000_000 * (s * abs(t + t2)) <= 2_000_004 * (s * abs(g)) + 2_000_000 * s,
            s >= 1,
    ;
    assert(1_000_000 * (ss * abs(t + t2)) <= 2_000_004 * (ss * abs(g)) + 2_000_000 * ss)
        by (nonlinear_arith)
        requires
            1_000_000 * abs(t + t2) <= 2_000_004 * abs(g) + 2_000_000,
            ss >= 0,
            ss == s * s,
    ;
}

/// Reflecting twice at the same normal gives the vector back, up to
/// rounding and up to how far the normal is from unit length.
///
/// Where neither reflection is saturated and no component of `n` is above
/// one by more than two millionths, each component of
/// `reflect(reflect(v, n), n)` differs from that of `v` by at most
/// `15 * 2^-32` plus 4.000008 times `|dot(v, n)| * ||n|^2 - 1|`.
pub proof fn lemma_reflect_twice(v: Vec3, n: Vec3)
    requires
        near_unit_cube(n),
        reflect_fits(v, n),
        reflect_fits(reflect_spec(v, n), n),
    ensures
        ({
            let back = reflect_spec(reflect_spec(v, n), n);
            let ss = ONE_RAW * ONE_RAW;
            let slack = 15_000_000 * ss + 4_000_008 * (abs(dot_spec(v, n).raw as int) * abs(
                n.raw_norm_squared() - ss,
            ));
            &&& 1_000_000 * (ss * abs(back.x.raw - v.x.raw)) <= slack
            &&& 1_000_000 * (ss * abs(back.y.raw - v.y.raw)) <= slack
            &&& 1_000_000 * (ss * abs(back.z.raw - v.z.raw)) <= slack
        }),
{
    let s = ONE_RAW as int;
    let r = reflect_spec(v, n);
    let back = reflect_spec(r, n);
    let (d, e, t, f) = lemma_reflect_parts(v, n);
    let (d2, e2, t2, f2) = lemma_reflect_parts(r, n);
    let nr = (n.x.raw as int, n.y.raw as int, n.z.raw as int);
    let p = raw_dot(v, n);
    let p2 = raw_dot(r, n);
    assert(p2 == p - (t.0 * nr.0 + t.1 * nr.1 + t.2 * nr.2)) by (nonlinear_arith)
        requires
            p == v.x.raw * nr.0 + v.y.raw * nr.1 + v.z.raw * nr.2,
            p2 == (v.x.raw - t.0) * nr.0 + (v.y.raw - t.1) * nr.1 + (v.z.raw - t.2) * nr.2,
    ;
    lemma_double_reflection_dots(s, nr, d, e, p, t, f, d2, e2, p2);
    let nn = nr.0 * nr.0 + nr.1 * nr.1 + nr.2 * nr.2;
    assert(nn == n.raw_norm_squared());
    let bound = 2 * (abs(d) * abs(nn - s * s)) + 6 * (s * s);
    lemma_double_reflection_component(s, nr.0, d, d2, t.0, t2.0, f.0, f2.0, bound);
    lemma_double_reflection_component(s, nr.1, d, d2, t.1, t2.1, f.1, f2.1, bound);
    lemma_double_reflection_component(s, nr.2, d, d2, t.2, t2.2, f.2, f2.2, bound);
    assert(back.x.raw - v.x.raw == -(t.0 + t2.0));
    assert(back.y.raw - v.y.raw == -(t.1 + t2.1));
    assert(back.z.raw - v.z.raw == -(t.2 + t2.2));
    assert(s * s == ONE_RAW * ONE_RAW);
}

/// A sum of three squares times a square is the sum of the squares of the
/// three products.
proof fn lemma_squares_times(a0: int, a1: int, a2: int, b: int)
    ensures
        (a0 * a0 + a1 * a1 + a2 * a2) * (b * b) == (a0 * b) * (a0 * b) + (a1 * b) * (a1 * b) + (a2
            * b) * (a2 * b),
{
    let bb = b * b;
    assert((a0 * a0 + a1 * a1 + a2 * a2) * bb == bb * (a0 * a0 + a1 * a1 + a2 * a2))
        by (nonlinear_arith);
    lemma_distribute3(bb, a0 * a0, a1 * a1, a2 * a2);
    lemma_square_of_product(a0, b);
    lemma_square_of_product(a1, b);
    lemma_square_of_product(a2, b);
    assert(bb * (a0 * a0) == (a0 * a0) * bb && bb * (a1 * a1) == (a1 * a1) * bb && bb * (a2 * a2)
        == (a2 * a2) * bb) by (nonlinear_arith);
}

/// The identity of Lagrange: the product of the squared lengths of two
/// vectors is the square of their dot product plus the squared length of
/// their cross product.
proof fn lemma_lagrange(a0: int, a1: int, a2: int, b0: int, b1: int, b2: int)
    ensures
        (a0 * a0 + a1 * a1 + a2 * a2) * (b0 * b0 + b1 * b1 + b2 * b2) == (a0 * b0 + a1 * b1 + a2
            * b2) * (a0 * b0 + a1 * b1 + a2 * b2) + (a1 * b2 - a2 * b1) * (a1 * b2 - a2 * b1) + (a2
            * b0 - a0 * b2) * (a2 * b0 - a0 * b2) + (a0 * b1 - a1 * b0) * (a0 * b1 - a1 * b0),
{
    // the nine products of one component of each vector
    let (p00, p01, p02) = (a0 * b0, a0 * b1, a0 * b2);
    let (p10, p11, p12) = (a1 * b0, a1 * b1, a1 * b2);
    let (p20, p21, p22) = (a2 * b0, a2 * b1, a2 * b2);
    let a = a0 * a0 + a1 * a1 + a2 * a2;
    lemma_distribute3(a, b0 * b0, b1 * b1, b2 * b2);
    lemma_squares_times(a0, a1, a2, b0);
    lemma_squares_times(a0, a1, a2, b1);
    lemma_squares_times(a0, a1, a2, b2);
    assert((p00 + p11 + p22) * (p00 + p11 + p22) == p00 * p00 + p11 * p11 + p22 * p22 + 2 * (p00
        * p11) + 2 * (p00 * p22) + 2 * (p11 * p22)) by (nonlinear_arith);
    assert((p12 - p21) * (p12 - p21) == p12 * p12 + p21 * p21 - 2 * (p12 * p21))
        by (nonlinear_arith);
    assert((p20 - p02) * (p20 - p02) == p20 * p20 + p02 * p02 - 2 * (p20 * p02))
        by (nonlinear_arith);
    assert((p01 - p10) * (p01 - p10) == p01 * p01 + p10 * p10 - 2 * (p01 * p10))
        by (nonlinear_arith);
    // the mixed products cancel in pairs
    assert(p00 * p11 == p01 * p10) by (nonlinear_arith)
        requires
            p00 == a0 * b0,
            p11 == a1 * b1,
            p01 == a0 * b1,
            p10 == a1 * b0,
    ;
    assert(p00 * p22 == p20 * p02) by (nonlinear_arith)
        requires
            p00 == a0 * b0,
            p22 == a2 * b2,
            p20 == a2 * b0,
            p02 == a0 * b2,
    ;
    assert(p11 * p22 == p12 * p21) by (nonlinear_arith)
        requires
            p11 == a1 * b1,
            p22 == a2 * b2,
            p12 == a1 * b2,
            p21 == a2 * b1,
    ;
}

/// The dot product of two vectors is at most the product of their lengths
/// (the inequality of Cauchy and Schwarz), and rounding does not break it:
/// the square of `dot(u, v)` is at most the squared length of `u` times the
/// squared length of `v`, all three taken exactly.
pub proof fn lemma_dot_is_bounded(u: Vec3, v: Vec3)
    ensures
        raw_dot(u, v) * raw_dot(u, v) <= u.raw_norm_squared() * v.raw_norm_squared(),
        (dot_spec(u, v).raw * ONE_RAW) * (dot_spec(u, v).raw * ONE_RAW) <= u.raw_norm_squared()
            * v.raw_norm_squared(),
{
    let s = ONE_RAW as int;
    let (u0, u1, u2) = (u.x.raw as int, u.y.raw as int, u.z.raw as int);
    let (v0, v1, v2) = (v.x.raw as int, v.y.raw as int, v.z.raw as int);
    lemma_lagrange(u0, u1, u2, v0, v1, v2);
    let (c0, c1, c2) = (u1 * v2 - u2 * v1, u2 * v0 - u0 * v2, u0 * v1 - u1 * v0);
    assert(c0 * c0 >= 0 && c1 * c1 >= 0 && c2 * c2 >= 0) by (nonlinear_arith);
    let p = raw_dot(u, v);
    assert(p * p <= u.raw_norm_squared() * v.raw_norm_squared());
    // rounding toward zero and saturation only make the dot product smaller
    let d = dot_spec(u, v).raw as int;
    lemma_quotient_error(p, s);
    assert(abs(d * s) <= abs(p)) by {
        lemma_abs_mul(d, s);
        lemma_abs_mul(quotient(p, s), s);
        assert(abs(d) * s <= abs(quotient(p, s)) * s) by (nonlinear_arith)
            requires
                abs(d) <= abs(quotient(p, s)),
                s > 0,
        ;
        assert(quotient(p, s) * s == s * quotient(p, s)) by (nonlinear_arith);
    }
    assert((d * s) * (d * s) <= p * p) by (nonlinear_arith)
        requires
            abs(d * s) <= abs(p),
    ;
}

/// Whether every component of `v` is at most `bound` in absolute value.
pub open spec fn components_within(v: Vec3, bound: int) -> bool {
    abs(v.x.raw as int) <= bound && abs(v.y.raw as int) <= bound && abs(v.z.raw as int) <= bound
}

/// A product of a number of at most `top / 10^6` in absolute value with one
/// of at most `b` is at most `top * b / 10^6`.
proof fn lemma_near_unit_product(n: int, k: int, s: int, b: int)
    requires
        s >= 1,
        b >= 0,
        1_000_000 * abs(n) <= 1_000_002 * s,
        abs(k) <= b,
    ensures
        abs(n * k) <= 2 * (s * b),
{
    lemma_abs_mul(n, k);
    assert(abs(n) * abs(k) <= 2 * (s * b)) by (nonlinear_arith)
        requires
            0 <= abs(n) <= 2 * s,
            0 <= abs(k) <= b,
    ;
}

/// A reflection of a vector of moderate size is not saturated, and what it
/// gives is of moderate size again.
///
/// Where no component of `n` is above one by more than two millionths and
/// no component of `v` above `bound`, `reflect(v, n)` is computed without
/// saturation and has no component above `26 * bound`.
pub proof fn lemma_reflect_fits(v: Vec3, n: Vec3, bound: int)
    requires
        near_unit_cube(n),
        components_within(v, bound),
        1 <= bound <= 0x40_0000_0000_0000,
    ensures
        reflect_fits(v, n),
        components_within(reflect_spec(v, n), 26 * bound),
{
    let s = ONE_RAW as int;
    let p = raw_dot(v, n);
    lemma_near_unit_product(n.x.raw as int, v.x.raw as int, s, bound);
    lemma_near_unit_product(n.y.raw as int, v.y.raw as int, s, bound);
    lemma_near_unit_product(n.z.raw as int, v.z.raw as int, s, bound);
    assert(v.x.raw * n.x.raw == n.x.raw * v.x.raw && v.y.raw * n.y.raw == n.y.raw * v.y.raw
        && v.z.raw * n.z.raw == n.z.raw * v.z.raw) by (nonlinear_arith);
    assert(abs(p) <= 6 * (s * bound));
    assert(6 * (s * bound) == s * (6 * bound)) by (nonlinear_arith);
    let d = quotient(p, s);
    lemma_small_quotient(p, s, 6 * bound);
    let k = 2 * d;
    lemma_near_unit_product(n.x.raw as int, k, s, 12 * bound);
    lemma_near_unit_product(n.y.raw as int, k, s, 12 * bound);
    lemma_near_unit_product(n.z.raw as int, k, s, 12 * bound);
    assert(2 * (s * (12 * bound)) == s * (24 * bound)) by (nonlinear_arith);
    lemma_small_quotient(n.x.raw * k, s, 24 * bound);
    lemma_small_quotient(n.y.raw * k, s, 24 * bound);
    lemma_small_quotient(n.z.raw * k, s, 24 * bound);
    assert(reflect_fits(v, n));
    let (whole, e, t, f) = lemma_reflect_parts(v, n);
    assert(n.x.raw * (2 * d) == 2 * (n.x.raw * d) && n.y.raw * (2 * d) == 2 * (n.y.raw * d)
        && n.z.raw * (2 * d) == 2 * (n.z.raw * d)) by (nonlinear_arith);
}

/// A dividend of at most `s * b` in absolute value gives a quotient of at
/// most `b`.
proof fn lemma_small_quotient(x: int, s: int, b: int)
    requires
        s >= 1,
        b >= 0,
        abs(x) <= s * b,
    ensures
        abs(quotient(x, s)) <= b,
{
    lemma_quotient_error(x, s);
    let q = quotient(x, s);
    lemma_abs_mul(s, q);
    assert(abs(q) <= b) by (nonlinear_arith)
        requires
            s * abs(q) <= abs(x),
            abs(x) <= s * b,
            s >= 1,
            b >= 0,
            abs(q) >= 0,
    ;
}

/// A vector whose squared length is within one part in 499000 of one has
/// no component above one by more than two millionths.
proof fn lemma_near_unit_components(n: Vec3)
    requires
        499_000 * abs(n.raw_norm_squared() - ONE_RAW * ONE_RAW) <= ONE_RAW * ONE_RAW,
    ensures
        near_unit_cube(n),
{
    let s = ONE_RAW as int;
    let (a0, a1, a2) = (abs(n.x.raw as int) as int, abs(n.y.raw as int) as int, abs(
        n.z.raw as int,
    ) as int);
    assert(n.x.raw * n.x.raw == a0 * a0 && n.y.raw * n.y.raw == a1 * a1 && n.z.raw * n.z.raw == a2
        * a2) by (nonlinear_arith)
        requires
            a0 == abs(n.x.raw as int),
            a1 == abs(n.y.raw as int),
            a2 == abs(n.z.raw as int),
    ;
    assert(a0 * a0 >= 0 && a1 * a1 >= 0 && a2 * a2 >= 0) by (nonlinear_arith);
    let top = 1_000_002 * s;
    let ss = s * s;
    let nn = n.raw_norm_squared();
    assert(top * top >= 1_000_000_000_000 * ss + 4_000_000 * ss) by (nonlinear_arith)
        requires
            top == 1_000_002 * s,
            ss == s * s,
    ;
    assert(499_000 * nn <= 499_001 * ss);
    assert(ss >= 0) by (nonlinear_arith)
        requires
            ss == s * s,
    ;
    // 10^12 * nn <= 10^12 * ss + 2004009 * ss, and each square is at most nn
    assert(1_000_000_000_000 * nn <= top * top);
    lemma_scaled_component(a0, s, top);
    lemma_scaled_component(a1, s, top);
    lemma_scaled_component(a2, s, top);
}

/// A number whose square is at most `top^2 / 10^12` is at most
/// `top / 10^6`.
proof fn lemma_scaled_component(a: int, s: int, top: int)
    requires
        0 <= a,
        0 <= top,
        1_000_000_000_000 * (a * a) <= top * top,
    ensures
        1_000_000 * a <= top,
{
    let big = 1_000_000 * a;
    assert(big * big == 1_000_000_000_000 * (a * a)) by (nonlinear_arith)
        requires
            big == 1_000_000 * a,
    ;
    if big > top {
        lemma_square_le(top + 1, big);
        assert((top + 1) * (top + 1) > top * top) by (nonlinear_arith)
            requires
                top >= 0,
        ;
    }
}

/// Reflecting twice at a normal of nearly unit length gives the vector
/// back, up to a share of its length.
///
/// Where `|n|^2` is within one part in 499000 of one and no component of
/// `v` is above `2^17`, each component of `reflect(reflect(v, n), n)`
/// differs from that of `v` by at most `15 * 2^-32` plus
/// `|dot(v, n)| / 124700`; and `|dot(v, n)|` is at most `|v| * |n|`.
/// Together that is less than a hundred-thousandth of the length of `v`, or
/// of one where `v` is shorter. `lemma_reflect_twice_at_unit_length` states
/// the same over the length of the normal.
pub proof fn lemma_reflect_twice_at_unit_normal(v: Vec3, n: Vec3)
    requires
        components_within(v, 0x2_0000_0000_0000),
        499_000 * abs(n.raw_norm_squared() - ONE_RAW * ONE_RAW) <= ONE_RAW * ONE_RAW,
    ensures
        ({
            let back = reflect_spec(reflect_spec(v, n), n);
            let d = abs(dot_spec(v, n).raw as int);
            &&& 124_700 * (abs(back.x.raw - v.x.raw) - 15) <= d
            &&& 124_700 * (abs(back.y.raw - v.y.raw) - 15) <= d
            &&& 124_700 * (abs(back.z.raw - v.z.raw) - 15) <= d
            &&& (d * ONE_RAW) * (d * ONE_RAW) <= v.raw_norm_squared() * n.raw_norm_squared()
        }),
{
    lemma_near_unit_components(n);
    lemma_reflect_fits(v, n, 0x2_0000_0000_0000);
    lemma_reflect_fits(reflect_spec(v, n), n, 0x34_0000_0000_0000);
    lemma_reflect_twice(v, n);
    lemma_dot_is_bounded(v, n);
    let back = reflect_spec(reflect_spec(v, n), n);
    let ss = ONE_RAW * ONE_RAW;
    let d = abs(dot_spec(v, n).raw as int) as int;
    let delta = abs(n.raw_norm_squared() - ss) as int;
    assert(499_000 * (d * delta) <= d * ss) by (nonlinear_arith)
        requires
            499_000 * delta <= ss,
            d >= 0,
    ;
    lemma_share_of_slack(abs(back.x.raw - v.x.raw) as int, d, delta, ss);
    lemma_share_of_slack(abs(back.y.raw - v.y.raw) as int, d, delta, ss);
    lemma_share_of_slack(abs(back.z.raw - v.z.raw) as int, d, delta, ss);
    let raw = dot_spec(v, n).raw as int;
    assert((d * ONE_RAW) * (d * ONE_RAW) == (raw * ONE_RAW) * (raw * ONE_RAW)) by (nonlinear_arith)
        requires
            d == abs(raw),
    ;
}

/// From `10^6 * ss * e <= 15 * 10^6 * ss + 4000008 * d * delta` and
/// `499000 * d * delta <= d * ss` follows `124700 * (e - 15) <= d`.
proof fn lemma_share_of_slack(e: int, d: int, delta: int, ss: int)
    requires
        ss > 0,
        d >= 0,
        1_000_000 * (ss * e) <= 15_000_000 * ss + 4_000_008 * (d * delta),
        499_000 * (d * delta) <= d * ss,
    ensures
        124_700 * (e - 15) <= d,
{
    // 499000 times the first bound, with the second put in
    let k = d * delta;
    assert(499_000_000_000 * (ss * e) <= 7_485_000_000_000 * ss + 4_000_008 * (d * ss));
    assert(ss * (499_000_000_000 * (e - 15)) <= ss * (4_000_008 * d)) by (nonlinear_arith)
        requires
            499_000_000_000 * (ss * e) <= 7_485_000_000_000 * ss + 4_000_008 * (d * ss),
    ;
    assert(499_000_000_000 * (e - 15) <= 4_000_008 * d) by (nonlinear_arith)
        requires
            ss * (499_000_000_000 * (e - 15)) <= ss * (4_000_008 * d),
            ss > 0,
    ;
}

/// A normal whose length is within a millionth of one has a squared
/// length within one part in 499000 of one.
pub proof fn lemma_unit_length_is_near_unit(n: Vec3)
    requires
        1_000_000 * abs(n.length_spec().raw - ONE_RAW) <= ONE_RAW,
    ensures
        499_000 * abs(n.raw_norm_squared() - ONE_RAW * ONE_RAW) <= ONE_RAW * ONE_RAW,
{
    let s = ONE_RAW as int;
    let ss = s * s;
    let nn = n.raw_norm_squared();
    assert(nn >= 0) by (nonlinear_arith)
        requires
            nn == n.x.raw * n.x.raw + n.y.raw * n.y.raw + n.z.raw * n.z.raw,
    ;
    lemma_floor_sqrt_exists(nn as nat);
    let l = floor_sqrt(nn);
    assert(l == n.length_spec().raw);
    // 999999 * s <= 10^6 * l <= 1000001 * s, and l * l <= nn <= l * l + 2 * l
    assert((l + 1) * (l + 1) == l * l + 2 * l + 1) by (nonlinear_arith);
    let big = 1_000_000 * l;
    assert(big * big == 1_000_000_000_000 * (l * l)) by (nonlinear_arith)
        requires
            big == 1_000_000 * l,
    ;
    let low = 999_999 * s;
    let high = 1_000_001 * s;
    lemma_square_le(low, big);
    lemma_square_le(big, high);
    assert(low * low == 999_998_000_001 * ss && high * high == 1_000_002_000_001 * ss)
        by (nonlinear_arith)
        requires
            low == 999_999 * s,
            high == 1_000_001 * s,
            ss == s * s,
    ;
    assert(ss == 0x1_0000_0000_0000_0000);
}

/// Reflecting twice at a normal of unit length gives the vector back, up
/// to a share of its length.
///
/// Where the length of `n` is within a millionth of one and no component
/// of `v` is above `2^17`, each component of `reflect(reflect(v, n), n)`
/// differs from that of `v` by at most `15 * 2^-32` plus
/// `|dot(v, n)| / 124700`; and `|dot(v, n)|` is at most `|v| * |n|`.
/// Together that is less than a hundred-thousandth of the length of `v`, or
/// of one where `v` is shorter.
pub proof fn lemma_reflect_twice_at_unit_length(v: Vec3, n: Vec3)
    requires
        components_within(v, 0x2_0000_0000_0000),
        1_000_000 * abs(n.length_spec().raw - ONE_RAW) <= ONE_RAW,
    ensures
        ({
            let back = reflect_spec(reflect_spec(v, n), n);
            let d = abs(dot_spec(v, n).raw as int);
            &&& 124_700 * (abs(back.x.raw - v.x.raw) - 15) <= d
            &&& 124_700 * (abs(back.y.raw - v.y.raw) - 15) <= d
            &&& 124_700 * (abs(back.z.raw - v.z.raw) - 15) <= d
            &&& (d * ONE_RAW) * (d * ONE_RAW) <= v.raw_norm_squared() * n.raw_norm_squared()
        }),
{
    lemma_unit_length_is_near_unit(n);
    lemma_reflect_twice_at_unit_normal(v, n);
}

} // verus!
