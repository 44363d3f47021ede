//! How close the sine and the cosine of `trig` come to the true ones.
//!
//! The sine is the sum of its series `x - x^3/3! + x^5/5! - ...`, and the
//! cosine that of `1 - x^2/2! + x^4/4! - ...`. The functions of `trig` sum
//! the first thirteen terms and round after every product and every
//! quotient. Here the same sums are written without rounding and to any
//! length, as fractions of integers, and the rounded sums are shown to stay
//! within `37 * 2^-32` of every one that is at least as long: so within
//! that of the sine and the cosine themselves. This holds for every angle
//! up to 1.6 radians either way, which is more than the quarter turn that
//! half a field of view can reach.
//!
//! The tangent of `trig` is the sine over the cosine, rounded once more.

use crate::fixed::{lemma_abs_mul, lemma_quotient_error, quotient, Fixed, ONE_RAW};
use crate::trig::{
    cos_spec, degrees_to_radians_spec, next_term, series, sin_spec, tan_spec, PI_RAW,
    SERIES_TERMS,
};
use vstd::math::abs;
use vstd::prelude::*;

verus! {

/// The largest raw angle that the bounds cover: 1.6 radians.
pub open spec fn angle_limit() -> int {
    8 * ONE_RAW / 5
}

/// Whether the bounds cover the angle `x`.
pub open spec fn in_reach(x: Fixed) -> bool {
    abs(x.raw as int) <= angle_limit()
}

/// The exact sum of a series, as a fraction.
///
/// The sum so far is `sum / den` and its last term `num / den`, both in
/// raw units; `xx` is the square of the raw angle, and the last term holds
/// the power `n` of the angle. Each of the `steps` terms that follow is the
/// one before it times `-x^2 / ((n + 1) * (n + 2))`, with nothing rounded.
/// The result is the numerator of the whole sum, that of its last term, and
/// the denominator of both.
pub open spec fn exact_series(sum: int, num: int, den: int, xx: int, n: int, steps: nat) -> (
    int,
    int,
    int,
)
    decreases steps,
{
    if steps == 0 {
        (sum, num, den)
    } else {
        let scale = ((n + 1) * (n + 2)) * (ONE_RAW * ONE_RAW);
        let next = -(num * xx);
        exact_series(sum * scale + next, next, den * scale, xx, n + 2, (steps - 1) as nat)
    }
}

/// The Taylor polynomial of the sine at `x` with `terms` terms after the
/// first, in raw units and as a fraction, numerator first:
/// `x - x^3/3! + x^5/5! - ...`.
pub open spec fn taylor_sin(x: Fixed, terms: nat) -> (int, int) {
    let whole = exact_series(x.raw as int, x.raw as int, 1, x.raw * x.raw, 1, terms);
    (whole.0, whole.2)
}

/// The Taylor polynomial of the cosine at `x` with `terms` terms after the
/// first, in raw units and as a fraction, numerator first:
/// `1 - x^2/2! + x^4/4! - ...`.
pub open spec fn taylor_cos(x: Fixed, terms: nat) -> (int, int) {
    let whole = exact_series(ONE_RAW as int, ONE_RAW as int, 1, x.raw * x.raw, 0, terms);
    (whole.0, whole.2)
}

/// The Taylor polynomial of the sine that `sin` sums: of degree 25.
pub open spec fn exact_sin(x: Fixed) -> (int, int) {
    taylor_sin(x, SERIES_TERMS as nat)
}

/// The Taylor polynomial of the cosine that `cos` sums: of degree 24.
pub open spec fn exact_cos(x: Fixed) -> (int, int) {
    taylor_cos(x, SERIES_TERMS as nat)
}

/// A common factor of dividend and divisor leaves the rounded quotient as
/// it is.
proof fn lemma_quotient_cancels(n: int, d: int, k: int)
    requires
        d > 0,
        k > 0,
    ensures
        quotient(n * k, d * k) == quotient(n, d),
{
    let a = abs(n) as int;
    lemma_abs_mul(n, k);
    assert(abs(n * k) == a * k);
    assert(d * k > 0) by (nonlinear_arith)
        requires
            d > 0,
            k > 0,
    ;
    vstd::arithmetic::div_mod::lemma_div_multiples_vanish_quotient(k, a, d);
    assert(k * a == a * k && k * d == d * k) by (nonlinear_arith);
    assert((n * k < 0) == (n < 0)) by (nonlinear_arith)
        requires
            k > 0,
    ;
}

/// What one step of a series computes, with the error of each rounding.
///
/// With `c` the raw term, `xr` the raw square of the angle and `m` the
/// divisor of the step, the next raw term is `-z`, where `y` is `c * xr`
/// over `2^32` and `z` is `y` over `m`, both rounded toward zero; the
/// errors are `q1` and `q2`. The square of the angle is itself rounded,
/// with the error `rho`.
proof fn lemma_step_parts(term: Fixed, x: Fixed, n: int) -> (parts: (int, int, int, int, int))
    requires
        in_reach(x),
        abs(term.raw as int) <= angle_limit(),
        0 <= n <= 25,
    ensures
        ({
            let s = ONE_RAW as int;
            let (y, z, rho, q1, q2) = parts;
            let m = (n + 1) * (n + 2);
            let xr = x.times(x).raw as int;
            let c = term.raw as int;
            &&& 2 <= m <= 702
            &&& 0 <= xr && 25 * xr <= 64 * s
            &&& s * xr == x.raw * x.raw - rho
            &&& 0 <= rho < s
            &&& s * y == c * xr - q1
            &&& -s < q1 < s
            &&& m * z == y - q2
            &&& -m < q2 < m
            &&& next_term(term, x.times(x), n).raw == -z
            &&& 25 * (m * abs(z)) <= 64 * abs(c)
        }),
{
    let s = ONE_RAW as int;
    let big = x.raw as int;
    let c = term.raw as int;
    let m = (n + 1) * (n + 2);
    assert(2 <= m <= 702) by (nonlinear_arith)
        requires
            m == (n + 1) * (n + 2),
            0 <= n <= 25,
    ;
    // the square of the angle
    let xx = big * big;
    assert(0 <= xx && 25 * xx <= 64 * (s * s)) by (nonlinear_arith)
        requires
            xx == big * big,
            -(8 * s) <= 5 * big <= 8 * s,
            s > 0,
    ;
    lemma_quotient_error(xx, s);
    let xr = quotient(xx, s);
    let rho = xx - s * xr;
    assert(25 * xr <= 64 * s) by (nonlinear_arith)
        requires
            25 * xx <= 64 * (s * s),
            s * xr <= xx,
            s > 0,
    ;
    assert(x.times(x).raw == xr);
    // the term times the square
    let p = c * xr;
    lemma_quotient_error(p, s);
    let y = quotient(p, s);
    let q1 = p - s * y;
    lemma_abs_mul(c, xr);
    assert(abs(p) == abs(c) * xr);
    assert(25 * (s * abs(y)) <= 64 * (s * abs(c))) by (nonlinear_arith)
        requires
            s * abs(y) <= abs(p),
            abs(p) == abs(c) * xr,
            0 <= xr,
            25 * xr <= 64 * s,
            abs(c) >= 0,
            s > 0,
    ;
    assert(25 * abs(y) <= 64 * abs(c)) by (nonlinear_arith)
        requires
            25 * (s * abs(y)) <= 64 * (s * abs(c)),
            s > 0,
    ;
    assert(term.times(x.times(x)).raw == y);
    // the product over the divisor of the step
    assert(m * s > 0 && m * s <= 702 * s) by (nonlinear_arith)
        requires
            2 <= m <= 702,
            s > 0,
    ;
    assert(Fixed::int_spec(m).raw == m * s);
    lemma_quotient_cancels(y, m, s);
    lemma_quotient_error(y, m);
    let z = quotient(y, m);
    let q2 = y - m * z;
    assert(m * abs(z) <= abs(y)) by {
        lemma_abs_mul(m, z);
    }
    assert(term.times(x.times(x)).over(Fixed::int_spec(m)).raw == z);
    (y, z, rho, q1, q2)
}

/// The algebra of one step: how far the next term is from the exact one,
/// in terms of how far the term was and of the three rounding errors.
proof fn lemma_step_algebra(
    s: int,
    m: int,
    c: int,
    den: int,
    num: int,
    xx: int,
    xr: int,
    rho: int,
    y: int,
    q1: int,
    z: int,
    q2: int,
)
    requires
        s * xr == xx - rho,
        s * y == c * xr - q1,
        m * z == y - q2,
    ensures
        (-z) * (den * (m * (s * s))) - (-(num * xx)) == den * (c * rho + s * q1 + (s * s) * q2) - xx
            * (c * den - num),
{
    // z * m * s = c * xr - q1 - s * q2
    assert((m * z) * s == s * y - s * q2) by (nonlinear_arith)
        requires
            m * z == y - q2,
    ;
    let zms = (m * z) * s;
    assert(zms == c * xr - q1 - s * q2);
    // z * m * s^2 = c * (xx - rho) - s * q1 - s^2 * q2
    assert(zms * s == (c * xr) * s - q1 * s - (s * q2) * s) by (nonlinear_arith)
        requires
            zms == c * xr - q1 - s * q2,
    ;
    assert((c * xr) * s == c * (s * xr)) by (nonlinear_arith);
    assert(c * (s * xr) == c * xx - c * rho) by (nonlinear_arith)
        requires
            s * xr == xx - rho,
    ;
    assert((s * q2) * s == (s * s) * q2 && q1 * s == s * q1) by (nonlinear_arith);
    let zmss = zms * s;
    assert(zmss == c * xx - c * rho - s * q1 - (s * s) * q2);
    assert(z * (den * (m * (s * s))) == den * zmss) by (nonlinear_arith)
        requires
            zmss == ((m * z) * s) * s,
    ;
    assert(den * zmss == den * (c * xx) - den * (c * rho + s * q1 + (s * s) * q2))
        by (nonlinear_arith)
        requires
            zmss == c * xx - c * rho - s * q1 - (s * s) * q2,
    ;
    assert(xx * (c * den - num) == den * (c * xx) - num * xx) by (nonlinear_arith);
    assert((-z) * (den * (m * (s * s))) == -(z * (den * (m * (s * s))))) by (nonlinear_arith);
}

/// The bound of one step: the next term is within three raw units of the
/// exact one, where the term was exact or was within three and the divisor
/// of the step is at least six.
proof fn lemma_step_bound(
    s: int,
    m: int,
    c: int,
    den: int,
    num: int,
    xx: int,
    rho: int,
    q1: int,
    q2: int,
    left: int,
)
    requires
        s >= 1,
        den >= 1,
        2 <= m,
        0 <= xx,
        25 * xx <= 64 * (s * s),
        5 * abs(c) <= 8 * s,
        0 <= rho < s,
        -s < q1 < s,
        -m < q2 < m,
        c * den == num || (m >= 6 && abs(c * den - num) <= 3 * den),
        left == den * (c * rho + s * q1 + (s * s) * q2) - xx * (c * den - num),
    ensures
        abs(left) <= 3 * (den * (m * (s * s))),
{
    let ss = s * s;
    let e = c * den - num;
    // the part of the roundings
    let r = c * rho + s * q1 + ss * q2;
    assert(5 * abs(c * rho) <= 8 * ss) by {
        lemma_abs_mul(c, rho);
        assert(5 * (abs(c) * abs(rho)) <= 8 * ss) by (nonlinear_arith)
            requires
                5 * abs(c) <= 8 * s,
                0 <= abs(rho) < s,
                abs(c) >= 0,
                ss == s * s,
        ;
    }
    assert(abs(s * q1) <= ss) by {
        lemma_abs_mul(s, q1);
        assert(abs(s) * abs(q1) <= ss) by (nonlinear_arith)
            requires
                abs(s) == s,
                0 <= abs(q1) < s,
                ss == s * s,
        ;
    }
    assert(abs(ss * q2) <= ss * (m - 1)) by {
        lemma_abs_mul(ss, q2);
        assert(abs(ss) * abs(q2) <= ss * (m - 1)) by (nonlinear_arith)
            requires
                abs(ss) == ss,
                ss >= 0,
                0 <= abs(q2) <= m - 1,
        ;
    }
    assert(ss >= 1) by (nonlinear_arith)
        requires
            s >= 1,
            ss == s * s,
    ;
    // 5 * |r| <= 8 ss + 5 ss + 5 ss (m - 1) = ss * (5 m + 8)
    assert(ss * (m - 1) == ss * m - ss) by (nonlinear_arith);
    assert(5 * abs(r) <= 5 * (ss * m) + 8 * ss);
    lemma_abs_mul(den, r);
    assert(5 * (abs(den) * abs(r)) <= den * (5 * (ss * m) + 8 * ss)) by (nonlinear_arith)
        requires
            abs(den) == den,
            den >= 1,
            5 * abs(r) <= 5 * (ss * m) + 8 * ss,
            abs(r) >= 0,
    ;
    // the part of the error that was there
    lemma_abs_mul(xx, e);
    assert(25 * (abs(xx) * abs(e)) <= 192 * (ss * den)) by (nonlinear_arith)
        requires
            abs(xx) == xx,
            0 <= xx,
            25 * xx <= 64 * ss,
            0 <= abs(e) <= 3 * den,
            den >= 1,
    ;
    assert(den * (5 * (ss * m) + 8 * ss) == 5 * (den * (m * ss)) + 8 * (ss * den))
        by (nonlinear_arith);
    let dm = den * (m * ss);
    assert(ss * den >= 1 && dm >= 2 * (ss * den)) by (nonlinear_arith)
        requires
            ss >= 1,
            den >= 1,
            m >= 2,
            dm == den * (m * ss),
    ;
    if e == 0 {
        assert(abs(xx) * abs(e) == 0) by (nonlinear_arith)
            requires
                abs(e) == 0,
        ;
        // 25 |left| <= 25 dm + 40 ss den <= 75 dm
    } else {
        assert(dm >= 6 * (ss * den)) by (nonlinear_arith)
            requires
                ss >= 1,
                den >= 1,
                m >= 6,
                dm == den * (m * ss),
        ;
        // 25 |left| <= 25 dm + 40 ss den + 192 ss den <= 75 dm
    }
}

/// The rounded series stays near the exact one.
///
/// The rounded sum is `acc` and its last term `term`; the exact sum is
/// `sum / den` and its last term `num / den`. Where the rounded sum is
/// within `slack` raw units of the exact one, and the term within three or
/// exact, the sums of `steps` more terms are within `slack + 3 * steps`.
pub proof fn lemma_series_is_close(
    acc: Fixed,
    term: Fixed,
    x: Fixed,
    n: int,
    steps: nat,
    sum: int,
    num: int,
    den: int,
    slack: int,
)
    requires
        in_reach(x),
        0 <= n,
        n + 2 * steps <= 26,
        den >= 1,
        slack >= 0,
        abs(term.raw as int) <= angle_limit(),
        n >= 1 || abs(term.raw as int) <= ONE_RAW,
        abs(acc.raw as int) + steps * angle_limit() <= 64 * ONE_RAW,
        term.raw * den == num || (n >= 2 && abs(term.raw * den - num) <= 3 * den),
        abs(acc.raw * den - sum) <= slack * den,
    ensures
        ({
            let (total, last, scale) = exact_series(sum, num, den, x.raw * x.raw, n, steps);
            let r = series(acc, term, x.times(x), n, steps);
            scale >= 1 && abs(r.raw * scale - total) <= (slack + 3 * steps) * scale
        }),
    decreases steps,
{
    if steps > 0 {
        let s = ONE_RAW as int;
        let c = term.raw as int;
        let a = acc.raw as int;
        let xx = x.raw * x.raw;
        let m = (n + 1) * (n + 2);
        let (y, z, rho, q1, q2) = lemma_step_parts(term, x, n);
        let xr = x.times(x).raw as int;
        let next = next_term(term, x.times(x), n);
        let scale = m * (s * s);
        let den2 = den * scale;
        let num2 = -(num * xx);
        assert(m >= 6 || n == 0) by (nonlinear_arith)
            requires
                m == (n + 1) * (n + 2),
                n >= 0,
        ;
        assert(0 <= xx && 25 * xx <= 64 * (s * s)) by (nonlinear_arith)
            requires
                xx == x.raw * x.raw,
                -(8 * s) <= 5 * x.raw <= 8 * s,
                s > 0,
        ;
        lemma_step_algebra(s, m, c, den, num, xx, xr, rho, y, q1, z, q2);
        let left = (-z) * den2 - num2;
        lemma_step_bound(s, m, c, den, num, xx, rho, q1, q2, left);
        // the next term is no larger than the limit
        assert(abs(z) <= angle_limit()) by (nonlinear_arith)
            requires
                25 * (m * abs(z)) <= 64 * abs(c),
                abs(z) >= 0,
                (m >= 6 && 5 * abs(c) <= 8 * s) || (m >= 2 && abs(c) <= s),
                angle_limit() == 8 * s / 5,
                s == 0x1_0000_0000,
        ;
        // the new sum
        let acc2 = acc.plus(next);
        assert(acc2.raw == a - z);
        assert(s * s >= 1 && scale >= 1 && den2 >= 1) by (nonlinear_arith)
            requires
                s >= 1,
                m >= 2,
                den >= 1,
                scale == m * (s * s),
                den2 == den * scale,
        ;
        let sum2 = sum * scale + num2;
        assert((a - z) * den2 - sum2 == scale * (a * den - sum) + left) by (nonlinear_arith)
            requires
                den2 == den * scale,
                sum2 == sum * scale + num2,
                left == (-z) * den2 - num2,
        ;
        lemma_abs_mul(scale, a * den - sum);
        assert(abs(scale) * abs(a * den - sum) <= slack * den2) by (nonlinear_arith)
            requires
                abs(scale) == scale,
                scale >= 1,
                0 <= abs(a * den - sum) <= slack * den,
                den2 == den * scale,
        ;
        assert((slack + 3) * den2 == slack * den2 + 3 * den2) by (nonlinear_arith);
        assert(abs(acc2.raw * den2 - sum2) <= (slack + 3) * den2);
        assert((steps - 1) * angle_limit() + angle_limit() == steps * angle_limit())
            by (nonlinear_arith);
        assert(abs(acc2.raw as int) <= abs(a) + abs(z));
        lemma_series_is_close(
            acc2,
            next,
            x,
            n + 2,
            (steps - 1) as nat,
            sum2,
            num2,
            den2,
            slack + 3,
        );
        assert((slack + 3) + 3 * (steps - 1) == slack + 3 * steps);
    }
}

/// The sine is within 36 steps of `2^-32` of its Taylor polynomial of
/// degree 25, for every angle up to 1.6 radians either way.
///
/// With `total / scale` the exact value of `x - x^3/3! + ... + x^25/25!` in
/// raw units, `sin(x)` differs from it by at most 36 raw units.
pub proof fn lemma_sin_is_close(x: Fixed)
    requires
        in_reach(x),
    ensures
        exact_sin(x).1 >= 1,
        abs(sin_spec(x).raw * exact_sin(x).1 - exact_sin(x).0) <= 36 * exact_sin(x).1,
{
    assert(x.raw * 1 == x.raw);
    lemma_series_is_close(x, x, x, 1, SERIES_TERMS as nat, x.raw as int, x.raw as int, 1, 0);
}

/// The cosine is within 36 steps of `2^-32` of its Taylor polynomial of
/// degree 24, for every angle up to 1.6 radians either way.
pub proof fn lemma_cos_is_close(x: Fixed)
    requires
        in_reach(x),
    ensures
        exact_cos(x).1 >= 1,
        abs(cos_spec(x).raw * exact_cos(x).1 - exact_cos(x).0) <= 36 * exact_cos(x).1,
{
    let one = Fixed::int_spec(1);
    assert(one.raw == ONE_RAW);
    lemma_series_is_close(
        one,
        one,
        x,
        0,
        SERIES_TERMS as nat,
        ONE_RAW as int,
        ONE_RAW as int,
        1,
        0,
    );
}

/// Half a field of view of up to 180 degrees is an angle that the bounds
/// cover.
pub proof fn lemma_half_view_in_reach(vfov: Fixed)
    requires
        0 <= vfov.raw <= 180 * ONE_RAW,
    ensures
        in_reach(degrees_to_radians_spec(vfov).over(Fixed::int_spec(2))),
{
    let s = ONE_RAW as int;
    let p = vfov.raw * PI_RAW;
    assert(0 <= p <= (180 * s) * PI_RAW) by (nonlinear_arith)
        requires
            p == vfov.raw * PI_RAW,
            0 <= vfov.raw <= 180 * s,
            PI_RAW == 13493037704,
    ;
    lemma_quotient_error(p, s);
    let turned = vfov.times(Fixed { raw: PI_RAW });
    assert(turned.raw == quotient(p, s));
    assert(0 <= turned.raw <= 180 * PI_RAW);
    assert(Fixed::int_spec(180).raw == 180 * s);
    lemma_quotient_cancels(turned.raw as int, 180, s);
    lemma_quotient_error(turned.raw as int, 180);
    let radians = degrees_to_radians_spec(vfov);
    assert(radians.raw == quotient(turned.raw as int, 180));
    assert(0 <= radians.raw <= PI_RAW);
    assert(Fixed::int_spec(2).raw == 2 * s);
    lemma_quotient_cancels(radians.raw as int, 2, s);
    lemma_quotient_error(radians.raw as int, 2);
}

/// `w` to the power `k`.
pub open spec fn power(w: int, k: nat) -> int
    decreases k,
{
    if k == 0 {
        1
    } else {
        w * power(w, (k - 1) as nat)
    }
}

/// A series of `k + extra` steps is one of `k` steps and then one of
/// `extra` steps from where the first ended.
proof fn lemma_exact_split(sum: int, num: int, den: int, xx: int, n: int, k: nat, extra: nat)
    ensures
        exact_series(sum, num, den, xx, n, k + extra) == ({
            let first = exact_series(sum, num, den, xx, n, k);
            exact_series(first.0, first.1, first.2, xx, n + 2 * k, extra)
        }),
    decreases k,
{
    if k > 0 {
        let scale = ((n + 1) * (n + 2)) * (ONE_RAW * ONE_RAW);
        let next = -(num * xx);
        lemma_exact_split(sum * scale + next, next, den * scale, xx, n + 2, (k - 1) as nat, extra);
        assert((k - 1 + extra) as nat == (k + extra - 1) as nat);
    }
}

/// One exact step: the sum grows by the next term, and the next term is
/// the term times `xx` over the scale of the step.
proof fn lemma_exact_step(num: int, den: int, xx: int, n: int, w: int)
    requires
        den >= 1,
        0 <= xx,
        0 <= n,
        w >= 1,
        w * xx <= ((n + 1) * (n + 2)) * (ONE_RAW * ONE_RAW),
    ensures
        ({
            let scale = ((n + 1) * (n + 2)) * (ONE_RAW * ONE_RAW);
            &&& scale >= 1
            &&& den * scale >= 1
            &&& w * (abs(-(num * xx)) * den) <= abs(num) * (den * scale)
            &&& w * xx <= ((n + 3) * (n + 4)) * (ONE_RAW * ONE_RAW)
        }),
{
    let ss = ONE_RAW * ONE_RAW;
    let m = (n + 1) * (n + 2);
    let scale = m * ss;
    assert(m >= 2 && (n + 3) * (n + 4) >= m) by (nonlinear_arith)
        requires
            m == (n + 1) * (n + 2),
            n >= 0,
    ;
    assert(scale >= 1 && ((n + 3) * (n + 4)) * ss >= scale) by (nonlinear_arith)
        requires
            scale == m * ss,
            m >= 2,
            (n + 3) * (n + 4) >= m,
            ss == 0x1_0000_0000_0000_0000,
    ;
    assert(den * scale >= 1) by (nonlinear_arith)
        requires
            den >= 1,
            scale >= 1,
    ;
    lemma_abs_mul(num, xx);
    assert(w * ((abs(num) * xx) * den) <= abs(num) * (den * scale)) by (nonlinear_arith)
        requires
            w * xx <= scale,
            abs(num) >= 0,
            den >= 1,
            xx >= 0,
            w >= 1,
    ;
}

/// The terms of the exact series shrink: where each step takes at most one
/// `w`-th of the term, `steps` steps take at most one part in
/// `w^steps`.
proof fn lemma_terms_shrink(sum: int, num: int, den: int, xx: int, n: int, steps: nat, w: int)
    requires
        den >= 1,
        0 <= xx,
        0 <= n,
        w >= 1,
        w * xx <= ((n + 1) * (n + 2)) * (ONE_RAW * ONE_RAW),
    ensures
        ({
            let (total, last, scale) = exact_series(sum, num, den, xx, n, steps);
            scale >= 1 && power(w, steps) * (abs(last) * den) <= abs(num) * scale
        }),
    decreases steps,
{
    if steps == 0 {
        assert(power(w, 0) == 1);
        assert(1 * (abs(num) * den) == abs(num) * den) by (nonlinear_arith);
    } else {
        let step = ((n + 1) * (n + 2)) * (ONE_RAW * ONE_RAW);
        let num1 = -(num * xx);
        let den1 = den * step;
        let sum1 = sum * step + num1;
        lemma_exact_step(num, den, xx, n, w);
        lemma_terms_shrink(sum1, num1, den1, xx, n + 2, (steps - 1) as nat, w);
        let (total, last, scale) = exact_series(sum, num, den, xx, n, steps);
        let rest = power(w, (steps - 1) as nat);
        assert(rest >= 1) by {
            lemma_power_is_positive(w, (steps - 1) as nat);
        }
        // rest * |last| * den1 <= |num1| * scale and w * |num1| * den <= |num| * den1
        lemma_chain(rest, w, abs(last) as int, abs(num1) as int, abs(num) as int, den, den1, scale);
        assert(power(w, steps) == w * rest);
    }
}

/// A power of a number from one on is at least one.
proof fn lemma_power_is_positive(w: int, k: nat)
    requires
        w >= 1,
    ensures
        power(w, k) >= 1,
    decreases k,
{
    if k > 0 {
        lemma_power_is_positive(w, (k - 1) as nat);
        assert(w * power(w, (k - 1) as nat) >= 1) by (nonlinear_arith)
            requires
                w >= 1,
                power(w, (k - 1) as nat) >= 1,
        ;
    }
}

/// Two bounds in a row: from `rest * last * den1 <= mid * scale` and
/// `w * mid * den <= first * den1` follows
/// `(w * rest) * last * den <= first * scale`.
proof fn lemma_chain(
    rest: int,
    w: int,
    last: int,
    mid: int,
    first: int,
    den: int,
    den1: int,
    scale: int,
)
    requires
        rest >= 1,
        w >= 1,
        last >= 0,
        mid >= 0,
        first >= 0,
        den >= 1,
        den1 >= 1,
        scale >= 1,
        rest * (last * den1) <= mid * scale,
        w * (mid * den) <= first * den1,
    ensures
        (w * rest) * (last * den) <= first * scale,
{
    // den1 * [(w rest) last den] = (w den) * [rest last den1] <= (w den) mid scale
    //   = scale * [w mid den] <= scale * first * den1
    assert(den1 * ((w * rest) * (last * den)) == (w * den) * (rest * (last * den1)))
        by (nonlinear_arith);
    assert((w * den) * (rest * (last * den1)) <= (w * den) * (mid * scale)) by (nonlinear_arith)
        requires
            rest * (last * den1) <= mid * scale,
            w * den >= 0,
    ;
    assert((w * den) * (mid * scale) == scale * (w * (mid * den))) by (nonlinear_arith);
    assert(scale * (w * (mid * den)) <= scale * (first * den1)) by (nonlinear_arith)
        requires
            w * (mid * den) <= first * den1,
            scale >= 1,
    ;
    assert(scale * (first * den1) == den1 * (first * scale)) by (nonlinear_arith);
    assert((w * rest) * (last * den) <= first * scale) by (nonlinear_arith)
        requires
            den1 * ((w * rest) * (last * den)) <= den1 * (first * scale),
            den1 >= 1,
    ;
}

/// A longer exact series differs from a shorter one by less than the last
/// term of the shorter one, where each term is at most half the one before
/// it.
proof fn lemma_tail(sum: int, num: int, den: int, xx: int, n: int, extra: nat)
    requires
        den >= 1,
        0 <= xx,
        0 <= n,
        2 * xx <= ((n + 1) * (n + 2)) * (ONE_RAW * ONE_RAW),
    ensures
        ({
            let (total, last, scale) = exact_series(sum, num, den, xx, n, extra);
            &&& scale >= 1
            &&& abs(total * den - sum * scale) <= abs(num) * scale - abs(last) * den
        }),
    decreases extra,
{
    if extra == 0 {
        assert(sum * den - sum * den == 0);
    } else {
        let step = ((n + 1) * (n + 2)) * (ONE_RAW * ONE_RAW);
        let num1 = -(num * xx);
        let den1 = den * step;
        let sum1 = sum * step + num1;
        lemma_exact_step(num, den, xx, n, 2);
        lemma_tail(sum1, num1, den1, xx, n + 2, (extra - 1) as nat);
        let (total, last, scale) = exact_series(sum, num, den, xx, n, extra);
        let gap = total * den - sum * scale;
        // step * gap = (total * den1 - sum1 * scale) + num1 * scale
        assert(step * gap == (total * den1 - sum1 * scale) + num1 * scale) by (nonlinear_arith)
            requires
                gap == total * den - sum * scale,
                den1 == den * step,
                sum1 == sum * step + num1,
        ;
        lemma_abs_mul(step, gap);
        lemma_abs_mul(num1, scale);
        let a1 = abs(num1) as int;
        let a0 = abs(num) as int;
        let al = abs(last) as int;
        assert(step * abs(gap) <= 2 * (a1 * scale) - al * den1);
        assert(2 * (a1 * scale) <= a0 * (step * scale)) by (nonlinear_arith)
            requires
                2 * (a1 * den) <= a0 * den1,
                den1 == den * step,
                den >= 1,
                scale >= 1,
                a1 >= 0,
                a0 >= 0,
                step >= 1,
        ;
        assert(step * abs(gap) <= step * (a0 * scale - al * den)) by (nonlinear_arith)
            requires
                step * abs(gap) <= 2 * (a1 * scale) - al * den1,
                2 * (a1 * scale) <= a0 * (step * scale),
                den1 == den * step,
        ;
        assert(abs(gap) <= a0 * scale - al * den) by (nonlinear_arith)
            requires
                step * abs(gap) <= step * (a0 * scale - al * den),
                step >= 1,
        ;
    }
}

/// From three bounds in a row, the last term is below one raw unit.
///
/// The first term is at most `c / b` of its denominator, the second at
/// most one `w`-th of the first, and the last at most one part in `p` of
/// the second; and `b * w * p` is at least `c`.
proof fn lemma_small_at_last(
    b: int,
    c: int,
    w: int,
    p: int,
    num1: int,
    den1: int,
    num2: int,
    den2: int,
    last: int,
    scale: int,
)
    requires
        b >= 1,
        c >= 0,
        w >= 1,
        p >= 1,
        (b * w) * p >= c,
        den1 >= 1,
        den2 >= 1,
        scale >= 1,
        b * abs(num1) <= c * den1,
        w * (abs(num2) * den1) <= abs(num1) * den2,
        p * (abs(last) * den2) <= abs(num2) * scale,
    ensures
        abs(last) <= scale,
{
    let (a1, a2, al) = (abs(num1) as int, abs(num2) as int, abs(last) as int);
    lemma_chain(p, w, al, a2, a1, den1, den2, scale);
    let k = (b * w) * p;
    assert(den1 * (k * al) <= den1 * (c * scale)) by (nonlinear_arith)
        requires
            k == (b * w) * p,
            (w * p) * (al * den1) <= a1 * scale,
            b * a1 <= c * den1,
            b >= 1,
            scale >= 1,
            al >= 0,
            a1 >= 0,
    ;
    assert(k * al <= c * scale) by (nonlinear_arith)
        requires
            den1 * (k * al) <= den1 * (c * scale),
            den1 >= 1,
    ;
    assert(k >= 1) by (nonlinear_arith)
        requires
            k == (b * w) * p,
            b >= 1,
            w >= 1,
            p >= 1,
    ;
    assert(al <= scale) by (nonlinear_arith)
        requires
            k * al <= c * scale,
            k >= c,
            c >= 0,
            k >= 1,
            al >= 0,
            scale >= 1,
    ;
}

/// The last term of the polynomial that `sin` sums is below one raw unit.
proof fn lemma_sin_last_term(x: Fixed)
    requires
        in_reach(x),
    ensures
        ({
            let whole = exact_series(
                x.raw as int,
                x.raw as int,
                1,
                x.raw * x.raw,
                1,
                SERIES_TERMS as nat,
            );
            whole.2 >= 1 && abs(whole.1) <= whole.2
        }),
{
    let s = ONE_RAW as int;
    let big = x.raw as int;
    let xx = big * big;
    assert(0 <= xx && 25 * xx <= 64 * (s * s)) by (nonlinear_arith)
        requires
            xx == big * big,
            -(8 * s) <= 5 * big <= 8 * s,
            s > 0,
    ;
    assert(s * s == 0x1_0000_0000_0000_0000);
    let s1 = exact_series(big, big, 1, xx, 1, 1);
    let s2 = exact_series(s1.0, s1.1, s1.2, xx, 3, 1);
    let s12 = exact_series(s2.0, s2.1, s2.2, xx, 5, 10);
    lemma_exact_split(big, big, 1, xx, 1, 1, 11);
    lemma_exact_split(s1.0, s1.1, s1.2, xx, 3, 1, 10);
    assert(s12 == exact_series(big, big, 1, xx, 1, 12));
    assert(2 * 3 == 6 && 4 * 5 == 20 && 6 * 7 == 42);
    lemma_terms_shrink(big, big, 1, xx, 1, 1, 2);
    lemma_terms_shrink(s1.0, s1.1, s1.2, xx, 3, 1, 7);
    lemma_terms_shrink(s2.0, s2.1, s2.2, xx, 5, 10, 16);
    assert(power(2, 1) == 2 && power(7, 1) == 7) by {
        reveal_with_fuel(power, 2);
    }
    assert(power(16, 10) == 0x100_0000_0000) by {
        reveal_with_fuel(power, 11);
    }
    // 10 * |num1| <= 8 s * den1, from 2 * |num1| <= |x| * den1
    assert(10 * abs(s1.1) <= (8 * s) * s1.2) by (nonlinear_arith)
        requires
            2 * (abs(s1.1) * 1) <= abs(big) * s1.2,
            5 * abs(big) <= 8 * s,
            s1.2 >= 1,
    ;
    lemma_small_at_last(10, 8 * s, 7, 0x100_0000_0000, s1.1, s1.2, s2.1, s2.2, s12.1, s12.2);
}

/// The last term of the polynomial that `cos` sums is below one raw unit.
proof fn lemma_cos_last_term(x: Fixed)
    requires
        in_reach(x),
    ensures
        ({
            let whole = exact_series(
                ONE_RAW as int,
                ONE_RAW as int,
                1,
                x.raw * x.raw,
                0,
                SERIES_TERMS as nat,
            );
            whole.2 >= 1 && abs(whole.1) <= whole.2
        }),
{
    let s = ONE_RAW as int;
    let big = x.raw as int;
    let xx = big * big;
    assert(0 <= xx && 25 * xx <= 64 * (s * s)) by (nonlinear_arith)
        requires
            xx == big * big,
            -(8 * s) <= 5 * big <= 8 * s,
            s > 0,
    ;
    assert(s * s == 0x1_0000_0000_0000_0000);
    let s1 = exact_series(s, s, 1, xx, 0, 1);
    let s2 = exact_series(s1.0, s1.1, s1.2, xx, 2, 1);
    let s12 = exact_series(s2.0, s2.1, s2.2, xx, 4, 10);
    lemma_exact_split(s, s, 1, xx, 0, 1, 11);
    lemma_exact_split(s1.0, s1.1, s1.2, xx, 2, 1, 10);
    assert(s12 == exact_series(s, s, 1, xx, 0, 12));
    assert(1 * 2 == 2 && 3 * 4 == 12 && 5 * 6 == 30);
    // the first step: the term may grow, to at most 32/25 of the first
    assert(s1.1 == -(s * xx) && s1.2 == 1 * (2 * (s * s))) by {
        reveal_with_fuel(exact_series, 2);
    }
    lemma_abs_mul(s, xx);
    assert(25 * abs(s1.1) <= (32 * s) * s1.2) by (nonlinear_arith)
        requires
            abs(s1.1) == s * xx,
            s1.2 == 2 * (s * s),
            25 * xx <= 64 * (s * s),
            s > 0,
    ;
    assert(s1.2 >= 1);
    lemma_terms_shrink(s1.0, s1.1, s1.2, xx, 2, 1, 4);
    lemma_terms_shrink(s2.0, s2.1, s2.2, xx, 4, 10, 11);
    assert(power(4, 1) == 4) by {
        reveal_with_fuel(power, 2);
    }
    assert(power(11, 10) == 25937424601) by {
        reveal_with_fuel(power, 11);
    }
    lemma_small_at_last(25, 32 * s, 4, 25937424601, s1.1, s1.2, s2.1, s2.2, s12.1, s12.2);
}

/// Every longer Taylor polynomial of the sine is within one raw unit of
/// the one that `sin` sums, so `sin` is within 37 raw units of each: of the
/// series of the sine, however far it is summed.
///
/// For every angle up to 1.6 radians either way and every number `extra`
/// of further terms, with `total / scale` the exact value of the
/// polynomial of `12 + extra` terms after the first in raw units, `sin(x)`
/// differs from it by at most `37 * 2^-32`.
pub proof fn lemma_sin_is_close_to_its_series(x: Fixed, extra: nat)
    requires
        in_reach(x),
    ensures
        ({
            let (total, scale) = taylor_sin(x, SERIES_TERMS as nat + extra);
            scale >= 1 && abs(sin_spec(x).raw * scale - total) <= 37 * scale
        }),
{
    let xx = x.raw * x.raw;
    let short = exact_series(x.raw as int, x.raw as int, 1, xx, 1, SERIES_TERMS as nat);
    assert(0 <= xx && 25 * xx <= 64 * (ONE_RAW * ONE_RAW)) by (nonlinear_arith)
        requires
            xx == x.raw * x.raw,
            -(8 * ONE_RAW) <= 5 * x.raw <= 8 * ONE_RAW,
    ;
    lemma_sin_is_close(x);
    lemma_sin_last_term(x);
    lemma_exact_split(x.raw as int, x.raw as int, 1, xx, 1, SERIES_TERMS as nat, extra);
    lemma_longer_series_is_close(sin_spec(x).raw as int, short, xx, 25, extra);
}

/// Every longer Taylor polynomial of the cosine is within one raw unit of
/// the one that `cos` sums, so `cos` is within 37 raw units of each: of the
/// series of the cosine, however far it is summed.
pub proof fn lemma_cos_is_close_to_its_series(x: Fixed, extra: nat)
    requires
        in_reach(x),
    ensures
        ({
            let (total, scale) = taylor_cos(x, SERIES_TERMS as nat + extra);
            scale >= 1 && abs(cos_spec(x).raw * scale - total) <= 37 * scale
        }),
{
    let xx = x.raw * x.raw;
    let short = exact_series(ONE_RAW as int, ONE_RAW as int, 1, xx, 0, SERIES_TERMS as nat);
    assert(0 <= xx && 25 * xx <= 64 * (ONE_RAW * ONE_RAW)) by (nonlinear_arith)
        requires
            xx == x.raw * x.raw,
            -(8 * ONE_RAW) <= 5 * x.raw <= 8 * ONE_RAW,
    ;
    lemma_cos_is_close(x);
    lemma_cos_last_term(x);
    lemma_exact_split(ONE_RAW as int, ONE_RAW as int, 1, xx, 0, SERIES_TERMS as nat, extra);
    lemma_longer_series_is_close(cos_spec(x).raw as int, short, xx, 24, extra);
}

/// A value within 36 raw units of an exact sum whose last term is below
/// one raw unit is within 37 of the sum carried on.
proof fn lemma_longer_series_is_close(
    value: int,
    short: (int, int, int),
    xx: int,
    n: int,
    extra: nat,
)
    requires
        short.2 >= 1,
        abs(short.1) <= short.2,
        abs(value * short.2 - short.0) <= 36 * short.2,
        0 <= xx,
        25 * xx <= 64 * (ONE_RAW * ONE_RAW),
        n >= 24,
    ensures
        ({
            let long = exact_series(short.0, short.1, short.2, xx, n, extra);
            long.2 >= 1 && abs(value * long.2 - long.0) <= 37 * long.2
        }),
{
    let ss = ONE_RAW * ONE_RAW;
    assert(2 * xx <= ((n + 1) * (n + 2)) * ss) by (nonlinear_arith)
        requires
            25 * xx <= 64 * ss,
            ss >= 0,
            n >= 24,
    ;
    lemma_tail(short.0, short.1, short.2, xx, n, extra);
    let long = exact_series(short.0, short.1, short.2, xx, n, extra);
    let (a, d) = (short.0, short.2);
    let (a2, d2) = (long.0, long.2);
    // d * (value * d2 - a2) = d2 * (value * d - a) - (a2 * d - a * d2)
    assert(d * (value * d2 - a2) == d2 * (value * d - a) - (a2 * d - a * d2)) by (nonlinear_arith);
    lemma_abs_mul(d, value * d2 - a2);
    lemma_abs_mul(d2, value * d - a);
    assert(abs(d2) * abs(value * d - a) <= d2 * (36 * d)) by (nonlinear_arith)
        requires
            abs(d2) == d2,
            d2 >= 1,
            0 <= abs(value * d - a) <= 36 * d,
    ;
    assert(abs(short.1) * d2 <= d * d2) by (nonlinear_arith)
        requires
            0 <= abs(short.1) <= d,
            d2 >= 1,
    ;
    assert(d * abs(value * d2 - a2) <= d * (37 * d2)) by (nonlinear_arith)
        requires
            d * abs(value * d2 - a2) <= d2 * (36 * d) + d * d2,
    ;
    assert(abs(value * d2 - a2) <= 37 * d2) by (nonlinear_arith)
        requires
            d * abs(value * d2 - a2) <= d * (37 * d2),
            d >= 1,
    ;
}

/// The tangent is the sine over the cosine, rounded toward zero: where
/// the cosine is above zero and the quotient is not saturated, `tan(x)`
/// times the cosine is short of the sine by less than the cosine times
/// `2^-32`.
pub proof fn lemma_tan_is_the_quotient(x: Fixed)
    requires
        cos_spec(x).raw > 0,
        i64::MIN <= quotient(sin_spec(x).raw * ONE_RAW, cos_spec(x).raw as int) <= i64::MAX,
    ensures
        abs(sin_spec(x).raw * ONE_RAW - tan_spec(x).raw * cos_spec(x).raw) < cos_spec(x).raw,
{
    lemma_quotient_error(sin_spec(x).raw * ONE_RAW, cos_spec(x).raw as int);
    assert(tan_spec(x).raw * cos_spec(x).raw == cos_spec(x).raw * tan_spec(x).raw)
        by (nonlinear_arith);
}

} // verus!
