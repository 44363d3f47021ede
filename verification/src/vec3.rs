//! Three-component vectors: points, directions and colors alike.

use crate::fixed::{
    floor_sqrt, isqrt, magnitude, quotient, saturate, signed_raw, Fixed, Wide, ONE_RAW,
};
use crate::random::uniform;
use core::ops::{Add, Div, Index, Mul, Neg, Sub};
use vstd::math::abs;
use vstd::prelude::*;

verus! {

/// A vector of three fixed-point components.
#[derive(Clone, Copy, PartialEq, Eq, Structural, Debug)]
pub struct Vec3 {
    pub x: Fixed,
    pub y: Fixed,
    pub z: Fixed,
}

/// A position in space.
pub type Point3 = Vec3;

/// How often `random_in_unit_sphere` draws before it settles for the origin.
pub const SPHERE_ATTEMPTS: u32 = 128;

/// The exact dot product of the raw components: `2^64` times the true value.
pub open spec fn raw_dot(u: Vec3, v: Vec3) -> int {
    u.x.raw * v.x.raw + u.y.raw * v.y.raw + u.z.raw * v.z.raw
}

/// What `dot` returns: the exact dot product, rounded once toward zero.
pub open spec fn dot_spec(u: Vec3, v: Vec3) -> Fixed {
    Fixed { raw: saturate(quotient(raw_dot(u, v), ONE_RAW as int)) as i64 }
}

/// One component of a cross product: `a * b - c * d`, rounded once toward zero.
pub open spec fn cross_term(a: Fixed, b: Fixed, c: Fixed, d: Fixed) -> Fixed {
    Fixed { raw: saturate(quotient(a.raw * b.raw - c.raw * d.raw, ONE_RAW as int)) as i64 }
}

/// What `cross` returns.
pub open spec fn cross_spec(u: Vec3, v: Vec3) -> Vec3 {
    Vec3 {
        x: cross_term(u.y, v.z, u.z, v.y),
        y: cross_term(u.z, v.x, u.x, v.z),
        z: cross_term(u.x, v.y, u.y, v.x),
    }
}

/// The raw size that `lengthen` brings the largest component to: one half,
/// `2^31`.
pub open spec fn aim_goal() -> int {
    0x8000_0000
}

/// The raw size that `unit_vector` stretches the largest component to:
/// `2^61`.
pub open spec fn stretch_goal() -> int {
    0x2000_0000_0000_0000
}

/// What `unit_vector` returns: each component of the stretched vector
/// divided by the exact length of the stretched vector, rounded toward
/// zero.
///
/// Stretching does not turn the vector, and it makes the length so large a
/// number that rounding it down costs nothing that shows: the quotient is
/// as good for a very short vector as for a long one.
pub open spec fn unit_vector_spec(u: Vec3) -> Vec3 {
    let w = u.stretched();
    let length = floor_sqrt(w.raw_norm_squared());
    Vec3 {
        x: Fixed::ratio_spec(w.x.raw as int, length),
        y: Fixed::ratio_spec(w.y.raw as int, length),
        z: Fixed::ratio_spec(w.z.raw as int, length),
    }
}

/// What `reflect` returns: `v - (2 * dot(v, n)) * n`.
pub open spec fn reflect_spec(v: Vec3, n: Vec3) -> Vec3 {
    v.minus(n.scaled(Fixed::int_spec(2).times(dot_spec(v, n))))
}

/// The cosine that `refract` works with: `dot(-uv, n)`, at most one.
pub open spec fn refract_cosine(uv: Vec3, n: Vec3) -> Fixed {
    dot_spec(uv.negated(), n).min_spec(Fixed::int_spec(1))
}

/// The part of the refracted ray that is perpendicular to the normal.
pub open spec fn refract_perpendicular(uv: Vec3, n: Vec3, etai_over_etat: Fixed) -> Vec3 {
    uv.plus(n.scaled(refract_cosine(uv, n))).scaled(etai_over_etat)
}

/// The part of the refracted ray that is parallel to the normal.
pub open spec fn refract_parallel(uv: Vec3, n: Vec3, etai_over_etat: Fixed) -> Vec3 {
    let perp = refract_perpendicular(uv, n, etai_over_etat);
    let under_root = Fixed::int_spec(1).minus(perp.length_squared_spec()).abs_spec();
    n.scaled(under_root.sqrt_spec().negated())
}

/// What `refract` returns: the sum of the two parts.
pub open spec fn refract_spec(uv: Vec3, n: Vec3, etai_over_etat: Fixed) -> Vec3 {
    refract_perpendicular(uv, n, etai_over_etat).plus(refract_parallel(uv, n, etai_over_etat))
}

impl Vec3 {
    /// The vector whose components are all zero.
    pub open spec fn zero_spec() -> Vec3 {
        Vec3 { x: Fixed { raw: 0 }, y: Fixed { raw: 0 }, z: Fixed { raw: 0 } }
    }

    /// The component-wise sum.
    pub open spec fn plus(self, rhs: Vec3) -> Vec3 {
        Vec3 { x: self.x.plus(rhs.x), y: self.y.plus(rhs.y), z: self.z.plus(rhs.z) }
    }

    /// The component-wise difference.
    pub open spec fn minus(self, rhs: Vec3) -> Vec3 {
        Vec3 { x: self.x.minus(rhs.x), y: self.y.minus(rhs.y), z: self.z.minus(rhs.z) }
    }

    /// The component-wise negation.
    pub open spec fn negated(self) -> Vec3 {
        Vec3 { x: self.x.negated(), y: self.y.negated(), z: self.z.negated() }
    }

    /// The component-wise product.
    pub open spec fn times(self, rhs: Vec3) -> Vec3 {
        Vec3 { x: self.x.times(rhs.x), y: self.y.times(rhs.y), z: self.z.times(rhs.z) }
    }

    /// Every component multiplied by `k`.
    pub open spec fn scaled(self, k: Fixed) -> Vec3 {
        Vec3 { x: self.x.times(k), y: self.y.times(k), z: self.z.times(k) }
    }

    /// Every component divided by `k`.
    pub open spec fn over(self, k: Fixed) -> Vec3
        recommends
            k.raw != 0,
    {
        Vec3 { x: self.x.over(k), y: self.y.over(k), z: self.z.over(k) }
    }

    /// The largest absolute value among the raw components.
    pub open spec fn largest(self) -> nat {
        vstd::math::max(
            vstd::math::max(abs(self.x.raw as int) as int, abs(self.y.raw as int) as int),
            abs(self.z.raw as int) as int,
        ) as nat
    }

    /// The vector with every raw component doubled.
    pub open spec fn doubled(self) -> Vec3 {
        Vec3 {
            x: Fixed { raw: (2 * self.x.raw) as i64 },
            y: Fixed { raw: (2 * self.y.raw) as i64 },
            z: Fixed { raw: (2 * self.z.raw) as i64 },
        }
    }

    /// How far the largest component is from the size to stretch it to.
    pub open spec fn stretch_left(self) -> nat {
        if self.largest() < stretch_goal() {
            (stretch_goal() - self.largest()) as nat
        } else {
            0
        }
    }

    /// The vector doubled until its largest raw component is `2^61` or more;
    /// the zero vector as it is.
    pub open spec fn stretched(self) -> Vec3
        decreases self.stretch_left(),
    {
        if self.largest() == 0 || self.largest() >= stretch_goal() {
            self
        } else {
            self.doubled().stretched()
        }
    }

    /// How far the largest component is from one half.
    pub open spec fn aim_left(self) -> nat {
        if self.largest() < aim_goal() {
            (aim_goal() - self.largest()) as nat
        } else {
            0
        }
    }

    /// The vector doubled until its largest component is one half or more,
    /// and `factor` doubled as often; the zero vector as it is.
    pub open spec fn lengthened_by(self, factor: int) -> (Vec3, int)
        decreases self.aim_left(),
    {
        if self.largest() == 0 || self.largest() >= aim_goal() {
            (self, factor)
        } else {
            self.doubled().lengthened_by(2 * factor)
        }
    }

    /// The vector times the power of two that brings its largest component
    /// to one half or more; the zero vector as it is. This is the vector
    /// itself where a component is one half or more already.
    pub open spec fn lengthened(self) -> Vec3 {
        self.lengthened_by(1).0
    }

    /// The power of two by which `lengthened` multiplies.
    pub open spec fn lengthening(self) -> int {
        self.lengthened_by(1).1
    }

    /// The vector with every raw component halved, rounded toward zero.
    pub open spec fn halved(self) -> Vec3 {
        Vec3 {
            x: Fixed { raw: quotient(self.x.raw as int, 2) as i64 },
            y: Fixed { raw: quotient(self.y.raw as int, 2) as i64 },
            z: Fixed { raw: quotient(self.z.raw as int, 2) as i64 },
        }
    }

    /// The vector halved until no component is above one in size, and
    /// `factor` doubled as often.
    pub open spec fn shortened_by(self, factor: int) -> (Vec3, int)
        decreases self.largest(),
    {
        if self.largest() <= ONE_RAW {
            (self, factor)
        } else {
            self.halved().shortened_by(2 * factor)
        }
    }

    /// The vector divided by the power of two that brings its largest
    /// component to one or below, each component rounded toward zero. This
    /// is the vector itself where no component is above one.
    pub open spec fn shortened(self) -> Vec3 {
        self.shortened_by(1).0
    }

    /// The power of two by which `shortened` divides.
    pub open spec fn shortening(self) -> int {
        self.shortened_by(1).1
    }

    /// The sum of the squares of the raw components: `2^64` times the true value.
    pub open spec fn raw_norm_squared(self) -> int {
        raw_dot(self, self)
    }

    /// What `length_squared` returns.
    pub open spec fn length_squared_spec(self) -> Fixed {
        dot_spec(self, self)
    }

    /// What `length` returns: the exact length, rounded down.
    pub open spec fn length_spec(self) -> Fixed {
        Fixed { raw: saturate(floor_sqrt(self.raw_norm_squared())) as i64 }
    }

    /// Whether a component is below `10^-8` in absolute value.
    pub open spec fn tiny(c: Fixed) -> bool {
        abs(c.raw as int) * 100_000_000 < ONE_RAW
    }

    /// What `near_zero` returns.
    pub open spec fn near_zero_spec(self) -> bool {
        Vec3::tiny(self.x) && Vec3::tiny(self.y) && Vec3::tiny(self.z)
    }

    /// Whether every component lies in `[min, max)`.
    pub open spec fn within(self, min: Fixed, max: Fixed) -> bool {
        &&& min.raw <= self.x.raw < max.raw
        &&& min.raw <= self.y.raw < max.raw
        &&& min.raw <= self.z.raw < max.raw
    }

    /// What `direction` returns.
    pub open spec fn direction_spec(self) -> Vec3 {
        if self.length_spec().raw > 0 {
            unit_vector_spec(self)
        } else {
            self
        }
    }

    /// The first component.
    pub fn x(&self) -> (r: Fixed)
        ensures
            r == self.x,
    {
        self.x
    }

    /// The second component.
    pub fn y(&self) -> (r: Fixed)
        ensures
            r == self.y,
    {
        self.y
    }

    /// The third component.
    pub fn z(&self) -> (r: Fixed)
        ensures
            r == self.z,
    {
        self.z
    }

    /// The exact sum of the squares of the raw components.
    fn norm_squared_wide(&self) -> (w: Wide)
        ensures
            w.neg == 0,
            w.pos == self.raw_norm_squared(),
    {
        let w = Wide::zero().with_product(self.x.raw, self.x.raw, false).with_product(
            self.y.raw,
            self.y.raw,
            false,
        ).with_product(self.z.raw, self.z.raw, false);
        proof {
            assert(self.x.raw * self.x.raw >= 0 && self.y.raw * self.y.raw >= 0 && self.z.raw
                * self.z.raw >= 0) by (nonlinear_arith);
        }
        w
    }

    /// The Euclidean length, rounded down.
    pub fn length(&self) -> (r: Fixed)
        ensures
            r == self.length_spec(),
            r.raw >= 0,
            r.raw == 0 <==> (self.x.raw == 0 && self.y.raw == 0 && self.z.raw == 0),
    {
        let w = self.norm_squared_wide();
        let root: u64 = isqrt(w.pos);
        proof {
            let n = self.raw_norm_squared();
            let (x, y, z) = (self.x.raw as int, self.y.raw as int, self.z.raw as int);
            assert(x * x >= 0 && y * y >= 0 && z * z >= 0 && (x != 0 ==> x * x >= 1) && (y != 0
                ==> y * y >= 1) && (z != 0 ==> z * z >= 1) && (x == 0 ==> x * x == 0) && (y == 0
                ==> y * y == 0) && (z == 0 ==> z * z == 0)) by (nonlinear_arith);
            if root == 0 {
                assert((root + 1) * (root + 1) == 1) by (nonlinear_arith)
                    requires
                        root == 0,
                ;
            } else {
                assert(root * root >= 1) by (nonlinear_arith)
                    requires
                        root >= 1,
                ;
            }
        }
        Fixed { raw: signed_raw(root as u128, false) }
    }

    /// The squared length: the dot product of the vector with itself.
    pub fn length_squared(&self) -> (r: Fixed)
        ensures
            r == self.length_squared_spec(),
            r.raw >= 0,
    {
        self.norm_squared_wide().scaled()
    }

    /// Whether every component is below `10^-8` in absolute value.
    pub fn near_zero(&self) -> (r: bool)
        ensures
            r == self.near_zero_spec(),
    {
        let limit: u128 = ONE_RAW as u128;
        magnitude(self.x.raw) * 100_000_000 < limit && magnitude(self.y.raw) * 100_000_000 < limit
            && magnitude(self.z.raw) * 100_000_000 < limit
    }

    /// The vector with the given components.
    pub fn new(e0: Fixed, e1: Fixed, e2: Fixed) -> (r: Vec3)
        ensures
            r == (Vec3 { x: e0, y: e1, z: e2 }),
    {
        Vec3 { x: e0, y: e1, z: e2 }
    }

    /// A vector whose components are drawn from `[-1, 1)`.
    pub fn random() -> (r: Vec3)
        ensures
            r.within(Fixed::int_spec(-1), Fixed::int_spec(1)),
    {
        Vec3::random_range(Fixed::from_int(-1), Fixed::from_int(1))
    }

    /// A vector whose components are drawn from `[min, max)`.
    pub fn random_range(min: Fixed, max: Fixed) -> (r: Vec3)
        requires
            min.raw < max.raw,
        ensures
            r.within(min, max),
    {
        let x = uniform(min, max);
        let y = uniform(min, max);
        let z = uniform(min, max);
        Vec3 { x, y, z }
    }

    /// The largest absolute value among the raw components.
    fn largest_raw(&self) -> (r: u128)
        ensures
            r == self.largest(),
            r <= 0x8000_0000_0000_0000,
    {
        let x: u128 = magnitude(self.x.raw);
        let y: u128 = magnitude(self.y.raw);
        let z: u128 = magnitude(self.z.raw);
        let xy: u128 = if x >= y {
            x
        } else {
            y
        };
        if xy >= z {
            xy
        } else {
            z
        }
    }

    /// The vector times the power of two that brings its largest component
    /// to one half or more, and that power of two. A vector with such a
    /// component already comes back as it is, with one; so does the zero
    /// vector.
    ///
    /// Doubling is exact, so the longer vector has the direction of the
    /// shorter one, bit for bit.
    pub fn lengthen(&self) -> (r: (Vec3, i64))
        ensures
            r.0 == self.lengthened(),
            r.1 == self.lengthening(),
            1 <= r.1 < 0x1_0000_0000,
    {
        let mut w = *self;
        let mut factor: i64 = 1;
        let mut size: u128 = w.largest_raw();
        while size != 0 && size < 0x8000_0000
            invariant
                size == w.largest(),
                w.lengthened_by(factor as int) == self.lengthened_by(1),
                1 <= factor,
                size == 0 || factor <= size,
                factor < 0x1_0000_0000,
            decreases w.aim_left(),
        {
            w = Vec3 {
                x: Fixed { raw: 2 * w.x.raw },
                y: Fixed { raw: 2 * w.y.raw },
                z: Fixed { raw: 2 * w.z.raw },
            };
            factor = 2 * factor;
            size = 2 * size;
        }
        (w, factor)
    }

    /// The vector divided by the power of two that brings its largest
    /// component to one or below, and that power of two. A vector without
    /// a component above one comes back as it is, with one.
    ///
    /// Halving rounds toward zero: each component of the shorter vector,
    /// times the power, is within that power of the component it came from.
    pub fn shorten(&self) -> (r: (Vec3, i64))
        ensures
            r.0 == self.shortened(),
            r.1 == self.shortening(),
            1 <= r.1 < 0x1_0000_0000,
            r.1 == 1 <==> self.largest() <= ONE_RAW,
    {
        let mut w = *self;
        let mut factor: i64 = 1;
        let mut size: u128 = w.largest_raw();
        while size > 0x1_0000_0000
            invariant
                size == w.largest(),
                w.shortened_by(factor as int) == self.shortened_by(1),
                1 <= factor,
                factor * size <= 0x8000_0000_0000_0000,
                factor < 0x1_0000_0000,
                factor == 1 ==> w == *self,
                factor == 1 || self.largest() > ONE_RAW,
            decreases size,
        {
            assert(factor < 0x8000_0000) by (nonlinear_arith)
                requires
                    factor * size <= 0x8000_0000_0000_0000,
                    size > 0x1_0000_0000,
                    factor >= 1,
            ;
            assert((2 * factor) * (size / 2) <= factor * size) by (nonlinear_arith)
                requires
                    factor >= 1,
                    size >= 0,
            ;
            w = Vec3 {
                x: Fixed { raw: signed_raw(magnitude(w.x.raw) / 2, w.x.raw < 0) },
                y: Fixed { raw: signed_raw(magnitude(w.y.raw) / 2, w.y.raw < 0) },
                z: Fixed { raw: signed_raw(magnitude(w.z.raw) / 2, w.z.raw < 0) },
            };
            factor = 2 * factor;
            size = size / 2;
        }
        assert(w.shortened_by(factor as int) == (w, factor as int));
        (w, factor)
    }

    /// The unit vector along `self`, or `self` where it has no length.
    pub fn direction(&self) -> (r: Vec3)
        ensures
            r == self.direction_spec(),
    {
        if self.length().raw > 0 {
            unit_vector(self)
        } else {
            *self
        }
    }
}

/// The dot product, rounded once toward zero.
pub fn dot(u: &Vec3, v: &Vec3) -> (r: Fixed)
    ensures
        r == dot_spec(*u, *v),
{
    Wide::zero().with_product(u.x.raw, v.x.raw, false).with_product(
        u.y.raw,
        v.y.raw,
        false,
    ).with_product(u.z.raw, v.z.raw, false).scaled()
}

/// The cross product, each component rounded once toward zero.
pub fn cross(u: &Vec3, v: &Vec3) -> (r: Vec3)
    ensures
        r == cross_spec(*u, *v),
{
    Vec3 {
        x: Wide::zero().with_product(u.y.raw, v.z.raw, false).with_product(
            u.z.raw,
            v.y.raw,
            true,
        ).scaled(),
        y: Wide::zero().with_product(u.z.raw, v.x.raw, false).with_product(
            u.x.raw,
            v.z.raw,
            true,
        ).scaled(),
        z: Wide::zero().with_product(u.x.raw, v.y.raw, false).with_product(
            u.y.raw,
            v.x.raw,
            true,
        ).scaled(),
    }
}

/// What lengthening does: it multiplies every component by the same
/// number, and leaves no vector but the zero vector with all components
/// below one half.
pub proof fn lemma_lengthened(v: Vec3, factor: int)
    requires
        factor >= 1,
    ensures
        ({
            let (w, f) = v.lengthened_by(factor);
            &&& f >= factor
            &&& w.x.raw * factor == v.x.raw * f
            &&& w.y.raw * factor == v.y.raw * f
            &&& w.z.raw * factor == v.z.raw * f
            &&& w.largest() * factor == v.largest() * f
            &&& v.largest() > 0 ==> w.largest() >= aim_goal()
            &&& v.largest() == 0 ==> w == v && f == factor
            &&& v.largest() >= aim_goal() ==> w == v && f == factor
            &&& w == v || w.largest() < 2 * aim_goal()
        }),
    decreases v.aim_left(),
{
    if v.largest() == 0 || v.largest() >= aim_goal() {
    } else {
        let d = v.doubled();
        lemma_lengthened(d, 2 * factor);
        let (w, f) = d.lengthened_by(2 * factor);
        assert(d.largest() == 2 * v.largest());
        lemma_halve(w.x.raw as int, factor, v.x.raw as int, f);
        lemma_halve(w.y.raw as int, factor, v.y.raw as int, f);
        lemma_halve(w.z.raw as int, factor, v.z.raw as int, f);
        lemma_halve(w.largest() as int, factor, v.largest() as int, f);
    }
}

/// From `w * (2 * factor) == (2 * v) * f` follows `w * factor == v * f`.
proof fn lemma_halve(w: int, factor: int, v: int, f: int)
    requires
        w * (2 * factor) == (2 * v) * f,
    ensures
        w * factor == v * f,
{
    assert(w * (2 * factor) == 2 * (w * factor) && (2 * v) * f == 2 * (v * f)) by (nonlinear_arith);
}

/// What shortening does: it divides every component by the same number,
/// rounding toward zero, and leaves the largest component between one half
/// and one where it was above one.
pub proof fn lemma_shortened(v: Vec3, factor: int)
    requires
        factor >= 1,
    ensures
        ({
            let (w, f) = v.shortened_by(factor);
            &&& f >= factor
            &&& abs(v.x.raw * factor - w.x.raw * f) <= f - factor
            &&& abs(v.y.raw * factor - w.y.raw * f) <= f - factor
            &&& abs(v.z.raw * factor - w.z.raw * f) <= f - factor
            &&& w.largest() <= ONE_RAW
            &&& v.largest() <= ONE_RAW ==> w == v && f == factor
            &&& v.largest() > ONE_RAW ==> w.largest() >= aim_goal() && f >= 2 * factor
        }),
    decreases v.largest(),
{
    if v.largest() <= ONE_RAW {
    } else {
        let h = v.halved();
        lemma_shortened(h, 2 * factor);
        let (w, f) = h.shortened_by(2 * factor);
        lemma_double(w.x.raw as int, factor, v.x.raw as int, h.x.raw as int, f);
        lemma_double(w.y.raw as int, factor, v.y.raw as int, h.y.raw as int, f);
        lemma_double(w.z.raw as int, factor, v.z.raw as int, h.z.raw as int, f);
    }
}

/// The power of two by which `shortened` divides is at most `2^33`.
pub proof fn lemma_shortening_is_bounded(v: Vec3)
    ensures
        1 <= v.shortening() <= 0x2_0000_0000,
{
    lemma_shortened(v, 1);
    let w = v.shortened();
    let f = v.shortening();
    if v.largest() > ONE_RAW {
        assert(v.x.raw * 1 == v.x.raw && v.y.raw * 1 == v.y.raw && v.z.raw * 1 == v.z.raw);
        lemma_factor_bound(v.x.raw as int, w.x.raw as int, f);
        lemma_factor_bound(v.y.raw as int, w.y.raw as int, f);
        lemma_factor_bound(v.z.raw as int, w.z.raw as int, f);
    }
}

/// A component of one half or more bounds the power of two by which it
/// was divided.
proof fn lemma_factor_bound(v: int, w: int, f: int)
    requires
        abs(v) <= 0x8000_0000_0000_0000,
        abs(v - w * f) <= f - 1,
        f >= 1,
    ensures
        abs(w) >= 0x8000_0000 ==> f <= 0x2_0000_0000,
{
    if abs(w) >= 0x8000_0000 {
        crate::fixed::lemma_abs_mul(w, f);
        assert(f <= 0x2_0000_0000) by (nonlinear_arith)
            requires
                abs(w) * f <= 0x8000_0000_0000_0000 + f - 1,
                abs(w) >= 0x8000_0000,
                f >= 1,
        ;
    }
}

/// One more halving, rounded toward zero, adds `factor` to the distance.
proof fn lemma_double(w: int, factor: int, v: int, h: int, f: int)
    requires
        h == quotient(v, 2),
        abs(h * (2 * factor) - w * f) <= f - 2 * factor,
        factor >= 1,
    ensures
        abs(v * factor - w * f) <= f - factor,
{
    let e = v - 2 * h;
    crate::fixed::lemma_quotient_error(v, 2);
    assert(-1 <= e <= 1);
    assert(v * factor == h * (2 * factor) + e * factor) by (nonlinear_arith)
        requires
            e == v - 2 * h,
    ;
    assert(-factor <= e * factor <= factor) by (nonlinear_arith)
        requires
            -1 <= e <= 1,
            factor >= 1,
    ;
}

/// A vector that is not zero has a length that is not zero.
pub proof fn lemma_length_of_zero(u: Vec3)
    ensures
        u.largest() == 0 ==> u.length_spec().raw == 0,
        u.largest() > 0 ==> u.raw_norm_squared() >= 1,
{
    let (x, y, z) = (u.x.raw as int, u.y.raw as int, u.z.raw as int);
    assert(x * x >= 0 && y * y >= 0 && z * z >= 0 && (x != 0 ==> x * x >= 1) && (y != 0 ==> y * y
        >= 1) && (z != 0 ==> z * z >= 1)) by (nonlinear_arith);
    if u.largest() == 0 {
        assert(x == 0 && y == 0 && z == 0);
        assert(u.raw_norm_squared() == 0) by (nonlinear_arith)
            requires
                u.raw_norm_squared() == x * x + y * y + z * z,
                x == 0,
                y == 0,
                z == 0,
        ;
        assert(crate::fixed::is_floor_sqrt(0, 0));
        crate::fixed::lemma_floor_sqrt_is(0, 0);
    }
}

/// The quotient of `num` by `den`, a number above zero that may be larger
/// than any raw value.
fn ratio_by(num: i64, den: u64) -> (r: Fixed)
    requires
        den > 0,
    ensures
        r == Fixed::ratio_spec(num as int, den as int),
{
    let n: u128 = magnitude(num) * (ONE_RAW as u128);
    let q: u128 = n / (den as u128);
    proof {
        assert(abs(num * ONE_RAW) == abs(num as int) * ONE_RAW);
        if q == 0 {
            assert(saturate(-(q as int)) == saturate(q as int));
        }
    }
    Fixed { raw: signed_raw(q, num < 0) }
}

/// The vector scaled to unit length. The vector has a length above zero.
///
/// The vector is first doubled until its largest component is large, and
/// then divided by its length: so a short vector loses no more to rounding
/// than a long one.
pub fn unit_vector(u: &Vec3) -> (r: Vec3)
    requires
        u.length_spec().raw > 0,
    ensures
        r == unit_vector_spec(*u),
{
    proof {
        lemma_length_of_zero(*u);
    }
    let mut w = *u;
    while magnitude(w.x.raw) < 0x2000_0000_0000_0000 && magnitude(w.y.raw) < 0x2000_0000_0000_0000
        && magnitude(w.z.raw) < 0x2000_0000_0000_0000
        invariant
            w.largest() > 0,
            w.stretched() == u.stretched(),
        decreases w.stretch_left(),
    {
        w = Vec3 {
            x: Fixed { raw: 2 * w.x.raw },
            y: Fixed { raw: 2 * w.y.raw },
            z: Fixed { raw: 2 * w.z.raw },
        };
    }
    assert(w == u.stretched());
    let length: u64 = isqrt(w.norm_squared_wide().pos);
    proof {
        lemma_length_of_zero(w);
        if length == 0 {
            assert((length + 1) * (length + 1) == 1) by (nonlinear_arith)
                requires
                    length == 0,
            ;
        }
    }
    Vec3 { x: ratio_by(w.x.raw, length), y: ratio_by(w.y.raw, length), z: ratio_by(w.z.raw, length) }
}

/// Whether `p` lies strictly inside the unit sphere.
pub open spec fn in_unit_sphere(p: Vec3) -> bool {
    p.length_squared_spec().raw < ONE_RAW
}

/// Whether every draw of the sequence lies in the cube `[-1, 1)^3`.
pub open spec fn all_in_cube(draws: Seq<Vec3>) -> bool {
    forall|k: int|
        0 <= k < draws.len() ==> (#[trigger] draws[k]).within(
            Fixed::int_spec(-1),
            Fixed::int_spec(1),
        )
}

/// Whether every draw of the sequence misses the unit sphere.
pub open spec fn all_rejected(draws: Seq<Vec3>) -> bool {
    forall|k: int| 0 <= k < draws.len() ==> !in_unit_sphere(#[trigger] draws[k])
}

/// The first of the candidates that lies inside the unit sphere, if there
/// is one.
pub open spec fn first_inside(candidates: Seq<Vec3>) -> Option<Vec3>
    decreases candidates.len(),
{
    if candidates.len() == 0 {
        None
    } else if in_unit_sphere(candidates[0]) {
        Some(candidates[0])
    } else {
        first_inside(candidates.skip(1))
    }
}

/// What `first_in_unit_sphere` returns: the first candidate inside the unit
/// sphere, and the origin where every candidate misses.
pub open spec fn first_in_unit_sphere_spec(candidates: Seq<Vec3>) -> Vec3 {
    match first_inside(candidates) {
        Some(p) => p,
        None => Vec3::zero_spec(),
    }
}

/// Where the candidates before `i` all miss the sphere, the search goes on
/// from candidate `i`: it takes that one if it lies inside, and finds
/// nothing if `i` is the end.
pub proof fn lemma_first_inside_after_misses(candidates: Seq<Vec3>, i: int)
    requires
        0 <= i <= candidates.len(),
        all_rejected(candidates.take(i)),
    ensures
        i == candidates.len() ==> first_inside(candidates) is None,
        i < candidates.len() && in_unit_sphere(candidates[i]) ==> first_inside(candidates) == Some(
            candidates[i],
        ),
    decreases i,
{
    if i > 0 {
        assert(candidates.take(i)[0] == candidates[0]);
        let rest = candidates.skip(1);
        assert forall|k: int| 0 <= k < rest.take(i - 1).len() implies !in_unit_sphere(
            #[trigger] rest.take(i - 1)[k],
        ) by {
            assert(rest.take(i - 1)[k] == candidates.take(i)[k + 1]);
        }
        lemma_first_inside_after_misses(rest, i - 1);
    }
}

/// Whether `r` is what rejection sampling makes of the draws `draws`, taken
/// in their order.
///
/// There is at least one draw and there are at most `SPHERE_ATTEMPTS`, each
/// from the cube `[-1, 1)^3`. Every draw but the last misses the sphere. If
/// the last one lies inside, it is the result. If it misses too, it was the
/// last that is allowed, and the result is the origin. Either way the
/// result is what `first_in_unit_sphere` makes of the draws.
pub open spec fn is_sampled_from(r: Vec3, draws: Seq<Vec3>) -> bool {
    &&& 1 <= draws.len() <= SPHERE_ATTEMPTS
    &&& all_in_cube(draws)
    &&& all_rejected(draws.drop_last())
    &&& in_unit_sphere(draws.last()) || draws.len() == SPHERE_ATTEMPTS
    &&& r == first_in_unit_sphere_spec(draws)
}

/// The first of the candidates that lies inside the unit sphere; the
/// origin where none does. This is the rule by which
/// `random_in_unit_sphere` picks among its draws.
pub fn first_in_unit_sphere(candidates: &Vec<Vec3>) -> (r: Vec3)
    ensures
        r == first_in_unit_sphere_spec(candidates@),
        in_unit_sphere(r),
{
    let mut i: usize = 0;
    while i < candidates.len()
        invariant
            i <= candidates.len(),
            all_rejected(candidates@.take(i as int)),
        decreases candidates.len() - i,
    {
        let p = candidates[i];
        if p.length_squared().raw < ONE_RAW {
            proof {
                lemma_first_inside_after_misses(candidates@, i as int);
            }
            return p;
        }
        proof {
            let next = candidates@.take(i + 1);
            assert forall|k: int| 0 <= k < next.len() implies !in_unit_sphere(
                #[trigger] next[k],
            ) by {
                if k < i {
                    assert(next[k] == candidates@.take(i as int)[k]);
                }
            }
        }
        i += 1;
    }
    let origin = Vec3::default();
    proof {
        lemma_first_inside_after_misses(candidates@, i as int);
        assert(raw_dot(origin, origin) == 0) by {
            assert(0int * 0int == 0) by (nonlinear_arith);
        }
    }
    origin
}

/// A point strictly inside the unit sphere, found by rejection.
///
/// Draws from the cube `[-1, 1)^3` until a draw falls inside the sphere and
/// returns that draw: the first that falls inside. It draws up to
/// `SPHERE_ATTEMPTS` times; after that many misses it returns the origin.
pub fn random_in_unit_sphere() -> (r: Vec3)
    ensures
        in_unit_sphere(r),
        r.within(Fixed::int_spec(-1), Fixed::int_spec(1)),
        exists|draws: Seq<Vec3>| #[trigger] is_sampled_from(r, draws),
{
    let ghost mut misses: Seq<Vec3> = Seq::empty();
    let mut attempts: u32 = 0;
    while attempts < SPHERE_ATTEMPTS
        invariant
            attempts <= SPHERE_ATTEMPTS,
            misses.len() == attempts,
            all_in_cube(misses),
            all_rejected(misses),
        decreases SPHERE_ATTEMPTS - attempts,
    {
        let p = Vec3::random();
        let ghost draws = misses.push(p);
        proof {
            assert(draws.drop_last() =~= misses);
            assert(draws.last() == p);
            assert forall|k: int| 0 <= k < draws.len() implies (#[trigger] draws[k]).within(
                Fixed::int_spec(-1),
                Fixed::int_spec(1),
            ) by {
                if k < misses.len() {
                    assert(draws[k] == misses[k]);
                }
            }
        }
        if p.length_squared().raw < ONE_RAW {
            proof {
                assert(draws.take(misses.len() as int) =~= misses);
                lemma_first_inside_after_misses(draws, misses.len() as int);
            }
            assert(is_sampled_from(p, draws));
            return p;
        }
        proof {
            assert forall|k: int| 0 <= k < draws.len() implies !in_unit_sphere(
                #[trigger] draws[k],
            ) by {
                if k < misses.len() {
                    assert(draws[k] == misses[k]);
                }
            }
            misses = draws;
        }
        attempts += 1;
    }
    let origin = Vec3::default();
    proof {
        // the origin lies inside the sphere
        assert(raw_dot(origin, origin) == 0) by {
            assert(0int * 0int == 0) by (nonlinear_arith);
        }
        assert(in_unit_sphere(origin));
        // every one of the allowed draws has missed
        let rejected = misses.drop_last();
        assert forall|k: int| 0 <= k < rejected.len() implies !in_unit_sphere(
            #[trigger] rejected[k],
        ) by {
            assert(rejected[k] == misses[k]);
        }
        assert(!in_unit_sphere(misses.last()));
        assert(misses.take(misses.len() as int) =~= misses);
        lemma_first_inside_after_misses(misses, misses.len() as int);
        assert(is_sampled_from(origin, misses));
    }
    origin
}

/// The direction of a point drawn inside the unit sphere.
pub fn random_unit_vector() -> (r: Vec3)
    ensures
        exists|p: Vec3| in_unit_sphere(p) && r == p.direction_spec(),
{
    let p = random_in_unit_sphere();
    let r = p.direction();
    assert(in_unit_sphere(p) && r == p.direction_spec());
    r
}

/// The mirror image of `v` at a surface with normal `n`.
pub fn reflect(v: &Vec3, n: &Vec3) -> (r: Vec3)
    ensures
        r == reflect_spec(*v, *n),
{
    *v - *n * (Fixed::from_int(2) * dot(v, n))
}

/// The ray `uv` bent by Snell's law at a surface with normal `n`, where
/// `etai_over_etat` is the ratio of the refractive indices.
pub fn refract(uv: &Vec3, n: &Vec3, etai_over_etat: Fixed) -> (r: Vec3)
    ensures
        r == refract_spec(*uv, *n, etai_over_etat),
{
    let cos_theta = dot(&uv.neg(), n).min(Fixed::one());
    let r_out_perp = (*uv + *n * cos_theta) * etai_over_etat;
    let under_root = (Fixed::one() - r_out_perp.length_squared()).abs();
    let r_out_parallel = *n * under_root.sqrt().neg();
    r_out_perp + r_out_parallel
}

impl Default for Vec3 {
    /// The vector whose components are all zero.
    fn default() -> (r: Vec3)
        ensures
            r == Vec3::zero_spec(),
    {
        Vec3 { x: Fixed::zero(), y: Fixed::zero(), z: Fixed::zero() }
    }
}

impl Add for Vec3 {
    type Output = Vec3;

    /// The component-wise sum.
    fn add(self, rhs: Vec3) -> (r: Vec3)
        ensures
            r == self.plus(rhs),
    {
        Vec3 { x: self.x + rhs.x, y: self.y + rhs.y, z: self.z + rhs.z }
    }
}

impl vstd::std_specs::ops::AddSpecImpl for Vec3 {
    open spec fn obeys_add_spec() -> bool {
        true
    }

    open spec fn add_req(self, rhs: Vec3) -> bool {
        true
    }

    open spec fn add_spec(self, rhs: Vec3) -> Vec3 {
        self.plus(rhs)
    }
}

impl<'a> Add<&'a Vec3> for Vec3 {
    type Output = Vec3;

    /// The component-wise sum.
    fn add(self, rhs: &'a Vec3) -> (r: Vec3)
        ensures
            r == self.plus(*rhs),
    {
        Vec3 { x: self.x + rhs.x, y: self.y + rhs.y, z: self.z + rhs.z }
    }
}

impl<'a> vstd::std_specs::ops::AddSpecImpl<&'a Vec3> for Vec3 {
    open spec fn obeys_add_spec() -> bool {
        true
    }

    open spec fn add_req(self, rhs: &'a Vec3) -> bool {
        true
    }

    open spec fn add_spec(self, rhs: &'a Vec3) -> Vec3 {
        self.plus(*rhs)
    }
}

impl core::ops::AddAssign<Vec3> for Vec3 {
    /// Adds `rhs` to the vector.
    fn add_assign(&mut self, rhs: Vec3)
        ensures
            *final(self) == old(self).plus(rhs),
    {
        *self = *self + rhs;
    }
}

impl<'a> core::ops::AddAssign<&'a Vec3> for Vec3 {
    /// Adds `rhs` to the vector.
    fn add_assign(&mut self, rhs: &'a Vec3)
        ensures
            *final(self) == old(self).plus(*rhs),
    {
        *self = *self + rhs;
    }
}

impl Sub for Vec3 {
    type Output = Vec3;

    /// The component-wise difference.
    fn sub(self, rhs: Vec3) -> (r: Vec3)
        ensures
            r == self.minus(rhs),
    {
        Vec3 { x: self.x - rhs.x, y: self.y - rhs.y, z: self.z - rhs.z }
    }
}

impl vstd::std_specs::ops::SubSpecImpl for Vec3 {
    open spec fn obeys_sub_spec() -> bool {
        true
    }

    open spec fn sub_req(self, rhs: Vec3) -> bool {
        true
    }

    open spec fn sub_spec(self, rhs: Vec3) -> Vec3 {
        self.minus(rhs)
    }
}

impl<'a> Sub<&'a Vec3> for Vec3 {
    type Output = Vec3;

    /// The component-wise difference.
    fn sub(self, rhs: &'a Vec3) -> (r: Vec3)
        ensures
            r == self.minus(*rhs),
    {
        Vec3 { x: self.x - rhs.x, y: self.y - rhs.y, z: self.z - rhs.z }
    }
}

impl<'a> vstd::std_specs::ops::SubSpecImpl<&'a Vec3> for Vec3 {
    open spec fn obeys_sub_spec() -> bool {
        true
    }

    open spec fn sub_req(self, rhs: &'a Vec3) -> bool {
        true
    }

    open spec fn sub_spec(self, rhs: &'a Vec3) -> Vec3 {
        self.minus(*rhs)
    }
}

impl core::ops::SubAssign<Vec3> for Vec3 {
    /// Takes `rhs` off the vector.
    fn sub_assign(&mut self, rhs: Vec3)
        ensures
            *final(self) == old(self).minus(rhs),
    {
        *self = *self - rhs;
    }
}

impl<'a> core::ops::SubAssign<&'a Vec3> for Vec3 {
    /// Takes `rhs` off the vector.
    fn sub_assign(&mut self, rhs: &'a Vec3)
        ensures
            *final(self) == old(self).minus(*rhs),
    {
        *self = *self - rhs;
    }
}

impl Neg for Vec3 {
    type Output = Vec3;

    /// The component-wise negation.
    fn neg(self) -> (r: Vec3)
        ensures
            r == self.negated(),
    {
        Vec3 { x: self.x.neg(), y: self.y.neg(), z: self.z.neg() }
    }
}

impl vstd::std_specs::ops::NegSpecImpl for Vec3 {
    open spec fn obeys_neg_spec() -> bool {
        true
    }

    open spec fn neg_req(self) -> bool {
        true
    }

    open spec fn neg_spec(self) -> Vec3 {
        self.negated()
    }
}

impl Mul<Vec3> for Vec3 {
    type Output = Vec3;

    /// The component-wise product.
    fn mul(self, rhs: Vec3) -> (r: Vec3)
        ensures
            r == self.times(rhs),
    {
        Vec3 { x: self.x * rhs.x, y: self.y * rhs.y, z: self.z * rhs.z }
    }
}

impl vstd::std_specs::ops::MulSpecImpl<Vec3> for Vec3 {
    open spec fn obeys_mul_spec() -> bool {
        true
    }

    open spec fn mul_req(self, rhs: Vec3) -> bool {
        true
    }

    open spec fn mul_spec(self, rhs: Vec3) -> Vec3 {
        self.times(rhs)
    }
}

impl Mul<Fixed> for Vec3 {
    type Output = Vec3;

    /// The vector scaled by a number.
    fn mul(self, rhs: Fixed) -> (r: Vec3)
        ensures
            r == self.scaled(rhs),
    {
        Vec3 { x: self.x * rhs, y: self.y * rhs, z: self.z * rhs }
    }
}

impl vstd::std_specs::ops::MulSpecImpl<Fixed> for Vec3 {
    open spec fn obeys_mul_spec() -> bool {
        true
    }

    open spec fn mul_req(self, rhs: Fixed) -> bool {
        true
    }

    open spec fn mul_spec(self, rhs: Fixed) -> Vec3 {
        self.scaled(rhs)
    }
}

impl Mul<Vec3> for Fixed {
    type Output = Vec3;

    /// The vector scaled by a number, the number written first.
    fn mul(self, rhs: Vec3) -> (r: Vec3)
        ensures
            r == rhs.scaled(self),
    {
        Vec3 { x: rhs.x * self, y: rhs.y * self, z: rhs.z * self }
    }
}

impl vstd::std_specs::ops::MulSpecImpl<Vec3> for Fixed {
    open spec fn obeys_mul_spec() -> bool {
        true
    }

    open spec fn mul_req(self, rhs: Vec3) -> bool {
        true
    }

    open spec fn mul_spec(self, rhs: Vec3) -> Vec3 {
        rhs.scaled(self)
    }
}

impl Div<Fixed> for Vec3 {
    type Output = Vec3;

    /// The vector divided by a number that is not zero.
    fn div(self, rhs: Fixed) -> (r: Vec3)
        ensures
            r == self.over(rhs),
    {
        Vec3 { x: self.x / rhs, y: self.y / rhs, z: self.z / rhs }
    }
}

impl vstd::std_specs::ops::DivSpecImpl<Fixed> for Vec3 {
    open spec fn obeys_div_spec() -> bool {
        true
    }

    open spec fn div_req(self, rhs: Fixed) -> bool {
        rhs.raw != 0
    }

    open spec fn div_spec(self, rhs: Fixed) -> Vec3 {
        self.over(rhs)
    }
}

impl Index<usize> for Vec3 {
    type Output = Fixed;

    /// The component at `idx`: 0, 1 or 2.
    fn index(&self, idx: usize) -> (r: &Fixed)
        ensures
            idx == 0 ==> *r == self.x,
            idx == 1 ==> *r == self.y,
            idx == 2 ==> *r == self.z,
    {
        if idx == 0 {
            &self.x
        } else if idx == 1 {
            &self.y
        } else {
            &self.z
        }
    }
}

impl vstd::std_specs::core::IndexSpecImpl<usize> for Vec3 {
    open spec fn index_req(&self, index: &usize) -> bool {
        *index < 3
    }
}

} // verus!
