//! Signed fixed-point numbers with thirty-two fractional bits.
//!
//! A [`Fixed`] holds a 64-bit integer `raw` and stands for the rational
//! number `raw / 2^32`. Every operation computes the exact mathematical
//! result, rounds it toward zero to a multiple of `2^-32`, and saturates at
//! the ends of the 64-bit range. The contracts say exactly that, over `int`.

use core::ops::{Add, Div, Mul, Neg, Sub};
use vstd::math::abs;
use vstd::prelude::*;

verus! {

/// The raw value of the number one: `2^32`.
pub const ONE_RAW: i64 = 0x1_0000_0000;

/// `v` brought into the range of the raw values.
pub open spec fn saturate(v: int) -> int {
    if v < i64::MIN {
        i64::MIN as int
    } else if v > i64::MAX {
        i64::MAX as int
    } else {
        v
    }
}

/// The quotient of `n` by `d`, rounded toward zero.
pub open spec fn quotient(n: int, d: int) -> int
    recommends
        d != 0,
{
    if (n < 0) == (d < 0) {
        abs(n) as int / abs(d) as int
    } else {
        -(abs(n) as int / abs(d) as int)
    }
}

/// Rounding toward zero leaves an error that has the sign of the dividend
/// and is smaller than the divisor.
pub proof fn lemma_quotient_error(n: int, d: int)
    requires
        d > 0,
    ensures
        n >= 0 ==> 0 <= n - d * quotient(n, d) < d && quotient(n, d) >= 0,
        n <= 0 ==> -d < n - d * quotient(n, d) <= 0 && quotient(n, d) <= 0,
{
    let a = abs(n) as int;
    vstd::arithmetic::div_mod::lemma_fundamental_div_mod(a, d);
    vstd::arithmetic::div_mod::lemma_mod_bound(a, d);
    vstd::arithmetic::div_mod::lemma_div_pos_is_pos(a, d);
    assert(d * (-(a / d)) == -(d * (a / d))) by (nonlinear_arith);
}

/// A multiple of the divisor is divided without rounding.
pub proof fn lemma_quotient_of_multiple(x: int, d: int)
    requires
        d > 0,
    ensures
        quotient(d * x, d) == x,
{
    let a = abs(x) as int;
    lemma_abs_mul(d, x);
    vstd::arithmetic::div_mod::lemma_div_multiples_vanish(a, d);
    assert(abs(d * x) == d * a);
    if x == 0 {
        assert(d * x == 0) by (nonlinear_arith)
            requires
                x == 0,
        ;
    }
}

/// For a positive divisor, the larger dividend has the larger quotient.
pub proof fn lemma_quotient_is_ordered(n1: int, n2: int, d: int)
    requires
        n1 <= n2,
        d > 0,
    ensures
        quotient(n1, d) <= quotient(n2, d),
{
    let a1 = abs(n1) as int;
    let a2 = abs(n2) as int;
    vstd::arithmetic::div_mod::lemma_div_pos_is_pos(a1, d);
    vstd::arithmetic::div_mod::lemma_div_pos_is_pos(a2, d);
    if n1 >= 0 {
        vstd::arithmetic::div_mod::lemma_div_is_ordered(a1, a2, d);
    } else if n2 < 0 {
        vstd::arithmetic::div_mod::lemma_div_is_ordered(a2, a1, d);
    }
}

/// `r` is the square root of `n`, rounded down.
pub open spec fn is_floor_sqrt(n: int, r: int) -> bool {
    0 <= r && r * r <= n < (r + 1) * (r + 1)
}

/// The square root of `n`, rounded down (for `n >= 0`).
pub open spec fn floor_sqrt(n: int) -> int {
    choose|r: int| is_floor_sqrt(n, r)
}

/// At most one number is the rounded-down square root of `n`.
pub proof fn lemma_floor_sqrt_unique(n: int, r: int, s: int)
    requires
        is_floor_sqrt(n, r),
        is_floor_sqrt(n, s),
    ensures
        r == s,
{
    if r < s {
        assert((r + 1) * (r + 1) <= s * s) by (nonlinear_arith)
            requires
                0 <= r,
                r + 1 <= s,
        ;
    } else if s < r {
        assert((s + 1) * (s + 1) <= r * r) by (nonlinear_arith)
            requires
                0 <= s,
                s + 1 <= r,
        ;
    }
}

/// Every number from zero on has a rounded-down square root.
pub proof fn lemma_floor_sqrt_exists(n: nat)
    ensures
        is_floor_sqrt(n as int, floor_sqrt(n as int)),
    decreases n,
{
    if n == 0 {
        assert(is_floor_sqrt(0, 0));
    } else {
        lemma_floor_sqrt_exists((n - 1) as nat);
        let r = floor_sqrt(n - 1);
        if n < (r + 1) * (r + 1) {
            assert(is_floor_sqrt(n as int, r));
        } else {
            assert((r + 2) * (r + 2) > (r + 1) * (r + 1)) by (nonlinear_arith)
                requires
                    r >= 0,
            ;
            assert(is_floor_sqrt(n as int, r + 1));
        }
    }
}

/// A number that passes `is_floor_sqrt` is the one that `floor_sqrt` names.
pub proof fn lemma_floor_sqrt_is(n: int, r: int)
    requires
        is_floor_sqrt(n, r),
    ensures
        floor_sqrt(n) == r,
{
    lemma_floor_sqrt_unique(n, r, floor_sqrt(n));
}

/// The absolute value of a product is the product of the absolute values.
pub proof fn lemma_abs_mul(a: int, b: int)
    ensures
        abs(a * b) == abs(a) * abs(b),
        (a * b < 0) <==> (a != 0 && b != 0 && ((a < 0) != (b < 0))),
{
    assert(abs(a * b) == abs(a) * abs(b)) by (nonlinear_arith);
    assert((a * b < 0) <==> (a != 0 && b != 0 && ((a < 0) != (b < 0)))) by (nonlinear_arith);
}

/// The absolute value of a 64-bit integer, which always fits in 128 bits.
pub(crate) fn magnitude(a: i64) -> (r: u128)
    ensures
        r == abs(a as int),
        r <= 0x8000_0000_0000_0000,
{
    if a >= 0 {
        a as u128
    } else {
        let wide: i128 = a as i128;
        (-wide) as u128
    }
}

/// `v` brought into the 64-bit range.
pub(crate) fn clamp_to_raw(v: i128) -> (r: i64)
    ensures
        r == saturate(v as int),
{
    if v < i64::MIN as i128 {
        i64::MIN
    } else if v > i64::MAX as i128 {
        i64::MAX
    } else {
        v as i64
    }
}

/// A magnitude with a sign, brought into the 64-bit range.
pub(crate) fn signed_raw(mag: u128, negative: bool) -> (r: i64)
    ensures
        r == saturate(if negative { -(mag as int) } else { mag as int }),
{
    if negative {
        if mag >= 0x8000_0000_0000_0000 {
            i64::MIN
        } else {
            let m: i128 = mag as i128;
            (-m) as i64
        }
    } else {
        if mag > 0x7fff_ffff_ffff_ffff {
            i64::MAX
        } else {
            mag as i64
        }
    }
}

/// The square root of `n`, rounded down.
pub fn isqrt(n: u128) -> (r: u64)
    ensures
        r == floor_sqrt(n as int),
        is_floor_sqrt(n as int, r as int),
{
    let mut lo: u128 = 0;
    let mut hi: u128 = 0x1_0000_0000_0000_0000;
    // 2^64 squared is 2^128, above every `n`
    assert(hi * hi == 0x1_0000_0000_0000_0000_0000_0000_0000_0000int) by (nonlinear_arith)
        requires
            hi == 0x1_0000_0000_0000_0000,
    ;
    while hi - lo > 1
        invariant
            lo < hi <= 0x1_0000_0000_0000_0000,
            lo * lo <= n,
            n < hi * hi,
        decreases hi - lo,
    {
        let mid: u128 = lo + (hi - lo) / 2;
        // `mid` is below 2^64, so its square fits
        assert(mid * mid < 0x1_0000_0000_0000_0000_0000_0000_0000_0000) by (nonlinear_arith)
            requires
                0 <= mid <= 0xffff_ffff_ffff_ffff,
        ;
        if mid * mid <= n {
            lo = mid;
        } else {
            hi = mid;
        }
    }
    proof {
        lemma_floor_sqrt_is(n as int, lo as int);
    }
    lo as u64
}

/// A fixed-point number: `raw / 2^32`.
#[derive(Clone, Copy, PartialEq, Eq, Structural, Debug)]
pub struct Fixed {
    pub raw: i64,
}

/// An exact sum of products of raw values, held as the difference of two
/// unsigned totals so that no intermediate step can overflow.
pub(crate) struct Wide {
    pub(crate) pos: u128,
    pub(crate) neg: u128,
}

/// The largest magnitude a product of two raw values can have: `2^126`.
pub open spec fn product_limit() -> int {
    0x4000_0000_0000_0000_0000_0000_0000_0000
}

impl Wide {
    /// The integer that the two totals stand for.
    pub(crate) open spec fn value(self) -> int {
        self.pos - self.neg
    }

    /// The empty sum.
    pub(crate) fn zero() -> (r: Wide)
        ensures
            r.pos == 0,
            r.neg == 0,
    {
        Wide { pos: 0, neg: 0 }
    }

    /// The sum with `a * b` added (`negate` false) or subtracted (`negate` true).
    pub(crate) fn with_product(self, a: i64, b: i64, negate: bool) -> (r: Wide)
        requires
            self.pos <= 2 * product_limit(),
            self.neg <= 2 * product_limit(),
        ensures
            r.value() == self.value() + (if negate { -(a * b) } else { a * b }),
            self.pos <= r.pos <= self.pos + product_limit(),
            self.neg <= r.neg <= self.neg + product_limit(),
            r.pos == self.pos || r.neg == self.neg,
            r.pos + r.neg == self.pos + self.neg + abs(a * b),
    {
        let ma: u128 = magnitude(a);
        let mb: u128 = magnitude(b);
        proof {
            lemma_abs_mul(a as int, b as int);
            assert(ma * mb <= 0x8000_0000_0000_0000 * 0x8000_0000_0000_0000) by (nonlinear_arith)
                requires
                    0 <= ma <= 0x8000_0000_0000_0000,
                    0 <= mb <= 0x8000_0000_0000_0000,
            ;
            assert(0x8000_0000_0000_0000int * 0x8000_0000_0000_0000int == product_limit())
                by (nonlinear_arith);
        }
        let m: u128 = ma * mb;
        let product_negative: bool = (a < 0) != (b < 0);
        if product_negative != negate {
            Wide { pos: self.pos, neg: self.neg + m }
        } else {
            Wide { pos: self.pos + m, neg: self.neg }
        }
    }

    /// The sum divided by `2^32`, as a fixed-point number.
    pub(crate) fn scaled(self) -> (r: Fixed)
        ensures
            r.raw == saturate(quotient(self.value(), ONE_RAW as int)),
    {
        if self.pos >= self.neg {
            let d: u128 = self.pos - self.neg;
            let q: u128 = d / (ONE_RAW as u128);
            Fixed { raw: signed_raw(q, false) }
        } else {
            let d: u128 = self.neg - self.pos;
            let q: u128 = d / (ONE_RAW as u128);
            Fixed { raw: signed_raw(q, true) }
        }
    }
}

impl Fixed {
    /// The sum, saturated.
    pub open spec fn plus(self, rhs: Fixed) -> Fixed {
        Fixed { raw: saturate(self.raw + rhs.raw) as i64 }
    }

    /// The difference, saturated.
    pub open spec fn minus(self, rhs: Fixed) -> Fixed {
        Fixed { raw: saturate(self.raw - rhs.raw) as i64 }
    }

    /// The negation, saturated.
    pub open spec fn negated(self) -> Fixed {
        Fixed { raw: saturate(-self.raw) as i64 }
    }

    /// The product, rounded toward zero and saturated.
    pub open spec fn times(self, rhs: Fixed) -> Fixed {
        Fixed { raw: saturate(quotient(self.raw * rhs.raw, ONE_RAW as int)) as i64 }
    }

    /// The quotient, rounded toward zero and saturated.
    pub open spec fn over(self, rhs: Fixed) -> Fixed
        recommends
            rhs.raw != 0,
    {
        Fixed::ratio_spec(self.raw as int, rhs.raw as int)
    }

    /// The number zero.
    pub fn zero() -> (r: Fixed)
        ensures
            r.raw == 0,
            r == Fixed::int_spec(0),
    {
        Fixed { raw: 0 }
    }

    /// The number one.
    pub fn one() -> (r: Fixed)
        ensures
            r.raw == ONE_RAW,
            r == Fixed::int_spec(1),
    {
        Fixed { raw: ONE_RAW }
    }

    /// The largest number of the type; it serves as "no upper limit".
    pub fn max_value() -> (r: Fixed)
        ensures
            r.raw == i64::MAX,
    {
        Fixed { raw: i64::MAX }
    }

    /// What `from_int` returns.
    pub open spec fn int_spec(n: int) -> Fixed {
        Fixed { raw: saturate(n * ONE_RAW) as i64 }
    }

    /// The whole number `n`, saturated.
    pub fn from_int(n: i64) -> (r: Fixed)
        ensures
            r == Fixed::int_spec(n as int),
    {
        let wide: i128 = (n as i128) * 0x1_0000_0000;
        Fixed { raw: clamp_to_raw(wide) }
    }

    /// What `from_ratio(num, den)` returns.
    pub open spec fn ratio_spec(num: int, den: int) -> Fixed {
        Fixed { raw: saturate(quotient(num * ONE_RAW, den)) as i64 }
    }

    /// The fraction `num / den`, rounded toward zero and saturated.
    pub fn from_ratio(num: i64, den: i64) -> (r: Fixed)
        requires
            den != 0,
        ensures
            r == Fixed::ratio_spec(num as int, den as int),
    {
        let n: u128 = magnitude(num) * (ONE_RAW as u128);
        let d: u128 = magnitude(den);
        let q: u128 = n / d;
        let negative: bool = (num < 0) != (den < 0);
        proof {
            assert(abs(num * ONE_RAW) == abs(num as int) * ONE_RAW);
            if q == 0 {
                assert(saturate(-(q as int)) == saturate(q as int));
            }
        }
        Fixed { raw: signed_raw(q, negative) }
    }

    /// The quotient, or `None` where the divisor is zero.
    pub fn checked_div(self, rhs: Fixed) -> (r: Option<Fixed>)
        ensures
            r == (if rhs.raw == 0 { None } else { Some(self.over(rhs)) }),
    {
        if rhs.raw == 0 {
            None
        } else {
            Some(Fixed::from_ratio(self.raw, rhs.raw))
        }
    }

    /// What `abs` returns.
    pub open spec fn abs_spec(self) -> Fixed {
        Fixed { raw: saturate(abs(self.raw as int) as int) as i64 }
    }

    /// The absolute value, saturated.
    pub fn abs(self) -> (r: Fixed)
        ensures
            r == self.abs_spec(),
    {
        Fixed { raw: signed_raw(magnitude(self.raw), false) }
    }

    /// What `min` returns.
    pub open spec fn min_spec(self, other: Fixed) -> Fixed {
        if other.raw < self.raw {
            other
        } else {
            self
        }
    }

    /// The smaller of two numbers.
    pub fn min(self, other: Fixed) -> (r: Fixed)
        ensures
            r == self.min_spec(other),
    {
        if other.raw < self.raw {
            other
        } else {
            self
        }
    }

    /// What `clamp` returns.
    pub open spec fn clamp_spec(self, low: Fixed, high: Fixed) -> Fixed {
        if self.raw < low.raw {
            low
        } else if self.raw > high.raw {
            high
        } else {
            self
        }
    }

    /// `self` brought into `[low, high]`: `low` if below, `high` if above.
    pub fn clamp(self, low: Fixed, high: Fixed) -> (r: Fixed)
        ensures
            r == self.clamp_spec(low, high),
    {
        if self.raw < low.raw {
            low
        } else if self.raw > high.raw {
            high
        } else {
            self
        }
    }

    /// What `sqrt` returns.
    pub open spec fn sqrt_spec(self) -> Fixed {
        if self.raw <= 0 {
            Fixed { raw: 0 }
        } else {
            Fixed { raw: floor_sqrt(self.raw * ONE_RAW) as i64 }
        }
    }

    /// The square root, rounded down; zero for a number that is not positive.
    pub fn sqrt(self) -> (r: Fixed)
        ensures
            r == self.sqrt_spec(),
            self.raw > 0 ==> is_floor_sqrt(self.raw * ONE_RAW, r.raw as int),
    {
        if self.raw <= 0 {
            Fixed { raw: 0 }
        } else {
            let n: u128 = (self.raw as u128) * (ONE_RAW as u128);
            let root: u64 = isqrt(n);
            proof {
                // root * root <= n < 2^95, so root < 2^48
                assert(root < 0x1_0000_0000_0000) by (nonlinear_arith)
                    requires
                        root * root <= n,
                        n < 0x8000_0000_0000_0000_0000_0000,
                        root >= 0,
                ;
            }
            Fixed { raw: root as i64 }
        }
    }
}

/// The square root of a number above zero is the rounded-down root of its
/// raw value times `2^32`.
pub proof fn lemma_sqrt_is_floor(x: Fixed)
    requires
        x.raw > 0,
    ensures
        is_floor_sqrt(x.raw * ONE_RAW, x.sqrt_spec().raw as int),
{
    let n = x.raw * ONE_RAW;
    lemma_floor_sqrt_exists(n as nat);
    let r = floor_sqrt(n);
    assert(r < 0x1_0000_0000_0000) by (nonlinear_arith)
        requires
            r * r <= n,
            n < 0x8000_0000_0000_0000_0000_0000,
            r >= 0,
    ;
}

/// The square root is never negative.
pub proof fn lemma_sqrt_is_not_negative(x: Fixed)
    ensures
        x.sqrt_spec().raw >= 0,
{
    if x.raw > 0 {
        let n = x.raw * ONE_RAW;
        lemma_floor_sqrt_exists(n as nat);
        let r = floor_sqrt(n);
        assert(r < 0x1_0000_0000_0000) by (nonlinear_arith)
            requires
                r * r <= n,
                n < 0x8000_0000_0000_0000_0000_0000,
                r >= 0,
        ;
    }
}

impl Add for Fixed {
    type Output = Fixed;

    /// The sum, saturated.
    fn add(self, rhs: Fixed) -> (r: Fixed)
        ensures
            r == self.plus(rhs),
    {
        let wide: i128 = (self.raw as i128) + (rhs.raw as i128);
        Fixed { raw: clamp_to_raw(wide) }
    }
}

impl vstd::std_specs::ops::AddSpecImpl for Fixed {
    open spec fn obeys_add_spec() -> bool {
        true
    }

    open spec fn add_req(self, rhs: Fixed) -> bool {
        true
    }

    open spec fn add_spec(self, rhs: Fixed) -> Fixed {
        self.plus(rhs)
    }
}

impl Sub for Fixed {
    type Output = Fixed;

    /// The difference, saturated.
    fn sub(self, rhs: Fixed) -> (r: Fixed)
        ensures
            r == self.minus(rhs),
    {
        let wide: i128 = (self.raw as i128) - (rhs.raw as i128);
        Fixed { raw: clamp_to_raw(wide) }
    }
}

impl vstd::std_specs::ops::SubSpecImpl for Fixed {
    open spec fn obeys_sub_spec() -> bool {
        true
    }

    open spec fn sub_req(self, rhs: Fixed) -> bool {
        true
    }

    open spec fn sub_spec(self, rhs: Fixed) -> Fixed {
        self.minus(rhs)
    }
}

impl Neg for Fixed {
    type Output = Fixed;

    /// The negation, saturated: the most negative number gives the largest.
    fn neg(self) -> (r: Fixed)
        ensures
            r == self.negated(),
    {
        let wide: i128 = -(self.raw as i128);
        Fixed { raw: clamp_to_raw(wide) }
    }
}

impl vstd::std_specs::ops::NegSpecImpl for Fixed {
    open spec fn obeys_neg_spec() -> bool {
        true
    }

    open spec fn neg_req(self) -> bool {
        true
    }

    open spec fn neg_spec(self) -> Fixed {
        self.negated()
    }
}

impl Mul for Fixed {
    type Output = Fixed;

    /// The product, rounded toward zero and saturated.
    fn mul(self, rhs: Fixed) -> (r: Fixed)
        ensures
            r == self.times(rhs),
    {
        Wide::zero().with_product(self.raw, rhs.raw, false).scaled()
    }
}

impl vstd::std_specs::ops::MulSpecImpl for Fixed {
    open spec fn obeys_mul_spec() -> bool {
        true
    }

    open spec fn mul_req(self, rhs: Fixed) -> bool {
        true
    }

    open spec fn mul_spec(self, rhs: Fixed) -> Fixed {
        self.times(rhs)
    }
}

impl Div for Fixed {
    type Output = Fixed;

    /// The quotient, rounded toward zero and saturated. The divisor is not zero.
    fn div(self, rhs: Fixed) -> (r: Fixed)
        ensures
            r == self.over(rhs),
    {
        Fixed::from_ratio(self.raw, rhs.raw)
    }
}

impl vstd::std_specs::ops::DivSpecImpl for Fixed {
    open spec fn obeys_div_spec() -> bool {
        true
    }

    open spec fn div_req(self, rhs: Fixed) -> bool {
        rhs.raw != 0
    }

    open spec fn div_spec(self, rhs: Fixed) -> Fixed {
        self.over(rhs)
    }
}

} // verus!
