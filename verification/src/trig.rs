//! Sine, cosine and tangent, summed from their power series.
//!
//! The contracts give each result as the value of its series, cut after a
//! fixed number of terms and rounded at each step. How close that value is
//! to the sum of the whole series is proved in `trig_accuracy`.

use crate::fixed::{Fixed, ONE_RAW};
use core::ops::Neg;
use vstd::prelude::*;

verus! {

/// The raw value of pi, rounded down.
pub const PI_RAW: i64 = 13493037704;

/// How many terms the series add to their first one.
pub const SERIES_TERMS: u32 = 12;

/// What `degrees_to_radians` returns: `degrees * pi / 180`.
pub open spec fn degrees_to_radians_spec(degrees: Fixed) -> Fixed {
    degrees.times(Fixed { raw: PI_RAW }).over(Fixed::int_spec(180))
}

/// The term that follows `term` in the series of sine or cosine: if `term`
/// holds the power `n` of `x`, the next is `-term * x^2 / ((n + 1) * (n + 2))`.
pub open spec fn next_term(term: Fixed, x2: Fixed, n: int) -> Fixed {
    term.times(x2).over(Fixed::int_spec((n + 1) * (n + 2))).negated()
}

/// `acc` plus the `steps` terms that follow `term`.
pub open spec fn series(acc: Fixed, term: Fixed, x2: Fixed, n: int, steps: nat) -> Fixed
    decreases steps,
{
    if steps == 0 {
        acc
    } else {
        let next = next_term(term, x2, n);
        series(acc.plus(next), next, x2, n + 2, (steps - 1) as nat)
    }
}

/// What `sin` returns: `x - x^3/3! + x^5/5! - ...`, cut after a fixed number
/// of terms, each step rounded.
pub open spec fn sin_spec(x: Fixed) -> Fixed {
    series(x, x, x.times(x), 1, SERIES_TERMS as nat)
}

/// What `cos` returns: `1 - x^2/2! + x^4/4! - ...`, cut after a fixed number
/// of terms, each step rounded.
pub open spec fn cos_spec(x: Fixed) -> Fixed {
    series(Fixed::int_spec(1), Fixed::int_spec(1), x.times(x), 0, SERIES_TERMS as nat)
}

/// What `tan` returns: sine over cosine, and the largest number where the
/// cosine is zero.
pub open spec fn tan_spec(x: Fixed) -> Fixed {
    if cos_spec(x).raw == 0 {
        Fixed { raw: i64::MAX }
    } else {
        sin_spec(x).over(cos_spec(x))
    }
}

/// An angle in radians, from degrees.
pub fn degrees_to_radians(degrees: Fixed) -> (r: Fixed)
    ensures
        r == degrees_to_radians_spec(degrees),
{
    let half_turn = Fixed::from_int(180);
    assert(half_turn.raw != 0);
    degrees * Fixed { raw: PI_RAW } / half_turn
}

/// The series that starts with `first`, which holds the power `start` of the
/// argument whose square is `x2`.
fn sum_series(first: Fixed, x2: Fixed, start: u32) -> (r: Fixed)
    requires
        start <= 1,
    ensures
        r == series(first, first, x2, start as int, SERIES_TERMS as nat),
{
    let mut acc = first;
    let mut term = first;
    let mut n: u32 = start;
    let mut k: u32 = 0;
    while k < SERIES_TERMS
        invariant
            k <= SERIES_TERMS,
            start <= 1,
            n == start + 2 * k,
            series(acc, term, x2, n as int, (SERIES_TERMS - k) as nat) == series(
                first,
                first,
                x2,
                start as int,
                SERIES_TERMS as nat,
            ),
        decreases SERIES_TERMS - k,
    {
        assert((n + 1) * (n + 2) <= 26 * 27 && (n + 1) * (n + 2) >= 2) by (nonlinear_arith)
            requires
                0 <= n <= 24,
        ;
        let m: u32 = (n + 1) * (n + 2);
        let divisor = Fixed::from_int(m as i64);
        assert(divisor.raw != 0) by {
            assert(m * ONE_RAW >= ONE_RAW && m * ONE_RAW <= 702 * ONE_RAW) by (nonlinear_arith)
                requires
                    2 <= m <= 702,
            ;
        }
        term = (term * x2 / divisor).neg();
        acc = acc + term;
        n += 2;
        k += 1;
    }
    acc
}

/// The sine of `x`, an angle in radians: the value of its series.
pub fn sin(x: Fixed) -> (r: Fixed)
    ensures
        r == sin_spec(x),
{
    sum_series(x, x * x, 1)
}

/// The cosine of `x`, an angle in radians: the value of its series.
pub fn cos(x: Fixed) -> (r: Fixed)
    ensures
        r == cos_spec(x),
{
    sum_series(Fixed::one(), x * x, 0)
}

/// The tangent of `x`, an angle in radians: the series of the sine over
/// that of the cosine.
pub fn tan(x: Fixed) -> (r: Fixed)
    ensures
        r == tan_spec(x),
{
    match sin(x).checked_div(cos(x)) {
        Some(t) => t,
        None => Fixed::max_value(),
    }
}

} // verus!
