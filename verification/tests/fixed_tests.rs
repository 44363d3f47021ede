use raytracer::fixed::{isqrt, Fixed, ONE_RAW};
use raytracer::trig::{cos, degrees_to_radians, sin, tan};

fn fx(x: f64) -> Fixed {
    Fixed { raw: (x * 4294967296.0).round() as i64 }
}

fn val(f: Fixed) -> f64 {
    f.raw as f64 / 4294967296.0
}

#[test]
fn one_times_one_is_one() {
    let one = Fixed::one();
    assert_eq!((one * one).raw, 1i64 << 32);
}

#[test]
fn sum_and_difference_are_exact() {
    assert_eq!((fx(1.5) + fx(2.25)).raw, fx(3.75).raw);
    assert_eq!((fx(1.5) - fx(2.25)).raw, fx(-0.75).raw);
    assert_eq!((-fx(1.5)).raw, fx(-1.5).raw);
}

#[test]
fn sum_saturates_at_both_ends() {
    let max = Fixed::max_value();
    let min = Fixed { raw: i64::MIN };
    assert_eq!((max + Fixed::one()).raw, i64::MAX);
    assert_eq!((min - Fixed::one()).raw, i64::MIN);
    assert_eq!((-min).raw, i64::MAX);
}

#[test]
fn product_rounds_toward_zero() {
    // one raw unit times one half is half a raw unit: it rounds to zero
    let tiny = Fixed { raw: 1 };
    let half = Fixed::from_ratio(1, 2);
    assert_eq!((tiny * half).raw, 0);
    assert_eq!(((-tiny) * half).raw, 0);
    let three = Fixed { raw: 3 };
    assert_eq!((three * half).raw, 1);
    assert_eq!(((-three) * half).raw, -1);
}

#[test]
fn product_saturates() {
    let big = Fixed::from_int(100_000);
    assert_eq!((big * big).raw, i64::MAX);
    assert_eq!((big * (-big)).raw, i64::MIN);
    let min = Fixed { raw: i64::MIN };
    assert_eq!((min * min).raw, i64::MAX);
}

#[test]
fn quotient_rounds_toward_zero() {
    assert_eq!((Fixed::from_int(1) / Fixed::from_int(3)).raw, ONE_RAW / 3);
    assert_eq!((Fixed::from_int(-1) / Fixed::from_int(3)).raw, -(ONE_RAW / 3));
    assert_eq!((Fixed::from_int(1) / Fixed::from_int(-3)).raw, -(ONE_RAW / 3));
    assert_eq!((Fixed::from_int(-1) / Fixed::from_int(-3)).raw, ONE_RAW / 3);
    assert_eq!((Fixed::from_int(7) / Fixed::from_int(2)).raw, fx(3.5).raw);
}

#[test]
fn quotient_saturates() {
    let tiny = Fixed { raw: 1 };
    assert_eq!((Fixed::from_int(1_000_000) / tiny).raw, i64::MAX);
    assert_eq!((Fixed::from_int(-1_000_000) / tiny).raw, i64::MIN);
}

#[test]
fn checked_div_refuses_zero() {
    assert_eq!(Fixed::one().checked_div(Fixed::zero()), None);
    assert_eq!(Fixed::one().checked_div(Fixed::from_int(4)), Some(fx(0.25)));
}

#[test]
fn from_ratio_gives_the_rounded_fraction() {
    assert_eq!(Fixed::from_ratio(1, 2).raw, 1i64 << 31);
    assert_eq!(Fixed::from_ratio(999, 1000).raw, 4290672328);
    assert_eq!(Fixed::from_ratio(-999, 1000).raw, -4290672328);
    assert_eq!(Fixed::from_ratio(1, 1000).raw, 4294967);
}

#[test]
fn from_int_saturates() {
    assert_eq!(Fixed::from_int(3).raw, 3 * ONE_RAW);
    assert_eq!(Fixed::from_int(-3).raw, -3 * ONE_RAW);
    assert_eq!(Fixed::from_int(i64::MAX).raw, i64::MAX);
    assert_eq!(Fixed::from_int(i64::MIN).raw, i64::MIN);
}

#[test]
fn isqrt_rounds_down() {
    assert_eq!(isqrt(0), 0);
    assert_eq!(isqrt(1), 1);
    assert_eq!(isqrt(3), 1);
    assert_eq!(isqrt(4), 2);
    assert_eq!(isqrt(99), 9);
    assert_eq!(isqrt(100), 10);
    assert_eq!(isqrt(u128::MAX), u64::MAX);
    assert_eq!(isqrt((1u128 << 64) - 1), (1u64 << 32) - 1);
}

#[test]
fn sqrt_of_squares_is_exact() {
    assert_eq!(Fixed::from_int(4).sqrt().raw, Fixed::from_int(2).raw);
    assert_eq!(Fixed::one().sqrt().raw, ONE_RAW);
    assert_eq!(fx(0.25).sqrt().raw, fx(0.5).raw);
    assert_eq!(Fixed::zero().sqrt().raw, 0);
}

#[test]
fn sqrt_of_a_negative_number_is_zero() {
    assert_eq!(Fixed::from_int(-4).sqrt().raw, 0);
}

#[test]
fn sqrt_of_two_is_close() {
    let r = val(Fixed::from_int(2).sqrt());
    assert!((r - 2f64.sqrt()).abs() < 1e-9);
    assert!(r <= 2f64.sqrt());
}

#[test]
fn abs_min_and_clamp() {
    assert_eq!(fx(-1.5).abs().raw, fx(1.5).raw);
    assert_eq!(Fixed { raw: i64::MIN }.abs().raw, i64::MAX);
    assert_eq!(fx(2.0).min(fx(1.0)).raw, fx(1.0).raw);
    assert_eq!(fx(-2.0).min(fx(1.0)).raw, fx(-2.0).raw);
    assert_eq!(fx(2.0).clamp(fx(0.0), fx(1.0)).raw, fx(1.0).raw);
    assert_eq!(fx(-2.0).clamp(fx(0.0), fx(1.0)).raw, 0);
    assert_eq!(fx(0.5).clamp(fx(0.0), fx(1.0)).raw, fx(0.5).raw);
}

#[test]
fn degrees_become_radians() {
    let r = val(degrees_to_radians(Fixed::from_int(180)));
    assert!((r - std::f64::consts::PI).abs() < 1e-8);
    let q = val(degrees_to_radians(Fixed::from_int(90)));
    assert!((q - std::f64::consts::FRAC_PI_2).abs() < 1e-8);
}

#[test]
fn sine_and_cosine_follow_the_true_functions() {
    // 36 raw units, and one more for the rounding of the angle itself
    let bound = 37.0 / 4294967296.0;
    for k in -160..=160 {
        let angle = fx(k as f64 * 0.01);
        let x = val(angle);
        assert!((val(sin(angle)) - x.sin()).abs() <= bound, "sin {}", x);
        assert!((val(cos(angle)) - x.cos()).abs() <= bound, "cos {}", x);
    }
    assert_eq!(sin(Fixed::zero()).raw, 0);
    assert_eq!(cos(Fixed::zero()).raw, ONE_RAW);
}

#[test]
fn tangent_of_an_eighth_turn_is_one() {
    let x = degrees_to_radians(Fixed::from_int(45));
    assert!((val(tan(x)) - 1.0).abs() < 1e-7);
    assert_eq!(tan(Fixed::zero()).raw, 0);
    for k in 0..15 {
        let x = k as f64 * 0.1;
        assert!((val(tan(fx(x))) - x.tan()).abs() < 1e-5 * (1.0 + x.tan() * x.tan()), "tan {}", x);
    }
}
