//! Colors and their way to eight-bit channels.

use crate::fixed::{Fixed, ONE_RAW};
use crate::vec3::Vec3;
use vstd::prelude::*;

verus! {

/// A color: red, green and blue in `x`, `y` and `z`, each from 0 to 1.
pub type Color = Vec3;

/// The largest channel value that is written out: 0.999.
pub open spec fn channel_limit() -> Fixed {
    Fixed::ratio_spec(999, 1000)
}

/// What `gamma` returns: the square root of the mean.
pub open spec fn gamma_spec(sum: Fixed, samples_per_pixel: u32) -> Fixed {
    sum.over(Fixed::int_spec(samples_per_pixel as int)).sqrt_spec()
}

/// One channel of what `scale_color_by_samples` returns.
pub open spec fn scale_channel_spec(sum: Fixed, samples_per_pixel: u32) -> Fixed {
    gamma_spec(sum, samples_per_pixel).clamp_spec(Fixed::int_spec(0), channel_limit())
}

/// What `scale_color_by_samples` returns.
pub open spec fn scale_color_by_samples_spec(color: Color, samples_per_pixel: u32) -> Color {
    Vec3 {
        x: scale_channel_spec(color.x, samples_per_pixel),
        y: scale_channel_spec(color.y, samples_per_pixel),
        z: scale_channel_spec(color.z, samples_per_pixel),
    }
}

/// What `channel_byte` returns: the whole part of `255.999 * c`, kept
/// within 0 and 255.
pub open spec fn channel_byte_spec(c: Fixed) -> u8 {
    let scaled = Fixed::ratio_spec(255999, 1000).times(c);
    if scaled.raw < 0 {
        0
    } else if scaled.raw / ONE_RAW > 255 {
        255
    } else {
        (scaled.raw / ONE_RAW) as u8
    }
}

/// The byte `48 + d`: the digit `d` in ASCII.
pub open spec fn digit_spec(d: int) -> u8 {
    (48 + d) as u8
}

/// The decimal digits of `n` in ASCII, the most significant first.
pub open spec fn decimal_spec(n: nat) -> Seq<u8>
    decreases n,
{
    if n < 10 {
        seq![digit_spec(n as int)]
    } else {
        decimal_spec(n / 10).push(digit_spec((n % 10) as int))
    }
}

/// What `write_color` appends: the three channels as decimal numbers with a
/// space between them, and a line feed.
pub open spec fn pixel_line_spec(color: Color) -> Seq<u8> {
    decimal_spec(channel_byte_spec(color.x) as nat) + seq![32u8] + decimal_spec(
        channel_byte_spec(color.y) as nat,
    ) + seq![32u8] + decimal_spec(channel_byte_spec(color.z) as nat) + seq![10u8]
}

/// The mean of a channel over the samples, gamma-corrected for gamma 2: the
/// square root of `sum / samples_per_pixel`. There is at least one sample.
pub fn gamma(sum: Fixed, samples_per_pixel: u32) -> (r: Fixed)
    requires
        samples_per_pixel > 0,
    ensures
        r == gamma_spec(sum, samples_per_pixel),
{
    let count = Fixed::from_int(samples_per_pixel as i64);
    assert(count.raw != 0) by {
        assert(samples_per_pixel * ONE_RAW >= ONE_RAW) by (nonlinear_arith)
            requires
                samples_per_pixel >= 1,
        ;
    }
    (sum / count).sqrt()
}

/// The color of a pixel from the sum of its samples: each channel divided by
/// the number of samples, its square root taken, and the result kept within
/// 0 and 0.999. There is at least one sample.
pub fn scale_color_by_samples(color: &Color, samples_per_pixel: u32) -> (r: Color)
    requires
        samples_per_pixel > 0,
    ensures
        r == scale_color_by_samples_spec(*color, samples_per_pixel),
        0 <= r.x.raw <= channel_limit().raw,
        0 <= r.y.raw <= channel_limit().raw,
        0 <= r.z.raw <= channel_limit().raw,
{
    let low = Fixed::zero();
    let high = Fixed::from_ratio(999, 1000);
    let r = gamma(color.x, samples_per_pixel).clamp(low, high);
    let g = gamma(color.y, samples_per_pixel).clamp(low, high);
    let b = gamma(color.z, samples_per_pixel).clamp(low, high);
    Vec3::new(r, g, b)
}

/// The eight-bit value of a channel.
pub fn channel_byte(c: Fixed) -> (r: u8)
    ensures
        r == channel_byte_spec(c),
{
    let scaled = Fixed::from_ratio(255999, 1000) * c;
    if scaled.raw < 0 {
        0
    } else {
        let whole: i64 = scaled.raw / ONE_RAW;
        if whole > 255 {
            255
        } else {
            whole as u8
        }
    }
}

/// Appends the decimal digits of `n` to `out`.
pub fn write_decimal(out: &mut Vec<u8>, n: u32)
    ensures
        final(out)@ == old(out)@ + decimal_spec(n as nat),
    decreases n,
{
    if n >= 10 {
        write_decimal(out, n / 10);
    }
    out.push(48 + (n % 10) as u8);
    assert(final(out)@ =~= old(out)@ + decimal_spec(n as nat));
}

/// Appends the line of a pixel to `out`: `R G B` and a line feed.
pub fn write_color(out: &mut Vec<u8>, color: &Color)
    ensures
        final(out)@ == old(out)@ + pixel_line_spec(*color),
{
    write_decimal(out, channel_byte(color.x) as u32);
    out.push(32);
    write_decimal(out, channel_byte(color.y) as u32);
    out.push(32);
    write_decimal(out, channel_byte(color.z) as u32);
    out.push(10);
    assert(final(out)@ =~= old(out)@ + pixel_line_spec(*color));
}

} // verus!
