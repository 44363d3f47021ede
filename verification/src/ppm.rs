//! The plain-text pixel format in which an image is written.

use crate::color::{decimal_spec, write_decimal};
use vstd::prelude::*;

verus! {

/// What `write_header` appends: the three lines `P3`, `<width> <height>`
/// and `255`.
pub open spec fn header_spec(width: u32, height: u32) -> Seq<u8> {
    seq![80u8, 51u8, 10u8] + decimal_spec(width as nat) + seq![32u8] + decimal_spec(height as nat)
        + seq![10u8, 50u8, 53u8, 53u8, 10u8]
}

/// Appends the header of an image of the given size to `out`.
pub fn write_header(out: &mut Vec<u8>, width: u32, height: u32)
    ensures
        final(out)@ == old(out)@ + header_spec(width, height),
{
    out.push(80);
    out.push(51);
    out.push(10);
    write_decimal(out, width);
    out.push(32);
    write_decimal(out, height);
    out.push(10);
    out.push(50);
    out.push(53);
    out.push(53);
    out.push(10);
    assert(final(out)@ =~= old(out)@ + header_spec(width, height));
}

} // verus!
