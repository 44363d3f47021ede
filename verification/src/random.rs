//! The one source of randomness: uniform draws from the thread's generator.

use crate::fixed::Fixed;
use rand::Rng;
use vstd::prelude::*;

verus! {

/// A draw from the half-open interval `[min, max)`.
///
/// Calls `rand::Rng::gen_range` on the generator that `rand::thread_rng`
/// hands out, with the raw values as a half-open range of integers.
/// `gen_range` panics on an empty range, which `requires` leaves out, and
/// returns a value of the range: no less than its start and less than its
/// end. That is all the contract claims, and it is not proved here. Nothing
/// is said of which value comes: two draws from one interval may differ.
/// (The generator panics where the system cannot seed it, at first or when
/// it seeds itself anew; no argument decides that.)
#[verifier::external_body]
pub(crate) fn uniform(min: Fixed, max: Fixed) -> (r: Fixed)
    requires
        min.raw < max.raw,
    ensures
        min.raw <= r.raw < max.raw,
{
    Fixed { raw: rand::thread_rng().gen_range(min.raw..max.raw) }
}

} // verus!
