//! The random source that rule tables are drawn from.

use rand::rngs::SmallRng;
use rand::Rng;
use vstd::prelude::*;

verus! {

/// `rand::rngs::SmallRng`, carried through the library as an opaque value.
#[verifier::external_type_specification]
#[verifier::external_body]
pub struct ExSmallRng(SmallRng);

/// Draws a `u8` below `bound` with `rand::Rng::gen_range` on `0..bound`.
///
/// Trusted: `gen_range` panics on an empty range, which `requires` leaves
/// out, and otherwise returns a value of the range. Which one depends on the
/// generator's state, so nothing more is claimed.
#[verifier::external_body]
pub(crate) fn draw_below(rng: &mut SmallRng, bound: u8) -> (value: u8)
    requires
        bound > 0,
    ensures
        value < bound,
{
    rng.gen_range(0..bound)
}

/// Draws a `usize` below `bound` with `rand::Rng::gen_range` on `0..bound`.
///
/// Trusted in the same way as [`draw_below`]; the generator is advanced
/// differently for the two integer widths, so each has its own call.
#[verifier::external_body]
pub(crate) fn draw_index(rng: &mut SmallRng, bound: usize) -> (index: usize)
    requires
        bound > 0,
    ensures
        index < bound,
{
    rng.gen_range(0..bound)
}

} // verus!
