//! The random source that placement, padding and password generation draw from.

use vstd::prelude::*;
use rand::distributions::Alphanumeric;
use rand::rngs::StdRng;
use rand::Rng;

verus! {

/// `rand::rngs::StdRng`, the generator of the `rand` crate. A caller seeds
/// it, for a run that can be repeated, or takes its seed from the operating
/// system. Nothing is known here of its state.
#[verifier::external_type_specification]
#[verifier::external_body]
pub struct ExStdRng(rand::rngs::StdRng);

/// Calls `Rng::gen_range` of the `rand` crate on the range `0..bound`, which
/// panics on an empty range. Trusted, not proved: the number drawn lies in
/// the range. Which number it is depends on the generator.
#[verifier::external_body]
pub(crate) fn draw_below(rng: &mut StdRng, bound: u32) -> (drawn: u32)
    requires
        bound > 0,
    ensures
        drawn < bound,
{
    rng.gen_range(0..bound)
}

/// Calls `Rng::gen` of the `rand` crate for one byte. Nothing is claimed of
/// the byte drawn.
#[verifier::external_body]
pub(crate) fn rand_byte(rng: &mut StdRng) -> (drawn: u8) {
    rng.gen::<u8>()
}

/// Whether `c` is an ASCII letter or digit.
pub open spec fn is_alphanumeric(c: u8) -> bool {
    ||| 0x30 <= c <= 0x39
    ||| 0x41 <= c <= 0x5a
    ||| 0x61 <= c <= 0x7a
}

/// Calls `Rng::sample` of the `rand` crate with its `Alphanumeric`
/// distribution. Trusted, not proved: the byte drawn is an ASCII letter or
/// digit.
#[verifier::external_body]
pub(crate) fn draw_alphanumeric(rng: &mut StdRng) -> (drawn: u8)
    ensures
        is_alphanumeric(drawn),
{
    rng.sample(Alphanumeric)
}

} // verus!
