//! The random draws that the generator takes from the `rand` crate.

use vstd::prelude::*;
use rand::Rng;
use rand::rngs::StdRng;

verus! {

/// `rand::rngs::StdRng`, the random number generator that the dungeon
/// generator draws from. Nothing is known of its state.
#[verifier::external_type_specification]
#[verifier::external_body]
pub struct ExStdRng(StdRng);

/// Calls `Rng::gen_ratio`, which returns `true` with a probability of
/// `numerator` in `denominator` and panics where that is no probability.
/// The contract keeps the two outcomes that the documentation fixes: a
/// ratio of one always gives `true`, a ratio of zero always `false`.
#[verifier::external_body]
pub(crate) fn draw_ratio(rng: &mut StdRng, numerator: u32, denominator: u32) -> (r: bool)
    requires
        denominator > 0,
        numerator <= denominator,
    ensures
        numerator == denominator ==> r,
        numerator == 0 ==> !r,
{
    rng.gen_ratio(numerator, denominator)
}

/// Calls `Rng::gen` for a `usize`. Any value may come back.
#[verifier::external_body]
pub(crate) fn draw_usize(rng: &mut StdRng) -> usize {
    rng.gen::<usize>()
}

} // verus!
