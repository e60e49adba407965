//! The random stream: a seeded generator of the `rand` crate and the draws the
//! model makes from it.

use crate::units::SCALE;
use rand::rngs::StdRng;
use rand::Rng;
use rand::SeedableRng;
use vstd::prelude::*;

verus! {

/// The generator `rand::rngs::StdRng`. Nothing is known here of what it holds.
#[verifier::external_type_specification]
#[verifier::external_body]
pub struct ExStdRng(StdRng);

/// Calls `SeedableRng::seed_from_u64` of `rand`, which builds a generator from
/// the seed. Nothing is claimed of the generator.
#[verifier::external_body]
pub(crate) fn seeded(seed: u64) -> (rng: StdRng) {
    StdRng::seed_from_u64(seed)
}

/// Calls `Rng::gen_range` of `rand` on the range `0..bound`. The range must
/// not be empty, or the call panics; the value drawn lies in the range.
#[verifier::external_body]
pub(crate) fn draw_below(rng: &mut StdRng, bound: u128) -> (r: u128)
    requires
        bound > 0,
    ensures
        r < bound,
{
    rng.gen_range(0..bound)
}

/// A fixed-point number drawn from `[0, 1)`.
pub fn chance(rng: &mut StdRng) -> (c: u64)
    ensures
        c < SCALE,
{
    let drawn: u128 = draw_below(rng, SCALE as u128);
    drawn as u64
}

/// The toss of a fair coin.
pub fn coin(rng: &mut StdRng) -> bool {
    let drawn: u128 = draw_below(rng, 2);
    drawn == 0
}

} // verus!
