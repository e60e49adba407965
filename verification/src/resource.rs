//! The yield of a patch: a seasonal envelope and a bounded random draw.

use crate::random::draw_below;
use crate::units::{scale, scaled, SCALE, YIELD_SPAN, YIELD_WIDTH};
use rand::rngs::StdRng;
use vstd::prelude::*;

verus! {

/// The point between `low` and `high` at the share `level` of the way.
pub open spec fn lerp(low: nat, high: nat, level: nat) -> nat {
    low + scaled((high - low) as nat, level)
}

/// The bounds of the yield lie in `[0, 1]`, the lower below the upper.
pub proof fn lemma_yield_bounds(level: u64)
    requires
        level <= SCALE,
    ensures
        ResourceGenerator::lower(level) + YIELD_WIDTH == ResourceGenerator::upper(level),
        ResourceGenerator::upper(level) <= SCALE,
{
    assert(scaled(YIELD_SPAN as nat, level as nat) <= YIELD_SPAN) by (nonlinear_arith)
        requires
            level <= 1_000_000,
            SCALE == 1_000_000,
            scaled(YIELD_SPAN as nat, level as nat) == (YIELD_SPAN as nat * level as nat) / (
            SCALE as nat),
    ;
}

/// The source of the yields of the patches.
pub struct ResourceGenerator;

impl ResourceGenerator {
    /// The lower bound of the yield at a seasonal level: the point between 0
    /// and 0.6.
    pub open spec fn lower(level: u64) -> nat {
        lerp(0, YIELD_SPAN as nat, level as nat)
    }

    /// The upper bound of the yield at a seasonal level: the point between
    /// 0.4 and 1.
    pub open spec fn upper(level: u64) -> nat {
        lerp(YIELD_WIDTH as nat, SCALE as nat, level as nat)
    }

    /// Draws the yield of one patch for one tick at the seasonal level
    /// `level`, a fixed-point number in `[0, 1]`.
    pub fn generate(level: u64, rng: &mut StdRng) -> (amount: u64)
        requires
            level <= SCALE,
        ensures
            Self::lower(level) <= amount < Self::upper(level),
            Self::upper(level) <= SCALE,
    {
        let low: u64 = scale(YIELD_SPAN, level);
        proof {
            lemma_yield_bounds(level);
        }
        let drawn: u128 = draw_below(rng, YIELD_WIDTH as u128);
        low + drawn as u64
    }
}

} // verus!
