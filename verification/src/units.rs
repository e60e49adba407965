//! Fixed-point units and the constants of the model.

use vstd::prelude::*;

verus! {

/// The fixed-point representation of 1.0: quantities are counted in millionths.
pub const SCALE: u64 = 1_000_000;

/// What a household consumes each tick (0.5).
pub const CONSUMPTION: u64 = 500_000;

/// The numerator of the rank threshold 0.6, kept as the fraction 3/5.
pub const RANK_NUM: u64 = 3;

/// The denominator of the rank threshold.
pub const RANK_DEN: u64 = 5;

/// The numerator of the birth rate 0.015, kept as the fraction 15/1000.
pub const BIRTH_NUM: u64 = 15;

/// The denominator of the birth rate.
pub const BIRTH_DEN: u64 = 1000;

/// The denominator of the death rate 0.01, kept as the fraction 1/100.
pub const DEATH_DEN: u64 = 100;

/// The probability 0.33 that an inherited trait mutates.
pub const MUTATION_FREQ: u64 = 330_000;

/// The largest upward step 0.25 of a mutation (exclusive).
pub const MUTATION_AMPL: u64 = 250_000;

/// The attachment 0.5 that the initial genes carry.
pub const INITIAL_ATTACHMENT: u64 = 500_000;

/// How far the bounds of the yield rise from the bottom of the season to its top (0.6).
pub const YIELD_SPAN: u64 = 600_000;

/// The distance between the lower and the upper bound of the yield (0.4).
pub const YIELD_WIDTH: u64 = 400_000;

/// An upper bound on what one tick can add to the status of a household (2.0).
pub const GROWTH: u64 = 2_000_000;

/// The product of two fixed-point numbers, rounded down.
pub open spec fn scaled(value: nat, factor: nat) -> nat {
    (value * factor) / (SCALE as nat)
}

/// The product of two machine words, which fits the double word.
pub fn product(a: u64, b: u64) -> (p: u128)
    ensures
        p == a * b,
{
    assert(0 <= a * b <= 0xffff_ffff_ffff_ffff * 0xffff_ffff_ffff_ffff) by (nonlinear_arith)
        requires
            0 <= a <= 0xffff_ffff_ffff_ffff,
            0 <= b <= 0xffff_ffff_ffff_ffff,
    ;
    (a as u128) * (b as u128)
}

/// Multiplies two fixed-point numbers, rounding down.
pub fn scale(value: u64, factor: u64) -> (r: u64)
    requires
        factor <= SCALE,
    ensures
        r == scaled(value as nat, factor as nat),
        r <= value,
{
    let wide: u128 = product(value, factor);
    let q: u128 = wide / (SCALE as u128);
    assert(q <= value) by (nonlinear_arith)
        requires
            q == (value as int * factor as int) / 1_000_000,
            0 <= factor <= 1_000_000,
            0 <= value,
    ;
    q as u64
}

} // verus!
