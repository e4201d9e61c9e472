//! Fixed-point constants of the value function.
//!
//! A cost of one step is `PROB_BASE`; probabilities are integer counts out of
//! `PROB_BASE`, so an expected cost is a sum of products shifted right by
//! `PROB_BASE_BIT`.
use vstd::prelude::*;

verus! {

/// Bits of the sub-cell sampling along x and along y.
pub const RESOLUTION_XY_BIT: u32 = 6;

/// Bits of the sub-bin sampling of the heading.
pub const RESOLUTION_T_BIT: u32 = 6;

/// Bits of the probability base: `2 * RESOLUTION_XY_BIT + RESOLUTION_T_BIT`.
pub const PROB_BASE_BIT: u32 = 18;

/// Probability base: `1 << PROB_BASE_BIT`.
pub const PROB_BASE: u64 = 262_144;

/// Cost of a state that no policy brings to the goal: `1_000_000_000 * PROB_BASE`.
pub const MAX_COST: u64 = 262_144_000_000_000;

/// Costs from here on (a million steps) count as "not reached".
pub const REACH_THRESH: u64 = 262_144_000_000;

/// The constants are tied to each other as their names say.
pub proof fn law_constants()
    ensures
        PROB_BASE_BIT == 2 * RESOLUTION_XY_BIT + RESOLUTION_T_BIT,
        PROB_BASE == 1u64 << PROB_BASE_BIT,
        MAX_COST == 1_000_000_000 * PROB_BASE,
        REACH_THRESH == 1_000_000 * PROB_BASE,
{
    assert(262_144u64 == 1u64 << 18u32) by (bit_vector);
}

} // verus!
