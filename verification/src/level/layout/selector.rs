//! Which family of layouts a level draws from, by how chaotic its biome is.
use vstd::prelude::*;
use crate::random::{roll_value, unit_roll, UNIT_ROLL_STEPS};
use rand_chacha::ChaCha8Rng;

verus! {

/// The three families of layouts.
#[derive(Debug, Clone, Copy, PartialEq, Eq, Structural)]
pub enum PatternCategory {
    Geometric,
    Hybrid,
    Organic,
}

/// A biome's chaos in the three bands the choice of layout family goes by:
/// below 0.33, below 0.66, and the rest.
#[derive(Debug, Clone, Copy, PartialEq, Eq, Structural)]
pub enum ChaosBand {
    Calm,
    Lively,
    Wild,
}

/// Roll thresholds, in 2^-24 steps: 0.7, 0.4, 0.8, 0.2 and 0.5.
pub const CALM_GEOMETRIC_ROLL: u32 = 11744051;
pub const LIVELY_GEOMETRIC_ROLL: u32 = 6710887;
pub const LIVELY_HYBRID_ROLL: u32 = 13421773;
pub const WILD_GEOMETRIC_ROLL: u32 = 3355444;
pub const WILD_HYBRID_ROLL: u32 = 8388608;

/// The family for a unit roll in a chaos band: calm biomes go geometric
/// (70%) or hybrid, lively ones geometric (40%), hybrid (40%) or organic,
/// wild ones geometric (20%), hybrid (30%) or organic.
pub open spec fn category_for(band: ChaosBand, roll: u32) -> PatternCategory {
    match band {
        ChaosBand::Calm => if roll < CALM_GEOMETRIC_ROLL {
            PatternCategory::Geometric
        } else {
            PatternCategory::Hybrid
        },
        ChaosBand::Lively => if roll < LIVELY_GEOMETRIC_ROLL {
            PatternCategory::Geometric
        } else if roll < LIVELY_HYBRID_ROLL {
            PatternCategory::Hybrid
        } else {
            PatternCategory::Organic
        },
        ChaosBand::Wild => if roll < WILD_GEOMETRIC_ROLL {
            PatternCategory::Geometric
        } else if roll < WILD_HYBRID_ROLL {
            PatternCategory::Hybrid
        } else {
            PatternCategory::Organic
        },
    }
}

/// The family that the unit roll `roll` (in 2^-24 steps) picks in `band`.
pub fn category_for_roll(band: ChaosBand, roll: u32) -> (c: PatternCategory)
    ensures
        c == category_for(band, roll),
{
    match band {
        ChaosBand::Calm => if roll < CALM_GEOMETRIC_ROLL {
            PatternCategory::Geometric
        } else {
            PatternCategory::Hybrid
        },
        ChaosBand::Lively => if roll < LIVELY_GEOMETRIC_ROLL {
            PatternCategory::Geometric
        } else if roll < LIVELY_HYBRID_ROLL {
            PatternCategory::Hybrid
        } else {
            PatternCategory::Organic
        },
        ChaosBand::Wild => if roll < WILD_GEOMETRIC_ROLL {
            PatternCategory::Geometric
        } else if roll < WILD_HYBRID_ROLL {
            PatternCategory::Hybrid
        } else {
            PatternCategory::Organic
        },
    }
}

/// Picks the layout family for a biome in `band` with one unit roll.
pub fn select_category(band: ChaosBand, rng: &mut ChaCha8Rng) -> (c: PatternCategory)
    ensures
        c == category_for(band, roll_value(*old(rng))),
        exists|roll: u32| roll < UNIT_ROLL_STEPS && c == #[trigger] category_for(band, roll),
        band == ChaosBand::Calm ==> c != PatternCategory::Organic,
{
    let roll = unit_roll(rng);
    category_for_roll(band, roll)
}

} // verus!
