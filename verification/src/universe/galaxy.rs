//! Galaxy structure: how many biomes a galaxy holds.
use vstd::prelude::*;
use crate::random::{below_value, chacha8_below, chacha8_from_seed};
use crate::seed::hierarchy::rng_seed_bytes;
use crate::seed::hierarchy::GalaxySeed;

verus! {

/// Fewest and most biomes a galaxy can hold.
pub const MIN_BIOMES: usize = 3;
pub const MAX_BIOMES: usize = 6;

/// Number of biomes in the galaxy with this seed: the first draw of the
/// galaxy's own generator, uniform in `3..=6`.
pub fn galaxy_biome_count(seed: GalaxySeed) -> (n: usize)
    ensures
        MIN_BIOMES <= n <= MAX_BIOMES,
        n == MIN_BIOMES + below_value(chacha8_from_seed(rng_seed_bytes(seed.0)), 4),
{
    let mut rng = seed.rng();
    MIN_BIOMES + chacha8_below(&mut rng, MAX_BIOMES - MIN_BIOMES + 1)
}

} // verus!
