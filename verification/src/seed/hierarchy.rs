//! The seed hierarchy: master -> galaxy -> biome -> level -> per-layer seeds.
//! Every step is a pure derivation, so the same address always yields the
//! same seed, independent of how many siblings exist.
use vstd::prelude::*;
use crate::seed::hasher::derive_spec;
use crate::seed::sharing::{code_chars, decode, decoded, encode};
use rand_chacha::ChaCha8Rng;
use crate::random::{chacha8_from_seed, chacha8_rng_from_seed};
use vstd::bytes::spec_u64_to_le_bytes;
use vstd::string::StringSliceAdditionalSpecFns;

verus! {

/// The 32-byte generator seed for a 64-bit seed: its little-endian bytes,
/// then zeros.
pub open spec fn rng_seed_bytes(seed: u64) -> Seq<u8> {
    spec_u64_to_le_bytes(seed) + Seq::new(24, |i: int| 0u8)
}

fn seed_bytes(seed: u64) -> (bytes: [u8; 32])
    ensures
        bytes@ == rng_seed_bytes(seed),
{
    proof {
        vstd::bytes::lemma_auto_spec_u64_to_from_le_bytes();
    }
    let le = vstd::bytes::u64_to_le_bytes(seed);
    let mut bytes = [0u8; 32];
    let mut i: usize = 0;
    while i < 8
        invariant
            le@ == spec_u64_to_le_bytes(seed),
            le@.len() == 8,
            0 <= i <= 8,
            bytes@.len() == 32,
            forall|j: int| 0 <= j < i ==> bytes@[j] == le@[j],
            forall|j: int| i <= j < 32 ==> bytes@[j] == 0u8,
        decreases 8 - i,
    {
        bytes[i] = le[i];
        i = i + 1;
    }
    assert(bytes@ =~= rng_seed_bytes(seed));
    bytes
}

fn rng_from_u64(seed: u64) -> (rng: ChaCha8Rng)
    ensures
        rng == chacha8_from_seed(rng_seed_bytes(seed)),
{
    let bytes = seed_bytes(seed);
    chacha8_rng_from_seed(bytes)
}

/// Root of the whole universe.
#[derive(Debug, Clone, Copy, PartialEq, Eq, Hash, Structural)]
pub struct MasterSeed(pub u64);

/// Seed of one galaxy.
#[derive(Debug, Clone, Copy, PartialEq, Eq, Hash, Structural)]
pub struct GalaxySeed(pub u64);

/// Seed of one biome within a galaxy.
#[derive(Debug, Clone, Copy, PartialEq, Eq, Hash, Structural)]
pub struct BiomeSeed(pub u64);

/// Seed of one level within a biome.
#[derive(Debug, Clone, Copy, PartialEq, Eq, Hash, Structural)]
pub struct LevelSeed(pub u64);

/// Index of each generation layer's seed under a level seed.
pub open spec fn structure_index() -> u64 { 0 }
pub open spec fn bricks_index() -> u64 { 1 }
pub open spec fn health_index() -> u64 { 2 }
pub open spec fn specials_index() -> u64 { 3 }
pub open spec fn powerups_index() -> u64 { 4 }
pub open spec fn validation_index() -> u64 { 5 }

impl MasterSeed {
    pub fn new(seed: u64) -> (m: Self)
        ensures
            m.0 == seed,
    {
        MasterSeed(seed)
    }

    pub fn galaxy(&self, index: u64) -> (g: GalaxySeed)
        ensures
            g.0 == derive_spec(self.0, index),
    {
        GalaxySeed(crate::seed::hasher::derive(self.0, index))
    }

    /// The share code of this seed (its base-62 numeral).
    pub fn to_share_code(&self) -> (code: String)
        ensures
            code@ == code_chars(self.0 as nat),
    {
        encode(self.0)
    }

    /// Parses a share code; `None` when `code` is not a numeral that fits.
    pub fn from_share_code(code: &str) -> (m: Option<Self>)
        ensures
            m == (match decoded(code.spec_bytes()) {
                Some(v) => Some(MasterSeed(v)),
                None => None::<MasterSeed>,
            }),
    {
        match decode(code) {
            Some(v) => Some(MasterSeed(v)),
            None => None,
        }
    }
}

impl GalaxySeed {
    pub fn biome(&self, index: u64) -> (b: BiomeSeed)
        ensures
            b.0 == derive_spec(self.0, index),
    {
        BiomeSeed(crate::seed::hasher::derive(self.0, index))
    }

    /// A ChaCha8 generator seeded with this seed's bytes.
    pub fn rng(&self) -> (rng: ChaCha8Rng)
        ensures
            rng == chacha8_from_seed(rng_seed_bytes(self.0)),
    {
        rng_from_u64(self.0)
    }
}

impl BiomeSeed {
    pub fn level(&self, index: u64) -> (l: LevelSeed)
        ensures
            l.0 == derive_spec(self.0, index),
    {
        LevelSeed(crate::seed::hasher::derive(self.0, index))
    }

    /// A ChaCha8 generator seeded with this seed's bytes.
    pub fn rng(&self) -> (rng: ChaCha8Rng)
        ensures
            rng == chacha8_from_seed(rng_seed_bytes(self.0)),
    {
        rng_from_u64(self.0)
    }
}

impl LevelSeed {
    pub fn structure(&self) -> (s: u64)
        ensures
            s == derive_spec(self.0, structure_index()),
    {
        crate::seed::hasher::derive(self.0, 0)
    }

    pub fn bricks(&self) -> (s: u64)
        ensures
            s == derive_spec(self.0, bricks_index()),
    {
        crate::seed::hasher::derive(self.0, 1)
    }

    pub fn health(&self) -> (s: u64)
        ensures
            s == derive_spec(self.0, health_index()),
    {
        crate::seed::hasher::derive(self.0, 2)
    }

    pub fn specials(&self) -> (s: u64)
        ensures
            s == derive_spec(self.0, specials_index()),
    {
        crate::seed::hasher::derive(self.0, 3)
    }

    pub fn powerups(&self) -> (s: u64)
        ensures
            s == derive_spec(self.0, powerups_index()),
    {
        crate::seed::hasher::derive(self.0, 4)
    }

    pub fn validation(&self) -> (s: u64)
        ensures
            s == derive_spec(self.0, validation_index()),
    {
        crate::seed::hasher::derive(self.0, 5)
    }

    /// A ChaCha8 generator seeded with this seed's bytes.
    pub fn rng(&self) -> (rng: ChaCha8Rng)
        ensures
            rng == chacha8_from_seed(rng_seed_bytes(self.0)),
    {
        rng_from_u64(self.0)
    }
}

/// The seed of level `level` in biome `biome` of galaxy `galaxy` under `master`.
pub open spec fn level_seed_at(master: u64, galaxy: u64, biome: u64, level: u64) -> u64 {
    derive_spec(derive_spec(derive_spec(master, galaxy), biome), level)
}

/// The layers' child indices, in layer order.
pub open spec fn layer_indices() -> Seq<u64> {
    seq![structure_index(), bricks_index(), health_index(), specials_index(), powerups_index(), validation_index()]
}

/// The per-layer seeds of a level, in layer order: structure, bricks,
/// health, specials, power-ups, validation.
pub open spec fn layer_seeds(seed: LevelSeed) -> Seq<u64> {
    seq![
        derive_spec(seed.0, structure_index()),
        derive_spec(seed.0, bricks_index()),
        derive_spec(seed.0, health_index()),
        derive_spec(seed.0, specials_index()),
        derive_spec(seed.0, powerups_index()),
        derive_spec(seed.0, validation_index()),
    ]
}

/// The per-layer seeds of any level are its children at the fixed indices
/// 0 to 5 in layer order (structure 0, bricks 1, health 2, specials 3,
/// power-ups 4, validation 5), and no two layers use the same index, so no
/// two layers share a derivation.
pub proof fn lemma_layer_seeds_are_distinct_children(seed: LevelSeed)
    ensures
        layer_seeds(seed) == Seq::new(6, |k: int| derive_spec(seed.0, k as u64)),
        layer_indices().no_duplicates(),
{
    assert(layer_seeds(seed) =~= Seq::new(6, |k: int| derive_spec(seed.0, k as u64)));
}

/// A share code names its master seed exactly: parsing the code of `m`
/// gives `m` back.
pub proof fn lemma_share_code_roundtrip(m: MasterSeed)
    ensures
        (match decoded(vstd::utf8::encode_utf8(code_chars(m.0 as nat))) {
            Some(v) => Some(MasterSeed(v)),
            None => None::<MasterSeed>,
        }) == Some(m),
{
    crate::seed::sharing::lemma_share_code_roundtrip(m.0);
}

} // verus!
