//! Maps a running level number onto (galaxy, biome, level) coordinates.
use vstd::prelude::*;

verus! {

/// Levels in every biome; the last one is the boss.
pub const LEVELS_PER_BIOME: u64 = 12;

#[derive(Debug, Clone, Copy, PartialEq, Eq, Structural)]
pub struct LevelAddress {
    pub galaxy: u64,
    pub biome: u64,
    pub level: u64,
}

impl LevelAddress {
    pub fn new(galaxy: u64, biome: u64, level: u64) -> (a: Self)
        ensures
            a.galaxy == galaxy,
            a.biome == biome,
            a.level == level,
    {
        LevelAddress { galaxy, biome, level }
    }

    /// Whether this is the last level of its biome.
    pub fn is_boss(&self, levels_per_biome: u64) -> (b: bool)
        requires
            levels_per_biome >= 1,
        ensures
            b == (self.level == levels_per_biome - 1),
    {
        self.level == levels_per_biome - 1
    }
}

/// Levels in galaxy `g`: the galaxy list repeats cyclically.
pub open spec fn galaxy_levels(counts: Seq<usize>, g: nat) -> nat {
    counts[(g % counts.len()) as int] as nat * 12
}

/// Levels in all galaxies before galaxy `g`.
pub open spec fn levels_before(counts: Seq<usize>, g: nat) -> nat
    decreases g,
{
    if g == 0 {
        0
    } else {
        levels_before(counts, (g - 1) as nat) + galaxy_levels(counts, (g - 1) as nat)
    }
}

/// What `address_at` may be asked: a non-empty galaxy list with at least one
/// non-empty galaxy, level counts that fit in a `u64`, and a level that lies
/// in a galaxy whose number fits in a `u64`.
pub open spec fn address_input_ok(total: u64, counts: Seq<usize>) -> bool {
    &&& counts.len() > 0
    &&& exists|j: int| 0 <= j < counts.len() && counts[j] > 0
    &&& forall|j: int| 0 <= j < counts.len() ==> #[trigger] counts[j] * 12 <= u64::MAX
    &&& total < levels_before(counts, u64::MAX as nat + 1)
}

/// `a` is the address of running level `total`: its galaxy is the one whose
/// level range holds `total`, and biome and level split the offset inside it.
pub open spec fn is_address_of(a: LevelAddress, total: nat, counts: Seq<usize>) -> bool {
    let before = levels_before(counts, a.galaxy as nat);
    &&& before <= total < before + galaxy_levels(counts, a.galaxy as nat)
    &&& a.biome == (total - before) / 12
    &&& a.level == (total - before) % 12
}

proof fn lemma_levels_before_monotone(counts: Seq<usize>, a: nat, b: nat)
    requires
        a <= b,
    ensures
        levels_before(counts, a) <= levels_before(counts, b),
    decreases b,
{
    if a < b {
        lemma_levels_before_monotone(counts, a, (b - 1) as nat);
    }
}

proof fn lemma_levels_before_split(counts: Seq<usize>, a: nat, b: nat)
    requires
        a < b,
    ensures
        levels_before(counts, b) >= levels_before(counts, a) + galaxy_levels(counts, a),
{
    lemma_levels_before_monotone(counts, a + 1, b);
}

/// Every run of `counts.len()` consecutive galaxies holds at least one biome.
proof fn lemma_cycle_grows(counts: Seq<usize>, g: nat)
    requires
        counts.len() > 0,
        exists|j: int| 0 <= j < counts.len() && counts[j] > 0,
    ensures
        levels_before(counts, g + counts.len()) >= levels_before(counts, g) + 12,
{
    let n = counts.len();
    let j = choose|j: int| 0 <= j < n && counts[j] > 0;
    let q = (g / n) as int;
    let base = q * n;
    vstd::arithmetic::div_mod::lemma_fundamental_div_mod(g as int, n as int);
    assert(base <= g < base + n);
    let i: int = if base + j >= g { base + j } else { base + n + j };
    assert(g <= i < g + n);
    if base + j >= g {
        vstd::arithmetic::div_mod::lemma_fundamental_div_mod_converse(i, n as int, q, j);
    } else {
        assert((q + 1) * n == q * n + n) by (nonlinear_arith);
        vstd::arithmetic::div_mod::lemma_fundamental_div_mod_converse(i, n as int, q + 1, j);
    }
    assert(i % (n as int) == j);
    lemma_levels_before_monotone(counts, g, i as nat);
    lemma_levels_before_split(counts, i as nat, g + n);
}

proof fn lemma_cycles_grow(counts: Seq<usize>, k: nat)
    requires
        counts.len() > 0,
        exists|j: int| 0 <= j < counts.len() && counts[j] > 0,
    ensures
        levels_before(counts, k * counts.len()) >= 12 * k,
    decreases k,
{
    if k > 0 {
        lemma_cycles_grow(counts, (k - 1) as nat);
        lemma_cycle_grows(counts, ((k - 1) * counts.len()) as nat);
        assert((k - 1) * counts.len() + counts.len() == k * counts.len()) by (nonlinear_arith);
    }
}

/// An address always names a real level: its level number is below
/// `LEVELS_PER_BIOME`, its biome exists in its galaxy, and walking back from
/// the address gives the running level number it was computed from.
pub proof fn lemma_address_in_range(a: LevelAddress, total: nat, counts: Seq<usize>)
    requires
        counts.len() > 0,
        is_address_of(a, total, counts),
    ensures
        a.level < LEVELS_PER_BIOME,
        a.biome < counts[(a.galaxy as nat % counts.len()) as int],
        levels_before(counts, a.galaxy as nat) + a.biome * 12 + a.level == total,
{
    let before = levels_before(counts, a.galaxy as nat);
    let off = (total - before) as int;
    vstd::arithmetic::div_mod::lemma_fundamental_div_mod(off, 12);
    let c = counts[(a.galaxy as nat % counts.len()) as int] as int;
    assert(off < c * 12);
    if a.biome >= c {
        assert(a.biome * 12 >= c * 12) by (nonlinear_arith)
            requires
                a.biome >= c,
        ;
    }
}

/// Each running level number has exactly one address.
pub proof fn lemma_address_unique(a: LevelAddress, b: LevelAddress, total: nat, counts: Seq<usize>)
    requires
        is_address_of(a, total, counts),
        is_address_of(b, total, counts),
    ensures
        a == b,
{
    if a.galaxy < b.galaxy {
        lemma_levels_before_split(counts, a.galaxy as nat, b.galaxy as nat);
    } else if b.galaxy < a.galaxy {
        lemma_levels_before_split(counts, b.galaxy as nat, a.galaxy as nat);
    }
}

pub struct Progression;

impl Progression {
    /// The address of running level `total_level`, walking the galaxies in
    /// order (the list of biome counts repeats) and splitting each galaxy into
    /// biomes of `LEVELS_PER_BIOME` levels.
    pub fn address_at(total_level: u64, biomes_per_galaxy: &[usize]) -> (a: LevelAddress)
        requires
            address_input_ok(total_level, biomes_per_galaxy@),
        ensures
            is_address_of(a, total_level as nat, biomes_per_galaxy@),
    {
        let ghost counts = biomes_per_galaxy@;
        let len = biomes_per_galaxy.len();
        let ghost k: nat = (total_level / 12 + 1) as nat;
        proof {
            lemma_cycles_grow(counts, k);
        }
        let mut remaining = total_level;
        let mut galaxy = 0u64;

        loop
            invariant
                counts == biomes_per_galaxy@,
                len == counts.len(),
                address_input_ok(total_level, counts),
                k == total_level / 12 + 1,
                levels_before(counts, k * counts.len()) >= 12 * k,
                levels_before(counts, galaxy as nat) <= total_level,
                remaining == total_level - levels_before(counts, galaxy as nat),
                galaxy < k * len,
            decreases k * len - galaxy,
        {
            let idx = (galaxy % (len as u64)) as usize;
            let biome_count = biomes_per_galaxy[idx] as u64;
            proof {
                assert(idx as nat == galaxy as nat % counts.len());
                assert(counts[idx as int] * 12 <= u64::MAX);
            }
            let galaxy_levels = biome_count * LEVELS_PER_BIOME;

            if remaining < galaxy_levels {
                let biome = remaining / LEVELS_PER_BIOME;
                let level = remaining % LEVELS_PER_BIOME;
                return LevelAddress::new(galaxy, biome, level);
            }

            remaining -= galaxy_levels;
            proof {
                if galaxy == u64::MAX {
                    assert(levels_before(counts, galaxy as nat + 1) <= total_level);
                }
                if galaxy + 1 >= k * len {
                    lemma_levels_before_monotone(counts, k * counts.len(), (galaxy + 1) as nat);
                }
            }
            galaxy += 1;
        }
    }
}

} // verus!
