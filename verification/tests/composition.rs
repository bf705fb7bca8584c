use metanoid_procgen::biome::composition::variation_seed;
use metanoid_procgen::seed::hierarchy::BiomeSeed;

fn fnv_mix(names: &[&str], seed: u64) -> u64 {
    let mut h = 0xcbf29ce484222325u64;
    for n in names {
        for b in n.bytes() {
            h ^= b as u64;
            h = h.wrapping_mul(0x100000001b3);
        }
    }
    h ^= seed.rotate_left(13);
    h.wrapping_mul(0x100000001b3)
}

#[test]
fn variation_seed_matches_fnv_mix() {
    assert_eq!(variation_seed(&["Forest"], BiomeSeed(7)), fnv_mix(&["Forest"], 7));
    assert_eq!(variation_seed(&["Forest", "Volcanic"], BiomeSeed(u64::MAX)), fnv_mix(&["Forest", "Volcanic"], u64::MAX));
    assert_eq!(variation_seed(&[], BiomeSeed(0)), 0xcbf29ce484222325u64.wrapping_mul(0x100000001b3));
}

#[test]
fn variation_seed_depends_on_seed_and_names() {
    assert_ne!(variation_seed(&["Forest"], BiomeSeed(1)), variation_seed(&["Forest"], BiomeSeed(2)));
    assert_ne!(variation_seed(&["Forest"], BiomeSeed(1)), variation_seed(&["Desert"], BiomeSeed(1)));
    assert_eq!(variation_seed(&["Forest"], BiomeSeed(1)), variation_seed(&["Forest"], BiomeSeed(1)));
}

use metanoid_procgen::seed::hierarchy::MasterSeed;

#[test]
fn variation_seed_stable() {
    let master = MasterSeed(5);
    let seed = master.galaxy(0).biome(3);
    let parts = ["Forest", "Volcanic"];
    assert_eq!(variation_seed(&parts, seed), variation_seed(&parts, seed));
}
