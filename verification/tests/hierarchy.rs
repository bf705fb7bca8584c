use metanoid_procgen::seed::hierarchy::MasterSeed;
use rand::Rng;

#[test]
fn determinism_galaxy() {
    let master = MasterSeed(12345);
    assert_eq!(master.galaxy(0), master.galaxy(0));
    assert_eq!(master.galaxy(7), master.galaxy(7));
}

#[test]
fn determinism_biome() {
    let master = MasterSeed(99);
    let g = master.galaxy(3);
    assert_eq!(g.biome(0), g.biome(0));
    assert_eq!(g.biome(2), g.biome(2));
}

#[test]
fn determinism_level() {
    let master = MasterSeed(42);
    let b = master.galaxy(0).biome(0).level(5);
    assert_eq!(b.structure(), b.structure());
    assert_eq!(b.bricks(), b.bricks());
    assert_eq!(b.health(), b.health());
    assert_eq!(b.specials(), b.specials());
    assert_eq!(b.powerups(), b.powerups());
    assert_eq!(b.validation(), b.validation());
}

#[test]
fn uniqueness() {
    let m1 = MasterSeed(1);
    let m2 = MasterSeed(2);
    assert_ne!(m1.galaxy(0), m2.galaxy(0));
    assert_ne!(m1.galaxy(0).biome(0), m2.galaxy(0).biome(0));
}

#[test]
fn sub_seeds_differ() {
    let master = MasterSeed(100);
    let level = master.galaxy(0).biome(0).level(0);
    let s = level.structure();
    let b = level.bricks();
    let h = level.health();
    assert_ne!(s, b);
    assert_ne!(s, h);
    assert_ne!(b, h);
}

#[test]
fn share_code_roundtrip() {
    let seeds = [0u64, 1, 42, u64::MAX / 2, u64::MAX];
    for seed in seeds {
        let master = MasterSeed(seed);
        let code = master.to_share_code();
        let decoded = MasterSeed::from_share_code(&code).unwrap();
        assert_eq!(master, decoded, "roundtrip failed for seed {seed}");
    }
}

#[test]
fn rng_determinism() {
    let master = MasterSeed(777);
    let level = master.galaxy(0).biome(0).level(0);
    let mut rng1 = level.rng();
    let mut rng2 = level.rng();
    for _ in 0..100 {
        assert_eq!(rng1.random::<u64>(), rng2.random::<u64>());
    }
}

#[test]
fn rng_different_seeds() {
    let master = MasterSeed(777);
    let l1 = master.galaxy(0).biome(0).level(0);
    let l2 = master.galaxy(0).biome(0).level(1);
    let mut rng1 = l1.rng();
    let mut rng2 = l2.rng();
    let vals: Vec<(u64, u64)> = (0..10)
        .map(|_| (rng1.random::<u64>(), rng2.random::<u64>()))
        .collect();
    assert!(vals.iter().any(|(a, b)| a != b));
}

#[test]
fn galaxy_count_independence() {
    let master = MasterSeed(500);
    let g3 = master.galaxy(3);
    let g3_again = master.galaxy(3);
    assert_eq!(g3, g3_again);
    let g5 = master.galaxy(5);
    assert_ne!(g3, g5);
}

#[test]
fn new_keeps_value_and_children_use_the_hash() {
    let master = MasterSeed::new(9);
    assert_eq!(master, MasterSeed(9));
    let g = master.galaxy(1);
    assert_eq!(g.0, metanoid_procgen::seed::hasher::derive(9, 1));
    assert_ne!(g.0, 9);
    let b = g.biome(2);
    assert_eq!(b.0, metanoid_procgen::seed::hasher::derive(g.0, 2));
    let l = b.level(3);
    assert_eq!(l.0, metanoid_procgen::seed::hasher::derive(b.0, 3));
    assert_eq!(l.validation(), metanoid_procgen::seed::hasher::derive(l.0, 5));
}

#[test]
fn share_code_text_and_bad_codes() {
    assert_eq!(MasterSeed(62).to_share_code(), "10");
    assert_eq!(MasterSeed::from_share_code("10"), Some(MasterSeed(62)));
    assert_eq!(MasterSeed::from_share_code(""), None);
    assert_eq!(MasterSeed::from_share_code("ab!"), None);
}

#[test]
fn galaxy_and_biome_rngs_follow_the_seed() {
    let g = MasterSeed(5).galaxy(0);
    let mut a = g.rng();
    let mut b = g.rng();
    assert_eq!(a.random::<u64>(), b.random::<u64>());
    let bio = g.biome(0);
    let mut c = bio.rng();
    let mut d = bio.rng();
    assert_eq!(c.random::<u32>(), d.random::<u32>());
}
