use metanoid_procgen::universe::progression::{LEVELS_PER_BIOME, LevelAddress, Progression};

#[test]
fn first_level() {
    let addr = Progression::address_at(0, &[4]);
    assert_eq!(addr, LevelAddress::new(0, 0, 0));
}

#[test]
fn wraps_biomes() {
    let addr = Progression::address_at(12, &[4]);
    assert_eq!(addr.biome, 1);
    assert_eq!(addr.level, 0);
}

#[test]
fn wraps_galaxies() {
    let biomes = [4usize];
    let galaxy_size = 4 * LEVELS_PER_BIOME;
    let addr = Progression::address_at(galaxy_size, &biomes);
    assert_eq!(addr.galaxy, 1);
    assert_eq!(addr.biome, 0);
}

#[test]
fn boss_detection() {
    let addr = LevelAddress::new(0, 0, LEVELS_PER_BIOME - 1);
    assert!(addr.is_boss(LEVELS_PER_BIOME));
    assert!(!LevelAddress::new(0, 0, 0).is_boss(LEVELS_PER_BIOME));
}

#[test]
fn sequence_100_levels() {
    let biomes = [4usize, 5, 3, 6];
    for i in 0..100 {
        let addr = Progression::address_at(i, &biomes);
        assert!(addr.biome < 6, "level {i} biome={}", addr.biome);
        assert!(addr.level < LEVELS_PER_BIOME);
    }
}

#[test]
fn uneven_galaxies_exact_addresses() {
    let biomes = [1usize, 2];
    // galaxy 0: levels 0..12, galaxy 1: 12..36, galaxy 2 (1 biome): 36..48
    assert_eq!(Progression::address_at(11, &biomes), LevelAddress::new(0, 0, 11));
    assert_eq!(Progression::address_at(12, &biomes), LevelAddress::new(1, 0, 0));
    assert_eq!(Progression::address_at(35, &biomes), LevelAddress::new(1, 1, 11));
    assert_eq!(Progression::address_at(36, &biomes), LevelAddress::new(2, 0, 0));
    assert_eq!(Progression::address_at(50, &biomes), LevelAddress::new(3, 0, 2));
}

#[test]
fn empty_galaxies_are_skipped() {
    let biomes = [0usize, 2];
    assert_eq!(Progression::address_at(0, &biomes), LevelAddress::new(1, 0, 0));
    assert_eq!(Progression::address_at(24, &biomes), LevelAddress::new(3, 0, 0));
}

#[test]
fn address_walks_back_to_running_level() {
    let biomes = [3usize, 1, 2];
    let mut before = [0u64; 8];
    for g in 1..8 {
        before[g] = before[g - 1] + biomes[(g - 1) % 3] as u64 * LEVELS_PER_BIOME;
    }
    for total in 0..before[7] {
        let a = Progression::address_at(total, &biomes);
        assert_eq!(before[a.galaxy as usize] + a.biome * LEVELS_PER_BIOME + a.level, total);
        assert!(a.biome < biomes[a.galaxy as usize % 3] as u64);
    }
}

#[test]
fn boss_with_other_biome_length() {
    assert!(LevelAddress::new(2, 1, 4).is_boss(5));
    assert!(!LevelAddress::new(2, 1, 4).is_boss(6));
    assert!(LevelAddress::new(0, 0, 0).is_boss(1));
}

use metanoid_procgen::seed::hierarchy::MasterSeed as Master;
use metanoid_procgen::universe::galaxy::galaxy_biome_count;

#[test]
fn biome_count_in_range() {
    let master = Master(42);
    for i in 0..50 {
        let n = galaxy_biome_count(master.galaxy(i));
        assert!(n >= 3 && n <= 6, "galaxy {i} biome_count={n}");
    }
}

#[test]
fn biome_count_deterministic_and_varied() {
    let master = Master(99);
    assert_eq!(galaxy_biome_count(master.galaxy(0)), galaxy_biome_count(master.galaxy(0)));
    let counts: Vec<usize> = (0..40).map(|i| galaxy_biome_count(master.galaxy(i))).collect();
    assert!(counts.iter().any(|&n| n != counts[0]));
}
