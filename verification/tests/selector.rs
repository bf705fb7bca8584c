use metanoid_procgen::level::layout::selector::{category_for_roll, select_category, ChaosBand, PatternCategory};
use rand::{Rng, SeedableRng};
use rand_chacha::ChaCha8Rng;

fn band_of(chaos: f32) -> ChaosBand {
    if chaos < 0.33 {
        ChaosBand::Calm
    } else if chaos < 0.66 {
        ChaosBand::Lively
    } else {
        ChaosBand::Wild
    }
}

#[test]
fn low_chaos_prefers_geometric() {
    let mut geometric_count = 0;
    let mut rng = ChaCha8Rng::seed_from_u64(42);
    for _ in 0..100 {
        if matches!(select_category(band_of(0.1), &mut rng), PatternCategory::Geometric) {
            geometric_count += 1;
        }
    }
    assert!(geometric_count > 50, "low chaos should prefer geometric: {geometric_count}");
}

#[test]
fn high_chaos_prefers_organic() {
    let mut organic_count = 0;
    let mut rng = ChaCha8Rng::seed_from_u64(42);
    for _ in 0..100 {
        if matches!(select_category(band_of(0.9), &mut rng), PatternCategory::Organic) {
            organic_count += 1;
        }
    }
    assert!(organic_count > 30, "high chaos should prefer organic: {organic_count}");
}

#[test]
fn category_thresholds() {
    assert_eq!(category_for_roll(ChaosBand::Calm, 0), PatternCategory::Geometric);
    assert_eq!(category_for_roll(ChaosBand::Calm, 11_744_050), PatternCategory::Geometric);
    assert_eq!(category_for_roll(ChaosBand::Calm, 11_744_051), PatternCategory::Hybrid);
    assert_eq!(category_for_roll(ChaosBand::Calm, (1 << 24) - 1), PatternCategory::Hybrid);
    assert_eq!(category_for_roll(ChaosBand::Lively, 6_710_886), PatternCategory::Geometric);
    assert_eq!(category_for_roll(ChaosBand::Lively, 6_710_887), PatternCategory::Hybrid);
    assert_eq!(category_for_roll(ChaosBand::Lively, 13_421_773), PatternCategory::Organic);
    assert_eq!(category_for_roll(ChaosBand::Wild, 3_355_443), PatternCategory::Geometric);
    assert_eq!(category_for_roll(ChaosBand::Wild, 3_355_444), PatternCategory::Hybrid);
    assert_eq!(category_for_roll(ChaosBand::Wild, 8_388_608), PatternCategory::Organic);
}

#[test]
fn selection_matches_the_float_rolls() {
    for (chaos, seed) in [(0.1f32, 1u64), (0.5, 2), (0.9, 3)] {
        let mut a = ChaCha8Rng::seed_from_u64(seed);
        let mut b = ChaCha8Rng::seed_from_u64(seed);
        for _ in 0..200 {
            let roll = b.random::<f32>();
            let expected = if chaos < 0.33 {
                if roll < 0.7 { PatternCategory::Geometric } else { PatternCategory::Hybrid }
            } else if chaos < 0.66 {
                if roll < 0.4 {
                    PatternCategory::Geometric
                } else if roll < 0.8 {
                    PatternCategory::Hybrid
                } else {
                    PatternCategory::Organic
                }
            } else if roll < 0.2 {
                PatternCategory::Geometric
            } else if roll < 0.5 {
                PatternCategory::Hybrid
            } else {
                PatternCategory::Organic
            };
            assert_eq!(select_category(band_of(chaos), &mut a), expected);
        }
    }
}
