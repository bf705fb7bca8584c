use metanoid_procgen::level::grid::BrickGrid;
use metanoid_procgen::level::layout::hybrid::{fractal_subdivision, lsystem_growth};
use rand::SeedableRng;
use rand_chacha::ChaCha8Rng;

struct Params {
    density: f32,
    chaos: f32,
    energy: f32,
}

fn test_params() -> Params {
    Params { density: 0.6, chaos: 0.4, energy: 0.5 }
}

fn unit_threshold(p: f32) -> u32 {
    (p * 16_777_216.0).ceil() as u32
}

fn fractal(cols: usize, rows: usize, p: &Params, rng: &mut ChaCha8Rng) -> BrickGrid {
    let depth = 2 + (p.chaos * 3.0) as usize;
    let remove_prob = 0.2 + (1.0 - p.density) * 0.3;
    fractal_subdivision(cols, rows, depth, unit_threshold(remove_prob), rng)
}

fn growth(cols: usize, rows: usize, p: &Params, rng: &mut ChaCha8Rng) -> BrickGrid {
    let branches = 2 + (p.density * 4.0) as usize;
    let max_steps = 10 + (p.energy * 20.0) as usize;
    let turn_prob = 0.2 + p.chaos * 0.3;
    lsystem_growth(cols, rows, branches, max_steps, unit_threshold(turn_prob), rng)
}

#[test]
fn fractal_not_full() {
    let mut rng = ChaCha8Rng::seed_from_u64(42);
    let g = fractal(14, 8, &test_params(), &mut rng);
    assert!(g.count_filled() < 14 * 8);
}

#[test]
fn lsystem_has_bricks() {
    let mut rng = ChaCha8Rng::seed_from_u64(42);
    let g = growth(14, 8, &test_params(), &mut rng);
    assert!(g.count_filled() > 0);
}

#[test]
fn fractal_without_removals_is_full() {
    let mut rng = ChaCha8Rng::seed_from_u64(3);
    assert_eq!(fractal_subdivision(10, 6, 4, 0, &mut rng).count_filled(), 60);
    assert_eq!(fractal_subdivision(10, 6, 0, 1 << 24, &mut rng).count_filled(), 60);
}

#[test]
fn growth_fills_at_most_the_steps() {
    for seed in 0..20u64 {
        let mut rng = ChaCha8Rng::seed_from_u64(seed);
        let g = lsystem_growth(14, 8, 3, 5, 4_000_000, &mut rng);
        let n = g.count_filled();
        assert!(n >= 1 && n <= 15);
    }
    let mut rng = ChaCha8Rng::seed_from_u64(0);
    assert_eq!(lsystem_growth(14, 8, 4, 0, 0, &mut rng).count_filled(), 0);
}

#[test]
fn fractal_and_growth_deterministic() {
    let p = test_params();
    let mut r1 = ChaCha8Rng::seed_from_u64(91);
    let mut r2 = ChaCha8Rng::seed_from_u64(91);
    assert_eq!(fractal(14, 8, &p, &mut r1), fractal(14, 8, &p, &mut r2));
    assert_eq!(growth(14, 8, &p, &mut r1), growth(14, 8, &p, &mut r2));
}
