use metanoid_procgen::level::grid::BrickGrid;
use metanoid_procgen::level::layout::organic::{cellular_step, touches_filled};

#[test]
fn cellular_step_birth_and_survival() {
    // row 0: X X X ; row 1: . . . ; row 2: X . .
    let mut g = BrickGrid::new(3, 3);
    g.set(0, 0, true);
    g.set(1, 0, true);
    g.set(2, 0, true);
    g.set(0, 2, true);
    let n = cellular_step(&g);
    // (1,1) is empty with 4 neighbours -> born
    assert!(n.get(1, 1));
    // (1,0) is filled with 2 neighbours -> dies
    assert!(!n.get(1, 0));
    // (0,2) is filled with 0 neighbours -> dies
    assert!(!n.get(0, 2));
    // (0,1) is empty with 3 neighbours -> stays empty
    assert!(!n.get(0, 1));
    assert_eq!(n.count_filled(), 1);
}

#[test]
fn full_block_survives() {
    let g = BrickGrid::filled(3, 3);
    let n = cellular_step(&g);
    // corners have 3 neighbours, edges 5, centre 8
    assert_eq!(n.count_filled(), 9);
}

#[test]
fn touches_detects_diagonal_contact() {
    let mut g = BrickGrid::new(3, 3);
    g.set(2, 2, true);
    assert!(touches_filled(&g, 1, 1));
    assert!(!touches_filled(&g, 0, 0));
    assert!(!touches_filled(&g, 2, 2));
}

use metanoid_procgen::level::layout::organic::{cellular_automata, dla};
use rand::SeedableRng;
use rand_chacha::ChaCha8Rng;

struct Params {
    density: f32,
    chaos: f32,
    energy: f32,
}

fn test_params() -> Params {
    Params { density: 0.6, chaos: 0.4, energy: 0.5 }
}

fn unit_threshold(p: f32) -> u32 {
    (p * 16_777_216.0).ceil() as u32
}

fn cave(cols: usize, rows: usize, p: &Params, rng: &mut ChaCha8Rng) -> BrickGrid {
    let init_density = 0.3 + p.density * 0.4;
    let iterations = 2 + (p.chaos * 4.0) as usize;
    cellular_automata(cols, rows, unit_threshold(init_density), iterations, rng)
}

fn coral(cols: usize, rows: usize, p: &Params, rng: &mut ChaCha8Rng) -> BrickGrid {
    let target = ((cols * rows) as f32 * (0.2 + p.density * 0.4)) as usize;
    let max_steps = 100 + (p.energy * 200.0) as usize;
    dla(cols, rows, target, max_steps, rng)
}

#[test]
fn cellular_has_bricks() {
    let mut rng = ChaCha8Rng::seed_from_u64(42);
    let g = cave(14, 8, &test_params(), &mut rng);
    assert!(g.count_filled() > 0);
}

#[test]
fn dla_has_bricks() {
    let mut rng = ChaCha8Rng::seed_from_u64(42);
    let g = coral(14, 8, &test_params(), &mut rng);
    assert!(g.count_filled() > 1);
}

#[test]
fn cellular_deterministic() {
    let p = test_params();
    let mut r1 = ChaCha8Rng::seed_from_u64(55);
    let mut r2 = ChaCha8Rng::seed_from_u64(55);
    assert_eq!(cave(14, 8, &p, &mut r1), cave(14, 8, &p, &mut r2));
}

#[test]
fn dla_cluster_is_connected_to_the_seed() {
    for seed in 0..20u64 {
        let mut rng = ChaCha8Rng::seed_from_u64(seed);
        let g = coral(14, 8, &test_params(), &mut rng);
        assert!(g.get(7, 4));
        // flood from the seed over the eight neighbours reaches every brick
        let mut seen = vec![false; 14 * 8];
        let mut stack = vec![(7usize, 4usize)];
        seen[4 * 14 + 7] = true;
        while let Some((c, r)) = stack.pop() {
            for dr in [-1i32, 0, 1] {
                for dc in [-1i32, 0, 1] {
                    let nc = c as i32 + dc;
                    let nr = r as i32 + dr;
                    if nc < 0 || nr < 0 || nc >= 14 || nr >= 8 {
                        continue;
                    }
                    let (nc, nr) = (nc as usize, nr as usize);
                    if g.get(nc, nr) && !seen[nr * 14 + nc] {
                        seen[nr * 14 + nc] = true;
                        stack.push((nc, nr));
                    }
                }
            }
        }
        for r in 0..8 {
            for c in 0..14 {
                if g.get(c, r) {
                    assert!(seen[r * 14 + c]);
                }
            }
        }
    }
}

#[test]
fn cave_without_noise_or_steps_is_empty() {
    let mut rng = ChaCha8Rng::seed_from_u64(1);
    let g = cellular_automata(10, 6, 0, 0, &mut rng);
    assert_eq!(g.count_filled(), 0);
    let g = cellular_automata(10, 6, 1 << 24, 0, &mut rng);
    assert_eq!(g.count_filled(), 60);
}

#[test]
fn dla_fills_between_one_and_target_cells() {
    for seed in 0..10u64 {
        let mut rng = ChaCha8Rng::seed_from_u64(seed);
        let g = dla(14, 8, 9, 200, &mut rng);
        let n = g.count_filled();
        assert!(n >= 1 && n <= 9);
    }
    let mut rng = ChaCha8Rng::seed_from_u64(3);
    let g = dla(14, 8, 0, 200, &mut rng);
    assert_eq!(g.count_filled(), 1);
}

#[test]
fn dla_deterministic() {
    let p = test_params();
    let mut r1 = ChaCha8Rng::seed_from_u64(77);
    let mut r2 = ChaCha8Rng::seed_from_u64(77);
    assert_eq!(coral(14, 8, &p, &mut r1), coral(14, 8, &p, &mut r2));
}
