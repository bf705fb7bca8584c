use metanoid_procgen::level::grid::BrickGrid;
use metanoid_procgen::level::layout::geometric::{grid_cutouts, tessellation};
use rand::SeedableRng;
use rand_chacha::ChaCha8Rng;

struct Params {
    density: f32,
    chaos: f32,
}

fn test_params() -> Params {
    Params { density: 0.6, chaos: 0.3 }
}

fn unit_threshold(p: f32) -> u32 {
    (p * 16_777_216.0).ceil() as u32
}

fn cutouts(cols: usize, rows: usize, p: &Params, rng: &mut ChaCha8Rng) -> BrickGrid {
    let cutout_prob = 0.1 + (1.0 - p.density) * 0.3;
    let cluster_size = 1 + (p.chaos * 4.0) as usize;
    let num_cutouts = ((cols * rows) as f32 * cutout_prob * 0.3) as usize;
    grid_cutouts(cols, rows, num_cutouts, cluster_size, rng)
}

fn tiles(cols: usize, rows: usize, p: &Params, rng: &mut ChaCha8Rng) -> BrickGrid {
    let tile_w = 2 + (p.density * 3.0) as usize;
    let tile_h = 2 + (p.density * 2.0) as usize;
    let fill_density = 0.4 + p.density * 0.4;
    let flip = if p.chaos > 0.5 { Some(unit_threshold(p.chaos * 0.2)) } else { None };
    tessellation(cols, rows, tile_w, tile_h, unit_threshold(fill_density), flip, rng)
}

#[test]
fn grid_cutouts_not_full() {
    let mut rng = ChaCha8Rng::seed_from_u64(42);
    let g = cutouts(14, 8, &test_params(), &mut rng);
    assert!(g.count_filled() < 14 * 8);
}

#[test]
fn tessellation_has_bricks() {
    let mut rng = ChaCha8Rng::seed_from_u64(42);
    let g = tiles(14, 8, &test_params(), &mut rng);
    assert!(g.count_filled() > 0);
}

#[test]
fn tessellation_repeats_its_tile() {
    for seed in 0..20u64 {
        let mut rng = ChaCha8Rng::seed_from_u64(seed);
        let g = tessellation(14, 8, 3, 2, 8_388_608, None, &mut rng);
        for r in 0..8 {
            for c in 0..14 {
                assert_eq!(g.get(c, r), g.get(c % 3, r % 2));
            }
        }
    }
}

#[test]
fn cutouts_without_holes_stay_full() {
    let mut rng = ChaCha8Rng::seed_from_u64(1);
    let g = grid_cutouts(6, 4, 0, 3, &mut rng);
    assert_eq!(g.count_filled(), 24);
    // one hole of side two wraps around the corner of a 3 x 3 wall
    let g = grid_cutouts(3, 3, 1, 2, &mut rng);
    assert_eq!(g.count_filled(), 5);
}
