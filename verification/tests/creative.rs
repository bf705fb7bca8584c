use metanoid_procgen::level::grid::BrickGrid;
use metanoid_procgen::level::layout::creative::{castle, maybe_punch_gaps, spiral};
use rand::SeedableRng;
use rand_chacha::ChaCha8Rng;

fn depth(cols: usize, rows: usize, c: usize, r: usize) -> usize {
    c.min(cols - 1 - c).min(r).min(rows - 1 - r)
}

#[test]
fn spiral_paints_whole_rings() {
    for seed in 0..30u64 {
        let (cols, rows) = (14, 11);
        let mut rng = ChaCha8Rng::seed_from_u64(seed);
        let g = spiral(cols, rows, &mut rng);
        let rings = (cols.min(rows) + 1) / 2;
        let mut painted = vec![None; rings];
        for r in 0..rows {
            for c in 0..cols {
                let d = depth(cols, rows, c, r);
                let v = g.get(c, r);
                match painted[d] {
                    None => painted[d] = Some(v),
                    Some(p) => assert_eq!(p, v, "ring {d} is painted partly"),
                }
            }
        }
        assert_eq!(painted[0], Some(true));
        for k in 0..rings - 1 {
            if painted[k] == Some(false) {
                assert_eq!(painted[k + 1], Some(true));
            }
        }
    }
}

#[test]
fn spiral_on_a_single_row_is_full() {
    let mut rng = ChaCha8Rng::seed_from_u64(5);
    let g = spiral(7, 1, &mut rng);
    assert_eq!(g.count_filled(), 7);
    let g = spiral(0, 4, &mut rng);
    assert_eq!(g.count_filled(), 0);
}

#[test]
fn castle_has_walls_and_doorway() {
    for seed in 0..30u64 {
        let mut rng = ChaCha8Rng::seed_from_u64(seed);
        let g = castle(14, 8, &mut rng);
        // the doorway is always open
        assert!(!g.get(7, 7) && !g.get(6, 7) && !g.get(8, 7));
        // nothing outside the masonry
        assert!(!g.get(3, 3));
        assert!(!g.get(1, 2));
    }
    // without the damage roll the outline is complete: 14 x 8 castle has
    // 4 walls (14 + 14 + 6 + 6 = 40) minus the doorway (3), 6 battlements
    // (even columns 2..12 in row 1) and a keep of 3 x 4 cells (rows 3..6)
    let counts: Vec<usize> = (0..30u64)
        .map(|seed| castle(14, 8, &mut ChaCha8Rng::seed_from_u64(seed)).count_filled())
        .collect();
    assert!(counts.iter().all(|&n| n <= 37 + 6 + 12));
    assert!(counts.contains(&(37 + 6 + 12)));
}

#[test]
fn punching_only_clears() {
    let mut g = BrickGrid::filled(6, 4);
    let mut rng = ChaCha8Rng::seed_from_u64(9);
    maybe_punch_gaps(&mut g, &mut rng, 0);
    assert_eq!(g.count_filled(), 24);
    maybe_punch_gaps(&mut g, &mut rng, 1 << 24);
    assert_eq!(g.count_filled(), 0);
    let mut h = BrickGrid::new(5, 5);
    h.set(2, 2, true);
    maybe_punch_gaps(&mut h, &mut rng, 8_388_608);
    assert!(h.count_filled() <= 1);
}

use metanoid_procgen::level::layout::creative::{checker_burst, diamond};
use rand::Rng;

fn unit_threshold(p: f32) -> u32 {
    (p * 16_777_216.0).ceil() as u32
}

// The float formulation of the layouts, drawing from the generator in the
// same order; the library must agree with it cell for cell.
fn model_punch(grid: &mut Vec<bool>, cols: usize, rows: usize, rng: &mut ChaCha8Rng, rate: f32) {
    for r in 0..rows {
        for c in 0..cols {
            if grid[r * cols + c] && rng.random::<f32>() < rate {
                grid[r * cols + c] = false;
            }
        }
    }
}

fn model_diamond(cols: usize, rows: usize, rng: &mut ChaCha8Rng) -> Vec<bool> {
    let mut grid = vec![false; cols * rows];
    let cx = (cols as f32 - 1.0) / 2.0;
    let cy = (rows as f32 - 1.0) / 2.0;
    let radius = (cols.min(rows) as f32) * 0.42;
    let hollow = rng.random::<f32>() < 0.45;
    for r in 0..rows {
        for c in 0..cols {
            let d = (c as f32 - cx).abs() + (r as f32 - cy).abs();
            let on = if hollow { d >= radius - 1.2 && d <= radius + 0.4 } else { d <= radius };
            if on {
                grid[r * cols + c] = true;
            }
        }
    }
    model_punch(&mut grid, cols, rows, rng, 0.08);
    grid
}

fn model_spiral(cols: usize, rows: usize, rng: &mut ChaCha8Rng) -> Vec<bool> {
    let mut grid = vec![false; cols * rows];
    let mut left = 0usize;
    let mut right = cols.saturating_sub(1);
    let mut top = 0usize;
    let mut bottom = rows.saturating_sub(1);
    let mut paint = true;
    let mut steps = 0;
    while left <= right && top <= bottom && steps < cols * rows {
        steps += 1;
        for c in left..=right {
            if paint {
                grid[top * cols + c] = true;
            }
        }
        if top == bottom {
            break;
        }
        top += 1;
        for r in top..=bottom {
            if paint {
                grid[r * cols + right] = true;
            }
        }
        if left == right || right == 0 {
            break;
        }
        right -= 1;
        for c in (left..=right).rev() {
            if paint {
                grid[bottom * cols + c] = true;
            }
        }
        if bottom == 0 {
            break;
        }
        bottom -= 1;
        for r in (top..=bottom).rev() {
            if paint {
                grid[r * cols + left] = true;
            }
        }
        left += 1;
        paint = !paint || rng.random::<f32>() < 0.35;
        if left > right || top > bottom {
            break;
        }
    }
    grid
}

fn cells_of(g: &BrickGrid) -> Vec<bool> {
    let mut v = Vec::new();
    for r in 0..g.rows {
        for c in 0..g.cols {
            v.push(g.get(c, r));
        }
    }
    v
}

#[test]
fn diamond_matches_the_float_formulation() {
    for (cols, rows) in [(14, 8), (9, 9), (18, 12), (7, 4), (1, 1), (10, 3)] {
        for seed in 0..25u64 {
            let radius = (cols.min(rows) as f32) * 0.42;
            let solid_max2 = (2.0 * radius).floor() as u64;
            let ring_min2 = (2.0 * (radius - 1.2)).ceil() as u64;
            let ring_max2 = (2.0 * (radius + 0.4)).floor() as u64;
            let g = diamond(cols, rows, solid_max2, ring_min2, ring_max2, &mut ChaCha8Rng::seed_from_u64(seed));
            let expected = model_diamond(cols, rows, &mut ChaCha8Rng::seed_from_u64(seed));
            assert_eq!(cells_of(&g), expected, "{cols}x{rows} seed {seed}");
        }
    }
}

#[test]
fn spiral_matches_the_ring_walk() {
    for (cols, rows) in [(14, 8), (9, 9), (18, 12), (7, 4), (1, 1), (10, 3), (3, 10), (2, 2)] {
        for seed in 0..25u64 {
            let g = spiral(cols, rows, &mut ChaCha8Rng::seed_from_u64(seed));
            let expected = model_spiral(cols, rows, &mut ChaCha8Rng::seed_from_u64(seed));
            assert_eq!(cells_of(&g), expected, "{cols}x{rows} seed {seed}");
        }
    }
}

#[test]
fn checker_burst_follows_its_rolls() {
    for seed in 0..25u64 {
        let density = 0.45f32 + 0.6 * 0.35;
        let g = checker_burst(14, 8, unit_threshold(density), unit_threshold(density * 0.35), &mut ChaCha8Rng::seed_from_u64(seed));
        let mut rng = ChaCha8Rng::seed_from_u64(seed);
        let phase = rng.random_range(0..2usize);
        for r in 0..8 {
            for c in 0..14 {
                let checker = (c + r + phase) % 2 == 0;
                let hit = if checker {
                    rng.random::<f32>() < density
                } else {
                    rng.random::<f32>() < density * 0.35
                };
                assert_eq!(g.get(c, r), hit);
            }
        }
    }
    let g = checker_burst(6, 4, 1 << 24, 0, &mut ChaCha8Rng::seed_from_u64(1));
    assert_eq!(g.count_filled(), 12);
}
