// Float models of the generators, drawing from the generator in the
// same order as the library does; the library must agree with it
// exactly for the same seed.
use metanoid_procgen::difficulty::boss::{harden_boss_bricks, stamp_boss_signature};
use metanoid_procgen::level::data::{BrickData, BrickKind, SpecialType};
use metanoid_procgen::level::grid::BrickGrid;
use metanoid_procgen::level::layers::powerups::seed_powerups;
use metanoid_procgen::level::layers::specials::place_specials;
use metanoid_procgen::level::layout::creative::castle;
use metanoid_procgen::level::layout::geometric::{grid_cutouts, tessellation};
use metanoid_procgen::level::layout::hybrid::{fractal_subdivision, lsystem_growth};
use metanoid_procgen::level::layout::organic::{cellular_automata, dla};
use rand::seq::SliceRandom;
use rand::{Rng, SeedableRng};
use rand_chacha::ChaCha8Rng;

fn unit_threshold(p: f32) -> u32 {
    (p * 16_777_216.0).ceil() as u32
}

fn cells_of(g: &BrickGrid) -> Vec<bool> {
    let mut v = Vec::new();
    for r in 0..g.rows {
        for c in 0..g.cols {
            v.push(g.get(c, r));
        }
    }
    v
}

fn rng(seed: u64) -> ChaCha8Rng {
    ChaCha8Rng::seed_from_u64(seed)
}

fn wall(cols: usize, rows: usize, seed: u64) -> Vec<BrickData> {
    let mut r = rng(seed ^ 0xabcdef);
    let mut bricks = Vec::new();
    for row in 0..rows {
        for col in 0..cols {
            if r.random::<f32>() < 0.8 {
                let mut b = BrickData::normal(col, row);
                match r.random_range(0..6) {
                    0 => b.kind = BrickKind::Invincible,
                    1 => {
                        b.kind = BrickKind::MultiHit;
                        b.health = 3;
                        b.max_health = 3;
                    }
                    2 => b.special = SpecialType::Moving,
                    _ => {}
                }
                bricks.push(b);
            }
        }
    }
    bricks
}

fn model_punch(grid: &mut [bool], cols: usize, rows: usize, rng: &mut ChaCha8Rng, rate: f32) {
    for r in 0..rows {
        for c in 0..cols {
            if grid[r * cols + c] && rng.random::<f32>() < rate {
                grid[r * cols + c] = false;
            }
        }
    }
}

fn model_castle(cols: usize, rows: usize, rng: &mut ChaCha8Rng) -> Vec<bool> {
    let mut grid = vec![false; cols * rows];
    for r in 0..rows {
        for c in 0..cols {
            let border = r == 0 || r == rows - 1 || c == 0 || c == cols - 1;
            let battlement = r == 1 && c % 2 == 0;
            let keep = c >= cols / 2 - 1 && c <= cols / 2 + 1 && r >= rows / 2 - 1 && r <= rows - 2;
            if border || battlement || keep {
                grid[r * cols + c] = true;
            }
        }
    }
    if cols > 4 && rows > 2 {
        let gx = cols / 2;
        grid[(rows - 1) * cols + gx] = false;
        grid[(rows - 1) * cols + gx.saturating_sub(1)] = false;
        if gx + 1 < cols {
            grid[(rows - 1) * cols + gx + 1] = false;
        }
    }
    if rng.random::<f32>() < 0.5 {
        model_punch(&mut grid, cols, rows, rng, 0.05);
    }
    grid
}

#[test]
fn castle_matches() {
    for (cols, rows) in [(14, 8), (7, 4), (18, 12), (2, 2), (5, 3)] {
        for seed in 0..20 {
            let g = castle(cols, rows, &mut rng(seed));
            assert_eq!(cells_of(&g), model_castle(cols, rows, &mut rng(seed)));
        }
    }
}

fn model_cave(cols: usize, rows: usize, init_density: f32, iterations: usize, rng: &mut ChaCha8Rng) -> Vec<bool> {
    let mut grid = vec![false; cols * rows];
    for row in 0..rows {
        for col in 0..cols {
            grid[row * cols + col] = rng.random::<f32>() < init_density;
        }
    }
    for _ in 0..iterations {
        let mut next = grid.clone();
        for row in 0..rows {
            for col in 0..cols {
                let mut neighbors = 0;
                for dy in [-1i32, 0, 1] {
                    for dx in [-1i32, 0, 1] {
                        if dx == 0 && dy == 0 {
                            continue;
                        }
                        let nc = col as i32 + dx;
                        let nr = row as i32 + dy;
                        if nc >= 0 && nc < cols as i32 && nr >= 0 && nr < rows as i32 && grid[nr as usize * cols + nc as usize] {
                            neighbors += 1;
                        }
                    }
                }
                let alive = grid[row * cols + col];
                next[row * cols + col] = if alive { neighbors >= 3 } else { neighbors >= 4 };
            }
        }
        grid = next;
    }
    grid
}

#[test]
fn cave_matches() {
    for seed in 0..20 {
        let density = 0.3 + 0.6 * 0.4;
        let g = cellular_automata(14, 8, unit_threshold(density), 3, &mut rng(seed));
        assert_eq!(cells_of(&g), model_cave(14, 8, density, 3, &mut rng(seed)));
    }
}

fn touching(grid: &[bool], cols: usize, rows: usize, px: usize, py: usize) -> bool {
    for dy in [-1i32, 0, 1] {
        for dx in [-1i32, 0, 1] {
            if dx == 0 && dy == 0 {
                continue;
            }
            let nc = px as i32 + dx;
            let nr = py as i32 + dy;
            if nc >= 0 && nc < cols as i32 && nr >= 0 && nr < rows as i32 && grid[nr as usize * cols + nc as usize] {
                return true;
            }
        }
    }
    false
}

fn model_dla(cols: usize, rows: usize, target: usize, max_steps: usize, rng: &mut ChaCha8Rng) -> Vec<bool> {
    let mut grid = vec![false; cols * rows];
    grid[(rows / 2) * cols + cols / 2] = true;
    let mut placed = 1;
    for _ in 0..cols * rows * 4 {
        if placed >= target {
            break;
        }
        let edge = rng.random_range(0..4usize);
        let (mut px, mut py) = match edge {
            0 => (rng.random_range(0..cols), 0usize),
            1 => (rng.random_range(0..cols), rows - 1),
            2 => (0usize, rng.random_range(0..rows)),
            _ => (cols - 1, rng.random_range(0..rows)),
        };
        for _ in 0..max_steps {
            if touching(&grid, cols, rows, px, py) {
                grid[py * cols + px] = true;
                placed += 1;
                break;
            }
            let (dx, dy) = match rng.random_range(0..4usize) {
                0 => (0i32, 1i32),
                1 => (1, 0),
                2 => (0, -1),
                _ => (-1, 0),
            };
            let nx = px as i32 + dx;
            let ny = py as i32 + dy;
            if nx >= 0 && nx < cols as i32 && ny >= 0 && ny < rows as i32 {
                px = nx as usize;
                py = ny as usize;
            }
        }
    }
    grid
}

#[test]
fn dla_matches() {
    for seed in 0..20 {
        let g = dla(14, 8, 67, 200, &mut rng(seed));
        assert_eq!(cells_of(&g), model_dla(14, 8, 67, 200, &mut rng(seed)));
    }
}

fn model_tessellation(cols: usize, rows: usize, tw: usize, th: usize, fill: f32, chaos: f32, rng: &mut ChaCha8Rng) -> Vec<bool> {
    let mut grid = vec![false; cols * rows];
    let mut tile = vec![false; tw * th];
    for cell in tile.iter_mut() {
        *cell = rng.random::<f32>() < fill;
    }
    for row in 0..rows {
        for col in 0..cols {
            let val = tile[(row % th) * tw + col % tw];
            grid[row * cols + col] = if chaos > 0.5 && rng.random::<f32>() < chaos * 0.2 { !val } else { val };
        }
    }
    grid
}

#[test]
fn tessellation_matches() {
    for seed in 0..20 {
        for chaos in [0.3f32, 0.8] {
            let flip = if chaos > 0.5 { Some(unit_threshold(chaos * 0.2)) } else { None };
            let g = tessellation(14, 8, 3, 3, unit_threshold(0.64), flip, &mut rng(seed));
            assert_eq!(cells_of(&g), model_tessellation(14, 8, 3, 3, 0.64, chaos, &mut rng(seed)));
        }
    }
}

fn model_cutouts(cols: usize, rows: usize, num: usize, size: usize, rng: &mut ChaCha8Rng) -> Vec<bool> {
    let mut grid = vec![true; cols * rows];
    for _ in 0..num {
        let sc = rng.random_range(0..cols);
        let sr = rng.random_range(0..rows);
        for dy in 0..size {
            for dx in 0..size {
                grid[(sr.wrapping_add(dy) % rows) * cols + sc.wrapping_add(dx) % cols] = false;
            }
        }
    }
    grid
}

#[test]
fn cutouts_match() {
    for seed in 0..20 {
        let g = grid_cutouts(14, 8, 7, 2, &mut rng(seed));
        assert_eq!(cells_of(&g), model_cutouts(14, 8, 7, 2, &mut rng(seed)));
    }
}

#[allow(clippy::too_many_arguments)]
fn model_subdivide(grid: &mut [bool], cols: usize, x: usize, y: usize, w: usize, h: usize, depth: usize, p: f32, rng: &mut ChaCha8Rng) {
    if depth == 0 || w < 2 || h < 2 {
        return;
    }
    let rows = grid.len() / cols;
    if rng.random::<f32>() < p {
        let rx = x + rng.random_range(0..w.saturating_sub(1).max(1));
        let ry = y + rng.random_range(0..h.saturating_sub(1).max(1));
        let rw = rng.random_range(1..=(w / 2).max(1));
        let rh = rng.random_range(1..=(h / 2).max(1));
        for dy in 0..rh {
            for dx in 0..rw {
                if rx + dx < cols && ry + dy < rows {
                    grid[(ry + dy) * cols + rx + dx] = false;
                }
            }
        }
    }
    let hw = w / 2;
    let hh = h / 2;
    if hw > 0 && hh > 0 {
        model_subdivide(grid, cols, x, y, hw, hh, depth - 1, p, rng);
        model_subdivide(grid, cols, x + hw, y, w - hw, hh, depth - 1, p, rng);
        model_subdivide(grid, cols, x, y + hh, hw, h - hh, depth - 1, p, rng);
        model_subdivide(grid, cols, x + hw, y + hh, w - hw, h - hh, depth - 1, p, rng);
    }
}

#[test]
fn fractal_matches() {
    for seed in 0..20 {
        let g = fractal_subdivision(14, 8, 3, unit_threshold(0.32), &mut rng(seed));
        let mut expected = vec![true; 14 * 8];
        model_subdivide(&mut expected, 14, 0, 0, 14, 8, 3, 0.32, &mut rng(seed));
        assert_eq!(cells_of(&g), expected);
    }
}

fn model_growth(cols: usize, rows: usize, branches: usize, max_steps: usize, turn: f32, rng: &mut ChaCha8Rng) -> Vec<bool> {
    let mut grid = vec![false; cols * rows];
    for _ in 0..branches {
        let mut x = rng.random_range(0..cols);
        let mut y = rng.random_range(0..rows);
        let mut dir: i32 = rng.random_range(0..4);
        for _ in 0..max_steps {
            grid[y * cols + x] = true;
            if rng.random::<f32>() < turn {
                dir = (dir + if rng.random::<f32>() < 0.5 { 1 } else { 3 }) % 4;
            }
            let (dx, dy) = match dir {
                0 => (0i32, 1i32),
                1 => (1, 0),
                2 => (0, -1),
                _ => (-1, 0),
            };
            let nx = x as i32 + dx;
            let ny = y as i32 + dy;
            if nx >= 0 && nx < cols as i32 && ny >= 0 && ny < rows as i32 {
                x = nx as usize;
                y = ny as usize;
            } else {
                break;
            }
        }
    }
    grid
}

#[test]
fn growth_matches() {
    for seed in 0..20 {
        let g = lsystem_growth(14, 8, 4, 20, unit_threshold(0.32), &mut rng(seed));
        assert_eq!(cells_of(&g), model_growth(14, 8, 4, 20, 0.32, &mut rng(seed)));
    }
}

fn model_specials(bricks: &mut [BrickData], cols: usize, budget: usize, rng: &mut ChaCha8Rng) {
    let mut candidates: Vec<usize> = (0..bricks.len())
        .filter(|&i| bricks[i].special == SpecialType::Plain && bricks[i].kind != BrickKind::Invincible)
        .collect();
    for _ in 0..budget {
        if candidates.is_empty() {
            break;
        }
        let ci = rng.random_range(0..candidates.len());
        let bi = candidates[ci];
        candidates.swap_remove(ci);
        let at_edge = bricks[bi].col == 0 || bricks[bi].col == cols - 1;
        let at_top = bricks[bi].row <= 1;
        let special = if at_edge && rng.random::<f32>() < 0.4 {
            SpecialType::Moving
        } else if at_top && rng.random::<f32>() < 0.3 {
            SpecialType::Regenerating
        } else {
            match rng.random_range(0..3) {
                0 => SpecialType::Moving,
                1 => SpecialType::Regenerating,
                _ => SpecialType::Teleport,
            }
        };
        bricks[bi].special = special;
        if special == SpecialType::Teleport {
            let (bc, br) = (bricks[bi].col as i32, bricks[bi].row as i32);
            let partner = candidates.iter().position(|&j| {
                (bricks[j].col as i32 - bc).abs() + (bricks[j].row as i32 - br).abs() >= 3
            });
            if let Some(pi) = partner {
                let pj = candidates[pi];
                bricks[pj].special = SpecialType::Teleport;
                candidates.swap_remove(pi);
            } else {
                bricks[bi].special = SpecialType::Plain;
            }
        }
    }
}

#[test]
fn specials_match() {
    for seed in 0..30 {
        let mut a = wall(12, 6, seed);
        let mut b = a.clone();
        place_specials(&mut a, 12, 9, &mut rng(seed));
        model_specials(&mut b, 12, 9, &mut rng(seed));
        let sa: Vec<SpecialType> = a.iter().map(|x| x.special).collect();
        let sb: Vec<SpecialType> = b.iter().map(|x| x.special).collect();
        assert_eq!(sa, sb);
    }
}

fn model_powerups(bricks: &mut [BrickData], base: f32, rng: &mut ChaCha8Rng) {
    let mut since = 0;
    for brick in bricks.iter_mut() {
        if brick.kind == BrickKind::Invincible {
            continue;
        }
        since += 1;
        let chance = if since >= 8 { 1.0 } else { base };
        if rng.random::<f32>() < chance {
            brick.powerup_chance_bits = (0.5 + rng.random::<f32>() * 0.5).to_bits();
            since = 0;
        }
    }
}

#[test]
fn powerups_match() {
    for seed in 0..30 {
        let mut a = wall(12, 6, seed);
        let mut b = a.clone();
        seed_powerups(&mut a, unit_threshold(0.128), &mut rng(seed));
        model_powerups(&mut b, 0.128, &mut rng(seed));
        let pa: Vec<u32> = a.iter().map(|x| x.powerup_chance_bits).collect();
        let pb: Vec<u32> = b.iter().map(|x| x.powerup_chance_bits).collect();
        assert_eq!(pa, pb);
    }
}

fn open_side(bricks: &[BrickData], col: usize, row: usize) -> bool {
    let left = !bricks.iter().any(|b| b.row == row && b.col + 1 == col);
    let right = !bricks.iter().any(|b| b.row == row && b.col == col + 1);
    left || right
}

fn model_harden(bricks: &mut [BrickData], avg: f32, moving: usize, rng: &mut ChaCha8Rng) {
    for brick in bricks.iter_mut() {
        if brick.kind == BrickKind::Invincible {
            continue;
        }
        let roll = rng.random::<f32>();
        if roll < 0.45 {
            brick.kind = BrickKind::MultiHit;
            brick.health = (3 + (avg * 0.5) as u32).min(6);
            brick.max_health = brick.health;
        } else if roll < 0.58 {
            brick.kind = BrickKind::Explosive;
            brick.health = 1;
            brick.max_health = 1;
        } else if brick.max_health <= 1 && rng.random::<f32>() < 0.55 {
            brick.health = 2 + rng.random_range(0..2);
            brick.max_health = brick.health;
            brick.kind = BrickKind::MultiHit;
        } else if brick.max_health > 1 {
            brick.health = (brick.health + 2).min(6);
            brick.max_health = brick.health;
        }
        if brick.special == SpecialType::Plain && rng.random::<f32>() < 0.12 {
            brick.special = SpecialType::Regenerating;
            brick.health = brick.health.max(2);
            brick.max_health = brick.health;
        }
    }
    let mut open: Vec<usize> = (0..bricks.len())
        .filter(|&i| {
            bricks[i].special == SpecialType::Plain
                && bricks[i].kind != BrickKind::Invincible
                && open_side(bricks, bricks[i].col, bricks[i].row)
        })
        .collect();
    open.shuffle(rng);
    for i in open.into_iter().take(moving.max(4)) {
        bricks[i].special = SpecialType::Moving;
    }
}

fn model_stamp(bricks: &mut Vec<BrickData>, cols: usize, rows: usize, rng: &mut ChaCha8Rng) {
    if cols < 6 || rows < 5 {
        return;
    }
    let cx = cols / 2;
    let cy = rows / 2;
    match rng.random_range(0..3) {
        0 => {
            for b in bricks.iter_mut() {
                let on_ring = (b.col == cx - 2 || b.col == cx + 2) && b.row >= cy - 2 && b.row <= cy + 2
                    || (b.row == cy - 2 || b.row == cy + 2) && b.col >= cx - 2 && b.col <= cx + 2;
                if on_ring && b.kind != BrickKind::Invincible && rng.random::<f32>() < 0.55 {
                    b.kind = BrickKind::MultiHit;
                    b.health = b.health.max(4);
                    b.max_health = b.health;
                }
            }
        }
        1 => {
            for b in bricks.iter_mut() {
                if (b.col == cx || b.row == cy) && b.kind != BrickKind::Invincible {
                    b.kind = BrickKind::MultiHit;
                    b.health = b.health.max(3);
                    b.max_health = b.health;
                }
            }
        }
        _ => {
            for b in bricks.iter_mut() {
                let d = b.col.abs_diff(cx) + b.row.abs_diff(cy);
                if d == 3 && b.kind != BrickKind::Invincible {
                    b.kind = BrickKind::MultiHit;
                    b.health = b.health.max(3);
                    b.max_health = b.health;
                    if rng.random::<f32>() < 0.25 {
                        b.special = SpecialType::Regenerating;
                    }
                }
            }
        }
    }
    let inv = bricks.iter().filter(|b| b.kind == BrickKind::Invincible).count();
    let max_inv = (bricks.len() / 5).max(2);
    if inv > max_inv {
        let mut converted = 0;
        for b in bricks.iter_mut() {
            if converted >= inv - max_inv {
                break;
            }
            if b.kind == BrickKind::Invincible {
                b.kind = BrickKind::MultiHit;
                b.health = 4;
                b.max_health = 4;
                converted += 1;
            }
        }
    }
}

fn summary(bricks: &[BrickData]) -> Vec<(usize, usize, BrickKind, u32, u32, SpecialType)> {
    bricks.iter().map(|b| (b.col, b.row, b.kind, b.health, b.max_health, b.special)).collect()
}

#[test]
fn boss_shaping_matches() {
    for seed in 0..30 {
        let mut a = wall(14, 9, seed);
        let mut b = a.clone();
        let mut ra = rng(seed);
        let mut rb = rng(seed);
        harden_boss_bricks(&mut a, (3.4f32 * 0.5) as u32, 3, &mut ra);
        model_harden(&mut b, 3.4, 3, &mut rb);
        assert_eq!(summary(&a), summary(&b));
        stamp_boss_signature(&mut a, 14, 9, &mut ra);
        model_stamp(&mut b, 14, 9, &mut rb);
        assert_eq!(summary(&a), summary(&b));
    }
}
