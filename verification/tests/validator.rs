use rand::SeedableRng;
use rand_chacha::ChaCha8Rng;
use metanoid_procgen::level::data::{BrickData, BrickKind, CHANCE_SEVENTY_PERCENT_BITS};
use metanoid_procgen::level::layers::validator::{
    destructible_count, ensure_minimum_destructible, give_lost_drop, remove_isolated_invincible, remove_trapped_bricks, validate_and_fix,
};

#[test]
fn removes_nothing_when_valid() {
    let mut bricks: Vec<BrickData> = (0..5).map(|i| BrickData::normal(i, 0)).collect();
    let before = bricks.len();
    validate_and_fix(&mut bricks, 5, 3, &mut ChaCha8Rng::seed_from_u64(0));
    assert_eq!(bricks.len(), before);
}

#[test]
fn caps_invincible_ratio() {
    let mut bricks: Vec<BrickData> = (0..10)
        .map(|i| {
            let mut b = BrickData::normal(i % 5, i / 5);
            b.kind = BrickKind::Invincible;
            b
        })
        .collect();
    validate_and_fix(&mut bricks, 5, 3, &mut ChaCha8Rng::seed_from_u64(0));
    let invincible = bricks.iter().filter(|b| !b.is_destructible()).count();
    assert!(invincible <= bricks.len() / 3);
}

fn wall(col: usize, row: usize) -> BrickData {
    let mut b = BrickData::normal(col, row);
    b.kind = BrickKind::Invincible;
    b
}

#[test]
fn sealed_brick_is_removed() {
    // 3x3 grid: the top-left cell is walled off by invincible bricks.
    let mut bricks = vec![BrickData::normal(0, 0), wall(1, 0), wall(0, 1), wall(1, 1), BrickData::normal(2, 0)];
    remove_trapped_bricks(&mut bricks, 3, 3, &mut ChaCha8Rng::seed_from_u64(0));
    let cells: Vec<(usize, usize)> = bricks.iter().map(|b| (b.col, b.row)).collect();
    assert_eq!(cells, vec![(1, 0), (0, 1), (1, 1), (2, 0)]);
}

#[test]
fn lost_powerup_is_moved_to_a_survivor() {
    let mut trapped = BrickData::normal(0, 0);
    trapped.powerup_chance_bits = 0.5f32.to_bits();
    let mut bricks = vec![trapped, wall(1, 0), wall(0, 1), wall(1, 1), BrickData::normal(2, 0)];
    remove_trapped_bricks(&mut bricks, 3, 3, &mut ChaCha8Rng::seed_from_u64(0));
    assert_eq!(bricks.len(), 4);
    let survivor = bricks.iter().find(|b| b.col == 2 && b.row == 0).unwrap();
    assert_eq!(survivor.powerup_chance_bits, CHANCE_SEVENTY_PERCENT_BITS);
    assert_eq!(f32::from_bits(CHANCE_SEVENTY_PERCENT_BITS), 0.7f32);
}

#[test]
fn bottom_row_wall_blocks_everything_above() {
    let mut bricks = vec![BrickData::normal(0, 0), wall(0, 1), BrickData::normal(1, 0)];
    remove_trapped_bricks(&mut bricks, 1, 2, &mut ChaCha8Rng::seed_from_u64(0));
    assert_eq!(bricks.len(), 1);
    assert_eq!(bricks[0].kind, BrickKind::Invincible);
}

#[test]
fn isolated_invincible_cap_converts_first_ones() {
    let mut bricks = vec![wall(0, 0), wall(1, 0), BrickData::normal(2, 0), wall(3, 0), wall(4, 0), BrickData::normal(5, 0)];
    remove_isolated_invincible(&mut bricks);
    // 4 invincible of 6, cap 2: the first two become normal.
    let kinds: Vec<BrickKind> = bricks.iter().map(|b| b.kind).collect();
    assert_eq!(kinds, vec![BrickKind::Normal, BrickKind::Normal, BrickKind::Normal, BrickKind::Invincible, BrickKind::Invincible, BrickKind::Normal]);
    assert_eq!(bricks[0].health, 1);
    assert_eq!(bricks[0].max_health, 1);
}

#[test]
fn minimum_destructible_converts_all_walls() {
    let mut bricks = vec![wall(0, 0), BrickData::normal(1, 0), wall(2, 0)];
    ensure_minimum_destructible(&mut bricks);
    assert!(bricks.iter().all(|b| b.kind == BrickKind::Normal));
    let mut ok = vec![BrickData::normal(0, 0), BrickData::normal(1, 0), BrickData::normal(2, 0), wall(3, 0)];
    ensure_minimum_destructible(&mut ok);
    assert_eq!(ok[3].kind, BrickKind::Invincible);
    let mut empty: Vec<BrickData> = Vec::new();
    ensure_minimum_destructible(&mut empty);
    assert!(empty.is_empty());
}

#[test]
fn destructible_count_skips_walls() {
    let mut bricks: Vec<BrickData> = (0..6).map(|i| BrickData::normal(i, 0)).collect();
    bricks[1].kind = BrickKind::Invincible;
    bricks[4].kind = BrickKind::Invincible;
    assert_eq!(destructible_count(&bricks), 4);
    assert_eq!(destructible_count(&Vec::new()), 0);
}

#[test]
fn lost_drop_goes_to_the_picked_eligible_brick() {
    let mut carrier = BrickData::normal(1, 0);
    carrier.powerup_chance_bits = 0.3f32.to_bits();
    let mut bricks = vec![BrickData::normal(0, 0), wall(2, 0), carrier, BrickData::normal(3, 0), BrickData::normal(4, 0)];
    give_lost_drop(&mut bricks, 1);
    // eligible in order: index 0 and index 3 (index 2 has a drop, index 1 is a wall)
    assert_eq!(bricks[3].powerup_chance_bits, CHANCE_SEVENTY_PERCENT_BITS);
    assert_eq!(bricks[0].powerup_chance_bits, 0.0f32.to_bits());
    assert_eq!(bricks[2].powerup_chance_bits, 0.3f32.to_bits());
}

#[test]
fn trapped_sweep_is_deterministic_per_seed() {
    let mut trapped = BrickData::normal(0, 0);
    trapped.powerup_chance_bits = 0.5f32.to_bits();
    let level = vec![trapped, wall(1, 0), wall(0, 1), wall(1, 1), BrickData::normal(2, 0), BrickData::normal(2, 1), BrickData::normal(2, 2)];
    for seed in 0..8u64 {
        let mut a = level.clone();
        let mut b = level.clone();
        remove_trapped_bricks(&mut a, 3, 3, &mut ChaCha8Rng::seed_from_u64(seed));
        remove_trapped_bricks(&mut b, 3, 3, &mut ChaCha8Rng::seed_from_u64(seed));
        let key = |v: &Vec<BrickData>| v.iter().map(|x| (x.col, x.row, x.powerup_chance_bits)).collect::<Vec<_>>();
        assert_eq!(key(&a), key(&b));
        assert_eq!(a.iter().filter(|x| x.powerup_chance_bits == CHANCE_SEVENTY_PERCENT_BITS).count(), 1);
    }
}
