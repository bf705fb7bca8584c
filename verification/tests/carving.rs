use metanoid_procgen::level::data::{BrickData, BrickKind};
use metanoid_procgen::level::layers::brick_type::hash_pair;
use metanoid_procgen::level::layers::carving::{
    occupancy_grid, propagate_all_explosions, propagate_explosion_reachability, retain_reachable_bricks,
};

#[test]
fn explosion_reaches_occupied_neighbours_only() {
    // 3x3, everything occupied except the top-right corner
    let occupied = vec![true, true, false, true, true, true, true, true, true];
    let mut reach = vec![false; 9];
    propagate_explosion_reachability(&mut reach, &occupied, 1, 1, 3, 3);
    assert_eq!(reach, vec![true, true, false, true, false, true, true, true, true]);
}

#[test]
fn explosion_at_corner_stays_in_grid() {
    let occupied = vec![true; 4];
    let mut reach = vec![false; 4];
    propagate_explosion_reachability(&mut reach, &occupied, 0, 0, 2, 2);
    assert_eq!(reach, vec![false, true, true, true]);
}

#[test]
fn occupancy_and_explosions_over_bricks() {
    let mut bomb = BrickData::normal(0, 0);
    bomb.kind = BrickKind::Explosive;
    let bricks = vec![bomb, BrickData::normal(1, 0), BrickData::normal(2, 1)];
    let occ = occupancy_grid(&bricks, 3, 2);
    assert_eq!(occ, vec![true, true, false, false, false, true]);
    let mut reach = vec![false; 6];
    propagate_all_explosions(&mut reach, &occ, &bricks, 3, 2);
    assert_eq!(reach, vec![false, true, false, false, false, false]);
}

#[test]
fn retain_keeps_walls_and_reachable() {
    let mut wall = BrickData::normal(0, 0);
    wall.kind = BrickKind::Invincible;
    let mut bricks = vec![wall, BrickData::normal(1, 0), BrickData::normal(0, 1)];
    let reach = vec![false, false, true, false];
    retain_reachable_bricks(&mut bricks, 2, 2, &reach);
    let cells: Vec<(usize, usize)> = bricks.iter().map(|b| (b.col, b.row)).collect();
    assert_eq!(cells, vec![(0, 0), (0, 1)]);
}

#[test]
fn hash_pair_exact_values() {
    assert_eq!(hash_pair(0, 0), 0);
    assert_eq!(hash_pair(0, 5), 5);
    let h = 0x517c_c1b7_2722_0a95u64;
    assert_eq!(hash_pair(1, 0), h ^ (h >> 31));
    let h2 = 2u64.wrapping_mul(0x517c_c1b7_2722_0a95).wrapping_add(7);
    assert_eq!(hash_pair(2, 7), h2 ^ (h2 >> 31));
}
