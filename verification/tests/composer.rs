use metanoid_procgen::level::composer::{bricks_from_grid, ensure_playable};
use metanoid_procgen::level::data::{BrickData, BrickKind};
use metanoid_procgen::level::grid::BrickGrid;
use metanoid_procgen::seed::hierarchy::MasterSeed;

#[test]
fn grid_cells_become_bricks_in_row_order() {
    let mut g = BrickGrid::new(3, 2);
    g.set(2, 0, true);
    g.set(0, 1, true);
    g.set(1, 1, true);
    let bricks = bricks_from_grid(&g, 3, 2);
    let cells: Vec<(usize, usize)> = bricks.iter().map(|b| (b.col, b.row)).collect();
    assert_eq!(cells, vec![(2, 0), (0, 1), (1, 1)]);
    assert!(bricks.iter().all(|b| b.kind == BrickKind::Normal && b.health == 1));
}

#[test]
fn playable_board_untouched() {
    let mut bricks: Vec<BrickData> = (0..3).map(|i| BrickData::normal(i, 0)).collect();
    let mut rng = MasterSeed(1).galaxy(0).biome(0).rng();
    ensure_playable(&mut bricks, 14, 8, &mut rng);
    assert_eq!(bricks.len(), 3);
}

#[test]
fn empty_board_gets_bricks_in_top_rows() {
    let mut bricks: Vec<BrickData> = Vec::new();
    let mut rng = MasterSeed(2).galaxy(0).biome(0).rng();
    ensure_playable(&mut bricks, 14, 8, &mut rng);
    assert_eq!(bricks.len(), 8);
    for (i, b) in bricks.iter().enumerate() {
        assert!(b.col < 14 && b.row < 4);
        assert_eq!(b.kind, BrickKind::Normal);
        for other in &bricks[..i] {
            assert!(other.col != b.col || other.row != b.row);
        }
    }
}

#[test]
fn tiny_board_falls_back_to_converting_walls() {
    let mut wall = BrickData::normal(0, 0);
    wall.kind = BrickKind::Invincible;
    let mut bricks = vec![wall];
    let mut rng = MasterSeed(3).galaxy(0).biome(0).rng();
    ensure_playable(&mut bricks, 1, 1, &mut rng);
    assert_eq!(bricks.len(), 1);
    assert_eq!(bricks[0].kind, BrickKind::Normal);
}
