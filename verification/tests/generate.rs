use metanoid_procgen::level::data::{BrickData, SpecialType};
use metanoid_procgen::level::generate::{
    free_run_cells, free_vertical_cells, horizontal_clearance, promote_moving_bricks, sanitize_movers,
};
use metanoid_procgen::seed::hierarchy::MasterSeed;

#[test]
fn free_run_detects_neighbors() {
    let bricks = vec![BrickData::normal(2, 0), BrickData::normal(5, 0)];
    // col 2: free right until col 5 => 2 empty cells (3,4)
    let (l, r) = free_run_cells(&bricks, 2, 0);
    assert_eq!(l, 2); // 0,1 empty if we allow - actually col 1 and 0 empty
    assert_eq!(r, 2); // 3,4
    let (l5, r5) = free_run_cells(&bricks, 5, 0);
    assert_eq!(l5, 2);
    assert!(r5 >= 1);
}

#[test]
fn free_run_right_stops_four_past_last_column() {
    let bricks = vec![BrickData::normal(5, 0)];
    assert_eq!(free_run_cells(&bricks, 5, 0), (5, 4));
    assert_eq!(free_run_cells(&[], 3, 0), (3, 4));
}

#[test]
fn free_run_right_is_capped_at_21() {
    let bricks = vec![BrickData::normal(0, 0), BrickData::normal(40, 3)];
    assert_eq!(free_run_cells(&bricks, 0, 0), (0, 21));
}

#[test]
fn free_vertical_counts_column() {
    let bricks = vec![BrickData::normal(1, 0), BrickData::normal(1, 3), BrickData::normal(0, 5)];
    assert_eq!(free_vertical_cells(&bricks, 1, 3), (2, 6));
    assert_eq!(free_vertical_cells(&bricks, 0, 5), (5, 4));
}

#[test]
fn clearance_flags() {
    let bricks = vec![BrickData::normal(0, 0), BrickData::normal(1, 0)];
    assert_eq!(horizontal_clearance(&bricks, 0, 0), (false, true));
    assert_eq!(horizontal_clearance(&bricks, 1, 0), (true, false));
    assert_eq!(horizontal_clearance(&bricks, 2, 0), (true, false));
    assert_eq!(horizontal_clearance(&bricks, 5, 0), (false, false));
    assert_eq!(horizontal_clearance(&bricks, 0, 1), (false, false));
}

#[test]
fn sanitize_demotes_boxed_in_movers() {
    let mut a = BrickData::normal(0, 0);
    a.special = SpecialType::Moving;
    let mut boxed = BrickData::normal(1, 0);
    boxed.special = SpecialType::Moving;
    let mut bricks = vec![a, boxed, BrickData::normal(2, 0), BrickData::normal(3, 0), BrickData::normal(4, 0), BrickData::normal(5, 0), BrickData::normal(6, 0), BrickData::normal(7, 0), BrickData::normal(8, 0), BrickData::normal(9, 0)];
    // cap = 9 + 4, so every brick has room right of column 9 only; cols 0..9 are packed.
    sanitize_movers(&mut bricks);
    assert_eq!(bricks[0].special, SpecialType::Plain);
    assert_eq!(bricks[1].special, SpecialType::Plain);
    let mut free = BrickData::normal(9, 1);
    free.special = SpecialType::Moving;
    let mut alone = vec![free];
    sanitize_movers(&mut alone);
    assert_eq!(alone[0].special, SpecialType::Moving);
}

#[test]
fn promote_picks_requested_number_of_candidates() {
    let mut bricks: Vec<BrickData> = (0..6).map(|i| BrickData::normal(i * 2, 0)).collect();
    let mut rng = MasterSeed(3).galaxy(0).biome(0).level(0).rng();
    promote_moving_bricks(&mut bricks, 2, &mut rng);
    assert_eq!(bricks.iter().filter(|b| b.special == SpecialType::Moving).count(), 2);
    promote_moving_bricks(&mut bricks, 10, &mut rng);
    assert_eq!(bricks.iter().filter(|b| b.special == SpecialType::Moving).count(), 6);
}
