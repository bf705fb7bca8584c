use metanoid_procgen::level::grid::BrickGrid;

#[test]
fn new_empty() {
    let g = BrickGrid::new(5, 3);
    assert_eq!(g.count_filled(), 0);
    assert_eq!(g.cols, 5);
    assert_eq!(g.rows, 3);
}

#[test]
fn filled_count() {
    let g = BrickGrid::filled(4, 3);
    assert_eq!(g.count_filled(), 12);
}

#[test]
fn set_get() {
    let mut g = BrickGrid::new(3, 3);
    g.set(1, 1, true);
    assert!(g.get(1, 1));
    assert!(!g.get(0, 0));
}

#[test]
fn mirror_horizontal_symmetry() {
    let mut g = BrickGrid::new(4, 3);
    g.set(0, 0, true);
    g.set(1, 0, true);
    g.mirror_horizontal();
    assert!(g.get(0, 2));
    assert!(g.get(1, 2));
}

#[test]
fn mirror_vertical_symmetry() {
    let mut g = BrickGrid::new(4, 3);
    g.set(0, 0, true);
    g.set(0, 1, true);
    g.mirror_vertical();
    assert!(g.get(3, 0));
    assert!(g.get(3, 1));
}

#[test]
fn get_outside_is_empty_and_set_outside_is_ignored() {
    let mut g = BrickGrid::filled(2, 2);
    assert!(!g.get(2, 0));
    assert!(!g.get(0, 2));
    g.set(5, 5, false);
    assert_eq!(g.count_filled(), 4);
    assert_eq!(g.cells, vec![true; 4]);
}

#[test]
fn set_writes_row_major_slot() {
    let mut g = BrickGrid::new(3, 2);
    g.set(2, 1, true);
    assert_eq!(g.cells, vec![false, false, false, false, false, true]);
}

#[test]
fn mirror_horizontal_odd_rows_keeps_middle_and_copies_top() {
    let mut g = BrickGrid::new(2, 5);
    g.set(0, 0, true);
    g.set(1, 1, true);
    g.set(0, 2, true);
    g.set(1, 4, true); // overwritten by the reflection of row 0
    g.mirror_horizontal();
    for r in 0..5 {
        for c in 0..2 {
            assert_eq!(g.get(c, r), g.get(c, 4 - r), "cell {c},{r}");
        }
    }
    assert!(g.get(0, 2));
    assert!(g.get(0, 4));
    assert!(!g.get(1, 4));
    assert!(g.get(1, 3));
}

#[test]
fn mirror_is_idempotent() {
    let mut g = BrickGrid::new(5, 4);
    g.set(0, 0, true);
    g.set(1, 3, true);
    g.set(4, 1, true);
    g.mirror_both();
    let once = g.clone();
    g.mirror_both();
    assert_eq!(g, once);
    for r in 0..4 {
        for c in 0..5 {
            assert_eq!(g.get(c, r), g.get(4 - c, r));
            assert_eq!(g.get(c, r), g.get(c, 3 - r));
        }
    }
}

#[test]
fn mirror_vertical_exact_result() {
    let mut g = BrickGrid::new(3, 1);
    g.set(0, 0, true);
    g.mirror_vertical();
    assert_eq!(g.cells, vec![true, false, true]);
}
