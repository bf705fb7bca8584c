use metanoid_procgen::level::data::BrickData;
use metanoid_procgen::level::layers::specials::teleport_partner;

#[test]
fn partner_is_first_far_candidate() {
    let bricks = vec![
        BrickData::normal(0, 0),
        BrickData::normal(1, 1),
        BrickData::normal(3, 0),
        BrickData::normal(0, 4),
    ];
    assert_eq!(teleport_partner(&bricks, &[1, 2, 3], 0, 0), Some(1));
    assert_eq!(teleport_partner(&bricks, &[3, 2], 0, 0), Some(0));
    assert_eq!(teleport_partner(&bricks, &[1], 0, 0), None);
    assert_eq!(teleport_partner(&bricks, &[], 0, 0), None);
}

use metanoid_procgen::level::data::{BrickKind, SpecialType};
use metanoid_procgen::level::layers::specials::place_specials;
use rand::SeedableRng;
use rand_chacha::ChaCha8Rng;

fn wall_of_bricks(cols: usize, rows: usize) -> Vec<BrickData> {
    let mut bricks = Vec::new();
    for r in 0..rows {
        for c in 0..cols {
            bricks.push(BrickData::normal(c, r));
        }
    }
    bricks
}

#[test]
fn teleports_come_in_far_pairs() {
    for seed in 0..40u64 {
        let mut bricks = wall_of_bricks(12, 6);
        bricks[5].kind = BrickKind::Invincible;
        let before = bricks.clone();
        let mut rng = ChaCha8Rng::seed_from_u64(seed);
        place_specials(&mut bricks, 12, 10, &mut rng);
        let changed: Vec<usize> = (0..bricks.len())
            .filter(|&i| bricks[i].special != before[i].special)
            .collect();
        assert!(changed.len() <= 20);
        assert_eq!(bricks[5].special, SpecialType::Plain);
        let teleports: Vec<&BrickData> =
            bricks.iter().filter(|b| b.special == SpecialType::Teleport).collect();
        assert_eq!(teleports.len() % 2, 0);
        for t in &teleports {
            let far = teleports.iter().any(|o| {
                o.col.abs_diff(t.col) + o.row.abs_diff(t.row) >= 3
            });
            assert!(far);
        }
        for (a, b) in before.iter().zip(bricks.iter()) {
            assert_eq!((a.col, a.row, a.kind, a.health), (b.col, b.row, b.kind, b.health));
        }
    }
}

#[test]
fn zero_budget_places_nothing() {
    let mut bricks = wall_of_bricks(6, 3);
    let before = bricks.clone();
    let mut rng = ChaCha8Rng::seed_from_u64(7);
    place_specials(&mut bricks, 6, 0, &mut rng);
    assert!(bricks.iter().zip(before.iter()).all(|(a, b)| a.special == b.special));
}

#[test]
fn specials_spend_the_budget_on_a_large_wall() {
    let mut bricks = wall_of_bricks(14, 8);
    let mut rng = ChaCha8Rng::seed_from_u64(3);
    place_specials(&mut bricks, 14, 6, &mut rng);
    let special = bricks.iter().filter(|b| b.special != SpecialType::Plain).count();
    assert!(special >= 1);
    assert!(special <= 12);
}
