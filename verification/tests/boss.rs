use metanoid_procgen::difficulty::boss::{cap_boss_invincible, has_open_side};
use metanoid_procgen::level::data::{BrickData, BrickKind};

#[test]
fn open_side_detection() {
    let bricks = vec![BrickData::normal(0, 0), BrickData::normal(1, 0), BrickData::normal(2, 0)];
    assert!(!has_open_side(&bricks, 1, 0));
    assert!(has_open_side(&bricks, 2, 0));
    assert!(has_open_side(&bricks, 0, 0));
}

#[test]
fn boss_invincible_cap() {
    let mut bricks: Vec<BrickData> = (0..10)
        .map(|i| {
            let mut b = BrickData::normal(i, 0);
            if i < 5 {
                b.kind = BrickKind::Invincible;
            }
            b
        })
        .collect();
    cap_boss_invincible(&mut bricks);
    // cap = max(10 / 5, 2) = 2: the first three walls become 4-hit bricks
    let walls = bricks.iter().filter(|b| b.kind == BrickKind::Invincible).count();
    assert_eq!(walls, 2);
    assert_eq!(bricks[0].kind, BrickKind::MultiHit);
    assert_eq!(bricks[0].health, 4);
    assert_eq!(bricks[2].max_health, 4);
    assert_eq!(bricks[3].kind, BrickKind::Invincible);
}

use metanoid_procgen::difficulty::boss::{harden_boss_bricks, stamp_boss_signature};
use metanoid_procgen::level::data::SpecialType;
use rand::SeedableRng;
use rand_chacha::ChaCha8Rng;

fn boss_wall(cols: usize, rows: usize) -> Vec<BrickData> {
    let mut bricks = Vec::new();
    for r in 0..rows {
        for c in 0..cols {
            bricks.push(BrickData::normal(c, r));
        }
    }
    bricks
}

#[test]
fn hardening_keeps_walls_and_bounds_health() {
    for seed in 0..20u64 {
        let mut bricks = boss_wall(10, 6);
        bricks[0].kind = BrickKind::Invincible;
        let mut rng = ChaCha8Rng::seed_from_u64(seed);
        harden_boss_bricks(&mut bricks, 1, 2, &mut rng);
        assert_eq!(bricks.len(), 60);
        assert_eq!(bricks[0].kind, BrickKind::Invincible);
        assert_eq!(bricks[0].health, 1);
        for b in &bricks[1..] {
            assert!(b.kind != BrickKind::Invincible);
            assert!(b.health >= 1 && b.health <= 6);
            assert_eq!(b.health, b.max_health);
            if b.kind == BrickKind::Explosive {
                assert!(b.health == 1 || b.special == SpecialType::Regenerating);
            }
        }
        // the escort asks for at least four movers
        let movers = bricks.iter().filter(|b| b.special == SpecialType::Moving).count();
        assert!(movers >= 4);
    }
}

#[test]
fn boss_multi_hit_health_caps_at_six() {
    let mut bricks = boss_wall(8, 5);
    let mut rng = ChaCha8Rng::seed_from_u64(11);
    harden_boss_bricks(&mut bricks, 40, 0, &mut rng);
    assert!(bricks.iter().all(|b| b.health <= 6));
}

#[test]
fn small_boss_level_is_not_stamped() {
    let mut bricks = boss_wall(5, 5);
    let before = bricks.clone();
    let mut rng = ChaCha8Rng::seed_from_u64(1);
    stamp_boss_signature(&mut bricks, 5, 5, &mut rng);
    assert!(bricks.iter().zip(before.iter()).all(|(a, b)| a.kind == b.kind && a.health == b.health));
}

#[test]
fn stamp_reinforces_the_centre_and_caps_walls() {
    for seed in 0..20u64 {
        let mut bricks = boss_wall(12, 9);
        for b in bricks.iter_mut().take(40) {
            b.kind = BrickKind::Invincible;
        }
        let mut rng = ChaCha8Rng::seed_from_u64(seed);
        stamp_boss_signature(&mut bricks, 12, 9, &mut rng);
        let walls = bricks.iter().filter(|b| b.kind == BrickKind::Invincible).count();
        assert!(walls <= 108 / 5);
        let reinforced = bricks
            .iter()
            .filter(|b| b.kind == BrickKind::MultiHit && b.health >= 3)
            .count();
        assert!(reinforced > 0);
    }
}
