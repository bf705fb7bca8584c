use metanoid_procgen::level::data::{BrickData, BrickKind};
use metanoid_procgen::level::layers::powerups::{drop_chance_from_roll, seed_powerups};
use rand::SeedableRng;
use rand_chacha::ChaCha8Rng;

#[test]
fn drop_chance_matches_float_arithmetic() {
    for k in [0u32, 1, 2, 3, 1000, 8_388_607, 8_388_608, 16_777_213, 16_777_214, 16_777_215] {
        let u = k as f32 * (1.0 / 16_777_216.0);
        let expected = 0.5f32 + u * 0.5;
        assert_eq!(drop_chance_from_roll(k), expected.to_bits(), "roll {k}");
    }
    assert_eq!(drop_chance_from_roll(0), 0.5f32.to_bits());
    assert_eq!(drop_chance_from_roll(16_777_215), 1.0f32.to_bits());
}

#[test]
fn pity_timer_never_skips_eight() {
    for seed in 0..30u64 {
        let mut bricks: Vec<BrickData> = (0..60).map(|i| BrickData::normal(i % 12, i / 12)).collect();
        bricks[10].kind = BrickKind::Invincible;
        let mut rng = ChaCha8Rng::seed_from_u64(seed);
        seed_powerups(&mut bricks, 0, &mut rng);
        assert_eq!(bricks[10].powerup_chance_bits, 0);
        let mut dry = 0;
        for b in &bricks {
            if b.kind == BrickKind::Invincible {
                continue;
            }
            if b.powerup_chance_bits != 0 {
                let v = f32::from_bits(b.powerup_chance_bits);
                assert!((0.5..=1.0).contains(&v));
                dry = 0;
            } else {
                dry += 1;
            }
            assert!(dry < 8);
        }
    }
}

#[test]
fn zero_base_chance_drops_on_every_eighth() {
    let mut bricks: Vec<BrickData> = (0..24).map(|i| BrickData::normal(i, 0)).collect();
    let mut rng = ChaCha8Rng::seed_from_u64(2);
    seed_powerups(&mut bricks, 0, &mut rng);
    let drops: Vec<usize> = (0..24).filter(|&i| bricks[i].powerup_chance_bits != 0).collect();
    assert_eq!(drops, vec![7, 15, 23]);
}
