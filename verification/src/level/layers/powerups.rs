//! Power-up seeding with a pity timer: a breakable brick drops a power-up
//! with a base chance, and never more than seven breakable bricks in a row
//! go without one.
use vstd::prelude::*;
use crate::level::data::BrickData;
use crate::random::{after_roll, roll_below, roll_value, unit_roll, UNIT_ROLL_STEPS};
use rand_chacha::ChaCha8Rng;

verus! {

/// Breakable bricks in a row without a drop after which the next one is
/// sure to drop.
pub const PITY_THRESHOLD: usize = 8;

/// Single-precision bit patterns of the drop chances `0.5` and `1.0`.
pub const DROP_CHANCE_MIN_BITS: u32 = 0x3f00_0000;
pub const DROP_CHANCE_MAX_BITS: u32 = 0x3f80_0000;

/// The single-precision bits of `0.5 + u * 0.5` for the unit roll
/// `u = k * 2^-24`: the exact sum `(2^24 + k) * 2^-25` rounded to the
/// nearest multiple of `2^-24`, ties to even, as IEEE-754 addition does.
pub open spec fn drop_chance_bits(k: u32) -> u32 {
    let n = UNIT_ROLL_STEPS + k;
    (0x3e80_0000 + n / 2 + (if n % 2 == 1 && (n / 2) % 2 == 1 { 1int } else { 0int })) as u32
}

/// The drop chance a unit roll `k` gives, as single-precision bits.
pub fn drop_chance_from_roll(k: u32) -> (bits: u32)
    requires
        k < UNIT_ROLL_STEPS,
    ensures
        bits == drop_chance_bits(k),
        DROP_CHANCE_MIN_BITS <= bits <= DROP_CHANCE_MAX_BITS,
{
    let n = UNIT_ROLL_STEPS + k;
    let half = n / 2;
    let round_up: u32 = if n % 2 == 1 && half % 2 == 1 { 1 } else { 0 };
    0x3e80_0000 + half + round_up
}

/// Breakable bricks since the last drop among the first `n` bricks (`drops`
/// marks the bricks that got one).
pub open spec fn dry_run(s: Seq<BrickData>, drops: Seq<bool>, n: int) -> nat
    decreases n,
{
    if n <= 0 {
        0
    } else if !s[n - 1].destructible() {
        dry_run(s, drops, n - 1)
    } else if drops[n - 1] {
        0
    } else {
        dry_run(s, drops, n - 1) + 1
    }
}

/// `t` is `s` with at most its drop chance changed.
pub open spec fn same_but_chance(s: BrickData, t: BrickData) -> bool {
    &&& t.col == s.col
    &&& t.row == s.row
    &&& t.kind == s.kind
    &&& t.health == s.health
    &&& t.max_health == s.max_health
    &&& t.special == s.special
}

/// What seeding did: the bricks marked in `drops` are breakable and got a
/// drop chance between `0.5` and `1.0`; all others are unchanged.
pub open spec fn seeded(s: Seq<BrickData>, t: Seq<BrickData>, drops: Seq<bool>) -> bool {
    &&& t.len() == s.len()
    &&& drops.len() == s.len()
    &&& forall|i: int| 0 <= i < s.len() ==> #[trigger] same_but_chance(s[i], t[i])
    &&& forall|i: int| 0 <= i < s.len() && !#[trigger] drops[i] ==> t[i] == s[i]
    &&& forall|i: int|
        0 <= i < s.len() && #[trigger] drops[i] ==> s[i].destructible() && DROP_CHANCE_MIN_BITS
            <= t[i].powerup_chance_bits <= DROP_CHANCE_MAX_BITS
}

/// Seeding over the first `i` bricks of `s` with the generator in state
/// `rng`: the bricks afterwards, the breakable bricks since the last drop,
/// and the generator state. Each breakable brick takes a roll against the
/// base chance (certain once it is the eighth without a drop); a drop takes
/// a second roll for its chance.
pub open spec fn powerup_run(s: Seq<BrickData>, base_roll: u32, i: nat, rng: ChaCha8Rng) -> (Seq<BrickData>, nat, ChaCha8Rng)
    decreases i,
{
    if i == 0 {
        (s, 0, rng)
    } else {
        let prev = powerup_run(s, base_roll, (i - 1) as nat, rng);
        let b = s[i - 1];
        if !b.destructible() {
            prev
        } else {
            let since = prev.1 + 1;
            let threshold = if since >= PITY_THRESHOLD { UNIT_ROLL_STEPS } else { base_roll };
            if roll_value(prev.2) < threshold {
                let r1 = after_roll(prev.2);
                (
                    prev.0.update(i - 1, BrickData { powerup_chance_bits: drop_chance_bits(roll_value(r1)), ..b }),
                    0,
                    after_roll(r1),
                )
            } else {
                (prev.0, since, after_roll(prev.2))
            }
        }
    }
}

/// Seeds power-ups: each breakable brick, in order, drops one with chance
/// `base_roll / 2^24`, or surely once it is the eighth in a row without a
/// drop; a dropping brick gets a drop chance drawn uniformly from `0.5..1`.
pub fn seed_powerups(bricks: &mut Vec<BrickData>, base_roll: u32, rng: &mut ChaCha8Rng)
    ensures
        exists|drops: Seq<bool>|
            #[trigger] seeded(old(bricks)@, final(bricks)@, drops) && forall|n: int|
                0 <= n <= old(bricks)@.len() ==> #[trigger] dry_run(old(bricks)@, drops, n) < PITY_THRESHOLD,
        final(bricks)@ == powerup_run(old(bricks)@, base_roll, old(bricks)@.len(), *old(rng)).0,
        *final(rng) == powerup_run(old(bricks)@, base_roll, old(bricks)@.len(), *old(rng)).2,
{
    let ghost s = bricks@;
    let ghost rng0 = *rng;
    let ghost mut drops: Seq<bool> = Seq::empty();
    let mut since: usize = 0;
    let mut i: usize = 0;
    while i < bricks.len()
        invariant
            bricks@.len() == s.len(),
            0 <= i <= s.len(),
            drops.len() == i,
            since == dry_run(s, drops, i as int),
            since < PITY_THRESHOLD,
            forall|n: int| 0 <= n <= i ==> #[trigger] dry_run(s, drops, n) < PITY_THRESHOLD,
            forall|j: int| 0 <= j < s.len() ==> #[trigger] same_but_chance(s[j], bricks@[j]),
            forall|j: int| 0 <= j < i && !#[trigger] drops[j] ==> bricks@[j] == s[j],
            forall|j: int| i <= j < s.len() ==> #[trigger] bricks@[j] == s[j],
            forall|j: int|
                0 <= j < i && #[trigger] drops[j] ==> s[j].destructible() && DROP_CHANCE_MIN_BITS
                    <= bricks@[j].powerup_chance_bits <= DROP_CHANCE_MAX_BITS,
            bricks@ == powerup_run(s, base_roll, i as nat, rng0).0,
            since == powerup_run(s, base_roll, i as nat, rng0).1,
            *rng == powerup_run(s, base_roll, i as nat, rng0).2,
        decreases s.len() - i,
    {
        let b = bricks[i];
        let ghost prev = drops;
        let ghost since0 = since;
        assert(b == s[i as int]);
        if !b.is_destructible() {
            proof {
                drops = drops.push(false);
            }
        } else {
            since = since + 1;
            let threshold = if since >= PITY_THRESHOLD { UNIT_ROLL_STEPS } else { base_roll };
            if roll_below(rng, threshold) {
                let k = unit_roll(rng);
                let mut nb = b;
                nb.powerup_chance_bits = drop_chance_from_roll(k);
                bricks.set(i, nb);
                since = 0;
                proof {
                    drops = drops.push(true);
                }
            } else {
                proof {
                    drops = drops.push(false);
                }
            }
        }
        proof {
            assert forall|n: int| 0 <= n <= i implies #[trigger] dry_run(s, drops, n) == dry_run(s, prev, n) by {
                lemma_dry_run_prefix(s, prev, drops, n);
            }
            assert(drops[i as int] == (b.destructible() && since == 0));
            assert(dry_run(s, drops, i as int) == since0);
            assert(dry_run(s, drops, i + 1) == since);
            assert(bricks@ =~= powerup_run(s, base_roll, (i + 1) as nat, rng0).0);
        }
        i = i + 1;
    }
    proof {
        assert(seeded(s, bricks@, drops));
    }
}

/// The dry run over the first `n` bricks only looks at the first `n` drop
/// marks.
proof fn lemma_dry_run_prefix(s: Seq<BrickData>, a: Seq<bool>, b: Seq<bool>, n: int)
    requires
        0 <= n <= a.len(),
        a.len() <= b.len(),
        forall|j: int| 0 <= j < a.len() ==> a[j] == b[j],
    ensures
        dry_run(s, a, n) == dry_run(s, b, n),
    decreases n,
{
    if n > 0 {
        lemma_dry_run_prefix(s, a, b, n - 1);
    }
}

} // verus!
