//! Boss levels: tougher bricks, a mover escort on open cells, a signature
//! fortress stamped in the middle, and the cap that keeps the level
//! clearable.
use vstd::prelude::*;
use crate::random::{chacha8_below, roll_below, unit_roll, below_value, after_below, roll_value, after_roll, chacha8_shuffle_draw};
use crate::level::data::{BrickData, BrickKind, SpecialType};
use crate::level::generate::{make_moving, promoted, shuffled_pick};
use rand_chacha::ChaCha8Rng;
use crate::level::layers::validator::{
    convert_first_invincible, convert_first_invincible_bricks, count_invincible,
    count_invincible_bricks, lemma_count_invincible_le,
};

verus! {

/// No brick sits directly left of `(col, row)`.
pub open spec fn open_left(bricks: Seq<BrickData>, col: int, row: int) -> bool {
    !exists|j: int| 0 <= j < bricks.len() && #[trigger] bricks[j].row == row && bricks[j].col + 1 == col
}

/// No brick sits directly right of `(col, row)`.
pub open spec fn open_right(bricks: Seq<BrickData>, col: int, row: int) -> bool {
    !exists|j: int| 0 <= j < bricks.len() && #[trigger] bricks[j].row == row && bricks[j].col == col + 1
}

/// Whether the cell left or right of `(col, row)` is free.
pub fn has_open_side(bricks: &[BrickData], col: usize, row: usize) -> (open: bool)
    requires
        col < usize::MAX,
        forall|j: int| 0 <= j < bricks@.len() ==> #[trigger] bricks@[j].col < usize::MAX,
    ensures
        open == (open_left(bricks@, col as int, row as int) || open_right(bricks@, col as int, row as int)),
{
    let mut left = true;
    let mut j: usize = 0;
    while j < bricks.len()
        invariant
            0 <= j <= bricks@.len(),
            forall|k: int| 0 <= k < bricks@.len() ==> #[trigger] bricks@[k].col < usize::MAX,
            left == !exists|k: int| 0 <= k < j && #[trigger] bricks@[k].row == row && bricks@[k].col + 1 == col,
        decreases bricks@.len() - j,
    {
        assert(bricks@[j as int].col < usize::MAX);
        if bricks[j].row == row && bricks[j].col + 1 == col {
            left = false;
        }
        j = j + 1;
    }
    let mut right = true;
    j = 0;
    while j < bricks.len()
        invariant
            0 <= j <= bricks@.len(),
            col < usize::MAX,
            right == !exists|k: int| 0 <= k < j && #[trigger] bricks@[k].row == row && bricks@[k].col == col + 1,
        decreases bricks@.len() - j,
    {
        if bricks[j].row == row && bricks[j].col == col + 1 {
            right = false;
        }
        j = j + 1;
    }
    left || right
}

/// Most invincible bricks a boss level keeps: a fifth of its bricks, and at
/// least two.
pub open spec fn boss_invincible_cap(len: nat) -> nat {
    if len / 5 > 2 { len / 5 } else { 2 }
}

/// A boss level with its invincible bricks capped: the first ones beyond
/// the cap (in order) become four-hit multi-hit bricks.
pub open spec fn boss_capped(s: Seq<BrickData>) -> Seq<BrickData> {
    let cap = boss_invincible_cap(s.len());
    if count_invincible(s) > cap {
        convert_first_invincible(s, (count_invincible(s) - cap) as nat, BrickKind::MultiHit, 4)
    } else {
        s
    }
}

/// Caps invincible bricks so the boss level remains clearable.
pub fn cap_boss_invincible(bricks: &mut Vec<BrickData>)
    ensures
        final(bricks)@ == boss_capped(old(bricks)@),
        count_invincible(final(bricks)@) <= boss_invincible_cap(old(bricks)@.len()),
{
    let ghost s = bricks@;
    let inv = count_invincible_bricks(bricks);
    proof {
        lemma_count_invincible_le(s);
    }
    let max_inv = if bricks.len() / 5 > 2 { bricks.len() / 5 } else { 2 };
    if inv > max_inv {
        let excess = inv - max_inv;
        convert_first_invincible_bricks(bricks, excess, BrickKind::MultiHit, 4);
    }
}

/// A brick that may join the boss's mover escort: static, breakable, with a
/// free cell directly beside it.
pub open spec fn escortable(bricks: Seq<BrickData>, i: int) -> bool {
    &&& bricks[i].special == SpecialType::Plain
    &&& bricks[i].destructible()
    &&& (open_left(bricks, bricks[i].col as int, bricks[i].row as int) || open_right(
        bricks,
        bricks[i].col as int,
        bricks[i].row as int,
    ))
}

/// Indices of the bricks that may join the escort.
pub open spec fn escort_set(bricks: Seq<BrickData>) -> Set<usize> {
    Set::new(|i: usize| i < bricks.len() && escortable(bricks, i as int))
}

/// The indices below `i` of the bricks that may join the escort, in order.
pub open spec fn escort_indices(bricks: Seq<BrickData>, i: int) -> Seq<usize>
    decreases i,
{
    if i <= 0 {
        Seq::empty()
    } else if escortable(bricks, i - 1) {
        escort_indices(bricks, i - 1).push((i - 1) as usize)
    } else {
        escort_indices(bricks, i - 1)
    }
}

/// The bricks of `bricks` with the escort drawn from state `rng` made
/// movers (`escort_need` of the candidates, shuffled), and the state the
/// shuffle leaves.
pub open spec fn with_escort(bricks: Seq<BrickData>, moving_brick_count: usize, rng: ChaCha8Rng) -> (Set<usize>, ChaCha8Rng) {
    let cands = escort_indices(bricks, bricks.len() as int);
    (shuffled_pick(cands, escort_need(moving_brick_count), rng), chacha8_shuffle_draw(cands, rng).1)
}

/// The number of movers the escort asks for: the wanted count, at least four.
pub open spec fn escort_need(moving_brick_count: usize) -> usize {
    if moving_brick_count > 4 { moving_brick_count } else { 4 }
}

/// Size of the escort: the wanted number of movers, at least four.
pub open spec fn escort_size(moving_brick_count: nat) -> nat {
    if moving_brick_count > 4 { moving_brick_count } else { 4 }
}

/// Turns a solid escort of open-sided bricks into movers: `max(count, 4)` of
/// them (or all, if fewer), chosen by shuffling the candidates with `rng`.
pub fn assign_boss_escort(bricks: &mut Vec<BrickData>, moving_brick_count: usize, rng: &mut ChaCha8Rng)
    requires
        forall|j: int| 0 <= j < old(bricks)@.len() ==> #[trigger] old(bricks)@[j].col < usize::MAX,
    ensures
        exists|chosen: Set<usize>|
            #![trigger promoted(old(bricks)@, chosen, final(bricks)@)]
            chosen.subset_of(escort_set(old(bricks)@)) && chosen.finite() && chosen.len() == (if escort_size(
                moving_brick_count as nat,
            ) < escort_set(old(bricks)@).len() {
                escort_size(moving_brick_count as nat)
            } else {
                escort_set(old(bricks)@).len()
            }) && promoted(old(bricks)@, chosen, final(bricks)@),
        promoted(old(bricks)@, with_escort(old(bricks)@, moving_brick_count, *old(rng)).0, final(bricks)@),
        *final(rng) == with_escort(old(bricks)@, moving_brick_count, *old(rng)).1,
{
    let ghost s = bricks@;
    let mut candidates: Vec<usize> = Vec::new();
    let mut i: usize = 0;
    while i < bricks.len()
        invariant
            bricks@ == s,
            forall|j: int| 0 <= j < s.len() ==> #[trigger] s[j].col < usize::MAX,
            0 <= i <= s.len(),
            forall|t: int| 0 <= t < candidates@.len() ==> #[trigger] candidates@[t] < i && escortable(s, candidates@[t] as int),
            forall|t1: int, t2: int| 0 <= t1 < t2 < candidates@.len() ==> candidates@[t1] < candidates@[t2],
            forall|k: int| 0 <= k < i && escortable(s, k) ==> #[trigger] candidates@.contains(k as usize),
            candidates@ == escort_indices(s, i as int),
        decreases s.len() - i,
    {
        let b = bricks[i];
        assert(s[i as int].col < usize::MAX);
        let ok = b.special == SpecialType::Plain && b.is_destructible() && has_open_side(bricks.as_slice(), b.col, b.row);
        let ghost before = candidates@;
        if ok {
            candidates.push(i);
            assert(candidates@[candidates@.len() - 1] == i);
        }
        proof {
            assert forall|k: int| 0 <= k < i + 1 && escortable(s, k) implies #[trigger] candidates@.contains(k as usize) by {
                if k < i {
                    assert(before.contains(k as usize));
                    let t = choose|t: int| 0 <= t < before.len() && before[t] == k as usize;
                    assert(candidates@[t] == k as usize);
                } else {
                    assert(candidates@[candidates@.len() - 1] == k as usize);
                }
            }
        }
        i = i + 1;
    }
    let ghost cands = candidates@;
    proof {
        assert(cands.no_duplicates());
        cands.unique_seq_to_set();
        assert(cands.to_set() =~= escort_set(s)) by {
            assert forall|k: usize| escort_set(s).contains(k) implies #[trigger] cands.to_set().contains(k) by {
                assert(escortable(s, k as int));
                assert(cands.contains((k as int) as usize));
            }
        }
    }
    let need = if moving_brick_count > 4 { moving_brick_count } else { 4 };
    make_moving(bricks, candidates, need, rng);
}

/// Hit points of a boss multi-hit brick: three plus the difficulty bonus,
/// at most six.
pub open spec fn boss_multi_hp(bonus: u32) -> u32 {
    if bonus >= 3 { 6 } else { (3 + bonus) as u32 }
}

/// `b` with new kind and hit points (both current and maximum).
pub open spec fn with_hp(b: BrickData, kind: BrickKind, hp: u32) -> BrickData {
    BrickData {
        col: b.col,
        row: b.row,
        kind: kind,
        health: hp,
        max_health: hp,
        special: b.special,
        powerup_chance_bits: b.powerup_chance_bits,
    }
}

/// `b` with a new special.
pub open spec fn with_special(b: BrickData, special: SpecialType) -> BrickData {
    BrickData {
        col: b.col,
        row: b.row,
        kind: b.kind,
        health: b.health,
        max_health: b.max_health,
        special: special,
        powerup_chance_bits: b.powerup_chance_bits,
    }
}

pub open spec fn max_u32(a: u32, b: u32) -> u32 {
    if a >= b { a } else { b }
}

/// The outcomes of the toughening roll on a breakable brick `b`: a boss
/// multi-hit brick, a one-hit explosive, a fresh two- or three-hit brick
/// (single-hit bricks only), two extra hit points up to six (multi-hit
/// bricks only), or no change (single-hit bricks only).
pub open spec fn boss_toughened(b: BrickData, n: BrickData, bonus: u32) -> bool {
    ||| n == with_hp(b, BrickKind::MultiHit, boss_multi_hp(bonus))
    ||| n == with_hp(b, BrickKind::Explosive, 1)
    ||| (b.max_health <= 1 && (n == with_hp(b, BrickKind::MultiHit, 2) || n == with_hp(b, BrickKind::MultiHit, 3)))
    ||| (b.max_health > 1 && n == with_hp(b, b.kind, if b.health >= 4 { 6 } else { (b.health + 2) as u32 }))
    ||| (b.max_health <= 1 && n == b)
}

/// The boss regenerator roll: a plain brick may start regenerating, with at
/// least two hit points.
pub open spec fn boss_regenerated(n: BrickData, m: BrickData) -> bool {
    ||| m == n
    ||| (n.special == SpecialType::Plain && m == with_special(with_hp(n, n.kind, max_u32(n.health, 2)), SpecialType::Regenerating))
}

/// What hardening can make of brick `b`: invincible bricks stay as they
/// are; a breakable one is toughened and may then start regenerating.
pub open spec fn boss_hardened(b: BrickData, m: BrickData, bonus: u32) -> bool {
    if !b.destructible() {
        m == b
    } else {
        exists|n: BrickData| boss_toughened(b, n, bonus) && #[trigger] boss_regenerated(n, m)
    }
}

/// Every brick of `mid` is what hardening can make of the brick of `s` at
/// the same place.
pub open spec fn all_boss_hardened(s: Seq<BrickData>, mid: Seq<BrickData>, bonus: u32) -> bool {
    &&& mid.len() == s.len()
    &&& forall|j: int| 0 <= j < s.len() ==> #[trigger] boss_hardened(s[j], mid[j], bonus)
}

/// The first `i` bricks of `s` each put through `step` in turn, the
/// generator state threaded from one to the next starting at `rng`, and the
/// state after them.
pub open spec fn brickwise(s: Seq<BrickData>, i: nat, rng: ChaCha8Rng, step: spec_fn(BrickData, ChaCha8Rng) -> (BrickData, ChaCha8Rng)) -> (Seq<BrickData>, ChaCha8Rng)
    decreases i,
{
    if i == 0 {
        (Seq::empty(), rng)
    } else {
        let prev = brickwise(s, (i - 1) as nat, rng, step);
        let next = step(s[i - 1], prev.1);
        (prev.0.push(next.0), next.1)
    }
}

/// The brick that hardening makes of `b` when its rolls come from state
/// `rng`, and the state after them: a breakable brick rolls once for its
/// new toughness (a single-hit brick that misses both boss rolls rolls
/// again for a fresh multi-hit brick and, if so, draws two or three hit
/// points), then a plain one rolls for regeneration.
pub open spec fn hardened_brick(b: BrickData, bonus: u32, rng: ChaCha8Rng) -> (BrickData, ChaCha8Rng) {
    if !b.destructible() {
        (b, rng)
    } else {
        let roll = roll_value(rng);
        let r1 = after_roll(rng);
        let tough: (BrickData, ChaCha8Rng) = if roll < BOSS_MULTI_ROLL {
            (with_hp(b, BrickKind::MultiHit, boss_multi_hp(bonus)), r1)
        } else if roll < BOSS_EXPLOSIVE_ROLL {
            (with_hp(b, BrickKind::Explosive, 1), r1)
        } else if b.max_health <= 1 {
            if roll_value(r1) < BOSS_FRESH_MULTI_ROLL {
                let r2 = after_roll(r1);
                (with_hp(b, BrickKind::MultiHit, if below_value(r2, 2) == 0 { 2 } else { 3 }), after_below(r2, 2))
            } else {
                (b, after_roll(r1))
            }
        } else {
            (with_hp(b, b.kind, if b.health >= 4 { 6 } else { (b.health + 2) as u32 }), r1)
        };
        let n = tough.0;
        if n.special == SpecialType::Plain {
            if roll_value(tough.1) < BOSS_REGEN_ROLL {
                (with_special(with_hp(n, n.kind, max_u32(n.health, 2)), SpecialType::Regenerating), after_roll(tough.1))
            } else {
                (n, after_roll(tough.1))
            }
        } else {
            tough
        }
    }
}

/// The bricks of `s` after the hardening rolls drawn from state `rng`, and
/// the state after them.
pub open spec fn hardened_all(s: Seq<BrickData>, bonus: u32, rng: ChaCha8Rng) -> (Seq<BrickData>, ChaCha8Rng) {
    brickwise(s, s.len(), rng, |b: BrickData, r: ChaCha8Rng| hardened_brick(b, bonus, r))
}

/// Rolls, in 2^-24 steps: boss multi-hit (0.45), explosive (below 0.58),
/// a fresh multi-hit for a single-hit brick (0.55), a regenerator (0.12).
pub const BOSS_MULTI_ROLL: u32 = 7549747;
pub const BOSS_EXPLOSIVE_ROLL: u32 = 9730785;
pub const BOSS_FRESH_MULTI_ROLL: u32 = 9227469;
pub const BOSS_REGEN_ROLL: u32 = 2013266;

/// Toughens every breakable brick of a boss level at random (see
/// `boss_toughened`; `health_bonus` is half the average brick health,
/// rounded down), lets some plain ones regenerate, and then turns a mover
/// escort loose on open cells (`assign_boss_escort`).
pub fn harden_boss_bricks(
    bricks: &mut Vec<BrickData>,
    health_bonus: u32,
    moving_brick_count: usize,
    rng: &mut ChaCha8Rng,
)
    requires
        forall|j: int| 0 <= j < old(bricks)@.len() ==> #[trigger] old(bricks)@[j].col < usize::MAX,
    ensures
        exists|mid: Seq<BrickData>|
            #[trigger] all_boss_hardened(old(bricks)@, mid, health_bonus) && exists|chosen: Set<usize>|
                #![trigger promoted(mid, chosen, final(bricks)@)]
                chosen.subset_of(escort_set(mid)) && chosen.finite() && chosen.len() == (if escort_size(
                    moving_brick_count as nat,
                ) < escort_set(mid).len() {
                    escort_size(moving_brick_count as nat)
                } else {
                    escort_set(mid).len()
                }) && promoted(mid, chosen, final(bricks)@),
        promoted(hardened_all(old(bricks)@, health_bonus, *old(rng)).0,
            with_escort(hardened_all(old(bricks)@, health_bonus, *old(rng)).0, moving_brick_count, hardened_all(old(bricks)@, health_bonus, *old(rng)).1).0,
            final(bricks)@),
        *final(rng) == with_escort(hardened_all(old(bricks)@, health_bonus, *old(rng)).0, moving_brick_count, hardened_all(old(bricks)@, health_bonus, *old(rng)).1).1,
{
    let ghost s = bricks@;
    let ghost rng0 = *rng;
    let ghost step = |b: BrickData, r: ChaCha8Rng| hardened_brick(b, health_bonus, r);
    let multi_hp: u32 = if health_bonus >= 3 { 6 } else { 3 + health_bonus };
    let mut i: usize = 0;
    while i < bricks.len()
        invariant
            bricks@.len() == s.len(),
            0 <= i <= s.len(),
            multi_hp == boss_multi_hp(health_bonus),
            forall|j: int| 0 <= j < i ==> #[trigger] boss_hardened(s[j], bricks@[j], health_bonus),
            forall|j: int| i <= j < s.len() ==> #[trigger] bricks@[j] == s[j],
            forall|j: int| 0 <= j < s.len() ==> #[trigger] bricks@[j].col == s[j].col,
            forall|j: int| 0 <= j < s.len() ==> #[trigger] s[j].col < usize::MAX,
            step == (|b: BrickData, r: ChaCha8Rng| hardened_brick(b, health_bonus, r)),
            bricks@.subrange(0, i as int) == brickwise(s, i as nat, rng0, step).0,
            *rng == brickwise(s, i as nat, rng0, step).1,
        decreases s.len() - i,
    {
        let b = bricks[i];
        let ghost before = bricks@;
        let ghost r_before = *rng;
        if b.is_destructible() {
            let mut n = b;
            let roll = unit_roll(rng);
            if roll < BOSS_MULTI_ROLL {
                n.kind = BrickKind::MultiHit;
                n.health = multi_hp;
                n.max_health = multi_hp;
            } else if roll < BOSS_EXPLOSIVE_ROLL {
                n.kind = BrickKind::Explosive;
                n.health = 1;
                n.max_health = 1;
            } else if b.max_health <= 1 {
                if roll_below(rng, BOSS_FRESH_MULTI_ROLL) {
                    let extra = chacha8_below(rng, 2);
                    let hp: u32 = if extra == 0 { 2 } else { 3 };
                    n.health = hp;
                    n.max_health = hp;
                    n.kind = BrickKind::MultiHit;
                }
            } else {
                let hp: u32 = if b.health >= 4 { 6 } else { b.health + 2 };
                n.health = hp;
                n.max_health = hp;
            }
            assert(boss_toughened(b, n, health_bonus));
            let mut m = n;
            if n.special == SpecialType::Plain {
                if roll_below(rng, BOSS_REGEN_ROLL) {
                    let hp: u32 = if n.health >= 2 { n.health } else { 2 };
                    m.special = SpecialType::Regenerating;
                    m.health = hp;
                    m.max_health = hp;
                }
            }
            assert(boss_regenerated(n, m));
            bricks.set(i, m);
        }
        proof {
            assert(b == s[i as int]);
            let nx = hardened_brick(b, health_bonus, r_before);
            assert(bricks@[i as int] == nx.0 && *rng == nx.1);
            let prev = brickwise(s, i as nat, rng0, step);
            assert(step(s[i as int], prev.1) == nx);
            assert(brickwise(s, (i + 1) as nat, rng0, step) == (prev.0.push(nx.0), nx.1));
            assert(bricks@.subrange(0, i + 1) =~= before.subrange(0, i as int).push(bricks@[i as int]));
        }
        i = i + 1;
    }
    assert(bricks@ =~= bricks@.subrange(0, s.len() as int));
    let ghost mid = bricks@;
    assign_boss_escort(bricks, moving_brick_count, rng);
    proof {
        assert(all_boss_hardened(s, mid, health_bonus));
    }
}

/// Cell `(col, row)` lies on the hollow square of side five around
/// `(cx, cy)`.
pub open spec fn on_boss_ring(col: int, row: int, cx: int, cy: int) -> bool {
    ||| ((col == cx - 2 || col == cx + 2) && cy - 2 <= row <= cy + 2)
    ||| ((row == cy - 2 || row == cy + 2) && cx - 2 <= col <= cx + 2)
}

/// Grid distance of `(col, row)` from `(cx, cy)`.
pub open spec fn boss_distance(col: int, row: int, cx: int, cy: int) -> int {
    (if col >= cx { col - cx } else { cx - col }) + (if row >= cy { row - cy } else { cy - row })
}

/// `b` made a multi-hit brick with at least `hp` hit points.
pub open spec fn reinforced(b: BrickData, hp: u32) -> BrickData {
    with_hp(b, BrickKind::MultiHit, max_u32(b.health, hp))
}

/// What the fortress pattern `variant` centred on `(cx, cy)` can make of
/// brick `b`: the hollow square (0) reinforces some of its breakable bricks
/// to four hit points; the cross (1) reinforces every breakable brick on the
/// centre row and column to three; the diamond (2) reinforces every
/// breakable brick three cells away to three, and some of them regenerate.
pub open spec fn boss_stamped(variant: int, cx: int, cy: int, b: BrickData, m: BrickData) -> bool {
    if variant == 0 {
        if on_boss_ring(b.col as int, b.row as int, cx, cy) && b.destructible() {
            m == b || m == reinforced(b, 4)
        } else {
            m == b
        }
    } else if variant == 1 {
        m == (if (b.col == cx || b.row == cy) && b.destructible() { reinforced(b, 3) } else { b })
    } else {
        if boss_distance(b.col as int, b.row as int, cx, cy) == 3 && b.destructible() {
            m == reinforced(b, 3) || m == with_special(reinforced(b, 3), SpecialType::Regenerating)
        } else {
            m == b
        }
    }
}

/// The brick that fortress pattern `variant` centred on `(cx, cy)` makes of
/// `b` when its roll (if it has one) comes from state `rng`, and the state
/// after it: a breakable ring brick of the square rolls for reinforcement, a
/// breakable diamond brick for regeneration.
pub open spec fn stamped_brick(variant: int, cx: int, cy: int, b: BrickData, rng: ChaCha8Rng) -> (BrickData, ChaCha8Rng) {
    if variant == 0 {
        if on_boss_ring(b.col as int, b.row as int, cx, cy) && b.destructible() {
            (if roll_value(rng) < BOSS_RING_ROLL { reinforced(b, 4) } else { b }, after_roll(rng))
        } else {
            (b, rng)
        }
    } else if variant == 1 {
        (if (b.col == cx || b.row == cy) && b.destructible() { reinforced(b, 3) } else { b }, rng)
    } else {
        if boss_distance(b.col as int, b.row as int, cx, cy) == 3 && b.destructible() {
            (if roll_value(rng) < BOSS_DIAMOND_REGEN_ROLL {
                with_special(reinforced(b, 3), SpecialType::Regenerating)
            } else {
                reinforced(b, 3)
            }, after_roll(rng))
        } else {
            (b, rng)
        }
    }
}

/// The bricks of `s` after the fortress drawn from state `rng` (its pattern
/// first, then the bricks' rolls) is stamped centred on `(cx, cy)`, and the
/// state after them.
pub open spec fn stamped_all(s: Seq<BrickData>, cx: int, cy: int, rng: ChaCha8Rng) -> (Seq<BrickData>, ChaCha8Rng) {
    let variant = below_value(rng, 3) as int;
    brickwise(s, s.len(), after_below(rng, 3), |b: BrickData, r: ChaCha8Rng| stamped_brick(variant, cx, cy, b, r))
}

/// Every brick of `mid` is what the fortress pattern can make of the brick
/// of `s` at the same place.
pub open spec fn all_boss_stamped(variant: int, cx: int, cy: int, s: Seq<BrickData>, mid: Seq<BrickData>) -> bool {
    &&& mid.len() == s.len()
    &&& forall|j: int| 0 <= j < s.len() ==> #[trigger] boss_stamped(variant, cx, cy, s[j], mid[j])
}

/// Chance, in 2^-24 steps, that a ring brick is reinforced (0.55).
pub const BOSS_RING_ROLL: u32 = 9227469;
/// Chance, in 2^-24 steps, that a diamond brick regenerates (0.25).
pub const BOSS_DIAMOND_REGEN_ROLL: u32 = 4194304;

fn reinforce(b: BrickData, hp: u32) -> (m: BrickData)
    ensures
        m == reinforced(b, hp),
{
    let mut m = b;
    let h = if b.health >= hp { b.health } else { hp };
    m.kind = BrickKind::MultiHit;
    m.health = h;
    m.max_health = h;
    m
}

/// Stamps a fortress in the middle of a boss level of at least 6 x 5 cells
/// (a hollow square, a cross or a diamond, picked at random; see
/// `boss_stamped`), then caps its invincible bricks (`cap_boss_invincible`).
/// A smaller level is left as it is.
pub fn stamp_boss_signature(bricks: &mut Vec<BrickData>, cols: usize, rows: usize, rng: &mut ChaCha8Rng)
    ensures
        (cols < 6 || rows < 5) ==> final(bricks)@ == old(bricks)@,
        (cols >= 6 && rows >= 5) ==> exists|variant: int, mid: Seq<BrickData>|
            0 <= variant < 3 && #[trigger] all_boss_stamped(
                variant,
                (cols / 2) as int,
                (rows / 2) as int,
                old(bricks)@,
                mid,
            ) && final(bricks)@ == boss_capped(mid),
        (cols < 6 || rows < 5) ==> *final(rng) == *old(rng),
        (cols >= 6 && rows >= 5) ==> final(bricks)@ == boss_capped(stamped_all(old(bricks)@, (cols / 2) as int, (rows / 2) as int, *old(rng)).0),
        (cols >= 6 && rows >= 5) ==> *final(rng) == stamped_all(old(bricks)@, (cols / 2) as int, (rows / 2) as int, *old(rng)).1,
{
    if cols < 6 || rows < 5 {
        return;
    }
    let ghost s = bricks@;
    let cx = cols / 2;
    let cy = rows / 2;
    let variant = chacha8_below(rng, 3);
    let ghost rng1 = *rng;
    let ghost step = |b: BrickData, r: ChaCha8Rng| stamped_brick(variant as int, cx as int, cy as int, b, r);
    let mut i: usize = 0;
    while i < bricks.len()
        invariant
            bricks@.len() == s.len(),
            0 <= i <= s.len(),
            cols >= 6,
            rows >= 5,
            cx == cols / 2,
            cy == rows / 2,
            variant < 3,
            forall|j: int| 0 <= j < i ==> #[trigger] boss_stamped(variant as int, cx as int, cy as int, s[j], bricks@[j]),
            forall|j: int| i <= j < s.len() ==> #[trigger] bricks@[j] == s[j],
            step == (|b: BrickData, r: ChaCha8Rng| stamped_brick(variant as int, cx as int, cy as int, b, r)),
            bricks@.subrange(0, i as int) == brickwise(s, i as nat, rng1, step).0,
            *rng == brickwise(s, i as nat, rng1, step).1,
        decreases s.len() - i,
    {
        let b = bricks[i];
        let ghost before = bricks@;
        let ghost r_before = *rng;
        if variant == 0 {
            let on_ring = ((b.col == cx - 2 || b.col == cx + 2) && b.row >= cy - 2 && b.row <= cy + 2)
                || ((b.row == cy - 2 || b.row == cy + 2) && b.col >= cx - 2 && b.col <= cx + 2);
            if on_ring && b.is_destructible() {
                if roll_below(rng, BOSS_RING_ROLL) {
                    bricks.set(i, reinforce(b, 4));
                }
            }
        } else if variant == 1 {
            if (b.col == cx || b.row == cy) && b.is_destructible() {
                bricks.set(i, reinforce(b, 3));
            }
        } else {
            let dc = if b.col >= cx { b.col - cx } else { cx - b.col };
            let dr = if b.row >= cy { b.row - cy } else { cy - b.row };
            if dc <= 3 && dr <= 3 && dc + dr == 3 && b.is_destructible() {
                let mut m = reinforce(b, 3);
                if roll_below(rng, BOSS_DIAMOND_REGEN_ROLL) {
                    m.special = SpecialType::Regenerating;
                }
                bricks.set(i, m);
            }
        }
        proof {
            assert(b == s[i as int]);
            let nx = stamped_brick(variant as int, cx as int, cy as int, b, r_before);
            assert(bricks@[i as int] == nx.0 && *rng == nx.1);
            let prev = brickwise(s, i as nat, rng1, step);
            assert(step(s[i as int], prev.1) == nx);
            assert(brickwise(s, (i + 1) as nat, rng1, step) == (prev.0.push(nx.0), nx.1));
            assert(bricks@.subrange(0, i + 1) =~= before.subrange(0, i as int).push(bricks@[i as int]));
        }
        i = i + 1;
    }
    assert(bricks@ =~= bricks@.subrange(0, s.len() as int));
    let ghost mid = bricks@;
    cap_boss_invincible(bricks);
    proof {
        assert(all_boss_stamped(variant as int, cx as int, cy as int, s, mid));
    }
}

} // verus!
