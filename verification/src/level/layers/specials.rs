//! Special bricks: movers, regenerators and teleport pairs, handed out to
//! plain breakable bricks from a budget.
use vstd::prelude::*;
use crate::level::data::{BrickData, SpecialType};
use crate::random::{after_below, after_roll, below_value, chacha8_below, roll_below, roll_value};
use rand_chacha::ChaCha8Rng;

verus! {

/// Grid (Manhattan) distance between two cells.
pub open spec fn manhattan(c1: int, r1: int, c2: int, r2: int) -> int {
    (if c1 >= c2 { c1 - c2 } else { c2 - c1 }) + (if r1 >= r2 { r1 - r2 } else { r2 - r1 })
}

/// Candidate `j` is far enough (three cells or more) from `(col, row)` to
/// be the other end of a teleport.
pub open spec fn far_enough(bricks: Seq<BrickData>, j: usize, col: int, row: int) -> bool {
    manhattan(bricks[j as int].col as int, bricks[j as int].row as int, col, row) >= 3
}

/// The first position from `p` on in `cands` of a brick at least three
/// cells from `(col, row)`, if any.
pub open spec fn first_far_from(bricks: Seq<BrickData>, cands: Seq<usize>, col: int, row: int, p: int) -> Option<int>
    decreases cands.len() - p,
{
    if p < 0 || p >= cands.len() {
        None
    } else if far_enough(bricks, cands[p], col, row) {
        Some(p)
    } else {
        first_far_from(bricks, cands, col, row, p + 1)
    }
}

/// The first position in `candidates` of a brick at least three cells from
/// `(col, row)`, if any.
pub fn teleport_partner(bricks: &[BrickData], candidates: &[usize], col: usize, row: usize) -> (pos: Option<usize>)
    requires
        col <= i32::MAX,
        row <= i32::MAX,
        forall|t: int| 0 <= t < candidates@.len() ==> #[trigger] candidates@[t] < bricks@.len(),
        forall|j: int| 0 <= j < bricks@.len() ==> #[trigger] bricks@[j].col <= i32::MAX && bricks@[j].row <= i32::MAX,
    ensures
        match pos {
            Some(p) => p < candidates@.len() && far_enough(bricks@, candidates@[p as int], col as int, row as int)
                && forall|t: int| 0 <= t < p ==> !#[trigger] far_enough(bricks@, candidates@[t], col as int, row as int),
            None => forall|t: int| 0 <= t < candidates@.len() ==> !#[trigger] far_enough(bricks@, candidates@[t], col as int, row as int),
        },
        first_far_from(bricks@, candidates@, col as int, row as int, 0) == (match pos {
            Some(p) => Some(p as int),
            None => None::<int>,
        }),
{
    let mut p: usize = 0;
    while p < candidates.len()
        invariant
            0 <= p <= candidates@.len(),
            col <= i32::MAX,
            row <= i32::MAX,
            forall|t: int| 0 <= t < candidates@.len() ==> #[trigger] candidates@[t] < bricks@.len(),
            forall|j: int| 0 <= j < bricks@.len() ==> #[trigger] bricks@[j].col <= i32::MAX && bricks@[j].row <= i32::MAX,
            forall|t: int| 0 <= t < p ==> !#[trigger] far_enough(bricks@, candidates@[t], col as int, row as int),
            first_far_from(bricks@, candidates@, col as int, row as int, 0) == first_far_from(
                bricks@,
                candidates@,
                col as int,
                row as int,
                p as int,
            ),
        decreases candidates@.len() - p,
    {
        let j = candidates[p];
        let b = bricks[j];
        assert(bricks@[j as int].col <= i32::MAX);
        let dx = b.col as i32 - col as i32;
        let dy = b.row as i32 - row as i32;
        let adx = if dx < 0 { -dx } else { dx };
        let ady = if dy < 0 { -dy } else { dy };
        if adx as i64 + ady as i64 >= 3 {
            assert(far_enough(bricks@, candidates@[p as int], col as int, row as int));
            return Some(p);
        }
        assert(!far_enough(bricks@, candidates@[p as int], col as int, row as int));
        p = p + 1;
    }
    None
}

/// A brick that can take a special: breakable and still plain.
pub open spec fn special_candidate(b: BrickData) -> bool {
    b.special == SpecialType::Plain && b.destructible()
}

/// `t` is `s` with at most its special changed.
pub open spec fn same_but_special(s: BrickData, t: BrickData) -> bool {
    &&& t.col == s.col
    &&& t.row == s.row
    &&& t.kind == s.kind
    &&& t.health == s.health
    &&& t.max_health == s.max_health
    &&& t.powerup_chance_bits == s.powerup_chance_bits
}

/// Brick `i` became a teleport.
pub open spec fn new_teleport(s: Seq<BrickData>, t: Seq<BrickData>, i: int) -> bool {
    t[i].special == SpecialType::Teleport && s[i].special != SpecialType::Teleport
}

/// Every brick that became a teleport is matched with another one, at
/// least three cells away, that is matched back with it.
pub open spec fn teleports_paired(s: Seq<BrickData>, t: Seq<BrickData>, partner: Map<int, int>) -> bool {
    forall|i: int|
        0 <= i < t.len() && #[trigger] new_teleport(s, t, i) ==> {
            let j = partner[i];
            &&& partner.dom().contains(i)
            &&& 0 <= j < t.len()
            &&& j != i
            &&& new_teleport(s, t, j)
            &&& partner.dom().contains(j)
            &&& partner[j] == i
            &&& manhattan(t[i].col as int, t[i].row as int, t[j].col as int, t[j].row as int) >= 3
        }
}

/// Indices whose special differs between `s` and `t`.
pub open spec fn specials_changed(s: Seq<BrickData>, t: Seq<BrickData>) -> Set<int> {
    Set::new(|i: int| 0 <= i < s.len() && t[i].special != s[i].special)
}

/// Chance, in 2^-24 steps, that a candidate on the side walls becomes a mover (0.4).
pub const EDGE_MOVER_ROLL: u32 = 6710887;
/// Chance, in 2^-24 steps, that a candidate in the top two rows regenerates (0.3).
pub const TOP_REGEN_ROLL: u32 = 5033165;

/// `b` with a new special.
pub open spec fn specialised(b: BrickData, special: SpecialType) -> BrickData {
    BrickData { special: special, ..b }
}

/// A brick on a side wall of a grid `cols` wide.
pub open spec fn on_side_wall(b: BrickData, cols: int) -> bool {
    b.col == 0 || (cols > 0 && b.col == cols - 1)
}

/// The special a picked candidate gets, with the generator in state `rng`,
/// and the state afterwards: on a side wall a roll below 0.4 makes it a
/// mover; else in the top two rows a roll below 0.3 makes it regenerate;
/// else a draw below 3 picks mover, regenerator or teleport.
pub open spec fn special_draw(at_edge: bool, at_top: bool, rng: ChaCha8Rng) -> (SpecialType, ChaCha8Rng) {
    if at_edge && roll_value(rng) < EDGE_MOVER_ROLL {
        (SpecialType::Moving, after_roll(rng))
    } else {
        let r1 = if at_edge { after_roll(rng) } else { rng };
        if at_top && roll_value(r1) < TOP_REGEN_ROLL {
            (SpecialType::Regenerating, after_roll(r1))
        } else {
            let r2 = if at_top { after_roll(r1) } else { r1 };
            let pick = below_value(r2, 3);
            (
                if pick == 0 {
                    SpecialType::Moving
                } else if pick == 1 {
                    SpecialType::Regenerating
                } else {
                    SpecialType::Teleport
                },
                after_below(r2, 3),
            )
        }
    }
}

/// One round of special placement: a candidate is drawn and removed from
/// the list, gets its special, and a teleport takes the first far candidate
/// as partner (also removed) or falls back to plain. Gives the bricks, the
/// remaining candidates and the generator state afterwards.
pub open spec fn special_round(bricks: Seq<BrickData>, cands: Seq<usize>, cols: int, rng: ChaCha8Rng) -> (Seq<BrickData>, Seq<usize>, ChaCha8Rng) {
    let n = cands.len() as usize;
    let ci = below_value(rng, n) as int;
    let bi = cands[ci] as int;
    let rest = cands.update(ci, cands.last()).drop_last();
    let b = bricks[bi];
    let drawn = special_draw(on_side_wall(b, cols), b.row <= 1, after_below(rng, n));
    if drawn.0 != SpecialType::Teleport {
        (bricks.update(bi, specialised(b, drawn.0)), rest, drawn.1)
    } else {
        match first_far_from(bricks, rest, b.col as int, b.row as int, 0) {
            Some(p) => {
                let pj = rest[p] as int;
                (
                    bricks.update(bi, specialised(b, SpecialType::Teleport)).update(
                        pj,
                        specialised(bricks[pj], SpecialType::Teleport),
                    ),
                    rest.update(p, rest.last()).drop_last(),
                    drawn.1,
                )
            },
            None => (bricks, rest, drawn.1),
        }
    }
}

/// Up to `rounds` rounds of special placement, stopping early when no
/// candidate is left. Gives the bricks and the generator state afterwards.
pub open spec fn specials_run(bricks: Seq<BrickData>, cands: Seq<usize>, cols: int, rounds: nat, rng: ChaCha8Rng) -> (Seq<BrickData>, ChaCha8Rng)
    decreases rounds,
{
    if rounds == 0 || cands.len() == 0 {
        (bricks, rng)
    } else {
        let next = special_round(bricks, cands, cols, rng);
        specials_run(next.0, next.1, cols, (rounds - 1) as nat, next.2)
    }
}

/// The indices below `i` of bricks that can take a special, in order.
pub open spec fn candidate_indices(s: Seq<BrickData>, i: int) -> Seq<usize>
    decreases i,
{
    if i <= 0 {
        Seq::empty()
    } else if special_candidate(s[i - 1]) {
        candidate_indices(s, i - 1).push((i - 1) as usize)
    } else {
        candidate_indices(s, i - 1)
    }
}

/// Hands out up to `special_budget` specials among the plain breakable
/// bricks, each drawn at random from those still unpicked: a brick on the
/// side walls (column `0` or `cols - 1`) leans to moving, one in the top two
/// rows to regenerating, otherwise moving, regenerating and teleport are
/// equally likely. A teleport takes the first unpicked candidate three or
/// more cells away as its partner, or falls back to plain when there is
/// none.
pub fn place_specials(bricks: &mut Vec<BrickData>, cols: usize, special_budget: usize, rng: &mut ChaCha8Rng)
    requires
        forall|j: int| 0 <= j < old(bricks)@.len() ==> #[trigger] old(bricks)@[j].col <= i32::MAX
            && old(bricks)@[j].row <= i32::MAX,
    ensures
        final(bricks)@.len() == old(bricks)@.len(),
        forall|i: int| 0 <= i < old(bricks)@.len() ==> #[trigger] same_but_special(old(bricks)@[i], final(bricks)@[i]),
        forall|i: int|
            0 <= i < old(bricks)@.len() && #[trigger] final(bricks)@[i].special != old(bricks)@[i].special
                ==> special_candidate(old(bricks)@[i]) && final(bricks)@[i].special != SpecialType::Plain,
        exists|partner: Map<int, int>| teleports_paired(old(bricks)@, final(bricks)@, partner),
        specials_changed(old(bricks)@, final(bricks)@).finite(),
        specials_changed(old(bricks)@, final(bricks)@).len() <= 2 * special_budget,
        final(bricks)@ == specials_run(
            old(bricks)@,
            candidate_indices(old(bricks)@, old(bricks)@.len() as int),
            cols as int,
            special_budget as nat,
            *old(rng),
        ).0,
        *final(rng) == specials_run(
            old(bricks)@,
            candidate_indices(old(bricks)@, old(bricks)@.len() as int),
            cols as int,
            special_budget as nat,
            *old(rng),
        ).1,
{
    let ghost s = bricks@;
    let ghost rng_start = *rng;
    let mut candidates: Vec<usize> = Vec::new();
    let mut i: usize = 0;
    while i < bricks.len()
        invariant
            bricks@ == s,
            0 <= i <= s.len(),
            forall|t: int| 0 <= t < candidates@.len() ==> #[trigger] candidates@[t] < i
                && special_candidate(s[candidates@[t] as int]),
            forall|t1: int, t2: int| 0 <= t1 < t2 < candidates@.len() ==> candidates@[t1] < candidates@[t2],
            candidates@ == candidate_indices(s, i as int),
        decreases s.len() - i,
    {
        if bricks[i].special == SpecialType::Plain && bricks[i].is_destructible() {
            candidates.push(i);
        }
        i = i + 1;
    }
    let ghost target = specials_run(s, candidates@, cols as int, special_budget as nat, rng_start);
    let ghost mut partner: Map<int, int> = Map::empty();
    let ghost mut changed: Set<int> = Set::empty();
    let mut k: usize = 0;
    while k < special_budget && candidates.len() > 0
        invariant
            bricks@.len() == s.len(),
            forall|j: int| 0 <= j < s.len() ==> #[trigger] s[j].col <= i32::MAX && s[j].row <= i32::MAX,
            forall|j: int| 0 <= j < s.len() ==> #[trigger] same_but_special(s[j], bricks@[j]),
            forall|t: int| 0 <= t < candidates@.len() ==> #[trigger] candidates@[t] < s.len()
                && special_candidate(s[candidates@[t] as int])
                && bricks@[candidates@[t] as int] == s[candidates@[t] as int],
            forall|t1: int, t2: int| 0 <= t1 < candidates@.len() && 0 <= t2 < candidates@.len() && t1 != t2
                ==> candidates@[t1] != candidates@[t2],
            forall|j: int|
                0 <= j < s.len() && #[trigger] bricks@[j].special != s[j].special ==> special_candidate(s[j])
                    && bricks@[j].special != SpecialType::Plain,
            teleports_paired(s, bricks@, partner),
            changed == specials_changed(s, bricks@),
            changed.finite(),
            changed.len() <= 2 * k,
            k <= special_budget,
            specials_run(bricks@, candidates@, cols as int, (special_budget - k) as nat, *rng) == target,
        decreases special_budget - k,
    {
        let ghost bricks0 = bricks@;
        let ghost cands0 = candidates@;
        let ghost rng0 = *rng;
        let ghost round = special_round(bricks0, cands0, cols as int, rng0);
        let ci = chacha8_below(rng, candidates.len());
        let bi = candidates[ci];
        let ghost before = candidates@;
        candidates.swap_remove(ci);
        proof {
            assert forall|t: int| 0 <= t < candidates@.len() implies #[trigger] candidates@[t] != bi by {
                if t == ci {
                    assert(candidates@[t] == before.last());
                    assert(before.len() - 1 != ci);
                } else {
                    assert(candidates@[t] == before[t]);
                }
            }
        }
        let b = bricks[bi];
        let at_edge = b.col == 0 || (cols > 0 && b.col == cols - 1);
        let at_top = b.row <= 1;
        let ghost rng1 = *rng;
        let ghost drawn = special_draw(on_side_wall(b, cols as int), b.row <= 1, rng1);
        let mut special = SpecialType::Plain;
        let mut decided = false;
        if at_edge {
            if roll_below(rng, EDGE_MOVER_ROLL) {
                special = SpecialType::Moving;
                decided = true;
            }
        }
        if !decided && at_top {
            if roll_below(rng, TOP_REGEN_ROLL) {
                special = SpecialType::Regenerating;
                decided = true;
            }
        }
        if !decided {
            let pick = chacha8_below(rng, 3);
            special = if pick == 0 {
                SpecialType::Moving
            } else if pick == 1 {
                SpecialType::Regenerating
            } else {
                SpecialType::Teleport
            };
        }
        assert(special == drawn.0 && *rng == drawn.1);
        let ghost cur = bricks@;
        if special == SpecialType::Teleport {
            proof {
                assert forall|j: int| 0 <= j < bricks@.len() implies #[trigger] bricks@[j].col <= i32::MAX
                    && bricks@[j].row <= i32::MAX by {
                    assert(same_but_special(s[j], bricks@[j]));
                }
            }
            let partner_pos = teleport_partner(bricks.as_slice(), candidates.as_slice(), b.col, b.row);
            match partner_pos {
                Some(pi) => {
                    let pj = candidates[pi];
                    let ghost before2 = candidates@;
                    candidates.swap_remove(pi);
                    let mut nb = b;
                    nb.special = SpecialType::Teleport;
                    bricks.set(bi, nb);
                    let mut np = bricks[pj];
                    np.special = SpecialType::Teleport;
                    bricks.set(pj, np);
                    proof {
                        assert(pj != bi);
                        partner = partner.insert(bi as int, pj as int).insert(pj as int, bi as int);
                        assert(!changed.contains(bi as int));
                        assert(!changed.contains(pj as int));
                        changed = changed.insert(bi as int).insert(pj as int);
                        assert(changed =~= specials_changed(s, bricks@));
                        assert forall|t: int| 0 <= t < candidates@.len() implies #[trigger] candidates@[t] != pj by {
                            if t == pi {
                                assert(candidates@[t] == before2.last());
                                assert(before2.len() - 1 != pi);
                            } else {
                                assert(candidates@[t] == before2[t]);
                            }
                        }
                        assert forall|t: int| 0 <= t < candidates@.len() implies #[trigger] candidates@[t] < s.len()
                            && special_candidate(s[candidates@[t] as int])
                            && bricks@[candidates@[t] as int] == s[candidates@[t] as int] by {
                            if t == pi {
                                assert(candidates@[t] == before2.last());
                            } else {
                                assert(candidates@[t] == before2[t]);
                            }
                        }
                        assert forall|t1: int, t2: int| 0 <= t1 < candidates@.len() && 0 <= t2 < candidates@.len() && t1 != t2
                            implies candidates@[t1] != candidates@[t2] by {
                            let o1 = if t1 == pi { before2.len() - 1 } else { t1 };
                            let o2 = if t2 == pi { before2.len() - 1 } else { t2 };
                            assert(candidates@[t1] == before2[o1]);
                            assert(candidates@[t2] == before2[o2]);
                        }
                        assert(teleports_paired(s, bricks@, partner)) by {
                            assert forall|j: int|
                                0 <= j < bricks@.len() && #[trigger] new_teleport(s, bricks@, j) implies {
                                    let q = partner[j];
                                    &&& partner.dom().contains(j)
                                    &&& 0 <= q < bricks@.len()
                                    &&& q != j
                                    &&& new_teleport(s, bricks@, q)
                                    &&& partner.dom().contains(q)
                                    &&& partner[q] == j
                                    &&& manhattan(bricks@[j].col as int, bricks@[j].row as int, bricks@[q].col as int, bricks@[q].row as int) >= 3
                                } by {
                                if j != bi && j != pj {
                                    assert(new_teleport(s, cur, j));
                                    let q = partner[j];
                                    assert(q != bi && q != pj);
                                }
                            }
                        }
                    }
                }
                None => {
                    proof {
                        assert(bricks@ == cur);
                    }
                }
            }
        } else {
            let mut nb = b;
            nb.special = special;
            bricks.set(bi, nb);
            proof {
                assert(!changed.contains(bi as int));
                changed = changed.insert(bi as int);
                assert(changed =~= specials_changed(s, bricks@));
                assert(teleports_paired(s, bricks@, partner)) by {
                    assert forall|j: int|
                        0 <= j < bricks@.len() && #[trigger] new_teleport(s, bricks@, j) implies {
                            let q = partner[j];
                            &&& partner.dom().contains(j)
                            &&& 0 <= q < bricks@.len()
                            &&& q != j
                            &&& new_teleport(s, bricks@, q)
                            &&& partner.dom().contains(q)
                            &&& partner[q] == j
                            &&& manhattan(bricks@[j].col as int, bricks@[j].row as int, bricks@[q].col as int, bricks@[q].row as int) >= 3
                        } by {
                        assert(j != bi);
                        assert(new_teleport(s, cur, j));
                        let q = partner[j];
                        assert(q != bi);
                    }
                }
            }
        }
        assert(bricks@ =~= round.0 && candidates@ =~= round.1 && *rng == round.2);
        k = k + 1;
    }
    proof {
        assert(specials_changed(s, bricks@) == changed);
    }
}

} // verus!
