//! Reachability bookkeeping for negative-space carving: bricks the ball can
//! reach, directly or through a neighbouring explosion.
use vstd::prelude::*;
use crate::level::grid::lemma_cell_index;
use crate::level::data::{BrickData, BrickKind};
use crate::level::layers::validator::{brick_slot, bricks_in_grid};

verus! {

/// Entry for cell `(c, r)` of a row-major flag grid `cols` wide.
pub open spec fn flag_at(s: Seq<bool>, cols: int, c: int, r: int) -> bool {
    s[r * cols + c]
}

/// `(c, r)` is one of the eight cells around `(col, row)`.
pub open spec fn king_adjacent(c: int, r: int, col: int, row: int) -> bool {
    -1 <= c - col <= 1 && -1 <= r - row <= 1 && !(c == col && r == row)
}

/// An explosion at `(col, row)` makes every occupied cell among its eight
/// neighbours (inside the `cols` x `rows` grid) reachable; nothing else
/// changes.
pub fn propagate_explosion_reachability(
    reachable: &mut [bool],
    occupied: &[bool],
    col: usize,
    row: usize,
    cols: usize,
    rows: usize,
)
    requires
        cols * rows <= old(reachable)@.len(),
        cols * rows <= occupied@.len(),
        cols <= i32::MAX,
        rows <= i32::MAX,
        col < i32::MAX,
        row < i32::MAX,
    ensures
        final(reachable)@.len() == old(reachable)@.len(),
        forall|c: int, r: int|
            0 <= c < cols && 0 <= r < rows ==> #[trigger] flag_at(
                final(reachable)@,
                cols as int,
                c,
                r,
            ) == (flag_at(old(reachable)@, cols as int, c, r) || (flag_at(
                occupied@,
                cols as int,
                c,
                r,
            ) && king_adjacent(c, r, col as int, row as int))),
        forall|i: int|
            cols * rows <= i < old(reachable)@.len() ==> #[trigger] final(reachable)@[i] == old(
                reachable,
            )@[i],
{
    let ghost r0 = reachable@;
    let slots = reachable.len();
    assert(r0.len() == slots);
    let mut dr: i32 = -1;
    while dr <= 1
        invariant
            -1 <= dr <= 2,
            reachable@.len() == r0.len(),
            cols * rows <= r0.len(),
            r0.len() <= usize::MAX,
            cols * rows <= occupied@.len(),
            cols <= i32::MAX,
            rows <= i32::MAX,
            col < i32::MAX,
            row < i32::MAX,
            forall|c: int, r: int|
                0 <= c < cols && 0 <= r < rows ==> #[trigger] flag_at(
                    reachable@,
                    cols as int,
                    c,
                    r,
                ) == (flag_at(r0, cols as int, c, r) || (flag_at(occupied@, cols as int, c, r)
                    && king_adjacent(c, r, col as int, row as int) && r - row < dr)),
            forall|i: int| cols * rows <= i < r0.len() ==> #[trigger] reachable@[i] == r0[i],
        decreases 2 - dr,
    {
        let mut dc: i32 = -1;
        while dc <= 1
            invariant
                -1 <= dr <= 1,
                -1 <= dc <= 2,
                reachable@.len() == r0.len(),
                cols * rows <= r0.len(),
                r0.len() <= usize::MAX,
            r0.len() <= usize::MAX,
                cols * rows <= occupied@.len(),
                cols <= i32::MAX,
                rows <= i32::MAX,
                col < i32::MAX,
                row < i32::MAX,
                forall|c: int, r: int|
                    0 <= c < cols && 0 <= r < rows ==> #[trigger] flag_at(
                        reachable@,
                        cols as int,
                        c,
                        r,
                    ) == (flag_at(r0, cols as int, c, r) || (flag_at(occupied@, cols as int, c, r)
                        && king_adjacent(c, r, col as int, row as int) && (r - row < dr || (r
                        - row == dr && c - col < dc)))),
                forall|i: int| cols * rows <= i < r0.len() ==> #[trigger] reachable@[i] == r0[i],
            decreases 2 - dc,
        {
            if !(dr == 0 && dc == 0) {
                let nc = col as i32 + dc;
                let nr = row as i32 + dr;
                if nc >= 0 && nc < cols as i32 && nr >= 0 && nr < rows as i32 {
                    proof {
                        lemma_cell_index(cols as int, rows as int, nc as int, nr as int);
                    }
                    let idx = nr as usize * cols + nc as usize;
                    if occupied[idx] {
                        let ghost before = reachable@;
                        reachable[idx] = true;
                        proof {
                            assert forall|c: int, r: int|
                                0 <= c < cols && 0 <= r < rows implies #[trigger] flag_at(
                                    reachable@,
                                    cols as int,
                                    c,
                                    r,
                                ) == (flag_at(r0, cols as int, c, r) || (flag_at(
                                    occupied@,
                                    cols as int,
                                    c,
                                    r,
                                ) && king_adjacent(c, r, col as int, row as int) && (r - row < dr
                                    || (r - row == dr && c - col < dc + 1)))) by {
                                lemma_cell_index(cols as int, rows as int, c, r);
                                assert(flag_at(before, cols as int, c, r) == before[r * cols + c]);
                            }
                        }
                    }
                }
            }
            dc = dc + 1;
        }
        dr = dr + 1;
    }
}

/// Flags every cell that holds a brick.
pub fn occupancy_grid(bricks: &[BrickData], cols: usize, rows: usize) -> (grid: Vec<bool>)
    requires
        cols * rows <= usize::MAX,
        bricks_in_grid(bricks@, cols as int, rows as int),
    ensures
        grid@.len() == cols * rows,
        forall|i: int|
            0 <= i < cols * rows ==> (#[trigger] grid@[i] <==> exists|j: int|
                0 <= j < bricks@.len() && #[trigger] brick_slot(bricks@[j], cols as int) == i),
{
    let mut grid = vec![false; cols * rows];
    let mut k: usize = 0;
    while k < bricks.len()
        invariant
            cols * rows <= usize::MAX,
            bricks_in_grid(bricks@, cols as int, rows as int),
            0 <= k <= bricks@.len(),
            grid@.len() == cols * rows,
            forall|i: int|
                0 <= i < cols * rows ==> (#[trigger] grid@[i] <==> exists|j: int|
                    0 <= j < k && #[trigger] brick_slot(bricks@[j], cols as int) == i),
        decreases bricks@.len() - k,
    {
        let b = bricks[k];
        assert(brick_slot(bricks@[k as int], cols as int) < cols * rows);
        let idx = b.row * cols + b.col;
        grid[idx] = true;
        k = k + 1;
    }
    grid
}

/// Some explosive brick among the first `k` of `bricks` sits next to `(c, r)`.
pub open spec fn near_explosion(bricks: Seq<BrickData>, k: int, c: int, r: int) -> bool {
    exists|j: int|
        0 <= j < k && bricks[j].kind == crate::level::data::BrickKind::Explosive && #[trigger] king_adjacent(
            c,
            r,
            bricks[j].col as int,
            bricks[j].row as int,
        )
}

/// Bricks and grid fit the `i32` neighbour arithmetic of the explosion pass.
pub open spec fn explosion_coords_ok(bricks: Seq<BrickData>, cols: int, rows: int) -> bool {
    &&& cols <= i32::MAX
    &&& rows <= i32::MAX
    &&& forall|j: int|
        0 <= j < bricks.len() ==> #[trigger] bricks[j].col < i32::MAX && bricks[j].row < i32::MAX
}

/// Every explosive brick makes the occupied cells around it reachable: a
/// brick next to an explosion can be destroyed by it.
pub fn propagate_all_explosions(
    reachable: &mut Vec<bool>,
    occupied: &[bool],
    bricks: &[BrickData],
    cols: usize,
    rows: usize,
)
    requires
        old(reachable)@.len() == cols * rows,
        occupied@.len() == cols * rows,
        explosion_coords_ok(bricks@, cols as int, rows as int),
    ensures
        final(reachable)@.len() == cols * rows,
        forall|c: int, r: int|
            0 <= c < cols && 0 <= r < rows ==> #[trigger] flag_at(final(reachable)@, cols as int, c, r)
                == (flag_at(old(reachable)@, cols as int, c, r) || (flag_at(occupied@, cols as int, c, r)
                && near_explosion(bricks@, bricks@.len() as int, c, r))),
{
    let ghost r0 = reachable@;
    let mut k: usize = 0;
    while k < bricks.len()
        invariant
            reachable@.len() == cols * rows,
            occupied@.len() == cols * rows,
            explosion_coords_ok(bricks@, cols as int, rows as int),
            0 <= k <= bricks@.len(),
            forall|c: int, r: int|
                0 <= c < cols && 0 <= r < rows ==> #[trigger] flag_at(reachable@, cols as int, c, r)
                    == (flag_at(r0, cols as int, c, r) || (flag_at(occupied@, cols as int, c, r)
                    && near_explosion(bricks@, k as int, c, r))),
        decreases bricks@.len() - k,
    {
        let b = bricks[k];
        let ghost before = reachable@;
        if b.is_explosive() {
            propagate_explosion_reachability(reachable.as_mut_slice(), occupied, b.col, b.row, cols, rows);
        }
        proof {
            assert forall|c: int, r: int|
                0 <= c < cols && 0 <= r < rows implies #[trigger] flag_at(reachable@, cols as int, c, r)
                    == (flag_at(r0, cols as int, c, r) || (flag_at(occupied@, cols as int, c, r)
                    && near_explosion(bricks@, k + 1, c, r))) by {
                if near_explosion(bricks@, k + 1, c, r) && !near_explosion(bricks@, k as int, c, r) {
                    assert(king_adjacent(c, r, bricks@[k as int].col as int, bricks@[k as int].row as int));
                }
                if near_explosion(bricks@, k as int, c, r) {
                    let j = choose|j: int|
                        0 <= j < k && bricks@[j].kind == crate::level::data::BrickKind::Explosive && #[trigger] king_adjacent(
                            c,
                            r,
                            bricks@[j].col as int,
                            bricks@[j].row as int,
                        );
                    assert(0 <= j < k + 1);
                }
            }
        }
        k = k + 1;
    }
}

/// The bricks of `s` that carving keeps: invincible ones, and breakable ones
/// whose cell is flagged reachable.
pub open spec fn carved(reach: Seq<bool>, cols: int, s: Seq<BrickData>) -> Seq<BrickData>
    decreases s.len(),
{
    if s.len() == 0 {
        Seq::empty()
    } else {
        let rest = carved(reach, cols, s.drop_last());
        if !s.last().destructible() || reach[brick_slot(s.last(), cols)] {
            rest.push(s.last())
        } else {
            rest
        }
    }
}

/// Whether carving keeps brick `b`: it is invincible, or its cell is flagged
/// reachable.
pub open spec fn kept_by_carving(reach: Seq<bool>, cols: int, b: BrickData) -> bool {
    b.kind == BrickKind::Invincible || reach[b.row * cols + b.col]
}

/// `kept_by_carving` as a predicate on bricks.
pub open spec fn carving_keeps(reach: Seq<bool>, cols: int) -> spec_fn(BrickData) -> bool {
    |b: BrickData| kept_by_carving(reach, cols, b)
}

/// Carving keeps exactly the invincible bricks and the breakable bricks of
/// any kind (explosive ones included) whose cell is flagged reachable, in
/// their order: every kept brick comes from the level and is invincible or
/// reachable, every invincible or reachable brick is kept, and every brick
/// dropped is breakable with its cell unreachable.
pub proof fn lemma_carving_keeps_reachable(reach: Seq<bool>, cols: int, s: Seq<BrickData>)
    ensures
        carved(reach, cols, s) == s.filter(carving_keeps(reach, cols)),
        forall|k: int| 0 <= k < carved(reach, cols, s).len() ==> s.contains(#[trigger] carved(reach, cols, s)[k])
            && (carved(reach, cols, s)[k].kind == BrickKind::Invincible
            || reach[carved(reach, cols, s)[k].row * cols + carved(reach, cols, s)[k].col]),
        forall|j: int| 0 <= j < s.len() && (s[j].kind == BrickKind::Invincible || reach[s[j].row * cols + s[j].col])
            ==> carved(reach, cols, s).contains(#[trigger] s[j]),
        forall|j: int| 0 <= j < s.len() && !carved(reach, cols, s).contains(#[trigger] s[j])
            ==> s[j].kind != BrickKind::Invincible && !reach[s[j].row * cols + s[j].col],
    decreases s.len(),
{
    let pred = carving_keeps(reach, cols);
    reveal(Seq::filter);
    if s.len() > 0 {
        lemma_carving_keeps_reachable(reach, cols, s.drop_last());
    }
    assert(carved(reach, cols, s) == s.filter(pred));
    let out = s.filter(pred);
    assert forall|k: int| 0 <= k < out.len() implies s.contains(#[trigger] out[k])
        && (out[k].kind == BrickKind::Invincible || reach[out[k].row * cols + out[k].col]) by {
        s.lemma_filter_pred(pred, k);
        s.lemma_filter_contains_rev(pred, out[k]);
    }
    assert forall|j: int| 0 <= j < s.len() && (s[j].kind == BrickKind::Invincible || reach[s[j].row * cols + s[j].col])
        implies out.contains(#[trigger] s[j]) by {
        assert(pred(s[j]));
        s.filter_lemma(pred);
    }
}

/// Drops the breakable bricks the ball cannot reach, keeping the order.
pub fn retain_reachable_bricks(bricks: &mut Vec<BrickData>, cols: usize, rows: usize, reachable: &[bool])
    requires
        cols * rows <= usize::MAX,
        bricks_in_grid(old(bricks)@, cols as int, rows as int),
        reachable@.len() == cols * rows,
    ensures
        final(bricks)@ == carved(reachable@, cols as int, old(bricks)@),
        final(bricks)@ == old(bricks)@.filter(carving_keeps(reachable@, cols as int)),
{
    let ghost s = bricks@;
    proof {
        lemma_carving_keeps_reachable(reachable@, cols as int, s);
    }
    let mut kept: Vec<BrickData> = Vec::new();
    let mut k: usize = 0;
    while k < bricks.len()
        invariant
            bricks@ == s,
            cols * rows <= usize::MAX,
            bricks_in_grid(s, cols as int, rows as int),
            reachable@.len() == cols * rows,
            0 <= k <= s.len(),
            kept@ == carved(reachable@, cols as int, s.take(k as int)),
        decreases s.len() - k,
    {
        let b = bricks[k];
        assert(brick_slot(s[k as int], cols as int) < cols * rows);
        assert(s.take(k + 1).drop_last() =~= s.take(k as int));
        if !b.is_destructible() || reachable[b.row * cols + b.col] {
            kept.push(b);
        }
        k = k + 1;
    }
    assert(s.take(s.len() as int) =~= s);
    *bricks = kept;
}

} // verus!
