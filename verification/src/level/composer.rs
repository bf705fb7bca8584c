//! Level assembly steps that need no floating point: turning the layout grid
//! into bricks, and guaranteeing a playable board.
use vstd::prelude::*;
use crate::level::data::{BrickData, BrickKind, SpecialType, CHANCE_ZERO_BITS};
use crate::level::generate::{occupied, occupied_at};
use crate::level::grid::BrickGrid;
use crate::level::layers::validator::{
    count_invincible, count_invincible_bricks, ensure_minimum_destructible,
    lemma_count_invincible_le, with_minimum_breakable,
};
use crate::random::{chacha8_below, below_value, after_below};
use rand_chacha::ChaCha8Rng;

verus! {

/// A plain one-hit brick at `(c, r)`.
pub open spec fn normal_brick(c: int, r: int) -> BrickData {
    BrickData {
        col: c as usize,
        row: r as usize,
        kind: BrickKind::Normal,
        health: 1,
        max_health: 1,
        special: SpecialType::Plain,
        powerup_chance_bits: CHANCE_ZERO_BITS,
    }
}

/// Normal bricks for the filled cells among the first `k` cells of a grid
/// `cols` wide, in row-major order.
pub open spec fn grid_bricks(g: BrickGrid, cols: int, k: int) -> Seq<BrickData>
    decreases k,
{
    if k <= 0 || cols <= 0 {
        Seq::empty()
    } else {
        let rest = grid_bricks(g, cols, k - 1);
        let c = (k - 1) % cols;
        let r = (k - 1) / cols;
        if g.cell(c, r) {
            rest.push(normal_brick(c, r))
        } else {
            rest
        }
    }
}

/// One normal brick per filled cell of the `cols` x `rows` window of `grid`,
/// row by row.
pub fn bricks_from_grid(grid: &BrickGrid, cols: usize, rows: usize) -> (bricks: Vec<BrickData>)
    requires
        grid.wf(),
        cols * rows <= usize::MAX,
    ensures
        bricks@ == grid_bricks(*grid, cols as int, cols * rows),
{
    let mut bricks: Vec<BrickData> = Vec::new();
    let mut row: usize = 0;
    while row < rows
        invariant
            grid.wf(),
            cols * rows <= usize::MAX,
            0 <= row <= rows,
            bricks@ == grid_bricks(*grid, cols as int, row * cols),
        decreases rows - row,
    {
        let mut col: usize = 0;
        while col < cols
            invariant
                grid.wf(),
                cols * rows <= usize::MAX,
                0 <= row < rows,
                0 <= col <= cols,
                bricks@ == grid_bricks(*grid, cols as int, row * cols + col),
            decreases cols - col,
        {
            proof {
                let k = row * cols + col;
                vstd::arithmetic::div_mod::lemma_fundamental_div_mod_converse(k as int, cols as int, row as int, col as int);
                assert(grid_bricks(*grid, cols as int, k + 1) == (if grid.cell(col as int, row as int) {
                    grid_bricks(*grid, cols as int, k).push(normal_brick(col as int, row as int))
                } else {
                    grid_bricks(*grid, cols as int, k)
                }));
            }
            if grid.get(col, row) {
                bricks.push(BrickData::normal(col, row));
            }
            col = col + 1;
        }
        proof {
            assert(row * cols + cols == (row + 1) * cols) by (nonlinear_arith);
        }
        row = row + 1;
    }
    proof {
        assert(rows * cols == cols * rows) by (nonlinear_arith);
    }
    bricks
}

/// Rows that emergency bricks may be placed in: the top four at most.
pub open spec fn top_rows(rows: int) -> int {
    let r = if rows < 1 { 1 } else { rows };
    if r > 4 { 4 } else { r }
}

/// How many emergency bricks are wanted: at least eight, or half the columns.
pub open spec fn rescue_target(cols: int) -> int {
    if 8 > cols / 2 { 8 } else { cols / 2 }
}

/// `added` are emergency bricks for the level `old`: plain bricks in the
/// top rows, each on a cell that neither `old` nor an earlier one occupies,
/// no more than wanted.
pub open spec fn rescue_bricks(old: Seq<BrickData>, cols: int, rows: int, added: Seq<BrickData>) -> bool {
    &&& added.len() <= rescue_target(cols)
    &&& forall|t: int|
        0 <= t < added.len() ==> {
            &&& #[trigger] added[t] == normal_brick(added[t].col as int, added[t].row as int)
            &&& added[t].col < cols
            &&& added[t].row < top_rows(rows)
            &&& !occupied(old + added.take(t), added[t].col as int, added[t].row as int)
        }
}

/// The emergency bricks that the first `tries` tries add to level `s`,
/// drawing from state `rng`, and the state after them: while fewer than
/// wanted have been added, a try draws a column and then a row among the top
/// rows, and adds a plain brick there unless the cell is taken.
pub open spec fn rescue_draws(s: Seq<BrickData>, cols: usize, rows: usize, tries: nat, rng: ChaCha8Rng) -> (Seq<BrickData>, ChaCha8Rng)
    decreases tries,
{
    if tries == 0 {
        (Seq::empty(), rng)
    } else {
        let prev = rescue_draws(s, cols, rows, (tries - 1) as nat, rng);
        if prev.0.len() >= rescue_target(cols as int) {
            prev
        } else {
            let span = top_rows(rows as int) as usize;
            let r1 = after_below(prev.1, cols);
            let c = below_value(prev.1, cols) as int;
            let r = below_value(r1, span) as int;
            if occupied(s + prev.0, c, r) {
                (prev.0, after_below(r1, span))
            } else {
                (prev.0.push(normal_brick(c, r)), after_below(r1, span))
            }
        }
    }
}

/// Once the wanted number of emergency bricks is reached, further tries
/// add none and draw nothing.
proof fn lemma_rescue_done(s: Seq<BrickData>, cols: usize, rows: usize, t: nat, u: nat, rng: ChaCha8Rng)
    requires
        t <= u,
        rescue_draws(s, cols, rows, t, rng).0.len() >= rescue_target(cols as int),
    ensures
        rescue_draws(s, cols, rows, u, rng) == rescue_draws(s, cols, rows, t, rng),
    decreases u,
{
    if u > t {
        lemma_rescue_done(s, cols, rows, t, (u - 1) as nat, rng);
    }
}

/// Never ships an unplayable board: with fewer than three breakable bricks,
/// plain bricks are dropped onto random free cells of the top rows (up to
/// `max(8, cols / 2)` of them, within `2 * cols * rows` tries), and if that
/// still leaves fewer than three breakable bricks every invincible brick is
/// made normal.
pub fn ensure_playable(bricks: &mut Vec<BrickData>, cols: usize, rows: usize, rng: &mut ChaCha8Rng)
    requires
        cols * rows * 2 <= usize::MAX,
    ensures
        old(bricks)@.len() - count_invincible(old(bricks)@) >= 3 ==> final(bricks)@ == old(bricks)@,
        old(bricks)@.len() - count_invincible(old(bricks)@) < 3 ==> exists|added: Seq<BrickData>|
            rescue_bricks(old(bricks)@, cols as int, rows as int, added) && final(bricks)@
                == with_minimum_breakable(old(bricks)@ + added),
        final(bricks)@.len() > 0 ==> (final(bricks)@.len() - count_invincible(final(bricks)@) >= 3
            || count_invincible(final(bricks)@) == 0),
        old(bricks)@.len() - count_invincible(old(bricks)@) >= 3 ==> *final(rng) == *old(rng),
        old(bricks)@.len() - count_invincible(old(bricks)@) < 3 ==> final(bricks)@ == with_minimum_breakable(
            old(bricks)@ + rescue_draws(old(bricks)@, cols, rows, (cols * rows * 2) as nat, *old(rng)).0),
        old(bricks)@.len() - count_invincible(old(bricks)@) < 3 ==> *final(rng)
            == rescue_draws(old(bricks)@, cols, rows, (cols * rows * 2) as nat, *old(rng)).1,
{
    let ghost s = bricks@;
    let ghost rng0 = *rng;
    let invincible = count_invincible_bricks(bricks);
    proof {
        lemma_count_invincible_le(s);
    }
    let destructible = bricks.len() - invincible;
    if destructible >= 3 {
        return;
    }
    let target = if 8 > cols / 2 { 8 } else { cols / 2 };
    let row_span = if rows > 1 { rows } else { 1 };
    let row_span = if row_span < 4 { row_span } else { 4 };
    let row_span = if row_span > 1 { row_span } else { 1 };
    let mut added: usize = 0;
    let mut attempts: usize = 0;
    let ghost mut extra: Seq<BrickData> = Seq::empty();
    while added < target && attempts < cols * rows * 2
        invariant
            cols * rows * 2 <= usize::MAX,
            target == rescue_target(cols as int),
            row_span == top_rows(rows as int),
            bricks@ == s + extra,
            extra.len() == added,
            added <= target,
            attempts <= cols * rows * 2,
            rescue_bricks(s, cols as int, rows as int, extra),
            extra == rescue_draws(s, cols, rows, attempts as nat, rng0).0,
            *rng == rescue_draws(s, cols, rows, attempts as nat, rng0).1,
        decreases cols * rows * 2 - attempts,
    {
        let ghost r_before = *rng;
        let ghost prev = extra;
        attempts += 1;
        proof {
            assert(cols > 0) by (nonlinear_arith)
                requires
                    1 <= attempts <= cols * rows * 2,
            ;
        }
        let c = chacha8_below(rng, cols);
        let r = chacha8_below(rng, row_span);
        proof {
            assert(rescue_draws(s, cols, rows, attempts as nat, rng0) == (if occupied(s + prev, c as int, r as int) {
                (prev, *rng)
            } else {
                (prev.push(normal_brick(c as int, r as int)), *rng)
            }));
        }
        if occupied_at(bricks.as_slice(), c, r) {
            continue;
        }
        let b = BrickData::normal(c, r);
        bricks.push(b);
        proof {
            let ghost prev = extra;
            extra = extra.push(b);
            assert(extra.take(prev.len() as int) =~= prev);
            assert forall|t: int| 0 <= t < extra.len() implies {
                &&& #[trigger] extra[t] == normal_brick(extra[t].col as int, extra[t].row as int)
                &&& extra[t].col < cols
                &&& extra[t].row < top_rows(rows as int)
                &&& !occupied(s + extra.take(t), extra[t].col as int, extra[t].row as int)
            } by {
                if t < prev.len() {
                    assert(extra.take(t) =~= prev.take(t));
                    assert(extra[t] == prev[t]);
                }
            }
        }
        assert(b == normal_brick(c as int, r as int));
        added += 1;
    }
    proof {
        if attempts < cols * rows * 2 {
            lemma_rescue_done(s, cols, rows, attempts as nat, (cols * rows * 2) as nat, rng0);
        }
    }
    let ghost with_extra = bricks@;
    ensure_minimum_destructible(bricks);
}

} // verus!
