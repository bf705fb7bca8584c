//! Level validation: bricks sealed off from the ball are removed, the share
//! of invincible bricks is capped, and every level keeps enough bricks to
//! break.
use vstd::prelude::*;
use crate::level::data::{BrickData, BrickKind, chance_positive, chance_zero, CHANCE_SEVENTY_PERCENT_BITS};
use crate::level::grid::count_true;
use crate::random::{chacha8_below, below_value, after_below};
use rand_chacha::ChaCha8Rng;

verus! {

/// Flat index of a brick's cell in a row-major grid `cols` wide.
pub open spec fn brick_slot(b: BrickData, cols: int) -> int {
    b.row * cols + b.col
}

/// Every brick's cell index falls inside the `cols` x `rows` grid.
pub open spec fn bricks_in_grid(bricks: Seq<BrickData>, cols: int, rows: int) -> bool {
    forall|j: int| 0 <= j < bricks.len() ==> #[trigger] brick_slot(bricks[j], cols) < cols * rows
}

/// Cell `i` holds an invincible brick.
pub open spec fn blocked(bricks: Seq<BrickData>, cols: int, i: int) -> bool {
    exists|j: int|
        0 <= j < bricks.len() && !bricks[j].destructible() && #[trigger] brick_slot(bricks[j], cols)
            == i
}

/// `k` is the cell above, below, left of or right of cell `i` in the
/// row-major `cols` x `rows` grid.
pub open spec fn grid_adjacent(i: int, k: int, cols: int, rows: int) -> bool {
    let n = cols * rows;
    &&& 0 <= i < n
    &&& 0 <= k < n
    &&& {
        ||| (i >= cols && k == i - cols)
        ||| (i + cols < n && k == i + cols)
        ||| (i % cols != 0 && k == i - 1)
        ||| (i % cols + 1 < cols && k == i + 1)
    }
}

/// Cell `i` can be reached from the bottom row in at most `steps` moves
/// between neighbouring cells, never entering a cell with an invincible brick.
pub open spec fn reach_in(bricks: Seq<BrickData>, cols: int, rows: int, steps: int, i: int) -> bool
    decreases steps,
{
    if steps <= 0 {
        0 <= i && cols * rows - cols <= i < cols * rows && !blocked(bricks, cols, i)
    } else {
        reach_in(bricks, cols, rows, steps - 1, i) || (!blocked(bricks, cols, i) && exists|j: int|
            #[trigger] grid_adjacent(j, i, cols, rows) && reach_in(bricks, cols, rows, steps - 1, j))
    }
}

/// Cell `i` is connected to the open bottom row through open cells.
pub open spec fn open_from_bottom(bricks: Seq<BrickData>, cols: int, rows: int, i: int) -> bool {
    exists|steps: int| #[trigger] reach_in(bricks, cols, rows, steps, i)
}

proof fn lemma_reach_in_open(bricks: Seq<BrickData>, cols: int, rows: int, steps: int, i: int)
    requires
        reach_in(bricks, cols, rows, steps, i),
    ensures
        !blocked(bricks, cols, i),
        0 <= i < cols * rows,
    decreases steps,
{
    if steps > 0 && reach_in(bricks, cols, rows, steps - 1, i) {
        lemma_reach_in_open(bricks, cols, rows, steps - 1, i);
    } else if steps > 0 {
        let j = choose|j: int|
            grid_adjacent(j, i, cols, rows) && #[trigger] reach_in(
                bricks,
                cols,
                rows,
                steps - 1,
                j,
            );
    }
}

proof fn lemma_count_true_update(s: Seq<bool>, i: int)
    requires
        0 <= i < s.len(),
        !s[i],
    ensures
        count_true(s.update(i, true)) == count_true(s) + 1,
    decreases s.len(),
{
    let t = s.update(i, true);
    if i == s.len() - 1 {
        assert(t.drop_last() =~= s.drop_last());
    } else {
        lemma_count_true_update(s.drop_last(), i);
        assert(t.drop_last() =~= s.drop_last().update(i, true));
    }
}

proof fn lemma_count_true_le(s: Seq<bool>)
    ensures
        count_true(s) <= s.len(),
    decreases s.len(),
{
    if s.len() > 0 {
        lemma_count_true_le(s.drop_last());
    }
}

/// Flags the cells that hold a brick of the chosen destructibility.
fn mark_cells(bricks: &Vec<BrickData>, cols: usize, rows: usize, destructible: bool) -> (grid: Vec<
    bool,
>)
    requires
        cols * rows <= usize::MAX,
        bricks_in_grid(bricks@, cols as int, rows as int),
    ensures
        grid@.len() == cols * rows,
        forall|i: int|
            0 <= i < cols * rows ==> (#[trigger] grid@[i] <==> exists|j: int|
                0 <= j < bricks@.len() && bricks@[j].destructible() == destructible
                    && #[trigger] brick_slot(bricks@[j], cols as int) == i),
{
    let mut grid = vec![false; cols * rows];
    let mut k: usize = 0;
    while k < bricks.len()
        invariant
            cols * rows <= usize::MAX,
            bricks_in_grid(bricks@, cols as int, rows as int),
            0 <= k <= bricks@.len(),
            grid@.len() == cols * rows,
            forall|i: int|
                0 <= i < cols * rows ==> (#[trigger] grid@[i] <==> exists|j: int|
                    0 <= j < k && bricks@[j].destructible() == destructible
                        && #[trigger] brick_slot(bricks@[j], cols as int) == i),
        decreases bricks@.len() - k,
    {
        let b = bricks[k];
        assert(brick_slot(bricks@[k as int], cols as int) < cols * rows);
        if b.is_destructible() == destructible {
            let idx = b.row * cols + b.col;
            grid[idx] = true;
        }
        k = k + 1;
    }
    grid
}

/// Flags `k` and pushes it for later expansion unless it is already flagged
/// or holds an invincible brick.
fn visit(flags: &mut Vec<bool>, stack: &mut Vec<usize>, walls: &Vec<bool>, k: usize)
    requires
        k < old(flags)@.len(),
        old(flags)@.len() == walls@.len(),
    ensures
        final(flags)@.len() == old(flags)@.len(),
        walls@[k as int] ==> final(flags)@ == old(flags)@ && final(stack)@ == old(stack)@,
        !walls@[k as int] && old(flags)@[k as int] ==> final(flags)@ == old(flags)@
            && final(stack)@ == old(stack)@,
        !walls@[k as int] && !old(flags)@[k as int] ==> final(flags)@ == old(flags)@.update(
            k as int,
            true,
        ) && final(stack)@ == old(stack)@.push(k),
{
    if !flags[k] && !walls[k] {
        flags[k] = true;
        stack.push(k);
    }
}

/// Every cell reached in `steps` moves is flagged, given that the flagged
/// set contains the open bottom row and is closed under moves into open cells.
proof fn lemma_closed_flags_cover(
    bricks: Seq<BrickData>,
    cols: int,
    rows: int,
    flags: Seq<bool>,
    steps: int,
    i: int,
)
    requires
        flags.len() == cols * rows,
        forall|c: int|
            0 <= c && cols * rows - cols <= c < cols * rows && !blocked(bricks, cols, c)
                ==> #[trigger] flags[c],
        forall|a: int, b: int|
            #![trigger flags[a], flags[b]]
            grid_adjacent(a, b, cols, rows) && flags[a] && !blocked(bricks, cols, b) ==> flags[b],
        reach_in(bricks, cols, rows, steps, i),
    ensures
        flags[i],
    decreases steps,
{
    if steps > 0 {
        if reach_in(bricks, cols, rows, steps - 1, i) {
            lemma_closed_flags_cover(bricks, cols, rows, flags, steps - 1, i);
        } else {
            let prev = steps - 1;
            let j = choose|j: int|
                #[trigger] grid_adjacent(j, i, cols, rows) && reach_in(bricks, cols, rows, prev, j);
            lemma_closed_flags_cover(bricks, cols, rows, flags, steps - 1, j);
            assert(flags[j]);
        }
    }
}

/// One more move from a reachable cell into an open neighbour stays reachable.
proof fn lemma_step_reach(bricks: Seq<BrickData>, cols: int, rows: int, j: int, k: int)
    requires
        open_from_bottom(bricks, cols, rows, j),
        grid_adjacent(j, k, cols, rows),
        !blocked(bricks, cols, k),
    ensures
        open_from_bottom(bricks, cols, rows, k),
{
    let steps = choose|steps: int| #[trigger] reach_in(bricks, cols, rows, steps, j);
    let s: int = if steps < 0 { 0 } else { steps };
    assert(reach_in(bricks, cols, rows, s, j));
    assert(reach_in(bricks, cols, rows, (s + 1) - 1, j));
    assert(reach_in(bricks, cols, rows, s + 1, k));
}

/// The state of the flood fill between expansions.
spec fn fill_state(
    bricks: Seq<BrickData>,
    cols: int,
    rows: int,
    walls: Seq<bool>,
    flags: Seq<bool>,
    stack: Seq<usize>,
) -> bool {
    &&& flags.len() == cols * rows
    &&& walls.len() == cols * rows
    &&& forall|i: int| 0 <= i < cols * rows ==> #[trigger] walls[i] == blocked(bricks, cols, i)
    &&& forall|i: int|
        0 <= i < cols * rows && #[trigger] flags[i] ==> open_from_bottom(bricks, cols, rows, i)
    &&& forall|t: int| 0 <= t < stack.len() ==> #[trigger] stack[t] < cols * rows && flags[stack[t] as int]
    &&& stack.no_duplicates()
    &&& forall|a: int, b: int|
        #![trigger flags[a], flags[b]]
        grid_adjacent(a, b, cols, rows) && flags[a] && !stack.contains(a as usize) && !walls[b]
            ==> flags[b]
}

/// The flood fill while cell `cur` is being expanded: `cur` is flagged and
/// off the stack, and the closure property holds for every other cell.
spec fn expanding_state(
    bricks: Seq<BrickData>,
    cols: int,
    rows: int,
    walls: Seq<bool>,
    flags: Seq<bool>,
    stack: Seq<usize>,
    cur: int,
) -> bool {
    &&& flags.len() == cols * rows
    &&& walls.len() == cols * rows
    &&& forall|i: int| 0 <= i < cols * rows ==> #[trigger] walls[i] == blocked(bricks, cols, i)
    &&& forall|i: int|
        0 <= i < cols * rows && #[trigger] flags[i] ==> open_from_bottom(bricks, cols, rows, i)
    &&& forall|t: int| 0 <= t < stack.len() ==> #[trigger] stack[t] < cols * rows && flags[stack[t] as int]
    &&& stack.no_duplicates()
    &&& forall|i: int|
        0 <= i && cols * rows - cols <= i < cols * rows && !walls[i] ==> #[trigger] flags[i]
    &&& 0 <= cur < cols * rows
    &&& flags[cur]
    &&& !stack.contains(cur as usize)
    &&& forall|a: int, b: int|
        #![trigger flags[a], flags[b]]
        grid_adjacent(a, b, cols, rows) && flags[a] && !stack.contains(a as usize) && a != cur && !walls[b]
            ==> flags[b]
}

/// Visits neighbour `k` of the cell `cur` being expanded.
fn expand_towards(
    flags: &mut Vec<bool>,
    stack: &mut Vec<usize>,
    walls: &Vec<bool>,
    bricks: Ghost<Seq<BrickData>>,
    cols: usize,
    rows: usize,
    cur: usize,
    k: usize,
)
    requires
        cols * rows <= usize::MAX,
        expanding_state(bricks@, cols as int, rows as int, walls@, old(flags)@, old(stack)@, cur as int),
        grid_adjacent(cur as int, k as int, cols as int, rows as int),
        count_true(old(flags)@) <= cols * rows,
    ensures
        expanding_state(bricks@, cols as int, rows as int, walls@, final(flags)@, final(stack)@, cur as int),
        final(flags)@[k as int] || walls@[k as int],
        forall|i: int| 0 <= i < cols * rows && #[trigger] old(flags)@[i] ==> final(flags)@[i],
        count_true(final(flags)@) <= cols * rows,
        2 * (cols * rows - count_true(final(flags)@)) + final(stack)@.len()
            <= 2 * (cols * rows - count_true(old(flags)@)) + old(stack)@.len(),
{
    let ghost f0 = flags@;
    let ghost s0 = stack@;
    let ghost ci = cols as int;
    let ghost ri = rows as int;
    let ghost n = ci * ri;
    visit(flags, stack, walls, k);
    proof {
        if !walls@[k as int] && !f0[k as int] {
            lemma_count_true_update(f0, k as int);
            lemma_count_true_le(flags@);
            lemma_step_reach(bricks@, ci, ri, cur as int, k as int);
            assert(!s0.contains(k)) by {
                if s0.contains(k) {
                    let t = choose|t: int| 0 <= t < s0.len() && s0[t] == k;
                    assert(f0[s0[t] as int]);
                }
            }
            assert forall|t: int| 0 <= t < stack@.len() implies #[trigger] stack@[t] < n && flags@[stack@[t] as int] by {
                if t < s0.len() { assert(stack@[t] == s0[t]); }
            }
            assert forall|t1: int, t2: int| 0 <= t1 < stack@.len() && 0 <= t2 < stack@.len() && t1 != t2 implies stack@[t1] != stack@[t2] by {
                if t1 < s0.len() && t2 < s0.len() {
                    assert(stack@[t1] == s0[t1] && stack@[t2] == s0[t2]);
                } else if t1 < s0.len() {
                    assert(stack@[t1] == s0[t1]);
                    assert(s0.contains(s0[t1]));
                } else {
                    assert(stack@[t2] == s0[t2]);
                    assert(s0.contains(s0[t2]));
                }
            }
            assert(!stack@.contains(cur)) by {
                if stack@.contains(cur) {
                    let t = choose|t: int| 0 <= t < stack@.len() && stack@[t] == cur;
                    if t < s0.len() { assert(s0[t] == cur); assert(s0.contains(cur)); }
                }
            }
            assert forall|a: int, b: int|
                #![trigger flags@[a], flags@[b]]
                grid_adjacent(a, b, ci, ri) && flags@[a] && !stack@.contains(a as usize) && a != cur && !walls@[b]
                    implies flags@[b] by {
                if a == k as int {
                    assert(stack@[stack@.len() - 1] == k);
                } else {
                    assert(f0[a]);
                    if s0.contains(a as usize) {
                        let t = choose|t: int| 0 <= t < s0.len() && s0[t] == a as usize;
                        assert(stack@[t] == a as usize);
                    }
                    assert(f0[b]);
                }
            }
        }
    }
}

/// The open cells connected to the bottom row (`walls` marks the cells that
/// hold invincible bricks).
fn flood_from_bottom(walls: &Vec<bool>, bricks: Ghost<Seq<BrickData>>, cols: usize, rows: usize) -> (reach: Vec<bool>)
    requires
        cols * rows <= usize::MAX,
        cols > 0 ==> rows > 0,
        walls@.len() == cols * rows,
        forall|i: int| 0 <= i < cols * rows ==> #[trigger] walls@[i] == blocked(bricks@, cols as int, i),
    ensures
        reach@.len() == cols * rows,
        forall|i: int|
            0 <= i < cols * rows ==> (#[trigger] reach@[i] <==> open_from_bottom(bricks@, cols as int, rows as int, i)),
{
    let ghost bs = bricks@;
    let ghost ci = cols as int;
    let ghost ri = rows as int;
    let n = cols * rows;
    let mut reach = vec![false; n];
    let mut stack: Vec<usize> = Vec::new();

    let mut col: usize = 0;
    while col < cols
        invariant
            n == cols * rows,
            n <= usize::MAX,
            cols > 0 ==> rows > 0,
            bs == bricks@,
            ci == cols as int,
            ri == rows as int,
            0 <= col <= cols,
            fill_state(bs, ci, ri, walls@, reach@, stack@),
            forall|i: int| #![trigger reach@[i]] 0 <= i < n ==> (reach@[i] ==> n - cols <= i < n - cols + col),
            forall|i: int| #![trigger reach@[i]] 0 <= i < n ==> (reach@[i] ==> stack@.contains(i as usize)),
            forall|i: int|
                0 <= i && n - cols <= i < n - cols + col && !walls@[i] ==> #[trigger] reach@[i],
        decreases cols - col,
    {
        proof {
            assert((rows - 1) * cols + col == n - cols + col) by (nonlinear_arith)
                requires n == cols * rows, rows > 0;
        }
        let idx = (rows - 1) * cols + col;
        let ghost before = reach@;
        let ghost sbefore = stack@;
        if !walls[idx] {
            proof {
                assert(reach_in(bs, ci, ri, 0, idx as int));
            }
        }
        visit(&mut reach, &mut stack, walls, idx);
        proof {
            assert forall|t: int| 0 <= t < stack@.len() implies #[trigger] stack@[t] < n && reach@[stack@[t] as int] by {
                if t < sbefore.len() { assert(stack@[t] == sbefore[t]); }
            }
            if stack@.len() > sbefore.len() {
                assert forall|t1: int, t2: int| 0 <= t1 < stack@.len() && 0 <= t2 < stack@.len() && t1 != t2 implies stack@[t1] != stack@[t2] by {
                    if t1 < sbefore.len() && t2 < sbefore.len() {
                    } else if t1 < sbefore.len() {
                        assert(before[sbefore[t1] as int]);
                    } else {
                        assert(before[sbefore[t2] as int]);
                    }
                }
            }
            assert forall|i: int| #![trigger reach@[i]] 0 <= i < n && reach@[i] implies stack@.contains(i as usize) by {
                if i == idx {
                    assert(stack@[stack@.len() - 1] == idx);
                } else {
                    assert(before[i]);
                    let t = choose|t: int| 0 <= t < sbefore.len() && sbefore[t] == i as usize;
                    assert(stack@[t] == i as usize);
                }
            }
        }
        col = col + 1;
    }

    let ghost total = n as int;
    proof {
        lemma_count_true_le(reach@);
    }
    while stack.len() > 0
        invariant
            n == cols * rows,
            n <= usize::MAX,
            cols > 0 ==> rows > 0,
            bs == bricks@,
            ci == cols as int,
            ri == rows as int,
            fill_state(bs, ci, ri, walls@, reach@, stack@),
            forall|i: int|
                0 <= i && n - cols <= i < n && !walls@[i] ==> #[trigger] reach@[i],
            count_true(reach@) <= n,
        decreases 2 * (n - count_true(reach@)) + stack@.len(),
    {
        let ghost s0 = stack@;
        let idx = stack.pop().unwrap();
        proof {
            assert(s0[s0.len() - 1] == idx);
            assert(stack@ =~= s0.drop_last());
            assert(!stack@.contains(idx)) by {
                if stack@.contains(idx) {
                    let t = choose|t: int| 0 <= t < stack@.len() && stack@[t] == idx;
                    assert(s0[t] == s0[s0.len() - 1]);
                }
            }
        }
        proof {
            assert(reach@[idx as int]);
            assert forall|a: int, b: int|
                #![trigger reach@[a], reach@[b]]
                grid_adjacent(a, b, ci, ri) && reach@[a] && !stack@.contains(a as usize) && a != idx && !walls@[b]
                    implies reach@[b] by {
                assert(!s0.contains(a as usize)) by {
                    if s0.contains(a as usize) {
                        let t = choose|t: int| 0 <= t < s0.len() && s0[t] == a as usize;
                        if t < s0.len() - 1 { assert(stack@[t] == a as usize); }
                    }
                }
            }
            assert forall|t: int| 0 <= t < stack@.len() implies #[trigger] stack@[t] < n && reach@[stack@[t] as int] by {
                assert(stack@[t] == s0[t]);
            }
            assert(stack@.no_duplicates()) by {
                assert forall|t1: int, t2: int| 0 <= t1 < stack@.len() && 0 <= t2 < stack@.len() && t1 != t2 implies stack@[t1] != stack@[t2] by {
                    assert(stack@[t1] == s0[t1] && stack@[t2] == s0[t2]);
                }
            }
        }
        let ghost f_before = reach@;
        if idx >= cols {
            expand_towards(&mut reach, &mut stack, walls, bricks, cols, rows, idx, idx - cols);
        }
        proof {
            assert(n >= cols) by (nonlinear_arith)
                requires n == cols * rows, cols > 0 ==> rows > 0;
            if idx == 0 {
                vstd::arithmetic::div_mod::lemma_small_mod(0, cols as nat);
            }
        }
        if idx < n - cols {
            expand_towards(&mut reach, &mut stack, walls, bricks, cols, rows, idx, idx + cols);
        }
        if idx % cols != 0 {
            expand_towards(&mut reach, &mut stack, walls, bricks, cols, rows, idx, idx - 1);
        }
        proof {
            if idx % cols + 1 < cols {
                vstd::arithmetic::div_mod::lemma_fundamental_div_mod(idx as int, cols as int);
                let q = idx as int / cols as int;
                let r = idx as int % cols as int;
                assert(cols > 0);
                assert(q < rows as int) by (nonlinear_arith)
                    requires idx == cols * q + r, 0 <= r, idx < n, n == cols * rows, cols > 0;
                assert(idx + 1 < n) by (nonlinear_arith)
                    requires idx == cols * q + r, r + 1 < cols, q < rows, q >= 0, n == cols * rows;
                assert(grid_adjacent(idx as int, idx + 1, ci, ri));
            }
        }
        if idx % cols + 1 < cols {
            expand_towards(&mut reach, &mut stack, walls, bricks, cols, rows, idx, idx + 1);
        }
        proof {
            assert forall|a: int, b: int|
                #![trigger reach@[a], reach@[b]]
                grid_adjacent(a, b, ci, ri) && reach@[a] && !stack@.contains(a as usize) && !walls@[b]
                    implies reach@[b] by {
                if a == idx as int {
                }
            }
        }
    }
    proof {
        assert forall|i: int| 0 <= i < n implies (#[trigger] reach@[i] <==> open_from_bottom(bs, ci, ri, i)) by {
            if open_from_bottom(bs, ci, ri, i) {
                let steps = choose|steps: int| #[trigger] reach_in(bs, ci, ri, steps, i);
                lemma_closed_flags_cover(bs, ci, ri, reach@, steps, i);
            }
        }
    }
    reach
}

/// A brick survives the trapped-brick sweep when it is invincible or its cell
/// is connected to the bottom row.
pub open spec fn survives_sweep(all: Seq<BrickData>, cols: int, rows: int, b: BrickData) -> bool {
    !b.destructible() || open_from_bottom(all, cols, rows, brick_slot(b, cols))
}

/// The bricks of `s` that survive the sweep over the level `all`, in order.
pub open spec fn swept(all: Seq<BrickData>, cols: int, rows: int, s: Seq<BrickData>) -> Seq<BrickData>
    decreases s.len(),
{
    if s.len() == 0 {
        Seq::empty()
    } else {
        let rest = swept(all, cols, rows, s.drop_last());
        if survives_sweep(all, cols, rows, s.last()) {
            rest.push(s.last())
        } else {
            rest
        }
    }
}

/// The sweep removes a brick that carried a power-up.
pub open spec fn sweep_loses_drop(all: Seq<BrickData>, cols: int, rows: int) -> bool {
    exists|j: int|
        0 <= j < all.len() && !survives_sweep(all, cols, rows, all[j]) && #[trigger] chance_positive(
            all[j].powerup_chance_bits,
        )
}

/// A brick that can take over a lost power-up: breakable and without one.
pub open spec fn can_take_drop(b: BrickData) -> bool {
    b.destructible() && chance_zero(b.powerup_chance_bits)
}

/// `b` with a 70% power-up drop chance.
pub open spec fn with_rescued_drop(b: BrickData) -> BrickData {
    BrickData { powerup_chance_bits: CHANCE_SEVENTY_PERCENT_BITS, ..b }
}

/// Outcome of the trapped-brick sweep over `old`: the surviving bricks in
/// order; when a power-up was lost and some survivor can take one, exactly one
/// such survivor, whichever the draw picks, gets a 70% drop chance.
pub open spec fn trapped_sweep_result(
    old: Seq<BrickData>,
    cols: int,
    rows: int,
    new: Seq<BrickData>,
) -> bool {
    let kept = swept(old, cols, rows, old);
    if sweep_loses_drop(old, cols, rows) && exists|e: int|
        0 <= e < kept.len() && #[trigger] can_take_drop(kept[e]) {
        exists|e: int|
            0 <= e < kept.len() && #[trigger] can_take_drop(kept[e]) && new == kept.update(
                e,
                with_rescued_drop(kept[e]),
            )
    } else {
        new == kept
    }
}

/// The indices below `i` of the bricks of `s` that can take over a lost
/// power-up, in order.
pub open spec fn drop_takers(s: Seq<BrickData>, i: int) -> Seq<usize>
    decreases i,
{
    if i <= 0 {
        Seq::empty()
    } else if can_take_drop(s[i - 1]) {
        drop_takers(s, i - 1).push((i - 1) as usize)
    } else {
        drop_takers(s, i - 1)
    }
}

/// `s` with the lost power-up handed to its `pick`-th brick that can take
/// one (a 70% drop chance).
pub open spec fn with_drop_given(s: Seq<BrickData>, pick: int) -> Seq<BrickData> {
    let e = drop_takers(s, s.len() as int)[pick] as int;
    s.update(e, with_rescued_drop(s[e]))
}

/// Outcome of the trapped-brick sweep over `old` with the generator in state
/// `rng`, and the state after it: the surviving bricks in order; when a
/// power-up was lost and some survivor can take one, the survivor drawn
/// among those (by its place in their order) gets a 70% drop chance.
pub open spec fn sweep_with_draw(old: Seq<BrickData>, cols: int, rows: int, rng: ChaCha8Rng) -> (Seq<BrickData>, ChaCha8Rng) {
    let kept = swept(old, cols, rows, old);
    let n = drop_takers(kept, kept.len() as int).len() as usize;
    if sweep_loses_drop(old, cols, rows) && n > 0 {
        (with_drop_given(kept, below_value(rng, n) as int), after_below(rng, n))
    } else {
        (kept, rng)
    }
}

/// Every listed index is below `i` and names a brick that can take a drop;
/// the list is empty only when no such brick lies below `i`.
proof fn lemma_drop_takers(s: Seq<BrickData>, i: int)
    requires
        0 <= i <= s.len(),
        s.len() <= usize::MAX,
    ensures
        forall|t: int| 0 <= t < drop_takers(s, i).len() ==> #[trigger] drop_takers(s, i)[t] < i
            && can_take_drop(s[drop_takers(s, i)[t] as int]),
        (exists|e: int| 0 <= e < i && #[trigger] can_take_drop(s[e])) ==> drop_takers(s, i).len() > 0,
    decreases i,
{
    if i > 0 {
        lemma_drop_takers(s, i - 1);
        let prev = drop_takers(s, i - 1);
        if can_take_drop(s[i - 1]) {
            assert forall|t: int| 0 <= t < drop_takers(s, i).len() implies #[trigger] drop_takers(s, i)[t] < i
                && can_take_drop(s[drop_takers(s, i)[t] as int]) by {
                if t < prev.len() {
                    assert(drop_takers(s, i)[t] == prev[t]);
                } else {
                    assert(drop_takers(s, i)[t] == (i - 1) as usize);
                }
            }
        } else {
            assert(drop_takers(s, i) == prev);
        }
    }
}

/// The list of the bricks that can take over a lost power-up, in order.
fn drop_taker_list(bricks: &Vec<BrickData>) -> (v: Vec<usize>)
    ensures
        v@ == drop_takers(bricks@, bricks@.len() as int),
{
    let mut v: Vec<usize> = Vec::new();
    let mut i: usize = 0;
    while i < bricks.len()
        invariant
            0 <= i <= bricks@.len(),
            v@ == drop_takers(bricks@, i as int),
        decreases bricks@.len() - i,
    {
        if bricks[i].is_destructible() && crate::level::data::chance_is_zero(bricks[i].powerup_chance_bits) {
            v.push(i);
        }
        i = i + 1;
    }
    v
}

/// Hands a lost power-up to the `pick`-th brick (in order) that is breakable
/// and carries none: it gets a 70% drop chance.
pub fn give_lost_drop(bricks: &mut Vec<BrickData>, pick: usize)
    requires
        pick < drop_takers(old(bricks)@, old(bricks)@.len() as int).len(),
    ensures
        final(bricks)@ == with_drop_given(old(bricks)@, pick as int),
{
    let eligible = drop_taker_list(bricks);
    let n = bricks.len();
    proof {
        lemma_drop_takers(bricks@, n as int);
    }
    let idx = eligible[pick];
    let mut b = bricks[idx];
    b.powerup_chance_bits = CHANCE_SEVENTY_PERCENT_BITS;
    bricks.set(idx, b);
}

/// What the validator accepts: every brick's cell lies in the grid, the grid
/// fits in memory, and there is a bottom row whenever there are columns.
pub open spec fn level_shape_ok(bricks: Seq<BrickData>, cols: int, rows: int) -> bool {
    &&& cols * rows <= usize::MAX
    &&& (cols > 0 ==> rows > 0)
    &&& bricks_in_grid(bricks, cols, rows)
}

/// Removes breakable bricks that the ball can never reach: those whose cell
/// is not connected to the bottom row through cells free of invincible
/// bricks. If a removed brick carried a power-up, one surviving breakable
/// brick without a power-up, drawn from `rng`, gets a 70% drop chance.
pub fn remove_trapped_bricks(bricks: &mut Vec<BrickData>, cols: usize, rows: usize, rng: &mut ChaCha8Rng)
    requires
        level_shape_ok(old(bricks)@, cols as int, rows as int),
    ensures
        trapped_sweep_result(old(bricks)@, cols as int, rows as int, final(bricks)@),
        final(bricks)@ == sweep_with_draw(old(bricks)@, cols as int, rows as int, *old(rng)).0,
        *final(rng) == sweep_with_draw(old(bricks)@, cols as int, rows as int, *old(rng)).1,
{
    let ghost all = bricks@;
    let ghost ci = cols as int;
    let ghost ri = rows as int;
    let walls = mark_cells(bricks, cols, rows, false);
    let reach = flood_from_bottom(&walls, Ghost(all), cols, rows);

    let mut kept: Vec<BrickData> = Vec::new();
    let mut removed_powerups = false;
    let mut k: usize = 0;
    while k < bricks.len()
        invariant
            bricks@ == all,
            ci == cols as int,
            ri == rows as int,
            level_shape_ok(all, ci, ri),
            reach@.len() == cols * rows,
            forall|i: int|
                0 <= i < cols * rows ==> (#[trigger] reach@[i] <==> open_from_bottom(all, ci, ri, i)),
            0 <= k <= all.len(),
            kept@ == swept(all, ci, ri, all.take(k as int)),
            removed_powerups <==> exists|j: int|
                0 <= j < k && !survives_sweep(all, ci, ri, all[j]) && #[trigger] chance_positive(
                    all[j].powerup_chance_bits,
                ),
        decreases all.len() - k,
    {
        let b = bricks[k];
        assert(brick_slot(all[k as int], ci) < ci * ri);
        assert(all.take(k + 1).drop_last() =~= all.take(k as int));
        let keep = if b.is_destructible() {
            reach[b.row * cols + b.col]
        } else {
            true
        };
        if keep {
            kept.push(b);
        } else if crate::level::data::chance_is_positive(b.powerup_chance_bits) {
            removed_powerups = true;
        }
        k = k + 1;
    }
    assert(all.take(all.len() as int) =~= all);

    let ghost k0 = kept@;
    let kn = kept.len();
    proof {
        lemma_drop_takers(k0, kn as int);
    }
    if removed_powerups {
        let eligible = drop_taker_list(&kept);
        if eligible.len() > 0 {
            let pick = chacha8_below(rng, eligible.len());
            give_lost_drop(&mut kept, pick);
            proof {
                let e = drop_takers(k0, k0.len() as int)[pick as int] as int;
                assert(0 <= e < k0.len() && can_take_drop(k0[e]));
            }
        }
    }
    *bricks = kept;
}

/// Number of invincible bricks in `s`.
pub open spec fn count_invincible(s: Seq<BrickData>) -> nat
    decreases s.len(),
{
    if s.len() == 0 {
        0
    } else {
        count_invincible(s.drop_last()) + if s.last().destructible() { 0nat } else { 1nat }
    }
}

/// `b` turned into a brick of kind `kind` with `hp` hit points (position,
/// special and drop kept).
pub open spec fn reinforced(b: BrickData, kind: BrickKind, hp: u32) -> BrickData {
    BrickData { kind: kind, health: hp, max_health: hp, ..b }
}

/// `b` turned into a plain one-hit brick.
pub open spec fn made_normal(b: BrickData) -> BrickData {
    reinforced(b, BrickKind::Normal, 1)
}

/// `s` with its first `excess` invincible bricks (in order) turned into
/// `kind` bricks with `hp` hit points.
pub open spec fn convert_first_invincible(s: Seq<BrickData>, excess: nat, kind: BrickKind, hp: u32) -> Seq<BrickData> {
    Seq::new(
        s.len(),
        |i: int|
            if !s[i].destructible() && count_invincible(s.take(i)) < excess {
                reinforced(s[i], kind, hp)
            } else {
                s[i]
            },
    )
}

/// How many invincible bricks exceed a third of the level (at least one brick
/// counted).
pub open spec fn invincible_excess(s: Seq<BrickData>) -> nat {
    let total: nat = if s.len() == 0 { 1 } else { s.len() };
    if count_invincible(s) > total / 3 {
        (count_invincible(s) - total / 3) as nat
    } else {
        0
    }
}

/// `s` with its first `invincible_excess(s)` invincible bricks made normal.
pub open spec fn capped_invincible(s: Seq<BrickData>) -> Seq<BrickData> {
    convert_first_invincible(s, invincible_excess(s), BrickKind::Normal, 1)
}

/// `s` with every invincible brick made normal when fewer than three bricks
/// are breakable (and there is at least one brick).
pub open spec fn with_minimum_breakable(s: Seq<BrickData>) -> Seq<BrickData> {
    if s.len() - count_invincible(s) < 3 && s.len() > 0 {
        Seq::new(s.len(), |i: int| if s[i].destructible() { s[i] } else { made_normal(s[i]) })
    } else {
        s
    }
}

pub(crate) proof fn lemma_count_invincible_le(s: Seq<BrickData>)
    ensures
        count_invincible(s) <= s.len(),
    decreases s.len(),
{
    if s.len() > 0 {
        lemma_count_invincible_le(s.drop_last());
    }
}

pub(crate) fn count_invincible_bricks(bricks: &Vec<BrickData>) -> (n: usize)
    ensures
        n == count_invincible(bricks@),
{
    let mut n: usize = 0;
    let mut i: usize = 0;
    while i < bricks.len()
        invariant
            0 <= i <= bricks@.len(),
            n == count_invincible(bricks@.take(i as int)),
            n <= i,
        decreases bricks@.len() - i,
    {
        assert(bricks@.take(i + 1).drop_last() =~= bricks@.take(i as int));
        if !bricks[i].is_destructible() {
            n = n + 1;
        }
        i = i + 1;
    }
    assert(bricks@.take(bricks@.len() as int) =~= bricks@);
    n
}

/// Number of bricks the ball can break.
pub fn destructible_count(bricks: &Vec<BrickData>) -> (n: usize)
    ensures
        n == bricks@.len() - count_invincible(bricks@),
{
    let inv = count_invincible_bricks(bricks);
    proof {
        lemma_count_invincible_le(bricks@);
    }
    bricks.len() - inv
}

/// Turns the first `excess` invincible bricks (in order) into `kind` bricks
/// with `hp` hit points.
pub(crate) fn convert_first_invincible_bricks(bricks: &mut Vec<BrickData>, excess: usize, kind: BrickKind, hp: u32)
    requires
        kind != BrickKind::Invincible,
    ensures
        final(bricks)@ == convert_first_invincible(old(bricks)@, excess as nat, kind, hp),
        count_invincible(final(bricks)@) == count_invincible(old(bricks)@) - (if count_invincible(old(bricks)@) < excess {
            count_invincible(old(bricks)@)
        } else {
            excess as nat
        }),
{
    let ghost s = bricks@;
    let mut converted: usize = 0;
    let mut i: usize = 0;
    while i < bricks.len() && converted < excess
        invariant
            bricks@.len() == s.len(),
            kind != BrickKind::Invincible,
            0 <= i <= s.len(),
            converted == count_invincible(s.take(i as int)),
            converted <= excess,
            forall|j: int| 0 <= j < i ==> #[trigger] bricks@[j] == convert_first_invincible(s, excess as nat, kind, hp)[j],
            forall|j: int| i <= j < s.len() ==> #[trigger] bricks@[j] == s[j],
        decreases s.len() - i,
    {
        assert(s.take(i + 1).drop_last() =~= s.take(i as int));
        if !bricks[i].is_destructible() {
            let mut b = bricks[i];
            b.kind = kind;
            b.health = hp;
            b.max_health = hp;
            bricks.set(i, b);
            converted = converted + 1;
        }
        i = i + 1;
    }
    proof {
        assert forall|j: int| i <= j < s.len() implies #[trigger] bricks@[j] == convert_first_invincible(s, excess as nat, kind, hp)[j] by {
            if !s[j].destructible() {
                lemma_count_invincible_prefix_mono(s, i as int, j);
            }
        }
        assert(bricks@ =~= convert_first_invincible(s, excess as nat, kind, hp));
        lemma_converted_prefix(s, excess as nat, kind, hp, s.len() as int);
        assert(bricks@.take(s.len() as int) =~= bricks@);
        assert(s.take(s.len() as int) =~= s);
    }
}

/// Caps invincible bricks at a third of the level: the first ones beyond the
/// cap (in order) become plain one-hit bricks.
pub fn remove_isolated_invincible(bricks: &mut Vec<BrickData>)
    ensures
        final(bricks)@ == capped_invincible(old(bricks)@),
        count_invincible(final(bricks)@) <= (if old(bricks)@.len() == 0 { 1 } else { old(bricks)@.len() }) / 3,
{
    let ghost s = bricks@;
    let invincible_count = count_invincible_bricks(bricks);
    let total = if bricks.len() > 1 { bricks.len() } else { 1 };
    proof {
        lemma_count_invincible_le(s);
    }
    if invincible_count > total / 3 {
        let excess = invincible_count - total / 3;
        convert_first_invincible_bricks(bricks, excess, BrickKind::Normal, 1);
    } else {
        proof {
            assert(bricks@ =~= capped_invincible(s));
        }
    }
}

proof fn lemma_count_invincible_prefix_mono(s: Seq<BrickData>, a: int, b: int)
    requires
        0 <= a <= b <= s.len(),
    ensures
        count_invincible(s.take(a)) <= count_invincible(s.take(b)),
    decreases b - a,
{
    if a < b {
        lemma_count_invincible_prefix_mono(s, a, b - 1);
        assert(s.take(b).drop_last() =~= s.take(b - 1));
    }
}

proof fn lemma_converted_prefix(s: Seq<BrickData>, excess: nat, kind: BrickKind, hp: u32, k: int)
    requires
        0 <= k <= s.len(),
        kind != BrickKind::Invincible,
    ensures
        count_invincible(convert_first_invincible(s, excess, kind, hp).take(k)) == count_invincible(s.take(k)) - (if count_invincible(s.take(k)) < excess {
            count_invincible(s.take(k))
        } else {
            excess
        }),
    decreases k,
{
    let c = convert_first_invincible(s, excess, kind, hp);
    if k > 0 {
        lemma_converted_prefix(s, excess, kind, hp, k - 1);
        assert(c.take(k).drop_last() =~= c.take(k - 1));
        assert(s.take(k).drop_last() =~= s.take(k - 1));
    }
}

/// Whether a brick can be broken (anything but invincible).
pub open spec fn is_breakable(b: BrickData) -> bool {
    b.kind != BrickKind::Invincible
}

/// Invincible bricks and breakable ones together make up the level.
proof fn lemma_count_breakable(s: Seq<BrickData>)
    ensures
        count_invincible(s) + s.filter(|b: BrickData| is_breakable(b)).len() == s.len(),
    decreases s.len(),
{
    reveal(Seq::filter);
    if s.len() > 0 {
        lemma_count_breakable(s.drop_last());
    }
}

/// With fewer than three breakable bricks in a non-empty level, every
/// invincible brick comes out as a plain one-hit brick (kind `Normal`, one hit
/// point of one) at the same place with the same special and drop chance, and
/// breakable bricks are untouched; otherwise the level is left as it is.
pub proof fn lemma_minimum_breakable_plain_bricks(s: Seq<BrickData>)
    ensures
        with_minimum_breakable(s).len() == s.len(),
        forall|i: int| 0 <= i < s.len() ==> {
            let b = s[i];
            let n = #[trigger] with_minimum_breakable(s)[i];
            if s.len() > 0 && s.filter(|x: BrickData| is_breakable(x)).len() < 3 && b.kind == BrickKind::Invincible {
                &&& n.kind == BrickKind::Normal
                &&& n.health == 1
                &&& n.max_health == 1
                &&& n.col == b.col
                &&& n.row == b.row
                &&& n.special == b.special
                &&& n.powerup_chance_bits == b.powerup_chance_bits
            } else {
                n == b
            }
        },
{
    lemma_count_breakable(s);
}

/// Makes every invincible brick normal when fewer than three bricks can be
/// broken, so no non-empty level is unwinnable.
pub fn ensure_minimum_destructible(bricks: &mut Vec<BrickData>)
    ensures
        final(bricks)@ == with_minimum_breakable(old(bricks)@),
        final(bricks)@.len() > 0 ==> (final(bricks)@.len() - count_invincible(final(bricks)@) >= 3
            || count_invincible(final(bricks)@) == 0),
{
    let ghost s = bricks@;
    let invincible = count_invincible_bricks(bricks);
    proof {
        lemma_count_invincible_le(s);
    }
    let destructible = bricks.len() - invincible;
    if destructible < 3 && bricks.len() > 0 {
        let mut i: usize = 0;
        while i < bricks.len()
            invariant
                bricks@.len() == s.len(),
                0 <= i <= s.len(),
                forall|j: int| 0 <= j < i ==> #[trigger] bricks@[j] == with_minimum_breakable(s)[j],
                forall|j: int| i <= j < s.len() ==> #[trigger] bricks@[j] == s[j],
                s.len() - count_invincible(s) < 3 && s.len() > 0,
            decreases s.len() - i,
        {
            if !bricks[i].is_destructible() {
                let mut b = bricks[i];
                b.kind = BrickKind::Normal;
                b.health = 1;
                b.max_health = 1;
                bricks.set(i, b);
            }
            i = i + 1;
        }
        proof {
            assert(bricks@ =~= with_minimum_breakable(s));
            lemma_all_breakable_count(bricks@);
        }
    } else {
        proof {
            assert(bricks@ =~= with_minimum_breakable(s));
        }
    }
}

proof fn lemma_all_breakable_count(s: Seq<BrickData>)
    requires
        forall|j: int| 0 <= j < s.len() ==> #[trigger] s[j].destructible(),
    ensures
        count_invincible(s) == 0,
    decreases s.len(),
{
    if s.len() > 0 {
        lemma_all_breakable_count(s.drop_last());
    }
}

/// Validates a generated level in place: removes unreachable breakable
/// bricks, caps invincible bricks at a third of the level, and keeps at least
/// three breakable bricks in any non-empty level.
pub fn validate_and_fix(bricks: &mut Vec<BrickData>, cols: usize, rows: usize, rng: &mut ChaCha8Rng)
    requires
        level_shape_ok(old(bricks)@, cols as int, rows as int),
    ensures
        exists|swept_bricks: Seq<BrickData>|
            trapped_sweep_result(old(bricks)@, cols as int, rows as int, swept_bricks)
                && final(bricks)@ == with_minimum_breakable(capped_invincible(swept_bricks)),
        count_invincible(final(bricks)@) <= (if final(bricks)@.len() == 0 { 1 } else { final(bricks)@.len() }) / 3,
        final(bricks)@.len() > 0 ==> (final(bricks)@.len() - count_invincible(final(bricks)@) >= 3
            || count_invincible(final(bricks)@) == 0),
        final(bricks)@ == with_minimum_breakable(capped_invincible(sweep_with_draw(old(bricks)@, cols as int, rows as int, *old(rng)).0)),
        *final(rng) == sweep_with_draw(old(bricks)@, cols as int, rows as int, *old(rng)).1,
{
    remove_trapped_bricks(bricks, cols, rows, rng);
    let ghost mid = bricks@;
    remove_isolated_invincible(bricks);
    let ghost capped = bricks@;
    ensure_minimum_destructible(bricks);
    proof {
        assert(trapped_sweep_result(old(bricks)@, cols as int, rows as int, mid));
        if capped.len() - count_invincible(capped) < 3 && capped.len() > 0 {
            lemma_all_breakable_count(bricks@);
        }
    }
}

} // verus!
