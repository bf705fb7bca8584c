//! Hybrid layouts built on integer grids: recursive fractal subdivision of
//! a full wall, and branching growth by random walks.
use vstd::prelude::*;
use crate::level::grid::{BrickGrid, lemma_cell_index};
use crate::level::layout::creative::lemma_empty_grid;
use crate::level::layout::organic::{heading, on_grid};
use crate::random::UNIT_ROLL_STEPS;
use crate::random::{chacha8_below, roll_below, below_value, after_below, roll_value, after_roll};
use rand_chacha::ChaCha8Rng;

verus! {

/// Cell `(c, r)` lies in the `rw` x `rh` block whose top-left cell is
/// `(rx, ry)`.
pub open spec fn in_block(rx: int, ry: int, rw: int, rh: int, c: int, r: int) -> bool {
    rx <= c < rx + rw && ry <= r < ry + rh
}

/// Clears a `rw` x `rh` block from `(rx, ry)`; cells past the grid's edge
/// are skipped.
fn clear_block(grid: &mut BrickGrid, rx: usize, ry: usize, rw: usize, rh: usize)
    requires
        old(grid).wf(),
        rx + rw <= usize::MAX,
        ry + rh <= usize::MAX,
    ensures
        final(grid).wf(),
        final(grid).cols == old(grid).cols,
        final(grid).rows == old(grid).rows,
        forall|c: int, r: int| #[trigger] final(grid).cell(c, r) == (old(grid).cell(c, r) && !in_block(rx as int, ry as int, rw as int, rh as int, c, r)),
{
    let ghost g0 = *grid;
    let mut dy: usize = 0;
    while dy < rh
        invariant
            grid.wf(),
            grid.cols == g0.cols,
            grid.rows == g0.rows,
            rx + rw <= usize::MAX,
            ry + rh <= usize::MAX,
            0 <= dy <= rh,
            forall|c: int, r: int| #[trigger] grid.cell(c, r) == (g0.cell(c, r) && !in_block(rx as int, ry as int, rw as int, dy as int, c, r)),
        decreases rh - dy,
    {
        let mut dx: usize = 0;
        while dx < rw
            invariant
                grid.wf(),
                grid.cols == g0.cols,
                grid.rows == g0.rows,
                rx + rw <= usize::MAX,
                ry + rh <= usize::MAX,
                0 <= dy < rh,
                0 <= dx <= rw,
                forall|c: int, r: int| #[trigger] grid.cell(c, r) == (g0.cell(c, r) && !in_block(rx as int, ry as int, rw as int, dy as int, c, r)
                    && !(r == ry + dy && rx <= c < rx + dx)),
            decreases rw - dx,
        {
            grid.set(rx + dx, ry + dy, false);
            dx = dx + 1;
        }
        dy = dy + 1;
    }
}

/// The size of a draw range: `n`, or 1 when `n` is below 2.
pub open spec fn at_least_one(n: int) -> usize {
    if n > 1 { n as usize } else { 1 }
}

/// The block that region `(x, y, w, h)` knocks out when its removal roll
/// hits, drawn from state `rng` (its corner's column, then its row inside
/// the region, then a width and a height of at most half the region's), and
/// the generator state after the four draws.
pub open spec fn drawn_block(x: usize, y: usize, w: usize, h: usize, rng: ChaCha8Rng) -> (Set<(int, int)>, ChaCha8Rng) {
    let nx = at_least_one(w - 1);
    let r1 = after_below(rng, nx);
    let ny = at_least_one(h - 1);
    let r2 = after_below(r1, ny);
    let nw = at_least_one((w / 2) as int);
    let r3 = after_below(r2, nw);
    let nh = at_least_one((h / 2) as int);
    let rx = x + below_value(rng, nx);
    let ry = y + below_value(r1, ny);
    let rw = 1 + below_value(r2, nw);
    let rh = 1 + below_value(r3, nh);
    (Set::new(|p: (int, int)| in_block(rx, ry, rw, rh, p.0, p.1)), after_below(r3, nh))
}

/// The cells that subdividing region `(x, y, w, h)` `depth` levels deep
/// knocks out, given the generator state `rng` it starts from, and the state
/// it leaves: a region at least two cells wide and high rolls for its own
/// block, then its four quadrants follow in reading order.
pub open spec fn fractal_cuts(x: usize, y: usize, w: usize, h: usize, depth: nat, remove_roll: u32, rng: ChaCha8Rng) -> (Set<(int, int)>, ChaCha8Rng)
    decreases depth,
{
    if depth == 0 || w < 2 || h < 2 {
        (Set::empty(), rng)
    } else {
        let r0 = after_roll(rng);
        let own = if roll_value(rng) < remove_roll { drawn_block(x, y, w, h, r0) } else { (Set::empty(), r0) };
        let hw = w / 2;
        let hh = h / 2;
        let q1 = fractal_cuts(x, y, hw, hh, (depth - 1) as nat, remove_roll, own.1);
        let q2 = fractal_cuts((x + hw) as usize, y, (w - hw) as usize, hh, (depth - 1) as nat, remove_roll, q1.1);
        let q3 = fractal_cuts(x, (y + hh) as usize, hw, (h - hh) as usize, (depth - 1) as nat, remove_roll, q2.1);
        let q4 = fractal_cuts((x + hw) as usize, (y + hh) as usize, (w - hw) as usize, (h - hh) as usize, (depth - 1) as nat, remove_roll, q3.1);
        (own.0 + q1.0 + q2.0 + q3.0 + q4.0, q4.1)
    }
}

/// Fractal layout: a full wall whose regions are recursively halved, `depth`
/// levels deep, each losing a random block with chance `remove_roll / 2^24`.
pub fn fractal_subdivision(cols: usize, rows: usize, depth: usize, remove_roll: u32, rng: &mut ChaCha8Rng) -> (g: BrickGrid)
    requires
        cols * rows <= usize::MAX,
    ensures
        g.wf(),
        g.cols == cols,
        g.rows == rows,
        forall|c: int, r: int| #[trigger] g.cell(c, r) ==> 0 <= c < cols && 0 <= r < rows,
        depth == 0 || cols < 2 || rows < 2 || remove_roll == 0 ==> forall|c: int, r: int|
            #[trigger] g.cell(c, r) == (0 <= c < cols && 0 <= r < rows),
        depth > 0 && cols >= 2 && rows >= 2 && remove_roll >= UNIT_ROLL_STEPS ==> exists|c: int, r: int|
            0 <= c < cols && 0 <= r < rows && !#[trigger] g.cell(c, r),
        forall|c: int, r: int| #[trigger] g.cell(c, r) == (0 <= c < cols && 0 <= r < rows
            && !fractal_cuts(0, 0, cols, rows, depth as nat, remove_roll, *old(rng)).0.contains((c, r))),
        *final(rng) == fractal_cuts(0, 0, cols, rows, depth as nat, remove_roll, *old(rng)).1,
{
    let mut grid = BrickGrid::filled(cols, rows);
    proof {
        assert forall|c: int, r: int| #[trigger] grid.cell(c, r) == (0 <= c < cols && 0 <= r < rows) by {
            if 0 <= c < cols && 0 <= r < rows {
                lemma_cell_index(cols as int, rows as int, c, r);
            }
        }
    }
    subdivide(&mut grid, 0, 0, cols, rows, depth, remove_roll, rng);
    grid
}

/// Region `(x, y, w, h)` of the grid: with chance `remove_roll / 2^24` a
/// random block of at most half its size is knocked out from a random cell
/// in it, then its four quadrants are handled the same way, `depth` levels
/// deep; regions narrower or lower than two cells are left alone.
fn subdivide(grid: &mut BrickGrid, x: usize, y: usize, w: usize, h: usize, depth: usize, remove_roll: u32, rng: &mut ChaCha8Rng)
    requires
        old(grid).wf(),
        x + w <= old(grid).cols,
        y + h <= old(grid).rows,
    ensures
        final(grid).wf(),
        final(grid).cols == old(grid).cols,
        final(grid).rows == old(grid).rows,
        forall|c: int, r: int| #[trigger] final(grid).cell(c, r) ==> old(grid).cell(c, r),
        depth == 0 || w < 2 || h < 2 || remove_roll == 0 ==> forall|c: int, r: int|
            #[trigger] final(grid).cell(c, r) == old(grid).cell(c, r),
        depth > 0 && w >= 2 && h >= 2 && remove_roll >= UNIT_ROLL_STEPS ==> exists|c: int, r: int|
            x <= c < x + w && y <= r < y + h && !#[trigger] final(grid).cell(c, r),
        forall|c: int, r: int| #[trigger] final(grid).cell(c, r) == (old(grid).cell(c, r)
            && !fractal_cuts(x, y, w, h, depth as nat, remove_roll, *old(rng)).0.contains((c, r))),
        *final(rng) == fractal_cuts(x, y, w, h, depth as nat, remove_roll, *old(rng)).1,
    decreases depth,
{
    if depth == 0 || w < 2 || h < 2 {
        return;
    }
    let ghost g0 = *grid;
    let ghost rng0 = *rng;
    let ghost cuts = fractal_cuts(x, y, w, h, depth as nat, remove_roll, rng0);
    proof {
        let cols = grid.cols as int;
        let rows = grid.rows as int;
        assert(cols <= usize::MAX / 2 && rows <= usize::MAX / 2) by (nonlinear_arith)
            requires
                cols * rows <= usize::MAX,
                cols >= 2,
                rows >= 2,
        ;
    }
    let ghost mut cleared: (int, int) = (x as int, y as int);
    let removed = roll_below(rng, remove_roll);
    if removed {
        let rx = x + chacha8_below(rng, if w - 1 > 1 { w - 1 } else { 1 });
        let ry = y + chacha8_below(rng, if h - 1 > 1 { h - 1 } else { 1 });
        let rw = 1 + chacha8_below(rng, if w / 2 > 1 { w / 2 } else { 1 });
        let rh = 1 + chacha8_below(rng, if h / 2 > 1 { h / 2 } else { 1 });
        clear_block(grid, rx, ry, rw, rh);
        proof {
            cleared = (rx as int, ry as int);
        }
    }
    let ghost g_mid = *grid;
    let ghost own: (Set<(int, int)>, ChaCha8Rng) = if roll_value(rng0) < remove_roll { drawn_block(x, y, w, h, after_roll(rng0)) } else { (Set::empty(), after_roll(rng0)) };
    assert(*rng == own.1);
    assert forall|c: int, r: int| #[trigger] g_mid.cell(c, r) == (g0.cell(c, r) && !own.0.contains((c, r))) by {}
    assert(removed ==> x <= cleared.0 < x + w && y <= cleared.1 < y + h && !g_mid.cell(cleared.0, cleared.1));
    let hw = w / 2;
    let hh = h / 2;
    if hw > 0 && hh > 0 {
        let ghost g1 = *grid;
        subdivide(grid, x, y, hw, hh, depth - 1, remove_roll, rng);
        let ghost g2 = *grid;
        subdivide(grid, x + hw, y, w - hw, hh, depth - 1, remove_roll, rng);
        let ghost g3 = *grid;
        subdivide(grid, x, y + hh, hw, h - hh, depth - 1, remove_roll, rng);
        let ghost g4 = *grid;
        subdivide(grid, x + hw, y + hh, w - hw, h - hh, depth - 1, remove_roll, rng);
        assert forall|c: int, r: int| #[trigger] grid.cell(c, r) implies g0.cell(c, r) by {
            assert(g4.cell(c, r));
            assert(g3.cell(c, r));
            assert(g2.cell(c, r));
            assert(g1.cell(c, r));
        }
        if remove_roll == 0 {
            assert forall|c: int, r: int| #[trigger] grid.cell(c, r) == g0.cell(c, r) by {
                assert(g4.cell(c, r) == g3.cell(c, r));
                assert(g3.cell(c, r) == g2.cell(c, r));
                assert(g2.cell(c, r) == g1.cell(c, r));
                assert(g1.cell(c, r) == g0.cell(c, r));
            }
        }
        let ghost d = (depth - 1) as nat;
        let ghost q1 = fractal_cuts(x, y, hw, hh, d, remove_roll, own.1);
        let ghost q2 = fractal_cuts((x + hw) as usize, y, (w - hw) as usize, hh, d, remove_roll, q1.1);
        let ghost q3 = fractal_cuts(x, (y + hh) as usize, hw, (h - hh) as usize, d, remove_roll, q2.1);
        let ghost q4 = fractal_cuts((x + hw) as usize, (y + hh) as usize, (w - hw) as usize, (h - hh) as usize, d, remove_roll, q3.1);
        assert(cuts == (own.0 + q1.0 + q2.0 + q3.0 + q4.0, q4.1));
        assert(*rng == q4.1);
        assert forall|c: int, r: int| #[trigger] grid.cell(c, r) == (g0.cell(c, r) && !cuts.0.contains((c, r))) by {
            assert(grid.cell(c, r) == (g4.cell(c, r) && !q4.0.contains((c, r))));
            assert(g4.cell(c, r) == (g3.cell(c, r) && !q3.0.contains((c, r))));
            assert(g3.cell(c, r) == (g2.cell(c, r) && !q2.0.contains((c, r))));
            assert(g2.cell(c, r) == (g1.cell(c, r) && !q1.0.contains((c, r))));
            assert(g1.cell(c, r) == (g0.cell(c, r) && !own.0.contains((c, r))));
        }
        if removed {
            assert(!g2.cell(cleared.0, cleared.1));
            assert(!g3.cell(cleared.0, cleared.1));
            assert(!g4.cell(cleared.0, cleared.1));
            assert(!grid.cell(cleared.0, cleared.1));
        }
    }
    assert(removed ==> !grid.cell(cleared.0, cleared.1));
}

/// Two cells side by side or one above the other.
pub open spec fn orth_adjacent(a: (int, int), b: (int, int)) -> bool {
    ||| (a.0 == b.0 && (a.1 - b.1 == 1 || b.1 - a.1 == 1))
    ||| (a.1 == b.1 && (a.0 - b.0 == 1 || b.0 - a.0 == 1))
}

/// A walk of at most `max_steps` cells inside a `cols` x `rows` grid, each
/// cell next to the one before it.
pub open spec fn grid_walk(w: Seq<(int, int)>, cols: int, rows: int, max_steps: int) -> bool {
    &&& w.len() <= max_steps
    &&& forall|i: int| 0 <= i < w.len() ==> 0 <= #[trigger] w[i].0 < cols && 0 <= w[i].1 < rows
    &&& forall|i: int| 0 < i < w.len() ==> orth_adjacent(w[i - 1], #[trigger] w[i])
}

/// Cell `(c, r)` lies on one of the walks.
pub open spec fn on_some_walk(walks: Seq<Seq<(int, int)>>, c: int, r: int) -> bool {
    exists|k: int| 0 <= k < walks.len() && #[trigger] walks[k].contains((c, r))
}

/// `g` is filled exactly along `walks`, which are `branches` walks of at
/// most `max_steps` cells.
pub open spec fn grown_along(g: BrickGrid, walks: Seq<Seq<(int, int)>>, branches: int, max_steps: int) -> bool {
    &&& walks.len() == branches
    &&& forall|k: int| 0 <= k < walks.len() ==> grid_walk(#[trigger] walks[k], g.cols as int, g.rows as int, max_steps)
    &&& forall|c: int, r: int| #[trigger] g.cell(c, r) == on_some_walk(walks, c, r)
}

/// The next cell of a walker heading down, right, up or left (`dir` 0, 1,
/// 2, 3), if it is on the grid.
fn step_toward(cols: usize, rows: usize, x: usize, y: usize, dir: usize) -> (p: Option<(usize, usize)>)
    requires
        x < cols,
        y < rows,
    ensures
        match p {
            Some(q) => q.0 < cols && q.1 < rows && orth_adjacent((x as int, y as int), (q.0 as int, q.1 as int))
                && (q.0 as int, q.1 as int) == heading(x as int, y as int, dir as int),
            None => !on_grid(cols as int, rows as int, heading(x as int, y as int, dir as int)),
        },
{
    if dir == 0 {
        if y + 1 < rows { Some((x, y + 1)) } else { None }
    } else if dir == 1 {
        if x + 1 < cols { Some((x + 1, y)) } else { None }
    } else if dir == 2 {
        if y > 0 { Some((x, y - 1)) } else { None }
    } else {
        if x > 0 { Some((x - 1, y)) } else { None }
    }
}

/// Chance, in 2^-24 steps, of turning right rather than left (0.5).
pub const LEFT_RIGHT_ROLL: u32 = 8388608;

/// The cells a walker crosses from `(x, y)` heading `dir` with at most
/// `steps` steps to go, given the generator state `rng` it starts from, and
/// the state it leaves: each step fills the current cell, rolls whether to
/// turn (and then, which way), and moves on unless that leaves the grid.
pub open spec fn walker_path(cols: int, rows: int, x: int, y: int, dir: int, steps: nat, turn_roll: u32, rng: ChaCha8Rng) -> (Seq<(int, int)>, ChaCha8Rng)
    decreases steps,
{
    if steps == 0 {
        (Seq::empty(), rng)
    } else {
        let r1 = after_roll(rng);
        let turned = roll_value(rng) < turn_roll;
        let nd = if turned { (dir + if roll_value(r1) < LEFT_RIGHT_ROLL { 1int } else { 3int }) % 4 } else { dir };
        let r2 = if turned { after_roll(r1) } else { r1 };
        let next = heading(x, y, nd);
        if on_grid(cols, rows, next) {
            let rest = walker_path(cols, rows, next.0, next.1, nd, (steps - 1) as nat, turn_roll, r2);
            (seq![(x, y)] + rest.0, rest.1)
        } else {
            (seq![(x, y)], r2)
        }
    }
}

/// The walks of the first `branches` walkers drawn from state `rng` (each
/// draws its start column, row and heading, then walks), and the state
/// after them.
pub open spec fn branch_walks(cols: usize, rows: usize, branches: nat, max_steps: nat, turn_roll: u32, rng: ChaCha8Rng) -> (Seq<Seq<(int, int)>>, ChaCha8Rng)
    decreases branches,
{
    if branches == 0 {
        (Seq::empty(), rng)
    } else {
        let prev = branch_walks(cols, rows, (branches - 1) as nat, max_steps, turn_roll, rng);
        let s1 = after_below(prev.1, cols);
        let s2 = after_below(s1, rows);
        let walk = walker_path(cols as int, rows as int, below_value(prev.1, cols) as int, below_value(s1, rows) as int,
            below_value(s2, 4) as int, max_steps, turn_roll, after_below(s2, 4));
        (prev.0.push(walk.0), walk.1)
    }
}

/// Branching growth: `branches` walkers start at random cells heading a
/// random way, fill the cells they cross for at most `max_steps` steps,
/// turn a quarter left or right with chance `turn_roll / 2^24` at each
/// step, and stop at the grid's edge.
pub fn lsystem_growth(cols: usize, rows: usize, branches: usize, max_steps: usize, turn_roll: u32, rng: &mut ChaCha8Rng) -> (g: BrickGrid)
    requires
        cols * rows <= usize::MAX,
        branches > 0 ==> cols > 0 && rows > 0,
    ensures
        g.wf(),
        g.cols == cols,
        g.rows == rows,
        exists|walks: Seq<Seq<(int, int)>>| #[trigger] grown_along(g, walks, branches as int, max_steps as int),
        grown_along(g, branch_walks(cols, rows, branches as nat, max_steps as nat, turn_roll, *old(rng)).0, branches as int, max_steps as int),
        *final(rng) == branch_walks(cols, rows, branches as nat, max_steps as nat, turn_roll, *old(rng)).1,
{
    let ghost rng0 = *rng;
    let mut grid = BrickGrid::new(cols, rows);
    proof {
        lemma_empty_grid(grid);
    }
    let ghost mut walks: Seq<Seq<(int, int)>> = Seq::empty();
    let mut b: usize = 0;
    while b < branches
        invariant
            grid.wf(),
            grid.cols == cols,
            grid.rows == rows,
            branches > 0 ==> cols > 0 && rows > 0,
            0 <= b <= branches,
            walks.len() == b,
            forall|k: int| 0 <= k < walks.len() ==> grid_walk(#[trigger] walks[k], cols as int, rows as int, max_steps as int),
            forall|c: int, r: int| #[trigger] grid.cell(c, r) == on_some_walk(walks, c, r),
            walks == branch_walks(cols, rows, b as nat, max_steps as nat, turn_roll, rng0).0,
            *rng == branch_walks(cols, rows, b as nat, max_steps as nat, turn_roll, rng0).1,
        decreases branches - b,
    {
        let mut x = chacha8_below(rng, cols);
        let mut y = chacha8_below(rng, rows);
        let mut dir = chacha8_below(rng, 4);
        let ghost prev = walks;
        let ghost full = walker_path(cols as int, rows as int, x as int, y as int, dir as int, max_steps as nat, turn_roll, *rng);
        assert(branch_walks(cols, rows, (b + 1) as nat, max_steps as nat, turn_roll, rng0) == (prev.push(full.0), full.1));
        let ghost mut walk: Seq<(int, int)> = Seq::empty();
        let mut step: usize = 0;
        let mut going = true;
        while step < max_steps && going
            invariant
                grid.wf(),
                grid.cols == cols,
                grid.rows == rows,
                x < cols,
                y < rows,
                dir < 4,
                0 <= step <= max_steps,
                walk.len() == step,
                forall|k: int| 0 <= k < prev.len() ==> grid_walk(#[trigger] prev[k], cols as int, rows as int, max_steps as int),
                forall|i: int| 0 <= i < walk.len() ==> 0 <= #[trigger] walk[i].0 < cols && 0 <= walk[i].1 < rows,
                forall|i: int| 0 < i < walk.len() ==> orth_adjacent(walk[i - 1], #[trigger] walk[i]),
                going && walk.len() > 0 ==> orth_adjacent(walk.last(), (x as int, y as int)),
                forall|c: int, r: int| #[trigger] grid.cell(c, r) == (on_some_walk(prev, c, r) || walk.contains((c, r))),
                going ==> walk + walker_path(cols as int, rows as int, x as int, y as int, dir as int, (max_steps - step) as nat, turn_roll, *rng).0 == full.0,
                going ==> walker_path(cols as int, rows as int, x as int, y as int, dir as int, (max_steps - step) as nat, turn_roll, *rng).1 == full.1,
                !going ==> walk == full.0 && *rng == full.1,
            decreases max_steps - step, (if going { 1int } else { 0int }),
        {
            let ghost here = walker_path(cols as int, rows as int, x as int, y as int, dir as int, (max_steps - step) as nat, turn_roll, *rng);
            let ghost before = walk;
            let ghost g_before = grid;
            let ghost w_before = walk;
            grid.set(x, y, true);
            proof {
                walk = walk.push((x as int, y as int));
                assert forall|c: int, r: int| #[trigger] grid.cell(c, r) == (on_some_walk(prev, c, r) || walk.contains((c, r))) by {
                    if w_before.contains((c, r)) {
                        let t = choose|t: int| 0 <= t < w_before.len() && w_before[t] == (c, r);
                        assert(walk[t] == (c, r));
                    }
                    if walk.contains((c, r)) && !(c == x && r == y) {
                        let t = choose|t: int| 0 <= t < walk.len() && walk[t] == (c, r);
                        assert(t < w_before.len());
                        assert(w_before[t] == (c, r));
                    }
                    if c == x && r == y {
                        assert(walk[walk.len() - 1] == (c, r));
                    }
                }
                assert forall|i: int| 0 < i < walk.len() implies orth_adjacent(walk[i - 1], #[trigger] walk[i]) by {
                    if i < w_before.len() {
                        assert(walk[i - 1] == w_before[i - 1] && walk[i] == w_before[i]);
                    }
                }
            }
            if roll_below(rng, turn_roll) {
                let turn: usize = if roll_below(rng, LEFT_RIGHT_ROLL) { 1 } else { 3 };
                dir = (dir + turn) % 4;
            }
            match step_toward(cols, rows, x, y, dir) {
                Some(p) => {
                    x = p.0;
                    y = p.1;
                },
                None => {
                    going = false;
                },
            }
            step = step + 1;
            proof {
                if going {
                    let rest = walker_path(cols as int, rows as int, x as int, y as int, dir as int, (max_steps - step) as nat, turn_roll, *rng);
                    assert(here.0 == seq![walk.last()] + rest.0);
                    assert(walk + rest.0 =~= before + (seq![walk.last()] + rest.0));
                } else {
                    assert(walk =~= before + seq![walk.last()]);
                }
            }
        }
        assert(walk == full.0);
        proof {
            walks = walks.push(walk);
            assert forall|k: int| 0 <= k < walks.len() implies grid_walk(#[trigger] walks[k], cols as int, rows as int, max_steps as int) by {
                if k < prev.len() {
                    assert(walks[k] == prev[k]);
                }
            }
            assert forall|c: int, r: int| #[trigger] grid.cell(c, r) == on_some_walk(walks, c, r) by {
                if on_some_walk(prev, c, r) {
                    let k = choose|k: int| 0 <= k < prev.len() && #[trigger] prev[k].contains((c, r));
                    assert(walks[k] == prev[k]);
                }
                if walk.contains((c, r)) {
                    assert(walks[prev.len() as int] == walk);
                }
                if on_some_walk(walks, c, r) {
                    let k = choose|k: int| 0 <= k < walks.len() && #[trigger] walks[k].contains((c, r));
                    if k < prev.len() {
                        assert(walks[k] == prev[k]);
                    }
                }
            }
        }
        b = b + 1;
    }
    assert(grown_along(grid, walks, branches as int, max_steps as int));
    grid
}

} // verus!
