//! Organic layouts: caves grown by a cellular automaton from random noise,
//! and coral grown by diffusion-limited aggregation from a seed cell.
use vstd::prelude::*;
use crate::level::grid::BrickGrid;
use crate::level::layout::creative::lemma_empty_grid;
use crate::random::{chacha8_below, roll_below, roll_stream, roll_value, below_value, after_below};
use crate::level::layout::creative::lemma_roll_stream_len;
use crate::level::grid::lemma_cell_index;
use rand_chacha::ChaCha8Rng;

verus! {

pub open spec fn bit(b: bool) -> nat {
    if b { 1 } else { 0 }
}

/// Filled cells among the eight around `(c, r)` (outside cells count as empty).
pub open spec fn alive_neighbors(g: BrickGrid, c: int, r: int) -> nat {
    bit(g.cell(c - 1, r - 1)) + bit(g.cell(c, r - 1)) + bit(g.cell(c + 1, r - 1)) + bit(g.cell(c - 1, r))
        + bit(g.cell(c + 1, r)) + bit(g.cell(c - 1, r + 1)) + bit(g.cell(c, r + 1)) + bit(
        g.cell(c + 1, r + 1),
    )
}

/// Survival needs three live neighbours, birth needs four.
pub open spec fn next_generation(g: BrickGrid, c: int, r: int) -> bool {
    if g.cell(c, r) {
        alive_neighbors(g, c, r) >= 3
    } else {
        alive_neighbors(g, c, r) >= 4
    }
}

/// The grid sides fit the `i32` neighbour arithmetic.
pub open spec fn grid_coords_ok(g: BrickGrid) -> bool {
    g.wf() && g.cols < i32::MAX && g.rows < i32::MAX
}

fn neighbor_alive(grid: &BrickGrid, col: usize, row: usize, dx: i32, dy: i32) -> (alive: bool)
    requires
        grid_coords_ok(*grid),
        col < grid.cols,
        row < grid.rows,
        -1 <= dx <= 1,
        -1 <= dy <= 1,
    ensures
        alive == grid.cell(col + dx, row + dy),
{
    let nc = col as i32 + dx;
    let nr = row as i32 + dy;
    if nc >= 0 && nc < grid.cols as i32 && nr >= 0 && nr < grid.rows as i32 {
        grid.get(nc as usize, nr as usize)
    } else {
        false
    }
}

fn count_alive_neighbors(grid: &BrickGrid, col: usize, row: usize) -> (n: u32)
    requires
        grid_coords_ok(*grid),
        col < grid.cols,
        row < grid.rows,
    ensures
        n == alive_neighbors(*grid, col as int, row as int),
{
    let mut n: u32 = 0;
    if neighbor_alive(grid, col, row, -1, -1) { n += 1; }
    if neighbor_alive(grid, col, row, 0, -1) { n += 1; }
    if neighbor_alive(grid, col, row, 1, -1) { n += 1; }
    if neighbor_alive(grid, col, row, -1, 0) { n += 1; }
    if neighbor_alive(grid, col, row, 1, 0) { n += 1; }
    if neighbor_alive(grid, col, row, -1, 1) { n += 1; }
    if neighbor_alive(grid, col, row, 0, 1) { n += 1; }
    if neighbor_alive(grid, col, row, 1, 1) { n += 1; }
    n
}

/// One generation of the cave automaton: a filled cell survives with at
/// least three filled neighbours, an empty cell fills with at least four.
pub fn cellular_step(grid: &BrickGrid) -> (next: BrickGrid)
    requires
        grid_coords_ok(*grid),
    ensures
        next.wf(),
        next.cols == grid.cols,
        next.rows == grid.rows,
        forall|c: int, r: int|
            0 <= c < grid.cols && 0 <= r < grid.rows ==> #[trigger] next.cell(c, r) == next_generation(*grid, c, r),
{
    let mut next = BrickGrid { cols: grid.cols, rows: grid.rows, cells: grid.cells.clone() };
    let mut row: usize = 0;
    while row < grid.rows
        invariant
            grid_coords_ok(*grid),
            next.wf(),
            next.cols == grid.cols,
            next.rows == grid.rows,
            0 <= row <= grid.rows,
            forall|c: int, r: int|
                0 <= c < grid.cols && 0 <= r < row ==> #[trigger] next.cell(c, r) == next_generation(*grid, c, r),
        decreases grid.rows - row,
    {
        let mut col: usize = 0;
        while col < grid.cols
            invariant
                grid_coords_ok(*grid),
                next.wf(),
                next.cols == grid.cols,
                next.rows == grid.rows,
                0 <= row < grid.rows,
                0 <= col <= grid.cols,
                forall|c: int, r: int|
                    0 <= c < grid.cols && (0 <= r < row || (r == row && c < col)) ==> #[trigger] next.cell(c, r)
                        == next_generation(*grid, c, r),
            decreases grid.cols - col,
        {
            let neighbors = count_alive_neighbors(grid, col, row);
            let alive = grid.get(col, row);
            next.set(col, row, if alive { neighbors >= 3 } else { neighbors >= 4 });
            col = col + 1;
        }
        row = row + 1;
    }
    next
}

/// Whether any of the eight cells around `(col, row)` is filled: a walker
/// there sticks to the aggregate.
pub fn touches_filled(grid: &BrickGrid, col: usize, row: usize) -> (stuck: bool)
    requires
        grid_coords_ok(*grid),
        col < grid.cols,
        row < grid.rows,
    ensures
        stuck == (alive_neighbors(*grid, col as int, row as int) > 0),
{
    count_alive_neighbors(grid, col, row) > 0
}

/// `h` is the automaton generation after `g`: same size, every cell by the
/// survival / birth rule.
pub open spec fn is_next_generation(g: BrickGrid, h: BrickGrid) -> bool {
    &&& h.wf()
    &&& h.cols == g.cols
    &&& h.rows == g.rows
    &&& forall|c: int, r: int| #[trigger] h.cell(c, r) == (0 <= c < g.cols && 0 <= r < g.rows && next_generation(g, c, r))
}

/// `gens` is a run of the automaton: each grid is the generation after the
/// one before it.
pub open spec fn automaton_run(gens: Seq<BrickGrid>) -> bool {
    forall|i: int| 0 <= i < gens.len() - 1 ==> #[trigger] is_next_generation(gens[i], gens[i + 1])
}

/// The first `k` of `n` noise cells (the rest empty): cell `i` is filled
/// when the `i`-th roll from state `rng` is below `roll`.
pub open spec fn noise_prefix(rng: ChaCha8Rng, n: nat, k: nat, roll: u32) -> Seq<bool> {
    Seq::new(n, |i: int| i < k && roll_stream(rng, k).0[i] < roll)
}

/// `n` noise cells: cell `i` is filled when the `i`-th roll from state
/// `rng` is below `roll`.
pub open spec fn noise_cells(rng: ChaCha8Rng, n: nat, roll: u32) -> Seq<bool> {
    Seq::new(n, |i: int| roll_stream(rng, n).0[i] < roll)
}

/// Cave layout: every cell starts filled with chance `init_roll / 2^24`,
/// then the automaton runs `iterations` generations.
pub fn cellular_automata(cols: usize, rows: usize, init_roll: u32, iterations: usize, rng: &mut ChaCha8Rng) -> (g: BrickGrid)
    requires
        cols * rows <= usize::MAX,
        cols < i32::MAX,
        rows < i32::MAX,
    ensures
        g.wf(),
        g.cols == cols,
        g.rows == rows,
        exists|gens: Seq<BrickGrid>|
            #[trigger] automaton_run(gens) && gens.len() == iterations + 1 && gens[0].wf() && gens[0].cols == cols
                && gens[0].rows == rows && forall|c: int, r: int| #[trigger] g.cell(c, r) == gens.last().cell(c, r)
                && gens[0].cells@ == noise_cells(*old(rng), (cols * rows) as nat, init_roll),
        *final(rng) == roll_stream(*old(rng), (cols * rows) as nat).1,
        init_roll == 0 && iterations == 0 ==> forall|c: int, r: int| !#[trigger] g.cell(c, r),
{
    let ghost rng0 = *rng;
    let ghost n = (cols * rows) as nat;
    let mut grid = BrickGrid::new(cols, rows);
    proof {
        lemma_empty_grid(grid);
        assert(grid.cells@ =~= noise_prefix(rng0, n, 0, init_roll));
    }
    let mut row: usize = 0;
    while row < rows
        invariant
            grid.wf(),
            grid.cols == cols,
            grid.rows == rows,
            0 <= row <= rows,
            init_roll == 0 ==> forall|c: int, r: int| !#[trigger] grid.cell(c, r),
            n == cols * rows,
            grid.cells@ == noise_prefix(rng0, n, (row * cols) as nat, init_roll),
            *rng == roll_stream(rng0, (row * cols) as nat).1,
        decreases rows - row,
    {
        let mut col: usize = 0;
        while col < cols
            invariant
                grid.wf(),
                grid.cols == cols,
                grid.rows == rows,
                0 <= row < rows,
                0 <= col <= cols,
                init_roll == 0 ==> forall|c: int, r: int| !#[trigger] grid.cell(c, r),
                n == cols * rows,
                grid.cells@ == noise_prefix(rng0, n, (row * cols + col) as nat, init_roll),
                *rng == roll_stream(rng0, (row * cols + col) as nat).1,
            decreases cols - col,
        {
            let ghost k = row * cols + col;
            proof {
                lemma_cell_index(cols as int, rows as int, col as int, row as int);
                lemma_roll_stream_len(rng0, k as nat);
            }
            let ghost before = roll_stream(rng0, k as nat);
            let alive = roll_below(rng, init_roll);
            grid.set(col, row, alive);
            proof {
                let after = roll_stream(rng0, (k + 1) as nat);
                assert(after.0 == before.0.push(roll_value(before.1)));
                assert(grid.cells@ =~= noise_prefix(rng0, n, (k + 1) as nat, init_roll));
            }
            col = col + 1;
        }
        proof {
            assert((row + 1) * cols == row * cols + cols) by (nonlinear_arith);
        }
        row = row + 1;
    }
    proof {
        assert(rows * cols == n) by (nonlinear_arith)
            requires
                n == cols * rows,
        ;
        lemma_roll_stream_len(rng0, n);
        assert(noise_prefix(rng0, n, n, init_roll) =~= noise_cells(rng0, n, init_roll));
    }
    let ghost g0 = grid;
    let ghost mut gens: Seq<BrickGrid> = seq![grid];
    let mut i: usize = 0;
    while i < iterations
        invariant
            grid.wf(),
            grid.cols == cols,
            grid.rows == rows,
            cols < i32::MAX,
            rows < i32::MAX,
            0 <= i <= iterations,
            gens.len() == i + 1,
            automaton_run(gens),
            gens[0] == g0,
            g0.wf() && g0.cols == cols && g0.rows == rows,
            gens.last() == grid,
        decreases iterations - i,
    {
        let next = cellular_step(&grid);
        proof {
            assert(is_next_generation(grid, next));
            let prev = gens;
            gens = gens.push(next);
            assert forall|j: int| 0 <= j < gens.len() - 1 implies #[trigger] is_next_generation(gens[j], gens[j + 1]) by {
                if j < prev.len() - 1 {
                    assert(gens[j] == prev[j] && gens[j + 1] == prev[j + 1]);
                }
            }
        }
        grid = next;
        i = i + 1;
    }
    proof {
        if iterations == 0 {
            assert(grid == g0);
        }
    }
    grid
}

/// Two different cells that touch, sides or corners.
pub open spec fn king_adjacent(a: (int, int), b: (int, int)) -> bool {
    a != b && -1 <= a.0 - b.0 <= 1 && -1 <= a.1 - b.1 <= 1
}

/// Cell `i` of `order` touches a cell listed before it.
pub open spec fn touches_earlier(order: Seq<(int, int)>, i: int) -> bool {
    exists|j: int| 0 <= j < i && #[trigger] king_adjacent(order[i], order[j])
}

/// `order` lists cells starting from `seed`, each later cell touching an
/// earlier one: the cells grew from the seed as one connected cluster.
pub open spec fn grown_from(order: Seq<(int, int)>, seed: (int, int)) -> bool {
    &&& order.len() > 0
    &&& order[0] == seed
    &&& forall|i: int| 0 < i < order.len() ==> #[trigger] touches_earlier(order, i)
}

/// The filled cells of `g` are exactly those in `order`.
pub open spec fn fills_exactly(g: BrickGrid, order: Seq<(int, int)>) -> bool {
    forall|c: int, r: int| #[trigger] g.cell(c, r) == order.contains((c, r))
}

/// A cluster grown from `seed` stays so when a cell touching one of its
/// cells joins it.
proof fn lemma_grow(order: Seq<(int, int)>, seed: (int, int), p: (int, int), k: int)
    requires
        grown_from(order, seed),
        0 <= k < order.len(),
        king_adjacent(p, order[k]),
    ensures
        grown_from(order.push(p), seed),
{
    let o2 = order.push(p);
    assert(o2[0] == order[0]);
    assert forall|i: int| 0 < i < o2.len() implies #[trigger] touches_earlier(o2, i) by {
        if i < order.len() {
            assert(touches_earlier(order, i));
            let j = choose|j: int| 0 <= j < i && #[trigger] king_adjacent(order[i], order[j]);
            assert(king_adjacent(o2[i], o2[j]));
        } else {
            assert(king_adjacent(o2[i], o2[k]));
        }
    }
}

/// A cell with a filled neighbour touches some filled cell.
proof fn lemma_touching_neighbor(g: BrickGrid, c: int, r: int)
    requires
        alive_neighbors(g, c, r) > 0,
    ensures
        exists|dc: int, dr: int|
            -1 <= dc <= 1 && -1 <= dr <= 1 && (dc != 0 || dr != 0) && #[trigger] g.cell(c + dc, r + dr),
{
    if g.cell(c - 1, r - 1) {
        assert(g.cell(c + -1, r + -1));
    } else if g.cell(c, r - 1) {
        assert(g.cell(c + 0, r + -1));
    } else if g.cell(c + 1, r - 1) {
        assert(g.cell(c + 1, r + -1));
    } else if g.cell(c - 1, r) {
        assert(g.cell(c + -1, r + 0));
    } else if g.cell(c + 1, r) {
        assert(g.cell(c + 1, r + 0));
    } else if g.cell(c - 1, r + 1) {
        assert(g.cell(c + -1, r + 1));
    } else if g.cell(c, r + 1) {
        assert(g.cell(c + 0, r + 1));
    } else {
        assert(g.cell(c + 1, r + 1));
    }
}

/// The cell next to `(x, y)` when heading down, right, up or left (`dir`
/// 0, 1, 2, or anything else).
pub open spec fn heading(x: int, y: int, dir: int) -> (int, int) {
    if dir == 0 {
        (x, y + 1)
    } else if dir == 1 {
        (x + 1, y)
    } else if dir == 2 {
        (x, y - 1)
    } else {
        (x - 1, y)
    }
}

/// Cell `p` lies on a `cols` x `rows` grid.
pub open spec fn on_grid(cols: int, rows: int, p: (int, int)) -> bool {
    0 <= p.0 < cols && 0 <= p.1 < rows
}

/// One step of a walker: down, right, up or left for `dir` 0, 1, 2, 3;
/// a step off the grid is not taken.
fn walk_step(cols: usize, rows: usize, px: usize, py: usize, dir: usize) -> (p: (usize, usize))
    requires
        px < cols,
        py < rows,
    ensures
        p.0 < cols,
        p.1 < rows,
        (p.0 as int, p.1 as int) == (if on_grid(cols as int, rows as int, heading(px as int, py as int, dir as int)) {
            heading(px as int, py as int, dir as int)
        } else {
            (px as int, py as int)
        }),
{
    if dir == 0 {
        if py + 1 < rows { (px, py + 1) } else { (px, py) }
    } else if dir == 1 {
        if px + 1 < cols { (px + 1, py) } else { (px, py) }
    } else if dir == 2 {
        if py > 0 { (px, py - 1) } else { (px, py) }
    } else {
        if px > 0 { (px - 1, py) } else { (px, py) }
    }
}

/// How many of the eight cells around `(c, r)` are in `order`.
pub open spec fn cluster_neighbors(order: Seq<(int, int)>, c: int, r: int) -> nat {
    bit(order.contains((c - 1, r - 1))) + bit(order.contains((c, r - 1))) + bit(order.contains((c + 1, r - 1)))
        + bit(order.contains((c - 1, r))) + bit(order.contains((c + 1, r))) + bit(order.contains((c - 1, r + 1)))
        + bit(order.contains((c, r + 1))) + bit(order.contains((c + 1, r + 1)))
}

/// Where a walker at `p` with at most `steps` steps to go sticks to the
/// cluster `order` (`None` if it never touches it), given the generator
/// state `rng` it starts from, and the state it leaves: touching the
/// cluster, it sticks; otherwise it draws a heading and steps, staying put
/// rather than leave the grid.
pub open spec fn dla_walker(cols: int, rows: int, order: Seq<(int, int)>, p: (int, int), steps: nat, rng: ChaCha8Rng) -> (Option<(int, int)>, ChaCha8Rng)
    decreases steps,
{
    if steps == 0 {
        (None, rng)
    } else if cluster_neighbors(order, p.0, p.1) > 0 {
        (Some(p), rng)
    } else {
        let h = heading(p.0, p.1, below_value(rng, 4) as int);
        let next = if on_grid(cols, rows, h) { h } else { p };
        dla_walker(cols, rows, order, next, (steps - 1) as nat, after_below(rng, 4))
    }
}

/// The border cell a walker starts from when drawn from state `rng` (an
/// edge, then a place along it), and the state after the draws.
pub open spec fn dla_start(cols: usize, rows: usize, rng: ChaCha8Rng) -> ((int, int), ChaCha8Rng) {
    let edge = below_value(rng, 4);
    let r1 = after_below(rng, 4);
    if edge == 0 {
        ((below_value(r1, cols) as int, 0), after_below(r1, cols))
    } else if edge == 1 {
        ((below_value(r1, cols) as int, rows - 1), after_below(r1, cols))
    } else if edge == 2 {
        ((0, below_value(r1, rows) as int), after_below(r1, rows))
    } else {
        ((cols - 1, below_value(r1, rows) as int), after_below(r1, rows))
    }
}

/// The cluster after the first `walkers` walkers drawn from state `rng`
/// (in the order its cells joined, starting from the middle cell), the
/// number of walkers that stuck (the seed counting as one), and the state
/// after them; no walker is released once `target` have stuck.
pub open spec fn dla_run(cols: usize, rows: usize, target: usize, max_steps: usize, walkers: nat, rng: ChaCha8Rng) -> (Seq<(int, int)>, nat, ChaCha8Rng)
    decreases walkers,
{
    if walkers == 0 {
        (seq![((cols / 2) as int, (rows / 2) as int)], 1, rng)
    } else {
        let prev = dla_run(cols, rows, target, max_steps, (walkers - 1) as nat, rng);
        if prev.1 >= target {
            prev
        } else {
            let st = dla_start(cols, rows, prev.2);
            let w = dla_walker(cols as int, rows as int, prev.0, st.0, max_steps as nat, st.1);
            match w.0 {
                Some(p) => (if prev.0.contains(p) { prev.0 } else { prev.0.push(p) }, prev.1 + 1, w.1),
                None => (prev.0, prev.1, w.1),
            }
        }
    }
}

/// Once `target` walkers have stuck, later walkers change nothing and draw
/// nothing.
proof fn lemma_dla_done(cols: usize, rows: usize, target: usize, max_steps: usize, t: nat, u: nat, rng: ChaCha8Rng)
    requires
        t <= u,
        dla_run(cols, rows, target, max_steps, t, rng).1 >= target,
    ensures
        dla_run(cols, rows, target, max_steps, u, rng) == dla_run(cols, rows, target, max_steps, t, rng),
    decreases u,
{
    if u > t {
        lemma_dla_done(cols, rows, target, max_steps, t, (u - 1) as nat, rng);
    }
}

/// Coral layout by diffusion-limited aggregation: from a seed in the
/// middle cell, walkers start at random on the grid's border and step at
/// random (at most `max_steps` steps each) until they touch the cluster,
/// where they stick; at most `4 * cols * rows` walkers are released, and
/// none once `target` walkers have stuck.
pub fn dla(cols: usize, rows: usize, target: usize, max_steps: usize, rng: &mut ChaCha8Rng) -> (g: BrickGrid)
    requires
        cols * rows * 4 <= usize::MAX,
        cols < i32::MAX,
        rows < i32::MAX,
    ensures
        g.wf(),
        g.cols == cols,
        g.rows == rows,
        cols > 0 && rows > 0 ==> exists|order: Seq<(int, int)>|
            #[trigger] grown_from(order, ((cols / 2) as int, (rows / 2) as int)) && fills_exactly(g, order)
                && order.no_duplicates() && order.len() <= (if target > 1 { target as int } else { 1int }),
        cols == 0 || rows == 0 ==> forall|c: int, r: int| !#[trigger] g.cell(c, r),
        cols > 0 && rows > 0 ==> fills_exactly(g, dla_run(cols, rows, target, max_steps, (cols * rows * 4) as nat, *old(rng)).0),
        cols > 0 && rows > 0 ==> *final(rng) == dla_run(cols, rows, target, max_steps, (cols * rows * 4) as nat, *old(rng)).2,
        cols == 0 || rows == 0 ==> *final(rng) == *old(rng),
{
    let ghost rng0 = *rng;
    let mut grid = BrickGrid::new(cols, rows);
    proof {
        lemma_empty_grid(grid);
    }
    if cols == 0 || rows == 0 {
        return grid;
    }
    let cx = cols / 2;
    let cy = rows / 2;
    grid.set(cx, cy, true);
    let ghost seed = (cx as int, cy as int);
    let ghost mut order: Seq<(int, int)> = seq![seed];
    proof {
        assert forall|c: int, r: int| #[trigger] grid.cell(c, r) == order.contains((c, r)) by {
            if c == cx && r == cy {
                assert(order[0] == (c, r));
            }
        }
    }
    let max_walk = cols * rows * 4;
    let mut placed: usize = 1;
    let mut walk: usize = 0;
    while walk < max_walk && placed < target
        invariant
            grid.wf(),
            grid.cols == cols,
            grid.rows == rows,
            cols > 0 && rows > 0,
            cols < i32::MAX,
            rows < i32::MAX,
            cx == cols / 2,
            cy == rows / 2,
            seed == (cx as int, cy as int),
            0 <= walk <= max_walk,
            grown_from(order, seed),
            fills_exactly(grid, order),
            order.no_duplicates(),
            order.len() <= placed,
            placed <= (if target > 1 { target as int } else { 1int }),
            order == dla_run(cols, rows, target, max_steps, walk as nat, rng0).0,
            placed == dla_run(cols, rows, target, max_steps, walk as nat, rng0).1,
            *rng == dla_run(cols, rows, target, max_steps, walk as nat, rng0).2,
        decreases max_walk - walk,
    {
        let ghost run_prev = dla_run(cols, rows, target, max_steps, walk as nat, rng0);
        let ghost st = dla_start(cols, rows, *rng);
        let edge = chacha8_below(rng, 4);
        let mut px: usize;
        let mut py: usize;
        if edge == 0 {
            px = chacha8_below(rng, cols);
            py = 0;
        } else if edge == 1 {
            px = chacha8_below(rng, cols);
            py = rows - 1;
        } else if edge == 2 {
            px = 0;
            py = chacha8_below(rng, rows);
        } else {
            px = cols - 1;
            py = chacha8_below(rng, rows);
        }
        assert(st == ((px as int, py as int), *rng));
        let ghost order0 = order;
        let ghost w_full = dla_walker(cols as int, rows as int, order0, st.0, max_steps as nat, st.1);
        let mut step: usize = 0;
        let mut stuck = false;
        let ghost p0 = placed;
        while step < max_steps && !stuck
            invariant
                grid.wf(),
                grid.cols == cols,
                grid.rows == rows,
                cols < i32::MAX,
                rows < i32::MAX,
                px < cols,
                py < rows,
                0 <= step <= max_steps,
                grown_from(order, seed),
                fills_exactly(grid, order),
                order.no_duplicates(),
                order.len() <= placed,
                p0 < target,
                placed == (if stuck { p0 + 1 } else { p0 as int }),
                !stuck ==> order == order0,
                !stuck ==> dla_walker(cols as int, rows as int, order0, (px as int, py as int), (max_steps - step) as nat, *rng) == w_full,
                stuck ==> w_full == (Some((px as int, py as int)), *rng),
                stuck ==> order == (if order0.contains((px as int, py as int)) { order0 } else { order0.push((px as int, py as int)) }),
            decreases max_steps - step, (if stuck { 0int } else { 1int }),
        {
            proof {
                let c = px as int;
                let r = py as int;
                assert(grid.cell(c - 1, r - 1) == order.contains((c - 1, r - 1)));
                assert(grid.cell(c, r - 1) == order.contains((c, r - 1)));
                assert(grid.cell(c + 1, r - 1) == order.contains((c + 1, r - 1)));
                assert(grid.cell(c - 1, r) == order.contains((c - 1, r)));
                assert(grid.cell(c + 1, r) == order.contains((c + 1, r)));
                assert(grid.cell(c - 1, r + 1) == order.contains((c - 1, r + 1)));
                assert(grid.cell(c, r + 1) == order.contains((c, r + 1)));
                assert(grid.cell(c + 1, r + 1) == order.contains((c + 1, r + 1)));
                assert(alive_neighbors(grid, c, r) == cluster_neighbors(order, c, r));
            }
            if touches_filled(&grid, px, py) {
                let ghost g_before = grid;
                let ghost o_before = order;
                proof {
                    lemma_touching_neighbor(grid, px as int, py as int);
                    let (dc, dr) = choose|dc: int, dr: int|
                        -1 <= dc <= 1 && -1 <= dr <= 1 && (dc != 0 || dr != 0) && #[trigger] grid.cell(
                            px + dc,
                            py + dr,
                        );
                    let nb = (px + dc, py + dr);
                    assert(order.contains(nb));
                    let k = choose|k: int| 0 <= k < order.len() && order[k] == nb;
                    if !order.contains((px as int, py as int)) {
                        lemma_grow(order, seed, (px as int, py as int), k);
                        let prev = order;
                        order = order.push((px as int, py as int));
                        assert forall|a: int, b: int| 0 <= a < order.len() && 0 <= b < order.len() && a != b
                            implies order[a] != order[b] by {
                            if a < prev.len() && b < prev.len() {
                                assert(order[a] == prev[a] && order[b] == prev[b]);
                            } else if a < prev.len() {
                                assert(order[a] == prev[a]);
                                assert(prev.contains(prev[a]));
                            } else {
                                assert(order[b] == prev[b]);
                                assert(prev.contains(prev[b]));
                            }
                        }
                    }
                }
                grid.set(px, py, true);
                proof {
                    assert forall|c: int, r: int| #[trigger] grid.cell(c, r) == order.contains((c, r)) by {
                        if c == px && r == py {
                            if o_before.contains((c, r)) {
                                assert(order == o_before);
                            } else {
                                assert(order[order.len() - 1] == (c, r));
                            }
                        } else {
                            assert(grid.cell(c, r) == g_before.cell(c, r));
                            if order.contains((c, r)) && !o_before.contains((c, r)) {
                                let t = choose|t: int| 0 <= t < order.len() && order[t] == (c, r);
                                assert(t == order.len() - 1);
                            }
                            if o_before.contains((c, r)) {
                                let t = choose|t: int| 0 <= t < o_before.len() && o_before[t] == (c, r);
                                assert(order[t] == (c, r));
                            }
                        }
                    }
                }
                placed = if placed < usize::MAX { placed + 1 } else { placed };
                stuck = true;
            } else {
                let dir = chacha8_below(rng, 4);
                let p = walk_step(cols, rows, px, py, dir);
                px = p.0;
                py = p.1;
                step = step + 1;
            }
        }
        proof {
            assert(run_prev.1 == p0 && p0 < target);
            if !stuck {
                assert(step == max_steps);
                assert(w_full == (None::<(int, int)>, *rng));
            }
            assert(dla_run(cols, rows, target, max_steps, (walk + 1) as nat, rng0) == (order, placed as nat, *rng));
        }
        walk = walk + 1;
    }
    proof {
        if walk < max_walk {
            lemma_dla_done(cols, rows, target, max_steps, walk as nat, max_walk as nat, rng0);
        }
    }
    grid
}

} // verus!
