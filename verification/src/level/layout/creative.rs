//! Signature layouts drawn from integer geometry: the diamond, the castle,
//! the spiral and the checker burst, and the random gap punching that
//! roughens them.
use vstd::prelude::*;
use crate::level::grid::{BrickGrid, lemma_cell_index};
use crate::random::{after_below, after_roll, below_value, chacha8_below, roll_below, roll_stream, roll_value, UNIT_ROLL_STEPS};
use rand_chacha::ChaCha8Rng;

verus! {

/// A grid whose cell vector is all `false` has no filled cell.
pub proof fn lemma_empty_grid(g: BrickGrid)
    requires
        g.wf(),
        forall|i: int| 0 <= i < g.cells@.len() ==> !#[trigger] g.cells@[i],
    ensures
        forall|c: int, r: int| !#[trigger] g.cell(c, r),
{
    assert forall|c: int, r: int| !#[trigger] g.cell(c, r) by {
        if 0 <= c < g.cols && 0 <= r < g.rows {
            lemma_cell_index(g.cols as int, g.rows as int, c, r);
        }
    }
}

/// Gap punching over the cells from `k` on (row-major), with the
/// generator in state `rng`: each filled cell takes a unit roll and is
/// cleared when the roll is below `rate_roll`. Gives the cells and the
/// generator state afterwards.
pub open spec fn punch_from(cells: Seq<bool>, k: int, rng: ChaCha8Rng, rate_roll: u32) -> (Seq<bool>, ChaCha8Rng)
    decreases cells.len() - k,
{
    if k < 0 || k >= cells.len() {
        (cells, rng)
    } else if cells[k] {
        let next = if roll_value(rng) < rate_roll { cells.update(k, false) } else { cells };
        punch_from(next, k + 1, after_roll(rng), rate_roll)
    } else {
        punch_from(cells, k + 1, rng, rate_roll)
    }
}

/// Clears each filled cell with chance `rate_roll / 2^24`, row by row.
pub fn maybe_punch_gaps(grid: &mut BrickGrid, rng: &mut ChaCha8Rng, rate_roll: u32)
    requires
        old(grid).wf(),
    ensures
        final(grid).cells@ == punch_from(old(grid).cells@, 0, *old(rng), rate_roll).0,
        *final(rng) == punch_from(old(grid).cells@, 0, *old(rng), rate_roll).1,
        final(grid).wf(),
        final(grid).cols == old(grid).cols,
        final(grid).rows == old(grid).rows,
        forall|c: int, r: int| #[trigger] final(grid).cell(c, r) ==> old(grid).cell(c, r),
        rate_roll == 0 ==> forall|c: int, r: int| #[trigger] final(grid).cell(c, r) == old(grid).cell(c, r),
        rate_roll >= UNIT_ROLL_STEPS ==> forall|c: int, r: int| !#[trigger] final(grid).cell(c, r),
{
    let ghost g0 = *grid;
    let ghost rng0 = *rng;
    let ghost target = punch_from(g0.cells@, 0, rng0, rate_roll);
    let cols = grid.cols;
    let rows = grid.rows;
    let mut r: usize = 0;
    while r < rows
        invariant
            grid.wf(),
            grid.cols == cols == g0.cols,
            grid.rows == rows == g0.rows,
            0 <= r <= rows,
            punch_from(grid.cells@, r * cols, *rng, rate_roll) == target,
            forall|c: int, rr: int| #[trigger] grid.cell(c, rr) ==> g0.cell(c, rr),
            rate_roll == 0 ==> forall|c: int, rr: int| #[trigger] grid.cell(c, rr) == g0.cell(c, rr),
            rate_roll >= UNIT_ROLL_STEPS ==> forall|c: int, rr: int| rr < r ==> !#[trigger] grid.cell(c, rr),
        decreases rows - r,
    {
        let mut c: usize = 0;
        while c < cols
            invariant
                grid.wf(),
                grid.cols == cols == g0.cols,
                grid.rows == rows == g0.rows,
                0 <= r < rows,
                0 <= c <= cols,
                punch_from(grid.cells@, r * cols + c, *rng, rate_roll) == target,
                forall|cc: int, rr: int| #[trigger] grid.cell(cc, rr) ==> g0.cell(cc, rr),
                rate_roll == 0 ==> forall|cc: int, rr: int| #[trigger] grid.cell(cc, rr) == g0.cell(cc, rr),
                rate_roll >= UNIT_ROLL_STEPS ==> forall|cc: int, rr: int| (rr < r || (rr == r && cc < c))
                    ==> !#[trigger] grid.cell(cc, rr),
            decreases cols - c,
        {
            proof {
                lemma_cell_index(cols as int, rows as int, c as int, r as int);
            }
            let ghost k = r * cols + c;
            let ghost cells_before = grid.cells@;
            let ghost rng_before = *rng;
            assert(punch_from(cells_before, k, rng_before, rate_roll) == target);
            if grid.get(c, r) {
                assert(cells_before[k]);
                if roll_below(rng, rate_roll) {
                    grid.set(c, r, false);
                }
            }
            assert(punch_from(grid.cells@, k + 1, *rng, rate_roll) == target);
            c = c + 1;
        }
        proof {
            assert((r + 1) * cols == r * cols + cols) by (nonlinear_arith);
        }
        r = r + 1;
    }
    proof {
        assert(rows * cols == grid.cells@.len()) by (nonlinear_arith)
            requires
                grid.cells@.len() == cols * rows,
        ;
    }
}

/// The castle's masonry: the outer wall, battlements on every other cell of
/// the second row, and a keep three cells wide in the middle from just above
/// the centre row down to the row above the bottom wall.
pub open spec fn castle_masonry(cols: int, rows: int, c: int, r: int) -> bool {
    ||| r == 0 || r == rows - 1 || c == 0 || c == cols - 1
    ||| (r == 1 && c % 2 == 0)
    ||| (cols / 2 - 1 <= c <= cols / 2 + 1 && rows / 2 - 1 <= r <= rows - 2)
}

/// The doorway: three cells of the bottom wall around the middle column, on a
/// castle wider than four and taller than two cells.
pub open spec fn castle_doorway(cols: int, rows: int, c: int, r: int) -> bool {
    cols > 4 && rows > 2 && r == rows - 1 && cols / 2 - 1 <= c <= cols / 2 + 1
}

/// Cell `(c, r)` of a `cols` x `rows` castle holds a brick.
pub open spec fn castle_cell(cols: int, rows: int, c: int, r: int) -> bool {
    0 <= c < cols && 0 <= r < rows && castle_masonry(cols, rows, c, r) && !castle_doorway(cols, rows, c, r)
}

/// The cells of an undamaged `cols` x `rows` castle, row-major.
pub open spec fn castle_outline(cols: int, rows: int) -> Seq<bool> {
    Seq::new((cols * rows) as nat, |i: int| castle_cell(cols, rows, i % cols, i / cols))
}

/// The row-major cell vector of a well-formed grid, read cell by cell.
pub proof fn lemma_cells_by_position(g: BrickGrid, i: int)
    requires
        g.wf(),
        0 <= i < g.cells@.len(),
    ensures
        g.cols > 0,
        g.cells@[i] == g.cell(i % (g.cols as int), i / (g.cols as int)),
{
    let cols = g.cols as int;
    let rows = g.rows as int;
    assert(cols > 0) by (nonlinear_arith)
        requires
            0 <= i < cols * rows,
            rows >= 0,
    ;
    assert(0 <= i % cols < cols && i / cols < rows && i == (i / cols) * cols + i % cols && 0 <= i / cols)
        by (nonlinear_arith)
        requires
            0 <= i < cols * rows,
            cols > 0,
    ;
}

/// Chance, in 2^-24 steps, that a castle gets gaps punched (0.5), and the
/// chance of each gap (0.05).
pub const CASTLE_DAMAGE_ROLL: u32 = 8388608;
pub const CASTLE_GAP_ROLL: u32 = 838861;

/// A castle: walls, battlements and a central keep with a doorway in the
/// bottom wall; half the time some of its bricks are knocked out.
pub fn castle(cols: usize, rows: usize, rng: &mut ChaCha8Rng) -> (g: BrickGrid)
    requires
        cols * rows <= usize::MAX,
        cols == 0 || rows == 0 || (cols >= 2 && rows >= 2),
    ensures
        g.wf(),
        g.cols == cols,
        g.rows == rows,
        forall|c: int, r: int| #[trigger] g.cell(c, r) ==> castle_cell(cols as int, rows as int, c, r),
        roll_value(*old(rng)) >= CASTLE_DAMAGE_ROLL ==> g.cells@ == castle_outline(cols as int, rows as int)
            && *final(rng) == after_roll(*old(rng)),
        roll_value(*old(rng)) < CASTLE_DAMAGE_ROLL ==> g.cells@ == punch_from(
            castle_outline(cols as int, rows as int),
            0,
            after_roll(*old(rng)),
            CASTLE_GAP_ROLL,
        ).0 && *final(rng) == punch_from(
            castle_outline(cols as int, rows as int),
            0,
            after_roll(*old(rng)),
            CASTLE_GAP_ROLL,
        ).1,
{
    let mut grid = BrickGrid::new(cols, rows);
    proof {
        lemma_empty_grid(grid);
    }
    let mut r: usize = 0;
    while r < rows
        invariant
            grid.wf(),
            grid.cols == cols,
            grid.rows == rows,
            cols == 0 || rows == 0 || (cols >= 2 && rows >= 2),
            0 <= r <= rows,
            forall|c: int, rr: int| #[trigger] grid.cell(c, rr) == (0 <= c < cols && 0 <= rr < r
                && castle_masonry(cols as int, rows as int, c, rr)),
        decreases rows - r,
    {
        let mut c: usize = 0;
        while c < cols
            invariant
                grid.wf(),
                grid.cols == cols,
                grid.rows == rows,
                cols == 0 || (cols >= 2 && rows >= 2),
                0 <= r < rows,
                0 <= c <= cols,
                forall|cc: int, rr: int| #[trigger] grid.cell(cc, rr) == (0 <= cc < cols && (0 <= rr < r
                    || (rr == r && cc < c)) && castle_masonry(cols as int, rows as int, cc, rr)),
            decreases cols - c,
        {
            let border = r == 0 || r == rows - 1 || c == 0 || c == cols - 1;
            let battlement = r == 1 && c % 2 == 0;
            let keep = c >= cols / 2 - 1 && c <= cols / 2 + 1 && r >= rows / 2 - 1 && r <= rows - 2;
            if border || battlement || keep {
                grid.set(c, r, true);
            }
            c = c + 1;
        }
        r = r + 1;
    }
    if cols > 4 && rows > 2 {
        let gx = cols / 2;
        grid.set(gx, rows - 1, false);
        grid.set(gx - 1, rows - 1, false);
        if gx + 1 < cols {
            grid.set(gx + 1, rows - 1, false);
        }
    }
    assert forall|c: int, rr: int| #[trigger] grid.cell(c, rr) == castle_cell(cols as int, rows as int, c, rr) by {
    }
    assert(grid.cells@ =~= castle_outline(cols as int, rows as int)) by {
        assert forall|i: int| 0 <= i < grid.cells@.len() implies grid.cells@[i] == castle_outline(
            cols as int,
            rows as int,
        )[i] by {
            lemma_cells_by_position(grid, i);
        }
    }
    if roll_below(rng, CASTLE_DAMAGE_ROLL) {
        maybe_punch_gaps(&mut grid, rng, CASTLE_GAP_ROLL);
    }
    grid
}

/// How many rings in from the border cell `(c, r)` of a `cols` x `rows`
/// grid lies: `0` on the outer wall, `1` on the wall inside it, and so on.
pub open spec fn ring_depth(cols: int, rows: int, c: int, r: int) -> int {
    let a = if c <= cols - 1 - c { c } else { cols - 1 - c };
    let b = if r <= rows - 1 - r { r } else { rows - 1 - r };
    if a <= b { a } else { b }
}

/// Number of rings of a `cols` x `rows` grid.
pub open spec fn ring_count(cols: int, rows: int) -> int {
    let m = if cols <= rows { cols } else { rows };
    (m + 1) / 2
}

/// The spiral's painting rule over its rings, outermost first: the outer
/// ring is painted, and an unpainted ring is always followed by a painted
/// one, so no two open lanes are adjacent.
pub open spec fn spiral_rule(painted: Seq<bool>) -> bool {
    &&& painted.len() > 0 ==> painted[0]
    &&& forall|k: int| 0 <= k < painted.len() - 1 && !#[trigger] painted[k] ==> painted[k + 1]
}

/// Paints every cell of ring `k` (when `paint` is set).
fn paint_ring(grid: &mut BrickGrid, k: usize, paint: bool)
    requires
        old(grid).wf(),
        2 * k < old(grid).cols,
        2 * k < old(grid).rows,
    ensures
        final(grid).wf(),
        final(grid).cols == old(grid).cols,
        final(grid).rows == old(grid).rows,
        forall|c: int, r: int| #[trigger] final(grid).cell(c, r) == (old(grid).cell(c, r) || (paint && 0 <= c
            < old(grid).cols && 0 <= r < old(grid).rows && ring_depth(
            old(grid).cols as int,
            old(grid).rows as int,
            c,
            r,
        ) == k)),
{
    if !paint {
        return;
    }
    let ghost g0 = *grid;
    let cols = grid.cols;
    let rows = grid.rows;
    let right = cols - 1 - k;
    let bottom = rows - 1 - k;
    let mut r: usize = k;
    while r <= bottom
        invariant
            grid.wf(),
            grid.cols == cols == g0.cols,
            grid.rows == rows == g0.rows,
            2 * k < cols,
            2 * k < rows,
            right == cols - 1 - k,
            bottom == rows - 1 - k,
            k <= r <= bottom + 1,
            forall|c: int, rr: int| #[trigger] grid.cell(c, rr) == (g0.cell(c, rr) || (0 <= c < cols && k <= rr
                < r && ring_depth(cols as int, rows as int, c, rr) == k)),
        decreases bottom + 1 - r,
    {
        if r == k || r == bottom {
            let mut c: usize = k;
            while c <= right
                invariant
                    grid.wf(),
                    grid.cols == cols == g0.cols,
                    grid.rows == rows == g0.rows,
                    2 * k < cols,
                    2 * k < rows,
                    right == cols - 1 - k,
                    bottom == rows - 1 - k,
                    k <= r <= bottom,
                    r == k || r == bottom,
                    k <= c <= right + 1,
                    forall|cc: int, rr: int| #[trigger] grid.cell(cc, rr) == (g0.cell(cc, rr) || (0 <= cc < cols
                        && ((k <= rr < r && ring_depth(cols as int, rows as int, cc, rr) == k) || (rr == r && k
                        <= cc < c)))),
                decreases right + 1 - c,
            {
                grid.set(c, r, true);
                c = c + 1;
            }
        } else {
            grid.set(k, r, true);
            grid.set(right, r, true);
        }
        r = r + 1;
    }
}

/// Chance, in 2^-24 steps, that the ring after a painted one is painted too (0.35).
pub const SPIRAL_REPAINT_ROLL: u32 = 5872026;

/// The ring paint flags of a spiral, outermost first, after `j` repaint
/// points, with the generator in state `rng`, and the state afterwards:
/// the first ring is painted; after a painted ring a roll below 0.35 paints
/// the next one, after an open ring the next one is painted without a roll.
pub open spec fn spiral_paint(rng: ChaCha8Rng, j: nat) -> (Seq<bool>, ChaCha8Rng)
    decreases j,
{
    if j == 0 {
        (seq![true], rng)
    } else {
        let prev = spiral_paint(rng, (j - 1) as nat);
        if prev.0.last() {
            (prev.0.push(roll_value(prev.1) < SPIRAL_REPAINT_ROLL), after_roll(prev.1))
        } else {
            (prev.0.push(true), prev.1)
        }
    }
}

proof fn lemma_spiral_paint_len(rng: ChaCha8Rng, j: nat)
    ensures
        spiral_paint(rng, j).0.len() == j + 1,
    decreases j,
{
    if j > 0 {
        lemma_spiral_paint_len(rng, (j - 1) as nat);
    }
}

/// The shorter side of a `cols` x `rows` grid.
pub open spec fn shorter_side(cols: int, rows: int) -> int {
    if cols <= rows { cols } else { rows }
}

/// Nested rectangular rings from the border inwards, walked as a spiral:
/// the outer ring is painted, a ring after an open one always is, and a
/// ring after a painted one is painted again with chance 0.35, which leaves
/// open lanes between the walls.
pub fn spiral(cols: usize, rows: usize, rng: &mut ChaCha8Rng) -> (g: BrickGrid)
    requires
        cols * rows <= usize::MAX,
    ensures
        g.wf(),
        g.cols == cols,
        g.rows == rows,
        exists|painted: Seq<bool>|
            #[trigger] spiral_rule(painted) && painted.len() == ring_count(cols as int, rows as int) && forall|
                c: int,
                r: int,
            |
                #![trigger g.cell(c, r)]
                0 <= c < cols && 0 <= r < rows ==> g.cell(c, r) == painted[ring_depth(
                    cols as int,
                    rows as int,
                    c,
                    r,
                )],
        forall|c: int, r: int| #[trigger] g.cell(c, r) ==> 0 <= c < cols && 0 <= r < rows,
        forall|c: int, r: int|
            0 <= c < cols && 0 <= r < rows ==> #[trigger] g.cell(c, r) == spiral_paint(
                *old(rng),
                (shorter_side(cols as int, rows as int) / 2) as nat,
            ).0[ring_depth(cols as int, rows as int, c, r)],
        *final(rng) == spiral_paint(*old(rng), (shorter_side(cols as int, rows as int) / 2) as nat).1,
{
    let ghost rng0 = *rng;
    let mut grid = BrickGrid::new(cols, rows);
    proof {
        lemma_empty_grid(grid);
    }
    let ghost mut painted: Seq<bool> = Seq::empty();
    let mut k: usize = 0;
    let mut paint = true;
    let mut done = false;
    while !done && k < cols - k && k < rows - k
        invariant
            grid.wf(),
            grid.cols == cols,
            grid.rows == rows,
            painted.len() == k,
            spiral_rule(painted),
            k == 0 ==> paint,
            !done && k > 0 && !painted[k - 1] ==> paint,
            !done ==> 2 * k <= cols && 2 * k <= rows,
            k <= cols,
            k <= rows,
            done ==> k > 0 && ring_count(cols as int, rows as int) == k,
            !done && (cols <= 2 * k || rows <= 2 * k) ==> ring_count(cols as int, rows as int) == k,
            !done ==> spiral_paint(rng0, k as nat).0 == painted.push(paint) && *rng == spiral_paint(rng0, k as nat).1,
            done ==> k >= 1 && painted == spiral_paint(rng0, (k - 1) as nat).0 && *rng == spiral_paint(
                rng0,
                (k - 1) as nat,
            ).1 && shorter_side(cols as int, rows as int) == 2 * (k - 1) + 1,
            forall|c: int, r: int| #[trigger] grid.cell(c, r) == (0 <= c < cols && 0 <= r < rows && ring_depth(
                cols as int,
                rows as int,
                c,
                r,
            ) < k && painted[ring_depth(cols as int, rows as int, c, r)]),
        decreases cols - k, (if done { 0int } else { 1int }),
    {
        paint_ring(&mut grid, k, paint);
        let ghost prev = painted;
        proof {
            painted = painted.push(paint);
            assert(spiral_rule(painted)) by {
                assert forall|j: int| 0 <= j < painted.len() - 1 && !#[trigger] painted[j] implies painted[j + 1] by {
                    if j < prev.len() - 1 {
                        assert(painted[j] == prev[j]);
                    }
                }
            }
        }
        proof {
            lemma_spiral_paint_len(rng0, k as nat);
        }
        if cols - k - k == 1 || rows - k - k == 1 {
            done = true;
        } else {
            if paint {
                paint = roll_below(rng, SPIRAL_REPAINT_ROLL);
            } else {
                paint = true;
            }
            proof {
                let next = spiral_paint(rng0, (k + 1) as nat);
                assert(spiral_paint(rng0, k as nat).0.last() == painted.last());
                assert(next.0 == painted.push(paint));
            }
        }
        k = k + 1;
    }
    proof {
        let m = shorter_side(cols as int, rows as int);
        let fin = spiral_paint(rng0, (m / 2) as nat);
        lemma_spiral_paint_len(rng0, (m / 2) as nat);
        if !done {
            assert(m == 2 * k);
            assert(fin.0 == painted.push(paint));
        }
        assert forall|c: int, r: int| 0 <= c < cols && 0 <= r < rows implies #[trigger] grid.cell(c, r) == fin.0[ring_depth(
            cols as int,
            rows as int,
            c,
            r,
        )] by {
            let d = ring_depth(cols as int, rows as int, c, r);
            assert(0 <= d < k);
            if !done {
                assert(fin.0[d] == painted[d]);
            }
        }
    }
    grid
}

/// Twice the grid distance of `(c, r)` from the centre of a `cols` x `rows`
/// grid (the centre may fall between cells, hence the doubling).
pub open spec fn double_center_distance(cols: int, rows: int, c: int, r: int) -> int {
    let dx = 2 * c - (cols - 1);
    let dy = 2 * r - (rows - 1);
    (if dx >= 0 { dx } else { -dx }) + (if dy >= 0 { dy } else { -dy })
}

/// Cell `(c, r)` lies on the diamond: within `solid_max2` half-cells of the
/// centre for a solid one, between `ring_min2` and `ring_max2` half-cells
/// for a hollow one.
pub open spec fn on_diamond(cols: int, rows: int, hollow: bool, solid_max2: int, ring_min2: int, ring_max2: int, c: int, r: int) -> bool {
    &&& 0 <= c < cols
    &&& 0 <= r < rows
    &&& if hollow {
        ring_min2 <= double_center_distance(cols, rows, c, r) <= ring_max2
    } else {
        double_center_distance(cols, rows, c, r) <= solid_max2
    }
}

/// The cells of an unbroken diamond, row-major.
pub open spec fn diamond_outline(cols: int, rows: int, hollow: bool, solid_max2: int, ring_min2: int, ring_max2: int) -> Seq<bool> {
    Seq::new(
        (cols * rows) as nat,
        |i: int| on_diamond(cols, rows, hollow, solid_max2, ring_min2, ring_max2, i % cols, i / cols),
    )
}

/// Every filled cell of `g` lies on the diamond.
pub open spec fn within_diamond(g: BrickGrid, hollow: bool, solid_max2: int, ring_min2: int, ring_max2: int) -> bool {
    forall|c: int, r: int|
        #[trigger] g.cell(c, r) ==> on_diamond(g.cols as int, g.rows as int, hollow, solid_max2, ring_min2, ring_max2, c, r)
}

fn double_center_distance_of(cols: usize, rows: usize, c: usize, r: usize) -> (d: u128)
    requires
        c < cols,
        r < rows,
    ensures
        d == double_center_distance(cols as int, rows as int, c as int, r as int),
{
    let c2 = 2 * (c as u128);
    let r2 = 2 * (r as u128);
    let w = (cols - 1) as u128;
    let h = (rows - 1) as u128;
    let dx = if c2 >= w { c2 - w } else { w - c2 };
    let dy = if r2 >= h { r2 - h } else { h - r2 };
    dx + dy
}

/// Chance, in 2^-24 steps, that the diamond is hollow (0.45), and of each
/// gap knocked into it (0.08).
pub const DIAMOND_HOLLOW_ROLL: u32 = 7549747;
pub const DIAMOND_GAP_ROLL: u32 = 1342178;

/// A diamond centred on the grid, solid or (with chance 0.45) hollow, with
/// a few bricks knocked out. Its size is given by bounds on twice the grid
/// distance from the centre: at most `solid_max2` for the solid diamond,
/// from `ring_min2` to `ring_max2` for the hollow one.
pub fn diamond(cols: usize, rows: usize, solid_max2: u64, ring_min2: u64, ring_max2: u64, rng: &mut ChaCha8Rng) -> (g: BrickGrid)
    requires
        cols * rows <= usize::MAX,
    ensures
        g.wf(),
        g.cols == cols,
        g.rows == rows,
        exists|hollow: bool|
            #[trigger] within_diamond(g, hollow, solid_max2 as int, ring_min2 as int, ring_max2 as int),
        g.cells@ == punch_from(
            diamond_outline(
                cols as int,
                rows as int,
                roll_value(*old(rng)) < DIAMOND_HOLLOW_ROLL,
                solid_max2 as int,
                ring_min2 as int,
                ring_max2 as int,
            ),
            0,
            after_roll(*old(rng)),
            DIAMOND_GAP_ROLL,
        ).0,
        *final(rng) == punch_from(
            diamond_outline(
                cols as int,
                rows as int,
                roll_value(*old(rng)) < DIAMOND_HOLLOW_ROLL,
                solid_max2 as int,
                ring_min2 as int,
                ring_max2 as int,
            ),
            0,
            after_roll(*old(rng)),
            DIAMOND_GAP_ROLL,
        ).1,
{
    let mut grid = BrickGrid::new(cols, rows);
    proof {
        lemma_empty_grid(grid);
    }
    let hollow = roll_below(rng, DIAMOND_HOLLOW_ROLL);
    let mut r: usize = 0;
    while r < rows
        invariant
            grid.wf(),
            grid.cols == cols,
            grid.rows == rows,
            0 <= r <= rows,
            forall|cc: int, rr: int| #[trigger] grid.cell(cc, rr) == (rr < r && on_diamond(
                cols as int,
                rows as int,
                hollow,
                solid_max2 as int,
                ring_min2 as int,
                ring_max2 as int,
                cc,
                rr,
            )),
        decreases rows - r,
    {
        let mut c: usize = 0;
        while c < cols
            invariant
                grid.wf(),
                grid.cols == cols,
                grid.rows == rows,
                0 <= r < rows,
                0 <= c <= cols,
                forall|cc: int, rr: int| #[trigger] grid.cell(cc, rr) == ((rr < r || (rr == r && cc < c))
                    && on_diamond(
                    cols as int,
                    rows as int,
                    hollow,
                    solid_max2 as int,
                    ring_min2 as int,
                    ring_max2 as int,
                    cc,
                    rr,
                )),
            decreases cols - c,
        {
            let d = double_center_distance_of(cols, rows, c, r);
            let on = if hollow {
                ring_min2 as u128 <= d && d <= ring_max2 as u128
            } else {
                d <= solid_max2 as u128
            };
            if on {
                grid.set(c, r, true);
            }
            c = c + 1;
        }
        r = r + 1;
    }
    assert(grid.cells@ =~= diamond_outline(
        cols as int,
        rows as int,
        hollow,
        solid_max2 as int,
        ring_min2 as int,
        ring_max2 as int,
    )) by {
        assert forall|i: int| 0 <= i < grid.cells@.len() implies grid.cells@[i] == diamond_outline(
            cols as int,
            rows as int,
            hollow,
            solid_max2 as int,
            ring_min2 as int,
            ring_max2 as int,
        )[i] by {
            lemma_cells_by_position(grid, i);
        }
    }
    maybe_punch_gaps(&mut grid, rng, DIAMOND_GAP_ROLL);
    assert(within_diamond(grid, hollow, solid_max2 as int, ring_min2 as int, ring_max2 as int));
    grid
}

/// Whether `(c, r)` is a checker cell for the given phase.
pub open spec fn checker_cell(c: int, r: int, phase: int) -> bool {
    (c + r + phase) % 2 == 0
}

/// What holds of a checker burst with this phase whatever the rolls gave:
/// a zero roll never fills, a certain roll always does.
pub open spec fn checkered(g: BrickGrid, phase: int, on_roll: u32, off_roll: u32) -> bool {
    forall|c: int, r: int|
        0 <= c < g.cols && 0 <= r < g.rows ==> checker_ok(c, r, phase, on_roll, off_roll, #[trigger] g.cell(c, r))
}

/// Cell `(c, r)` holding `v` agrees with the checker rolls.
pub open spec fn checker_ok(c: int, r: int, phase: int, on_roll: u32, off_roll: u32, v: bool) -> bool {
    &&& (checker_cell(c, r, phase) && on_roll == 0 ==> !v)
    &&& (checker_cell(c, r, phase) && on_roll >= UNIT_ROLL_STEPS ==> v)
    &&& (!checker_cell(c, r, phase) && off_roll == 0 ==> !v)
    &&& (!checker_cell(c, r, phase) && off_roll >= UNIT_ROLL_STEPS ==> v)
}

/// `n` rolls are `n` long.
pub proof fn lemma_roll_stream_len(rng: ChaCha8Rng, n: nat)
    ensures
        roll_stream(rng, n).0.len() == n,
    decreases n,
{
    if n > 0 {
        lemma_roll_stream_len(rng, (n - 1) as nat);
    }
}

/// Slot `k` of a grid `cols` wide holds cell `(c, r)`.
pub proof fn lemma_slot_position(k: int, c: int, r: int, cols: int)
    requires
        0 <= c < cols,
        0 <= r,
        k == r * cols + c,
    ensures
        k % cols == c,
        k / cols == r,
{
    vstd::arithmetic::div_mod::lemma_fundamental_div_mod_converse(k, cols, r, c);
}

/// The cells of a checker burst, row-major: cell `i` is filled when the
/// roll drawn for it is below the chance of its kind (checker or not).
pub open spec fn checker_cells(cols: int, phase: int, on_roll: u32, off_roll: u32, rolls: Seq<u32>, n: nat) -> Seq<bool> {
    Seq::new(
        n,
        |i: int|
            i < rolls.len() && rolls[i] < (if checker_cell(i % cols, i / cols, phase) {
                on_roll
            } else {
                off_roll
            }),
    )
}

/// A checkerboard burst: after a random phase, every checker cell is
/// filled with chance `on_roll / 2^24` and every other cell with chance
/// `off_roll / 2^24`.
pub fn checker_burst(cols: usize, rows: usize, on_roll: u32, off_roll: u32, rng: &mut ChaCha8Rng) -> (g: BrickGrid)
    requires
        cols * rows <= usize::MAX,
    ensures
        g.wf(),
        g.cols == cols,
        g.rows == rows,
        forall|c: int, r: int| #[trigger] g.cell(c, r) ==> 0 <= c < cols && 0 <= r < rows,
        exists|phase: int| 0 <= phase < 2 && #[trigger] checkered(g, phase, on_roll, off_roll),
        g.cells@ == checker_cells(
            cols as int,
            below_value(*old(rng), 2) as int,
            on_roll,
            off_roll,
            roll_stream(after_below(*old(rng), 2), (cols * rows) as nat).0,
            (cols * rows) as nat,
        ),
        *final(rng) == roll_stream(after_below(*old(rng), 2), (cols * rows) as nat).1,
{
    let mut grid = BrickGrid::new(cols, rows);
    proof {
        lemma_empty_grid(grid);
    }
    let phase = chacha8_below(rng, 2);
    let ghost r1 = *rng;
    let ghost n = (cols * rows) as nat;
    assert(grid.cells@ =~= checker_cells(cols as int, phase as int, on_roll, off_roll, roll_stream(r1, 0).0, n));
    let mut r: usize = 0;
    while r < rows
        invariant
            grid.wf(),
            grid.cols == cols,
            grid.rows == rows,
            phase < 2,
            0 <= r <= rows,
            forall|cc: int, rr: int| #[trigger] grid.cell(cc, rr) ==> 0 <= cc < cols && 0 <= rr < r,
            forall|cc: int, rr: int| 0 <= cc < cols && 0 <= rr < r ==> checker_ok(cc, rr, phase as int, on_roll, off_roll, #[trigger] grid.cell(cc, rr)),
            n == cols * rows,
            grid.cells@ == checker_cells(cols as int, phase as int, on_roll, off_roll, roll_stream(r1, (r * cols) as nat).0, n),
            *rng == roll_stream(r1, (r * cols) as nat).1,
        decreases rows - r,
    {
        let mut c: usize = 0;
        while c < cols
            invariant
                grid.wf(),
                grid.cols == cols,
                grid.rows == rows,
                phase < 2,
                0 <= r < rows,
                0 <= c <= cols,
                forall|cc: int, rr: int| #[trigger] grid.cell(cc, rr) ==> 0 <= cc < cols && (0 <= rr < r || (rr
                    == r && cc < c)),
                forall|cc: int, rr: int|
                    0 <= cc < cols && (0 <= rr < r || (rr == r && cc < c)) ==> checker_ok(cc, rr, phase as int, on_roll, off_roll, #[trigger] grid.cell(cc, rr)),
                n == cols * rows,
                grid.cells@ == checker_cells(cols as int, phase as int, on_roll, off_roll, roll_stream(r1, (r * cols + c) as nat).0, n),
                *rng == roll_stream(r1, (r * cols + c) as nat).1,
            decreases cols - c,
        {
            let ghost k = r * cols + c;
            proof {
                lemma_cell_index(cols as int, rows as int, c as int, r as int);
                lemma_slot_position(k as int, c as int, r as int, cols as int);
            }
            let ghost before = roll_stream(r1, k as nat);
            let ghost cells0 = grid.cells@;
            let checker = (c % 2 + r % 2 + phase) % 2 == 0;
            assert(checker == checker_cell(c as int, r as int, phase as int));
            let filled = if checker { roll_below(rng, on_roll) } else { roll_below(rng, off_roll) };
            if filled {
                grid.set(c, r, true);
            }
            proof {
                let after = roll_stream(r1, (k + 1) as nat);
                assert(after.0 == before.0.push(roll_value(before.1)));
                assert(before.0.len() == k) by {
                    lemma_roll_stream_len(r1, k as nat);
                }
                assert(grid.cells@ =~= checker_cells(cols as int, phase as int, on_roll, off_roll, after.0, n));
            }
            c = c + 1;
        }
        proof {
            assert((r + 1) * cols == r * cols + cols) by (nonlinear_arith);
        }
        r = r + 1;
    }
    proof {
        assert(rows * cols == cols * rows) by (nonlinear_arith);
    }
    assert(checkered(grid, phase as int, on_roll, off_roll));
    grid
}

} // verus!
