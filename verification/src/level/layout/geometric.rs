//! Geometric layouts built on integer grids: a wall with square cut-outs,
//! and a tessellation of one random tile.
use vstd::prelude::*;
use crate::level::grid::{BrickGrid, lemma_cell_index};
use crate::level::layout::creative::{lemma_empty_grid, lemma_roll_stream_len, lemma_slot_position};
use crate::level::layout::organic::noise_cells;
use crate::random::{after_below, below_value, chacha8_below, roll_below, roll_stream, roll_value};
use rand_chacha::ChaCha8Rng;

verus! {

/// Cell `(c, r)` lies in the `size` x `size` square whose top-left corner
/// is `start`, wrapping around the grid's edges.
pub open spec fn in_cutout(cols: int, rows: int, start: (int, int), size: int, c: int, r: int) -> bool {
    exists|dx: int, dy: int|
        0 <= dx < size && 0 <= dy < size && #[trigger] ((start.0 + dx) % cols) == c && #[trigger] ((start.1
            + dy) % rows) == r
}

/// Cell `(c, r)` lies in one of the cut-outs.
pub open spec fn in_some_cutout(cols: int, rows: int, starts: Seq<(int, int)>, size: int, c: int, r: int) -> bool {
    exists|k: int| 0 <= k < starts.len() && #[trigger] in_cutout(cols, rows, starts[k], size, c, r)
}

/// Every cell of `g` is filled unless it lies in a cut-out; the cut-outs
/// start on cells of the grid.
pub open spec fn cut_out_by(g: BrickGrid, starts: Seq<(int, int)>, size: int) -> bool {
    &&& forall|k: int| 0 <= k < starts.len() ==> 0 <= #[trigger] starts[k].0 < g.cols && 0 <= starts[k].1 < g.rows
    &&& forall|c: int, r: int|
        0 <= c < g.cols && 0 <= r < g.rows ==> (#[trigger] g.cell(c, r) == !in_some_cutout(
            g.cols as int,
            g.rows as int,
            starts,
            size,
            c,
            r,
        ))
}

/// The first `k` cut-out corners a generator in state `rng` draws (a
/// column below `cols`, then a row below `rows`, for each), and the state
/// after them.
pub open spec fn cutout_starts(rng: ChaCha8Rng, cols: usize, rows: usize, k: nat) -> (Seq<(int, int)>, ChaCha8Rng)
    decreases k,
{
    if k == 0 {
        (Seq::empty(), rng)
    } else {
        let prev = cutout_starts(rng, cols, rows, (k - 1) as nat);
        let c = below_value(prev.1, cols);
        let r1 = after_below(prev.1, cols);
        let r = below_value(r1, rows);
        (prev.0.push((c as int, r as int)), after_below(r1, rows))
    }
}

/// A full wall with `num_cutouts` square holes of side `cluster_size`, each
/// at a random cell, wrapping around the edges.
pub fn grid_cutouts(cols: usize, rows: usize, num_cutouts: usize, cluster_size: usize, rng: &mut ChaCha8Rng) -> (g: BrickGrid)
    requires
        cols * rows <= usize::MAX,
        num_cutouts > 0 ==> cols > 0 && rows > 0,
        cols + cluster_size <= usize::MAX,
        rows + cluster_size <= usize::MAX,
    ensures
        g.wf(),
        g.cols == cols,
        g.rows == rows,
        exists|starts: Seq<(int, int)>|
            starts.len() == num_cutouts && #[trigger] cut_out_by(g, starts, cluster_size as int),
        cut_out_by(g, cutout_starts(*old(rng), cols, rows, num_cutouts as nat).0, cluster_size as int),
        *final(rng) == cutout_starts(*old(rng), cols, rows, num_cutouts as nat).1,
{
    let ghost rng0 = *rng;
    let mut grid = BrickGrid::filled(cols, rows);
    let ghost mut starts: Seq<(int, int)> = Seq::empty();
    proof {
        assert forall|c: int, r: int| 0 <= c < cols && 0 <= r < rows implies #[trigger] grid.cell(c, r) == !in_some_cutout(
            cols as int,
            rows as int,
            starts,
            cluster_size as int,
            c,
            r,
        ) by {
            lemma_cell_index(cols as int, rows as int, c, r);
        }
    }
    let mut k: usize = 0;
    while k < num_cutouts
        invariant
            grid.wf(),
            grid.cols == cols,
            grid.rows == rows,
            num_cutouts > 0 ==> cols > 0 && rows > 0,
            cols + cluster_size <= usize::MAX,
            rows + cluster_size <= usize::MAX,
            0 <= k <= num_cutouts,
            starts.len() == k,
            starts == cutout_starts(rng0, cols, rows, k as nat).0,
            *rng == cutout_starts(rng0, cols, rows, k as nat).1,
            forall|j: int| 0 <= j < starts.len() ==> 0 <= #[trigger] starts[j].0 < cols && 0 <= starts[j].1 < rows,
            forall|c: int, r: int|
                0 <= c < cols && 0 <= r < rows ==> (#[trigger] grid.cell(c, r) == !in_some_cutout(
                    cols as int,
                    rows as int,
                    starts,
                    cluster_size as int,
                    c,
                    r,
                )),
        decreases num_cutouts - k,
    {
        let start_col = chacha8_below(rng, cols);
        let start_row = chacha8_below(rng, rows);
        let ghost start = (start_col as int, start_row as int);
        let ghost prev = starts;
        let mut dy: usize = 0;
        while dy < cluster_size
            invariant
                grid.wf(),
                grid.cols == cols,
                grid.rows == rows,
                cols > 0 && rows > 0,
                start_col < cols,
                start_row < rows,
                start == (start_col as int, start_row as int),
                cols + cluster_size <= usize::MAX,
                rows + cluster_size <= usize::MAX,
                0 <= dy <= cluster_size,
                forall|c: int, r: int|
                    0 <= c < cols && 0 <= r < rows ==> (#[trigger] grid.cell(c, r) == (!in_some_cutout(
                        cols as int,
                        rows as int,
                        prev,
                        cluster_size as int,
                        c,
                        r,
                    ) && !exists|ddx: int, ddy: int|
                        0 <= ddx < cluster_size && 0 <= ddy < dy && #[trigger] ((start.0 + ddx) % (cols as int)) == c
                            && #[trigger] ((start.1 + ddy) % (rows as int)) == r)),
            decreases cluster_size - dy,
        {
            let mut dx: usize = 0;
            while dx < cluster_size
                invariant
                    grid.wf(),
                    grid.cols == cols,
                    grid.rows == rows,
                    cols > 0 && rows > 0,
                    start_col < cols,
                    start_row < rows,
                    start == (start_col as int, start_row as int),
                    cols + cluster_size <= usize::MAX,
                    rows + cluster_size <= usize::MAX,
                    0 <= dy < cluster_size,
                    0 <= dx <= cluster_size,
                    forall|c: int, r: int|
                        0 <= c < cols && 0 <= r < rows ==> (#[trigger] grid.cell(c, r) == (!in_some_cutout(
                            cols as int,
                            rows as int,
                            prev,
                            cluster_size as int,
                            c,
                            r,
                        ) && !exists|ddx: int, ddy: int|
                            0 <= ddx < cluster_size && 0 <= ddy < cluster_size && (ddy < dy || (ddy == dy
                                && ddx < dx)) && #[trigger] ((start.0 + ddx) % (cols as int)) == c
                                && #[trigger] ((start.1 + ddy) % (rows as int)) == r)),
                decreases cluster_size - dx,
            {
                let c = (start_col + dx) % cols;
                let r = (start_row + dy) % rows;
                grid.set(c, r, false);
                proof {
                    assert forall|cc: int, rr: int|
                        0 <= cc < cols && 0 <= rr < rows implies (#[trigger] grid.cell(cc, rr) == (!in_some_cutout(
                        cols as int,
                        rows as int,
                        prev,
                        cluster_size as int,
                        cc,
                        rr,
                    ) && !exists|ddx: int, ddy: int|
                        0 <= ddx < cluster_size && 0 <= ddy < cluster_size && (ddy < dy || (ddy == dy && ddx
                            < dx + 1)) && #[trigger] ((start.0 + ddx) % (cols as int)) == cc
                            && #[trigger] ((start.1 + ddy) % (rows as int)) == rr)) by {
                        if cc == c && rr == r {
                            assert((start.0 + dx) % (cols as int) == cc);
                            assert((start.1 + dy) % (rows as int) == rr);
                        }
                    }
                }
                dx = dx + 1;
            }
            dy = dy + 1;
        }
        proof {
            starts = starts.push(start);
            assert forall|c: int, r: int| 0 <= c < cols && 0 <= r < rows implies #[trigger] grid.cell(c, r) == !in_some_cutout(
                cols as int,
                rows as int,
                starts,
                cluster_size as int,
                c,
                r,
            ) by {
                if in_some_cutout(cols as int, rows as int, starts, cluster_size as int, c, r) {
                    let kk = choose|kk: int| 0 <= kk < starts.len() && #[trigger] in_cutout(
                        cols as int,
                        rows as int,
                        starts[kk],
                        cluster_size as int,
                        c,
                        r,
                    );
                    if kk < prev.len() {
                        assert(starts[kk] == prev[kk]);
                        assert(in_some_cutout(cols as int, rows as int, prev, cluster_size as int, c, r));
                    }
                }
                if in_some_cutout(cols as int, rows as int, prev, cluster_size as int, c, r) {
                    let kk = choose|kk: int| 0 <= kk < prev.len() && #[trigger] in_cutout(
                        cols as int,
                        rows as int,
                        prev[kk],
                        cluster_size as int,
                        c,
                        r,
                    );
                    assert(starts[kk] == prev[kk]);
                }
                if in_cutout(cols as int, rows as int, start, cluster_size as int, c, r) {
                    assert(starts[prev.len() as int] == start);
                }
            }
        }
        k = k + 1;
    }
    assert(cut_out_by(grid, starts, cluster_size as int));
    grid
}

/// The tile cell that covers `(c, r)` in a tiling with `tw` x `th` tiles.
pub open spec fn tile_slot(tw: int, th: int, c: int, r: int) -> int {
    (r % th) * tw + (c % tw)
}

/// `g` repeats `tile` across the grid; cells may be flipped only where
/// `flips` allows it.
pub open spec fn tiled_by(g: BrickGrid, tile: Seq<bool>, tw: int, th: int, flips: bool) -> bool {
    &&& tile.len() == tw * th
    &&& forall|c: int, r: int|
        0 <= c < g.cols && 0 <= r < g.rows ==> (#[trigger] g.cell(c, r) == tile[tile_slot(tw, th, c, r)]
            || flips)
}

/// Cells can come out inverted: there is a flip roll and it is not zero.
pub open spec fn may_flip(flip_roll: Option<u32>) -> bool {
    match flip_roll {
        Some(t) => t > 0,
        None => false,
    }
}

/// Rolls the flips draw over `k` cells: one per cell with a flip roll,
/// none without.
pub open spec fn flip_draws(flip_roll: Option<u32>, k: nat) -> nat {
    match flip_roll {
        Some(_) => k,
        None => 0,
    }
}

/// Cell `i` of a tessellation of a grid `cols` wide: its tile cell,
/// inverted when there is a flip roll and the `i`-th flip draw is below it.
pub open spec fn tessellated_cell(cols: int, tw: int, th: int, tile: Seq<bool>, flip_roll: Option<u32>, flips: Seq<u32>, i: int) -> bool {
    let v = tile[tile_slot(tw, th, i % cols, i / cols)];
    match flip_roll {
        Some(t) => if flips[i] < t { !v } else { v },
        None => v,
    }
}

/// The first `k` of `n` cells of a tessellation (the rest empty).
pub open spec fn tessellated_prefix(cols: int, tw: int, th: int, tile: Seq<bool>, flip_roll: Option<u32>, flips: Seq<u32>, n: nat, k: nat) -> Seq<bool> {
    Seq::new(n, |i: int| i < k && tessellated_cell(cols, tw, th, tile, flip_roll, flips, i))
}

/// A tessellation: one random `tile_w` x `tile_h` tile (each cell filled
/// with chance `fill_roll / 2^24`) repeated over the grid; with
/// `flip_roll`, each cell is inverted with chance `flip_roll / 2^24`.
pub fn tessellation(
    cols: usize,
    rows: usize,
    tile_w: usize,
    tile_h: usize,
    fill_roll: u32,
    flip_roll: Option<u32>,
    rng: &mut ChaCha8Rng,
) -> (g: BrickGrid)
    requires
        cols * rows <= usize::MAX,
        tile_w > 0,
        tile_h > 0,
        tile_w * tile_h <= usize::MAX,
    ensures
        g.wf(),
        g.cols == cols,
        g.rows == rows,
        exists|tile: Seq<bool>|
            #[trigger] tiled_by(g, tile, tile_w as int, tile_h as int, may_flip(flip_roll)),
        g.cells@ == tessellated_prefix(
            cols as int,
            tile_w as int,
            tile_h as int,
            noise_cells(*old(rng), (tile_w * tile_h) as nat, fill_roll),
            flip_roll,
            roll_stream(roll_stream(*old(rng), (tile_w * tile_h) as nat).1, flip_draws(flip_roll, (cols * rows) as nat)).0,
            (cols * rows) as nat,
            (cols * rows) as nat,
        ),
        *final(rng) == roll_stream(
            roll_stream(*old(rng), (tile_w * tile_h) as nat).1,
            flip_draws(flip_roll, (cols * rows) as nat),
        ).1,
{
    let ghost rng0 = *rng;
    let n = tile_w * tile_h;
    let mut tile: Vec<bool> = Vec::new();
    while tile.len() < n
        invariant
            tile@.len() <= n,
            tile@ == Seq::new(tile@.len(), |i: int| roll_stream(rng0, tile@.len()).0[i] < fill_roll),
            *rng == roll_stream(rng0, tile@.len()).1,
        decreases n - tile@.len(),
    {
        let ghost k = tile@.len();
        let ghost before = roll_stream(rng0, k);
        proof {
            lemma_roll_stream_len(rng0, k);
        }
        let cell = roll_below(rng, fill_roll);
        tile.push(cell);
        proof {
            let after = roll_stream(rng0, k + 1);
            assert(after.0 == before.0.push(roll_value(before.1)));
            assert(tile@ =~= Seq::new(tile@.len(), |i: int| roll_stream(rng0, tile@.len()).0[i] < fill_roll));
        }
    }
    let ghost tile_cells = tile@;
    let ghost r_tile = *rng;
    let ghost cells_n = (cols * rows) as nat;
    assert(tile_cells =~= noise_cells(rng0, n as nat, fill_roll));
    let mut grid = BrickGrid::new(cols, rows);
    proof {
        lemma_empty_grid(grid);
    }
    let ghost flips = may_flip(flip_roll);
    let ghost all_flips = roll_stream(r_tile, flip_draws(flip_roll, cells_n)).0;
    proof {
        lemma_roll_stream_len(r_tile, flip_draws(flip_roll, cells_n));
        assert(grid.cells@ =~= tessellated_prefix(cols as int, tile_w as int, tile_h as int, tile_cells, flip_roll,
            roll_stream(r_tile, flip_draws(flip_roll, 0)).0, cells_n, 0));
    }
    let mut row: usize = 0;
    while row < rows
        invariant
            grid.wf(),
            grid.cols == cols,
            grid.rows == rows,
            tile@.len() == n == tile_w * tile_h,
            tile_w > 0,
            tile_h > 0,
            flips == (may_flip(flip_roll)),
            0 <= row <= rows,
            tile@ == tile_cells,
            cells_n == cols * rows,
            grid.cells@ == tessellated_prefix(cols as int, tile_w as int, tile_h as int, tile_cells, flip_roll,
                roll_stream(r_tile, flip_draws(flip_roll, (row * cols) as nat)).0, cells_n, (row * cols) as nat),
            *rng == roll_stream(r_tile, flip_draws(flip_roll, (row * cols) as nat)).1,
            forall|c: int, r: int|
                0 <= c < cols && 0 <= r < row ==> (#[trigger] grid.cell(c, r) == tile@[tile_slot(
                    tile_w as int,
                    tile_h as int,
                    c,
                    r,
                )] || flips),
        decreases rows - row,
    {
        let mut col: usize = 0;
        while col < cols
            invariant
                grid.wf(),
                grid.cols == cols,
                grid.rows == rows,
                tile@.len() == n == tile_w * tile_h,
                tile_w > 0,
                tile_h > 0,
                flips == (may_flip(flip_roll)),
                0 <= row < rows,
                0 <= col <= cols,
                tile@ == tile_cells,
                cells_n == cols * rows,
                grid.cells@ == tessellated_prefix(cols as int, tile_w as int, tile_h as int, tile_cells, flip_roll,
                    roll_stream(r_tile, flip_draws(flip_roll, (row * cols + col) as nat)).0, cells_n, (row * cols + col) as nat),
                *rng == roll_stream(r_tile, flip_draws(flip_roll, (row * cols + col) as nat)).1,
                forall|c: int, r: int|
                    0 <= c < cols && (0 <= r < row || (r == row && c < col)) ==> (#[trigger] grid.cell(c, r)
                        == tile@[tile_slot(tile_w as int, tile_h as int, c, r)] || flips),
            decreases cols - col,
        {
            let tc = col % tile_w;
            let tr = row % tile_h;
            proof {
                lemma_cell_index(tile_w as int, tile_h as int, tc as int, tr as int);
            }
            let ghost k = row * cols + col;
            proof {
                lemma_cell_index(cols as int, rows as int, col as int, row as int);
                lemma_slot_position(k as int, col as int, row as int, cols as int);
                lemma_roll_stream_len(r_tile, flip_draws(flip_roll, k as nat));
            }
            let ghost before = roll_stream(r_tile, flip_draws(flip_roll, k as nat));
            let val = tile[tr * tile_w + tc];
            assert(val == tile_cells[tile_slot(tile_w as int, tile_h as int, col as int, row as int)]);
            let mut flip = false;
            match flip_roll {
                Some(t) => {
                    flip = roll_below(rng, t);
                },
                None => {},
            }
            grid.set(col, row, if flip { !val } else { val });
            proof {
                let after = roll_stream(r_tile, flip_draws(flip_roll, (k + 1) as nat));
                if flip_roll is Some {
                    assert(after.0 == before.0.push(roll_value(before.1)));
                }
                assert(grid.cells@ =~= tessellated_prefix(cols as int, tile_w as int, tile_h as int, tile_cells,
                    flip_roll, after.0, cells_n, (k + 1) as nat));
            }
            col = col + 1;
        }
        proof {
            assert((row + 1) * cols == row * cols + cols) by (nonlinear_arith);
        }
        row = row + 1;
    }
    proof {
        assert(rows * cols == cols * rows) by (nonlinear_arith);
    }
    assert(tiled_by(grid, tile@, tile_w as int, tile_h as int, flips));
    grid
}

} // verus!
