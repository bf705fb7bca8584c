//! A rectangular occupancy grid of brick cells, stored row-major.
use vstd::prelude::*;

verus! {

/// Number of `true` entries in `s`.
pub open spec fn count_true(s: Seq<bool>) -> nat
    decreases s.len(),
{
    if s.len() == 0 {
        0
    } else {
        count_true(s.drop_last()) + if s.last() { 1nat } else { 0nat }
    }
}

/// Where a mirror copies line `i` of `n` lines from: the far half takes the
/// reflection of the near half, the near half keeps its own content.
pub open spec fn mirror_src(i: int, n: int) -> int {
    if i >= n - n / 2 {
        n - 1 - i
    } else {
        i
    }
}

/// Reflection laws of `mirror_src` on lines `0..n`: the reflected source of
/// line `i` and of its mirror image `n - 1 - i` are the same line, and that
/// source lies in the kept half, so reflecting again changes nothing.
pub proof fn lemma_mirror_src(i: int, n: int)
    requires
        0 <= i < n,
    ensures
        mirror_src(n - 1 - i, n) == mirror_src(i, n),
        mirror_src(mirror_src(i, n), n) == mirror_src(i, n),
        0 <= mirror_src(i, n) < n,
{
}

/// Cell `(col, row)` lives at `row * cols + col`; distinct cells get distinct
/// slots below `rows * cols`.
pub proof fn lemma_cell_index(cols: int, rows: int, c: int, r: int)
    requires
        0 <= c < cols,
        0 <= r < rows,
    ensures
        0 <= r * cols + c < cols * rows,
        forall|c2: int, r2: int|
            0 <= c2 < cols && 0 <= r2 < rows && #[trigger] (r2 * cols + c2) == r * cols + c
                ==> c2 == c && r2 == r,
{
    assert(0 <= r * cols) by (nonlinear_arith)
        requires
            0 <= r,
            0 <= cols,
    ;
    assert(r * cols + c < cols * rows) by (nonlinear_arith)
        requires
            0 <= c < cols,
            0 <= r < rows,
    ;
    assert forall|c2: int, r2: int|
        0 <= c2 < cols && 0 <= r2 < rows && #[trigger] (r2 * cols + c2) == r * cols + c implies c2
        == c && r2 == r by {
        if r2 < r {
            assert(r2 * cols + c2 < r * cols + c) by (nonlinear_arith)
                requires
                    r2 < r,
                    0 <= c2 < cols,
                    0 <= c,
            ;
        } else if r2 > r {
            assert(r2 * cols + c2 > r * cols + c) by (nonlinear_arith)
                requires
                    r2 > r,
                    0 <= c < cols,
                    0 <= c2,
            ;
        }
    }
}

#[derive(Debug, Clone, PartialEq, Eq)]
pub struct BrickGrid {
    pub cols: usize,
    pub rows: usize,
    pub cells: Vec<bool>,
}

impl BrickGrid {
    /// The cell vector holds exactly one entry per cell.
    pub open spec fn wf(self) -> bool {
        &&& self.cells@.len() == self.cols * self.rows
        &&& self.cols * self.rows <= usize::MAX
    }

    /// Whether cell `(c, r)` holds a brick; cells outside the grid are empty.
    pub open spec fn cell(self, c: int, r: int) -> bool {
        if 0 <= c < self.cols && 0 <= r < self.rows {
            self.cells@[r * self.cols + c]
        } else {
            false
        }
    }

    /// An empty grid of `cols` x `rows` cells.
    pub fn new(cols: usize, rows: usize) -> (g: Self)
        requires
            cols * rows <= usize::MAX,
        ensures
            g.wf(),
            g.cols == cols,
            g.rows == rows,
            forall|i: int| 0 <= i < g.cells@.len() ==> !#[trigger] g.cells@[i],
    {
        BrickGrid { cols, rows, cells: vec![false; cols * rows] }
    }

    /// A grid of `cols` x `rows` cells, every one holding a brick.
    pub fn filled(cols: usize, rows: usize) -> (g: Self)
        requires
            cols * rows <= usize::MAX,
        ensures
            g.wf(),
            g.cols == cols,
            g.rows == rows,
            forall|i: int| 0 <= i < g.cells@.len() ==> #[trigger] g.cells@[i],
    {
        BrickGrid { cols, rows, cells: vec![true; cols * rows] }
    }

    /// Whether `(col, row)` holds a brick; `false` outside the grid.
    pub fn get(&self, col: usize, row: usize) -> (b: bool)
        requires
            self.wf(),
        ensures
            b == self.cell(col as int, row as int),
    {
        if col < self.cols && row < self.rows {
            proof {
                lemma_cell_index(self.cols as int, self.rows as int, col as int, row as int);
            }
            self.cells[row * self.cols + col]
        } else {
            false
        }
    }

    /// Sets `(col, row)` to `value`; does nothing outside the grid.
    pub fn set(&mut self, col: usize, row: usize, value: bool)
        requires
            old(self).wf(),
        ensures
            final(self).wf(),
            final(self).cols == old(self).cols,
            final(self).rows == old(self).rows,
            final(self).cells@ == (if col < old(self).cols && row < old(self).rows {
                old(self).cells@.update(row * old(self).cols + col, value)
            } else {
                old(self).cells@
            }),
            forall|c: int, r: int|
                #[trigger] final(self).cell(c, r) == (if c == col && r == row && col < old(
                    self,
                ).cols && row < old(self).rows {
                    value
                } else {
                    old(self).cell(c, r)
                }),
    {
        if col < self.cols && row < self.rows {
            proof {
                lemma_cell_index(self.cols as int, self.rows as int, col as int, row as int);
            }
            let idx = row * self.cols + col;
            self.cells.set(idx, value);
            proof {
                assert forall|c: int, r: int|
                    #[trigger] self.cell(c, r) == (if c == col && r == row {
                        value
                    } else {
                        old(self).cell(c, r)
                    }) by {
                    if 0 <= c < self.cols && 0 <= r < self.rows {
                        lemma_cell_index(self.cols as int, self.rows as int, c, r);
                    }
                }
            }
        }
    }

    /// Number of cells that hold a brick.
    pub fn count_filled(&self) -> (n: usize)
        ensures
            n == count_true(self.cells@),
    {
        let mut n: usize = 0;
        let mut i: usize = 0;
        while i < self.cells.len()
            invariant
                0 <= i <= self.cells@.len(),
                n == count_true(self.cells@.take(i as int)),
                n <= i,
            decreases self.cells@.len() - i,
        {
            assert(self.cells@.take(i + 1).drop_last() =~= self.cells@.take(i as int));
            if self.cells[i] {
                n = n + 1;
            }
            i = i + 1;
        }
        assert(self.cells@.take(self.cells@.len() as int) =~= self.cells@);
        n
    }

    /// Copies the top half onto the bottom half, reflected across the middle
    /// row; with an odd row count the middle row is kept.
    pub fn mirror_horizontal(&mut self)
        requires
            old(self).wf(),
        ensures
            final(self).wf(),
            final(self).cols == old(self).cols,
            final(self).rows == old(self).rows,
            forall|c: int, r: int|
                #[trigger] final(self).cell(c, r) == old(self).cell(
                    c,
                    mirror_src(r, old(self).rows as int),
                ),
            forall|c: int, r: int|
                0 <= r < final(self).rows ==> #[trigger] final(self).cell(c, r) == final(self).cell(
                    c,
                    final(self).rows - 1 - r,
                ),
            (forall|c: int, r: int|
                0 <= r < old(self).rows ==> #[trigger] old(self).cell(c, r) == old(self).cell(
                    c,
                    old(self).rows - 1 - r,
                )) ==> forall|c: int, r: int| #[trigger]
                final(self).cell(c, r) == old(self).cell(c, r),
    {
        let half = self.rows / 2;
        let ghost g0 = *self;
        let mut row: usize = 0;
        while row < half
            invariant
                self.wf(),
                self.cols == g0.cols,
                self.rows == g0.rows,
                half == g0.rows / 2,
                0 <= row <= half,
                forall|c: int, r: int|
                    #[trigger] self.cell(c, r) == (if g0.rows - row <= r < g0.rows {
                        g0.cell(c, g0.rows - 1 - r)
                    } else {
                        g0.cell(c, r)
                    }),
            decreases half - row,
        {
            let mirror_row = self.rows - 1 - row;
            let mut col: usize = 0;
            while col < self.cols
                invariant
                    self.wf(),
                    self.cols == g0.cols,
                    self.rows == g0.rows,
                    half == g0.rows / 2,
                    0 <= row < half,
                    mirror_row == g0.rows - 1 - row,
                    0 <= col <= self.cols,
                    forall|c: int, r: int|
                        #[trigger] self.cell(c, r) == (if g0.rows - row <= r < g0.rows || (r
                            == mirror_row && c < col) {
                            g0.cell(c, g0.rows - 1 - r)
                        } else {
                            g0.cell(c, r)
                        }),
                decreases self.cols - col,
            {
                let val = self.get(col, row);
                self.set(col, mirror_row, val);
                col = col + 1;
            }
            row = row + 1;
        }
        proof {
            assert forall|c: int, r: int|
                0 <= r < self.rows implies #[trigger] self.cell(c, r) == self.cell(
                    c,
                    self.rows - 1 - r,
                ) by {
                lemma_mirror_src(r, self.rows as int);
            }
            if forall|c: int, r: int|
                0 <= r < g0.rows ==> #[trigger] g0.cell(c, r) == g0.cell(c, g0.rows - 1 - r) {
                assert forall|c: int, r: int| #[trigger] self.cell(c, r) == g0.cell(c, r) by {
                    if 0 <= r < g0.rows && r >= g0.rows - g0.rows / 2 {
                        assert(g0.cell(c, r) == g0.cell(c, g0.rows - 1 - r));
                    }
                }
            }
        }
    }

    /// Copies the left half onto the right half, reflected across the middle
    /// column; with an odd column count the middle column is kept.
    pub fn mirror_vertical(&mut self)
        requires
            old(self).wf(),
        ensures
            final(self).wf(),
            final(self).cols == old(self).cols,
            final(self).rows == old(self).rows,
            forall|c: int, r: int|
                #[trigger] final(self).cell(c, r) == old(self).cell(
                    mirror_src(c, old(self).cols as int),
                    r,
                ),
            forall|c: int, r: int|
                0 <= c < final(self).cols ==> #[trigger] final(self).cell(c, r) == final(self).cell(
                    final(self).cols - 1 - c,
                    r,
                ),
            (forall|c: int, r: int|
                0 <= c < old(self).cols ==> #[trigger] old(self).cell(c, r) == old(self).cell(
                    old(self).cols - 1 - c,
                    r,
                )) ==> forall|c: int, r: int| #[trigger]
                final(self).cell(c, r) == old(self).cell(c, r),
    {
        let half = self.cols / 2;
        let ghost g0 = *self;
        let mut row: usize = 0;
        while row < self.rows
            invariant
                self.wf(),
                self.cols == g0.cols,
                self.rows == g0.rows,
                half == g0.cols / 2,
                0 <= row <= self.rows,
                forall|c: int, r: int|
                    #[trigger] self.cell(c, r) == (if r < row && g0.cols - half <= c < g0.cols {
                        g0.cell(g0.cols - 1 - c, r)
                    } else {
                        g0.cell(c, r)
                    }),
            decreases self.rows - row,
        {
            let mut col: usize = 0;
            while col < half
                invariant
                    self.wf(),
                    self.cols == g0.cols,
                    self.rows == g0.rows,
                    half == g0.cols / 2,
                    0 <= row < self.rows,
                    0 <= col <= half,
                    forall|c: int, r: int|
                        #[trigger] self.cell(c, r) == (if (r < row && g0.cols - half <= c
                            < g0.cols) || (r == row && g0.cols - col <= c < g0.cols) {
                            g0.cell(g0.cols - 1 - c, r)
                        } else {
                            g0.cell(c, r)
                        }),
                decreases half - col,
            {
                let mirror_col = self.cols - 1 - col;
                let val = self.get(col, row);
                self.set(mirror_col, row, val);
                col = col + 1;
            }
            row = row + 1;
        }
        proof {
            assert forall|c: int, r: int|
                0 <= c < self.cols implies #[trigger] self.cell(c, r) == self.cell(
                    self.cols - 1 - c,
                    r,
                ) by {
                lemma_mirror_src(c, self.cols as int);
            }
            if forall|c: int, r: int|
                0 <= c < g0.cols ==> #[trigger] g0.cell(c, r) == g0.cell(g0.cols - 1 - c, r) {
                assert forall|c: int, r: int| #[trigger] self.cell(c, r) == g0.cell(c, r) by {
                    if 0 <= c < g0.cols && c >= g0.cols - g0.cols / 2 {
                        assert(g0.cell(c, r) == g0.cell(g0.cols - 1 - c, r));
                    }
                }
            }
        }
    }

    /// Mirrors top onto bottom, then left onto right.
    pub fn mirror_both(&mut self)
        requires
            old(self).wf(),
        ensures
            final(self).wf(),
            final(self).cols == old(self).cols,
            final(self).rows == old(self).rows,
            forall|c: int, r: int|
                #[trigger] final(self).cell(c, r) == old(self).cell(
                    mirror_src(c, old(self).cols as int),
                    mirror_src(r, old(self).rows as int),
                ),
            forall|c: int, r: int|
                0 <= r < final(self).rows ==> #[trigger] final(self).cell(c, r) == final(self).cell(
                    c,
                    final(self).rows - 1 - r,
                ),
            forall|c: int, r: int|
                0 <= c < final(self).cols ==> #[trigger] final(self).cell(c, r) == final(self).cell(
                    final(self).cols - 1 - c,
                    r,
                ),
    {
        self.mirror_horizontal();
        self.mirror_vertical();
        proof {
            assert forall|c: int, r: int|
                0 <= r < self.rows implies #[trigger] self.cell(c, r) == self.cell(
                    c,
                    self.rows - 1 - r,
                ) by {
                lemma_mirror_src(r, self.rows as int);
            }
        }
    }
}

} // verus!
