//! Free-runway measurements around bricks, used to decide which bricks may
//! move and how far.
use vstd::prelude::*;
use crate::level::data::{BrickData, SpecialType};
use crate::random::{chacha8_shuffle, chacha8_shuffle_draw};
use rand_chacha::ChaCha8Rng;

verus! {

/// Some brick of `bricks` sits at `(c, r)`.
pub open spec fn occupied(bricks: Seq<BrickData>, c: int, r: int) -> bool {
    exists|j: int| 0 <= j < bricks.len() && #[trigger] bricks[j].col == c && bricks[j].row == r
}

/// Largest column among the bricks of `s` (0 for none).
pub open spec fn col_max(s: Seq<BrickData>) -> nat
    decreases s.len(),
{
    if s.len() == 0 {
        0
    } else {
        let m = col_max(s.drop_last());
        if s.len() > 1 && m >= s.last().col { m } else { s.last().col as nat }
    }
}

/// Largest row among the bricks of `s` (0 for none).
pub open spec fn row_max(s: Seq<BrickData>) -> nat
    decreases s.len(),
{
    if s.len() == 0 {
        0
    } else {
        let m = row_max(s.drop_last());
        if s.len() > 1 && m >= s.last().row { m } else { s.last().row as nat }
    }
}

/// Largest column of any brick, or `default` when there is none.
pub open spec fn max_col(bricks: Seq<BrickData>, default: nat) -> nat {
    if bricks.len() == 0 { default } else { col_max(bricks) }
}

/// Largest row of any brick, or `default` when there is none.
pub open spec fn max_row(bricks: Seq<BrickData>, default: nat) -> nat {
    if bricks.len() == 0 { default } else { row_max(bricks) }
}

/// Empty cells directly left of column `c` on row `r`, up to the first brick
/// or the left edge.
pub open spec fn run_left(bricks: Seq<BrickData>, c: int, r: int) -> nat
    decreases c,
{
    if c <= 0 {
        0
    } else if occupied(bricks, c - 1, r) {
        0
    } else {
        1 + run_left(bricks, c - 1, r)
    }
}

/// Empty cells directly right of column `c` on row `r`, up to the first brick
/// or column `cap`.
pub open spec fn run_right(bricks: Seq<BrickData>, c: int, r: int, cap: int) -> nat
    decreases cap - c,
{
    if c + 1 > cap {
        0
    } else if occupied(bricks, c + 1, r) {
        0
    } else {
        1 + run_right(bricks, c + 1, r, cap)
    }
}

/// Empty cells directly above row `r` in column `c`, up to the first brick or
/// the top edge.
pub open spec fn run_up(bricks: Seq<BrickData>, c: int, r: int) -> nat
    decreases r,
{
    if r <= 0 {
        0
    } else if occupied(bricks, c, r - 1) {
        0
    } else {
        1 + run_up(bricks, c, r - 1)
    }
}

/// Empty cells directly below row `r` in column `c`, up to the first brick or
/// row `cap`.
pub open spec fn run_down(bricks: Seq<BrickData>, c: int, r: int, cap: int) -> nat
    decreases cap - r,
{
    if r + 1 > cap {
        0
    } else if occupied(bricks, c, r + 1) {
        0
    } else {
        1 + run_down(bricks, c, r + 1, cap)
    }
}

/// The longest runway reported on the open side: 21 cells.
pub open spec fn runway_limit() -> nat {
    21
}

pub open spec fn capped_run(n: nat) -> nat {
    if n > runway_limit() { runway_limit() } else { n }
}

/// `free_run_cells(bricks, col, row)`: the empty cells left of `col` (to the
/// edge or a brick), and right of it (to a brick, at most four columns past
/// the rightmost brick, and at most 21).
pub open spec fn free_run(bricks: Seq<BrickData>, col: int, row: int) -> (nat, nat) {
    (
        run_left(bricks, col, row),
        capped_run(run_right(bricks, col, row, (max_col(bricks, col as nat) + 4) as int)),
    )
}

/// `free_vertical_cells(bricks, col, row)`: the empty cells above `row` and
/// below it (to a brick, at most four rows past the lowest brick, at most 21).
pub open spec fn free_vertical(bricks: Seq<BrickData>, col: int, row: int) -> (nat, nat) {
    (
        run_up(bricks, col, row),
        capped_run(run_down(bricks, col, row, (max_row(bricks, row as nat) + 4) as int)),
    )
}

/// The scans of `free_run_cells` stay inside `usize`.
pub open spec fn free_run_fits(bricks: Seq<BrickData>, col: int) -> bool {
    col < usize::MAX && max_col(bricks, col as nat) + 5 <= usize::MAX
}

/// The scans of `free_vertical_cells` stay inside `usize`.
pub open spec fn free_vertical_fits(bricks: Seq<BrickData>, row: int) -> bool {
    row < usize::MAX && max_row(bricks, row as nat) + 5 <= usize::MAX
}

pub(crate) fn occupied_at(bricks: &[BrickData], c: usize, r: usize) -> (b: bool)
    ensures
        b == occupied(bricks@, c as int, r as int),
{
    let mut j: usize = 0;
    while j < bricks.len()
        invariant
            0 <= j <= bricks@.len(),
            forall|k: int| 0 <= k < j ==> !(#[trigger] bricks@[k].col == c && bricks@[k].row == r),
        decreases bricks@.len() - j,
    {
        if bricks[j].col == c && bricks[j].row == r {
            return true;
        }
        j = j + 1;
    }
    false
}

fn max_col_of(bricks: &[BrickData], default: usize) -> (m: usize)
    ensures
        m == max_col(bricks@, default as nat),
{
    if bricks.len() == 0 {
        return default;
    }
    let mut m = bricks[0].col;
    let mut j: usize = 1;
    assert(bricks@.take(1).drop_last() =~= Seq::<BrickData>::empty());
    while j < bricks.len()
        invariant
            1 <= j <= bricks@.len(),
            m == col_max(bricks@.take(j as int)),
        decreases bricks@.len() - j,
    {
        assert(bricks@.take(j + 1).drop_last() =~= bricks@.take(j as int));
        if bricks[j].col > m {
            m = bricks[j].col;
        }
        j = j + 1;
    }
    assert(bricks@.take(bricks@.len() as int) =~= bricks@);
    m
}

fn max_row_of(bricks: &[BrickData], default: usize) -> (m: usize)
    ensures
        m == max_row(bricks@, default as nat),
{
    if bricks.len() == 0 {
        return default;
    }
    let mut m = bricks[0].row;
    let mut j: usize = 1;
    assert(bricks@.take(1).drop_last() =~= Seq::<BrickData>::empty());
    while j < bricks.len()
        invariant
            1 <= j <= bricks@.len(),
            m == row_max(bricks@.take(j as int)),
        decreases bricks@.len() - j,
    {
        assert(bricks@.take(j + 1).drop_last() =~= bricks@.take(j as int));
        if bricks[j].row > m {
            m = bricks[j].row;
        }
        j = j + 1;
    }
    assert(bricks@.take(bricks@.len() as int) =~= bricks@);
    m
}

/// Counts consecutive empty cells to the left / right on the same row.
pub fn free_run_cells(bricks: &[BrickData], col: usize, row: usize) -> (run: (usize, usize))
    requires
        free_run_fits(bricks@, col as int),
    ensures
        run.0 == free_run(bricks@, col as int, row as int).0,
        run.1 == free_run(bricks@, col as int, row as int).1,
{
    let mut left = 0usize;
    let mut c = col;
    while c > 0
        invariant_except_break
            left + c == col,
            left + run_left(bricks@, c as int, row as int) == run_left(bricks@, col as int, row as int),
        ensures
            left == run_left(bricks@, col as int, row as int),
        decreases c,
    {
        c -= 1;
        if occupied_at(bricks, c, row) {
            break;
        }
        left += 1;
    }

    let mut right = 0usize;
    c = col;
    let max_c = max_col_of(bricks, col);
    let cap = max_c + 4;
    let ghost total = run_right(bricks@, col as int, row as int, cap as int);
    loop
        invariant_except_break
            c == col + right,
            right <= 20,
            right == 0 || c <= cap,
            right + run_right(bricks@, c as int, row as int, cap as int) == total,
            col < usize::MAX,
            cap + 1 <= usize::MAX,
        ensures
            right == capped_run(total),
        decreases cap + 1 - c,
    {
        let ghost c_prev = c as int;
        c += 1;
        if c > cap {
            break;
        }
        if occupied_at(bricks, c, row) {
            break;
        }
        assert(run_right(bricks@, c_prev, row as int, cap as int) == 1 + run_right(
            bricks@,
            c as int,
            row as int,
            cap as int,
        ));
        right += 1;
        if right > 20 {
            break;
        }
    }
    (left, right)
}

/// Occupied-neighbour flags: whether a brick sits directly left / right of
/// `(col, row)` on its row.
pub fn horizontal_clearance(bricks: &[BrickData], col: usize, row: usize) -> (occ: (bool, bool))
    ensures
        occ.0 == occupied(bricks@, col - 1, row as int),
        occ.1 == occupied(bricks@, col + 1, row as int),
{
    let left = if col > 0 { occupied_at(bricks, col - 1, row) } else { false };
    let right = if col < usize::MAX { occupied_at(bricks, col + 1, row) } else { false };
    (left, right)
}

/// Counts consecutive empty cells above / below on the same column.
pub fn free_vertical_cells(bricks: &[BrickData], col: usize, row: usize) -> (run: (usize, usize))
    requires
        free_vertical_fits(bricks@, row as int),
    ensures
        run.0 == free_vertical(bricks@, col as int, row as int).0,
        run.1 == free_vertical(bricks@, col as int, row as int).1,
{
    let mut up = 0usize;
    let mut r = row;
    while r > 0
        invariant_except_break
            up + r == row,
            up + run_up(bricks@, col as int, r as int) == run_up(bricks@, col as int, row as int),
        ensures
            up == run_up(bricks@, col as int, row as int),
        decreases r,
    {
        r -= 1;
        if occupied_at(bricks, col, r) {
            break;
        }
        up += 1;
    }

    let mut down = 0usize;
    r = row;
    let max_r = max_row_of(bricks, row);
    let cap = max_r + 4;
    let ghost total = run_down(bricks@, col as int, row as int, cap as int);
    loop
        invariant_except_break
            r == row + down,
            down <= 20,
            down == 0 || r <= cap,
            down + run_down(bricks@, col as int, r as int, cap as int) == total,
            row < usize::MAX,
            cap + 1 <= usize::MAX,
        ensures
            down == capped_run(total),
        decreases cap + 1 - r,
    {
        let ghost r_prev = r as int;
        r += 1;
        if r > cap {
            break;
        }
        if occupied_at(bricks, col, r) {
            break;
        }
        assert(run_down(bricks@, col as int, r_prev, cap as int) == 1 + run_down(
            bricks@,
            col as int,
            r as int,
            cap as int,
        ));
        down += 1;
        if down > 20 {
            break;
        }
    }
    (up, down)
}

/// The runway scans around every brick stay inside `usize`.
pub open spec fn runs_fit(bricks: Seq<BrickData>) -> bool {
    forall|j: int| 0 <= j < bricks.len() ==> #[trigger] free_run_fits(bricks, bricks[j].col as int)
}

/// A brick has horizontal runway: an empty cell on at least one side.
pub open spec fn has_runway(bricks: Seq<BrickData>, b: BrickData) -> bool {
    free_run(bricks, b.col as int, b.row as int).0 > 0 || free_run(bricks, b.col as int, b.row as int).1 > 0
}

/// `b` with its special behaviour replaced.
pub open spec fn with_special(b: BrickData, s: SpecialType) -> BrickData {
    BrickData { special: s, ..b }
}

/// Two brick lists with the same positions, index by index.
pub open spec fn same_positions(a: Seq<BrickData>, b: Seq<BrickData>) -> bool {
    a.len() == b.len() && forall|i: int|
        0 <= i < a.len() ==> #[trigger] a[i].col == b[i].col && a[i].row == b[i].row
}

proof fn lemma_same_positions_occupied(a: Seq<BrickData>, b: Seq<BrickData>, c: int, r: int)
    requires
        same_positions(a, b),
    ensures
        occupied(a, c, r) == occupied(b, c, r),
{
    if occupied(a, c, r) {
        let j = choose|j: int| 0 <= j < a.len() && #[trigger] a[j].col == c && a[j].row == r;
        assert(b[j].col == c && b[j].row == r);
    }
    if occupied(b, c, r) {
        let j = choose|j: int| 0 <= j < b.len() && #[trigger] b[j].col == c && b[j].row == r;
        assert(a[j].col == b[j].col && a[j].row == b[j].row);
        assert(a[j].col == c && a[j].row == r);
    }
}

proof fn lemma_same_positions_col_max(a: Seq<BrickData>, b: Seq<BrickData>)
    requires
        same_positions(a, b),
    ensures
        col_max(a) == col_max(b),
    decreases a.len(),
{
    if a.len() > 0 {
        lemma_same_positions_col_max(a.drop_last(), b.drop_last());
    }
}

proof fn lemma_same_positions_run_left(a: Seq<BrickData>, b: Seq<BrickData>, c: int, r: int)
    requires
        same_positions(a, b),
    ensures
        run_left(a, c, r) == run_left(b, c, r),
    decreases c,
{
    if c > 0 {
        lemma_same_positions_occupied(a, b, c - 1, r);
        lemma_same_positions_run_left(a, b, c - 1, r);
    }
}

proof fn lemma_same_positions_run_right(a: Seq<BrickData>, b: Seq<BrickData>, c: int, r: int, cap: int)
    requires
        same_positions(a, b),
    ensures
        run_right(a, c, r, cap) == run_right(b, c, r, cap),
    decreases cap - c,
{
    if c + 1 <= cap {
        lemma_same_positions_occupied(a, b, c + 1, r);
        lemma_same_positions_run_right(a, b, c + 1, r, cap);
    }
}

/// Runway depends on brick positions only.
pub proof fn lemma_same_positions_free_run(a: Seq<BrickData>, b: Seq<BrickData>, c: int, r: int)
    requires
        same_positions(a, b),
    ensures
        free_run(a, c, r) == free_run(b, c, r),
{
    lemma_same_positions_col_max(a, b);
    lemma_same_positions_run_left(a, b, c, r);
    lemma_same_positions_run_right(a, b, c, r, (max_col(a, c as nat) + 4) as int);
}

/// Moving bricks without any horizontal runway become static.
pub open spec fn sanitized(bricks: Seq<BrickData>) -> Seq<BrickData> {
    Seq::new(
        bricks.len(),
        |i: int|
            if bricks[i].special == SpecialType::Moving && !has_runway(bricks, bricks[i]) {
                with_special(bricks[i], SpecialType::Plain)
            } else {
                bricks[i]
            },
    )
}

/// Every brick's column is at most the largest column.
proof fn lemma_col_max_bound(s: Seq<BrickData>, j: int)
    requires
        0 <= j < s.len(),
    ensures
        s[j].col <= col_max(s),
    decreases s.len(),
{
    if j < s.len() - 1 {
        lemma_col_max_bound(s.drop_last(), j);
        assert(s.drop_last()[j] == s[j]);
    }
}

/// The cell left of `(c, r)` is blocked: it is off the grid or holds a brick.
pub open spec fn blocked_left(bricks: Seq<BrickData>, c: int, r: int) -> bool {
    c == 0 || exists|j: int| 0 <= j < bricks.len() && bricks[j].col + 1 == c && #[trigger] bricks[j].row == r
}

/// The cell right of `(c, r)` holds a brick.
pub open spec fn blocked_right(bricks: Seq<BrickData>, c: int, r: int) -> bool {
    exists|j: int| 0 <= j < bricks.len() && bricks[j].col == c + 1 && #[trigger] bricks[j].row == r
}

/// Sanitizing demotes a moving brick to a static one exactly when both cells
/// beside it on its row are blocked (a brick, or the left edge); a mover with
/// a free cell on either side stays a mover, and every other brick, and every
/// other field, is left as it is.
pub proof fn lemma_sanitize_demotes_only_boxed_in(s: Seq<BrickData>)
    ensures
        sanitized(s).len() == s.len(),
        forall|i: int| 0 <= i < s.len() ==> #[trigger] sanitized(s)[i] == (if s[i].special == SpecialType::Moving
            && blocked_left(s, s[i].col as int, s[i].row as int) && blocked_right(s, s[i].col as int, s[i].row as int) {
            BrickData { special: SpecialType::Plain, ..s[i] }
        } else {
            s[i]
        }),
{
    assert forall|i: int| 0 <= i < s.len() implies #[trigger] sanitized(s)[i] == (if s[i].special == SpecialType::Moving
        && blocked_left(s, s[i].col as int, s[i].row as int) && blocked_right(s, s[i].col as int, s[i].row as int) {
        BrickData { special: SpecialType::Plain, ..s[i] }
    } else {
        s[i]
    }) by {
        let c = s[i].col as int;
        let r = s[i].row as int;
        lemma_col_max_bound(s, i);
        let cap = (max_col(s, c as nat) + 4) as int;
        assert(c + 1 <= cap);
        assert(run_left(s, c, r) > 0 <==> !blocked_left(s, c, r)) by {
            if c > 0 {
                assert(occupied(s, c - 1, r) <==> blocked_left(s, c, r)) by {
                    if occupied(s, c - 1, r) {
                        let j = choose|j: int| 0 <= j < s.len() && #[trigger] s[j].col == c - 1 && s[j].row == r;
                        assert(s[j].col + 1 == c && s[j].row == r);
                    }
                    if blocked_left(s, c, r) {
                        let j = choose|j: int| 0 <= j < s.len() && s[j].col + 1 == c && #[trigger] s[j].row == r;
                        assert(s[j].col == c - 1);
                    }
                }
            }
        }
        assert(run_right(s, c, r, cap) > 0 <==> !blocked_right(s, c, r)) by {
            assert(occupied(s, c + 1, r) <==> blocked_right(s, c, r)) by {
                if blocked_right(s, c, r) {
                    let j = choose|j: int| 0 <= j < s.len() && s[j].col == c + 1 && #[trigger] s[j].row == r;
                    assert(s[j].col == c + 1);
                }
            }
        }
        assert(has_runway(s, s[i]) <==> !(blocked_left(s, c, r) && blocked_right(s, c, r)));
    }
}

/// Movers only where there is open runway: a moving brick with no empty cell
/// beside it on its row becomes static.
pub fn sanitize_movers(bricks: &mut Vec<BrickData>)
    requires
        runs_fit(old(bricks)@),
    ensures
        final(bricks)@ == sanitized(old(bricks)@),
        forall|i: int|
            0 <= i < final(bricks)@.len() && #[trigger] final(bricks)@[i].special == SpecialType::Moving
                ==> has_runway(final(bricks)@, final(bricks)@[i]),
{
    let snapshot = bricks.clone();
    let ghost s = bricks@;
    assert(snapshot@ =~= s);
    let mut i: usize = 0;
    while i < bricks.len()
        invariant
            snapshot@ == s,
            runs_fit(s),
            bricks@.len() == s.len(),
            0 <= i <= s.len(),
            forall|j: int| 0 <= j < i ==> #[trigger] bricks@[j] == sanitized(s)[j],
            forall|j: int| i <= j < s.len() ==> #[trigger] bricks@[j] == s[j],
        decreases s.len() - i,
    {
        let b = bricks[i];
        if b.special == SpecialType::Moving {
            assert(free_run_fits(s, s[i as int].col as int));
            let (left, right) = free_run_cells(snapshot.as_slice(), b.col, b.row);
            if left == 0 && right == 0 {
                let mut nb = b;
                nb.special = SpecialType::Plain;
                bricks.set(i, nb);
            }
        }
        i = i + 1;
    }
    assert(bricks@ =~= sanitized(s));
    proof {
        assert(same_positions(s, bricks@));
        assert forall|i: int|
            0 <= i < bricks@.len() && #[trigger] bricks@[i].special == SpecialType::Moving
                implies has_runway(bricks@, bricks@[i]) by {
            lemma_same_positions_free_run(s, bricks@, s[i].col as int, s[i].row as int);
        }
    }
}

/// A brick that may be promoted to a mover: static, breakable, with runway.
pub open spec fn promotable(bricks: Seq<BrickData>, i: int) -> bool {
    bricks[i].special == SpecialType::Plain && bricks[i].destructible() && has_runway(bricks, bricks[i])
}

/// Indices of the promotable bricks.
pub open spec fn promotable_set(bricks: Seq<BrickData>) -> Set<usize> {
    Set::new(|i: usize| i < bricks.len() && promotable(bricks, i as int))
}

/// The indices below `i` of the promotable bricks, in order.
pub open spec fn promotable_indices(bricks: Seq<BrickData>, i: int) -> Seq<usize>
    decreases i,
{
    if i <= 0 {
        Seq::empty()
    } else if promotable(bricks, i - 1) {
        promotable_indices(bricks, i - 1).push((i - 1) as usize)
    } else {
        promotable_indices(bricks, i - 1)
    }
}

/// The indices that shuffling `candidates` with a generator in state `rng`
/// puts first, `need` of them (or all, if fewer).
pub open spec fn shuffled_pick(candidates: Seq<usize>, need: usize, rng: ChaCha8Rng) -> Set<usize> {
    chacha8_shuffle_draw(candidates, rng).0.take(if need < candidates.len() { need as int } else { candidates.len() as int }).to_set()
}

/// `new` is `old` with exactly the bricks at the indices of `chosen` made
/// movers.
pub open spec fn promoted(old: Seq<BrickData>, chosen: Set<usize>, new: Seq<BrickData>) -> bool {
    &&& new.len() == old.len()
    &&& forall|i: int|
        0 <= i < old.len() ==> #[trigger] new[i] == (if chosen.contains(i as usize) {
            with_special(old[i], SpecialType::Moving)
        } else {
            old[i]
        })
}

/// Turns `need` promotable bricks (or all of them, if fewer) into movers,
/// chosen by shuffling the candidates with `rng`.
pub fn promote_moving_bricks(bricks: &mut Vec<BrickData>, need: usize, rng: &mut ChaCha8Rng)
    requires
        runs_fit(old(bricks)@),
    ensures
        exists|chosen: Set<usize>|
            #![trigger promoted(old(bricks)@, chosen, final(bricks)@)]
            chosen.subset_of(promotable_set(old(bricks)@)) && chosen.finite() && chosen.len() == (if need
                < promotable_set(old(bricks)@).len() {
                need as nat
            } else {
                promotable_set(old(bricks)@).len()
            }) && promoted(old(bricks)@, chosen, final(bricks)@),
        promoted(old(bricks)@, shuffled_pick(promotable_indices(old(bricks)@, old(bricks)@.len() as int), need, *old(rng)), final(bricks)@),
        *final(rng) == chacha8_shuffle_draw(promotable_indices(old(bricks)@, old(bricks)@.len() as int), *old(rng)).1,
{
    let ghost s = bricks@;
    let mut candidates: Vec<usize> = Vec::new();
    let mut i: usize = 0;
    while i < bricks.len()
        invariant
            bricks@ == s,
            runs_fit(s),
            0 <= i <= s.len(),
            forall|t: int| 0 <= t < candidates@.len() ==> #[trigger] candidates@[t] < i && promotable(s, candidates@[t] as int),
            forall|t1: int, t2: int| 0 <= t1 < t2 < candidates@.len() ==> candidates@[t1] < candidates@[t2],
            forall|k: int| 0 <= k < i && promotable(s, k) ==> #[trigger] candidates@.contains(k as usize),
            candidates@ == promotable_indices(s, i as int),
        decreases s.len() - i,
    {
        let b = bricks[i];
        let mut ok = b.special == SpecialType::Plain && b.is_destructible();
        if ok {
            assert(free_run_fits(s, s[i as int].col as int));
            let (left, right) = free_run_cells(bricks.as_slice(), b.col, b.row);
            ok = left >= 1 || right >= 1;
        }
        let ghost before = candidates@;
        if ok {
            candidates.push(i);
            assert(candidates@[candidates@.len() - 1] == i);
        }
        proof {
            assert forall|k: int| 0 <= k < i + 1 && promotable(s, k) implies #[trigger] candidates@.contains(k as usize) by {
                if k < i {
                    assert(before.contains(k as usize));
                    let t = choose|t: int| 0 <= t < before.len() && before[t] == k as usize;
                    assert(candidates@[t] == k as usize);
                } else {
                    assert(candidates@[candidates@.len() - 1] == k as usize);
                }
            }
        }
        i = i + 1;
    }
    let ghost cands = candidates@;
    proof {
        assert(cands.no_duplicates());
        cands.unique_seq_to_set();
        assert(cands.to_set() =~= promotable_set(s)) by {
            assert forall|k: usize| promotable_set(s).contains(k) implies #[trigger] cands.to_set().contains(k) by {
                assert(promotable(s, k as int));
                assert(cands.contains((k as int) as usize));
            }
        }
    }
    make_moving(bricks, candidates, need, rng);
}

/// Turns `need` of the bricks at indices `candidates` (or all of them, if
/// fewer) into movers, chosen by shuffling the candidates with `rng`.
pub(crate) fn make_moving(bricks: &mut Vec<BrickData>, candidates: Vec<usize>, need: usize, rng: &mut ChaCha8Rng)
    requires
        forall|t: int| 0 <= t < candidates@.len() ==> #[trigger] candidates@[t] < old(bricks)@.len(),
        forall|t1: int, t2: int| 0 <= t1 < t2 < candidates@.len() ==> candidates@[t1] < candidates@[t2],
    ensures
        exists|chosen: Set<usize>|
            #![trigger promoted(old(bricks)@, chosen, final(bricks)@)]
            chosen.subset_of(candidates@.to_set()) && chosen.finite() && chosen.len() == (if need
                < candidates@.len() {
                need as nat
            } else {
                candidates@.len()
            }) && promoted(old(bricks)@, chosen, final(bricks)@),
        promoted(old(bricks)@, shuffled_pick(candidates@, need, *old(rng)), final(bricks)@),
        *final(rng) == chacha8_shuffle_draw(candidates@, *old(rng)).1,
{
    let mut candidates = candidates;
    let ghost s = bricks@;
    let ghost cands = candidates@;
    proof {
        assert(cands.no_duplicates());
        cands.lemma_multiset_has_no_duplicates();
    }
    chacha8_shuffle(&mut candidates, rng);
    let ghost order = candidates@;
    let take = if need < candidates.len() { need } else { candidates.len() };
    proof {
        assert forall|x: usize| order.to_multiset().contains(x) implies order.to_multiset().count(x) == 1 by {}
        order.lemma_multiset_has_no_duplicates_conv();
        assert forall|u: int| 0 <= u < order.len() implies #[trigger] cands.contains(order[u]) by {
            vstd::seq_lib::to_multiset_contains(order, order[u]);
            vstd::seq_lib::to_multiset_contains(cands, order[u]);
            assert(order.contains(order[u]));
        }
    }
    let total_bricks = bricks.len();
    let mut t: usize = 0;
    while t < take
        invariant
            candidates@ == order,
            s.len() == total_bricks,
            bricks@.len() == s.len(),
            0 <= t <= take <= order.len(),
            forall|u: int| 0 <= u < order.len() ==> #[trigger] cands.contains(order[u]),
            forall|u: int| 0 <= u < cands.len() ==> #[trigger] cands[u] < s.len(),
            forall|k: int|
                0 <= k < s.len() ==> #[trigger] bricks@[k] == (if order.take(t as int).contains(k as usize) {
                    with_special(s[k], SpecialType::Moving)
                } else {
                    s[k]
                }),
        decreases take - t,
    {
        let idx = candidates[t];
        assert(cands.contains(order[t as int]));
        let mut b = bricks[idx];
        b.special = SpecialType::Moving;
        bricks.set(idx, b);
        proof {
            let ghost prev_take = order.take(t as int);
            let ghost next_take = order.take(t + 1);
            assert(next_take =~= prev_take.push(idx));
            assert forall|k: int| 0 <= k < s.len() implies #[trigger] bricks@[k] == (if order.take(t + 1).contains(k as usize) {
                with_special(s[k], SpecialType::Moving)
            } else {
                s[k]
            }) by {
                if k == idx as int {
                    assert(next_take[t as int] == idx);
                } else {
                    assert(next_take.contains(k as usize) == prev_take.contains(k as usize)) by {
                        if next_take.contains(k as usize) {
                            let u = choose|u: int| 0 <= u < next_take.len() && #[trigger] next_take[u] == k as usize;
                            assert(next_take[t as int] == idx);
                            assert(u < t);
                            assert(prev_take[u] == k as usize);
                        }
                        if prev_take.contains(k as usize) {
                            let u = choose|u: int| 0 <= u < prev_take.len() && #[trigger] prev_take[u] == k as usize;
                            assert(next_take[u] == k as usize);
                        }
                    }
                }
            }
        }
        t = t + 1;
    }
    proof {
        let chosen = order.take(take as int).to_set();
        let picked = order.take(take as int);
        assert(picked.no_duplicates());
        picked.unique_seq_to_set();
        assert(chosen.subset_of(cands.to_set())) by {
            assert forall|k: usize| chosen.contains(k) implies cands.to_set().contains(k) by {
                let u = choose|u: int| 0 <= u < picked.len() && picked[u] == k;
                assert(order[u] == k);
                assert(cands.contains(k));
            }
        }
        assert(promoted(s, chosen, bricks@));
        assert(chosen == shuffled_pick(cands, need, *old(rng)));
    }
}

} // verus!
