//! The mathematical model of a Sudoku grid.
//!
//! A grid is a row-major sequence of 81 cells; each cell is either empty or
//! holds a digit. All contracts of the library are stated over this model.

use vstd::prelude::*;

verus! {

/// The model of a board: 81 cells in row-major order.
pub type Grid = Seq<Option<u8>>;

/// The cell of `g` at row `r`, column `c` (row-major layout).
pub open spec fn cell(g: Grid, r: int, c: int) -> Option<u8> {
    g[r * 9 + c]
}

/// The grid has exactly 81 cells and every filled cell holds a digit 1 through 9.
pub open spec fn grid_wf(g: Grid) -> bool {
    &&& g.len() == 81
    &&& forall|r: int, c: int|
        0 <= r < 9 && 0 <= c < 9 && #[trigger] cell(g, r, c) is Some ==> 1 <= cell(g, r, c)->0
            <= 9
}

/// The grid with the cell at (`r`, `c`) replaced by `x`.
pub open spec fn set_cell(g: Grid, r: int, c: int, x: Option<u8>) -> Grid {
    g.update(r * 9 + c, x)
}

/// Row `r` holds the digit `v` in some column.
pub open spec fn row_has(g: Grid, r: int, v: u8) -> bool {
    exists|c: int| 0 <= c < 9 && #[trigger] cell(g, r, c) == Some(v)
}

/// Column `c` holds the digit `v` in some row.
pub open spec fn col_has(g: Grid, c: int, v: u8) -> bool {
    exists|r: int| 0 <= r < 9 && #[trigger] cell(g, r, c) == Some(v)
}

/// Cage (`cr`, `cc`) — the 3x3 block covering rows [3*cr, 3*cr+3) and columns
/// [3*cc, 3*cc+3) — holds the digit `v` in some cell.
pub open spec fn cage_has(g: Grid, cr: int, cc: int, v: u8) -> bool {
    exists|r: int, c: int|
        0 <= r < 9 && 0 <= c < 9 && r / 3 == cr && c / 3 == cc && #[trigger] cell(g, r, c)
            == Some(v)
}

/// No two distinct cells of row `r` hold the same digit.
pub open spec fn row_dup_free(g: Grid, r: int) -> bool {
    forall|c1: int, c2: int|
        0 <= c1 < 9 && 0 <= c2 < 9 && c1 != c2 && #[trigger] cell(g, r, c1) is Some ==> cell(
            g,
            r,
            c1,
        ) != #[trigger] cell(g, r, c2)
}

/// No two distinct cells of column `c` hold the same digit.
pub open spec fn col_dup_free(g: Grid, c: int) -> bool {
    forall|r1: int, r2: int|
        0 <= r1 < 9 && 0 <= r2 < 9 && r1 != r2 && #[trigger] cell(g, r1, c) is Some ==> cell(
            g,
            r1,
            c,
        ) != #[trigger] cell(g, r2, c)
}

/// No two distinct cells of cage (`cr`, `cc`) hold the same digit.
pub open spec fn cage_dup_free(g: Grid, cr: int, cc: int) -> bool {
    forall|r1: int, c1: int, r2: int, c2: int|
        0 <= r1 < 9 && 0 <= c1 < 9 && 0 <= r2 < 9 && 0 <= c2 < 9 && r1 / 3 == cr && c1 / 3 == cc
            && r2 / 3 == cr && c2 / 3 == cc && (r1 != r2 || c1 != c2) && #[trigger] cell(g, r1, c1)
            is Some ==> cell(g, r1, c1) != #[trigger] cell(g, r2, c2)
}

/// Every row of row `r` is filled.
pub open spec fn row_complete(g: Grid, r: int) -> bool {
    forall|c: int| 0 <= c < 9 ==> #[trigger] cell(g, r, c) is Some
}

/// Every cell of column `c` is filled.
pub open spec fn col_complete(g: Grid, c: int) -> bool {
    forall|r: int| 0 <= r < 9 ==> #[trigger] cell(g, r, c) is Some
}

/// Every cell of cage (`cr`, `cc`) is filled.
pub open spec fn cage_complete(g: Grid, cr: int, cc: int) -> bool {
    forall|r: int, c: int|
        0 <= r < 9 && 0 <= c < 9 && r / 3 == cr && c / 3 == cc ==> #[trigger] cell(g, r, c) is Some
}

/// Every cell of the grid is filled.
pub open spec fn complete(g: Grid) -> bool {
    forall|r: int, c: int| 0 <= r < 9 && 0 <= c < 9 ==> #[trigger] cell(g, r, c) is Some
}

/// No row, column, or cage holds a digit twice.
pub open spec fn consistent(g: Grid) -> bool {
    &&& forall|r: int| 0 <= r < 9 ==> #[trigger] row_dup_free(g, r)
    &&& forall|c: int| 0 <= c < 9 ==> #[trigger] col_dup_free(g, c)
    &&& forall|cr: int, cc: int| 0 <= cr < 3 && 0 <= cc < 3 ==> #[trigger] cage_dup_free(g, cr, cc)
}

/// `g2` keeps every filled cell of `g1` unchanged.
pub open spec fn extends(g1: Grid, g2: Grid) -> bool {
    forall|r: int, c: int|
        0 <= r < 9 && 0 <= c < 9 && #[trigger] cell(g1, r, c) is Some ==> #[trigger] cell(g2, r, c)
            == cell(g1, r, c)
}

/// `s` is a full solution of the puzzle `g`: a well-formed, complete,
/// consistent grid that keeps every pre-filled cell of `g`.
pub open spec fn is_solution(g: Grid, s: Grid) -> bool {
    &&& grid_wf(s)
    &&& complete(s)
    &&& consistent(s)
    &&& extends(g, s)
}

/// The digit `v` may legally be placed at (`r`, `c`): the cell is empty and
/// neither its row, its column, nor its cage holds `v` already.
pub open spec fn can_place(g: Grid, r: int, c: int, v: u8) -> bool {
    &&& cell(g, r, c) is None
    &&& !row_has(g, r, v)
    &&& !col_has(g, c, v)
    &&& !cage_has(g, r / 3, c / 3, v)
}

/// The grids agree on every cell before position `k` (row-major) and at `k`
/// the digit of `a` is smaller than the digit of `b`.
pub open spec fn lex_lt_at(a: Grid, b: Grid, k: int) -> bool {
    &&& 0 <= k < 81
    &&& forall|i: int| #![trigger a[i], b[i]] 0 <= i < k ==> a[i] == b[i]
    &&& a[k]->0 < b[k]->0
}

/// `a` comes strictly before `b` in the row-major lexicographic order of
/// filled grids: at the first cell where they differ, `a` holds the smaller
/// digit.
pub open spec fn lex_lt(a: Grid, b: Grid) -> bool {
    exists|k: int| #[trigger] lex_lt_at(a, b, k)
}

/// The lexicographic order is asymmetric: a grid that comes strictly before
/// another cannot also come strictly after it.
pub proof fn lemma_lex_lt_asymmetric(a: Grid, b: Grid)
    requires
        lex_lt(a, b),
    ensures
        !lex_lt(b, a),
{
    if lex_lt(b, a) {
        let k1 = choose|k: int| lex_lt_at(a, b, k);
        let k2 = choose|k: int| lex_lt_at(b, a, k);
        if k1 == k2 {
            assert(a[k1]->0 < b[k1]->0 && b[k1]->0 < a[k1]->0);
        } else if k1 < k2 {
            assert(b[k1] == a[k1]);
        } else {
            assert(a[k2] == b[k2]);
        }
    }
}

/// The number of empty cells among the first `n` cells of `g`.
pub open spec fn empty_count_to(g: Grid, n: int) -> nat
    decreases n,
{
    if n <= 0 {
        0
    } else {
        empty_count_to(g, n - 1) + (if g[n - 1] is None {
            1nat
        } else {
            0nat
        })
    }
}

/// The number of empty cells of the grid.
pub open spec fn empty_count(g: Grid) -> nat {
    empty_count_to(g, 81)
}

/// Distinct in-bounds coordinates have distinct row-major indices, so a single
/// cell update leaves every other cell unchanged.
pub proof fn lemma_set_cell(g: Grid, r: int, c: int, x: Option<u8>)
    requires
        g.len() == 81,
        0 <= r < 9,
        0 <= c < 9,
    ensures
        set_cell(g, r, c, x).len() == 81,
        cell(set_cell(g, r, c, x), r, c) == x,
        forall|r2: int, c2: int|
            0 <= r2 < 9 && 0 <= c2 < 9 && (r2 != r || c2 != c) ==> #[trigger] cell(
                set_cell(g, r, c, x),
                r2,
                c2,
            ) == cell(g, r2, c2),
{
    assert forall|r2: int, c2: int|
        0 <= r2 < 9 && 0 <= c2 < 9 && (r2 != r || c2 != c) implies #[trigger] cell(
        set_cell(g, r, c, x),
        r2,
        c2,
    ) == cell(g, r2, c2) by {
        assert(r2 * 9 + c2 != r * 9 + c);
    }
}

proof fn lemma_empty_count_to_update(g: Grid, k: int, x: Option<u8>, n: int)
    requires
        0 <= k < g.len(),
        n <= g.len(),
    ensures
        n <= k ==> empty_count_to(g.update(k, x), n) == empty_count_to(g, n),
        k < n ==> empty_count_to(g.update(k, x), n) + (if g[k] is None {
            1nat
        } else {
            0nat
        }) == empty_count_to(g, n) + (if x is None {
            1nat
        } else {
            0nat
        }),
    decreases n,
{
    if n > 0 {
        lemma_empty_count_to_update(g, k, x, n - 1);
    }
}

/// Filling an empty cell strictly lowers the number of empty cells.
pub proof fn lemma_empty_count_fill(g: Grid, r: int, c: int, v: u8)
    requires
        g.len() == 81,
        0 <= r < 9,
        0 <= c < 9,
        cell(g, r, c) is None,
    ensures
        empty_count(set_cell(g, r, c, Some(v))) < empty_count(g),
{
    lemma_empty_count_to_update(g, r * 9 + c, Some(v), 81);
}

} // verus!
