//! The Sudoku board: construction from a sparse entry list, full-board
//! verification, and the legality checks for placing a single digit.

use crate::grid::{
    cage_complete, cage_dup_free, cage_has, can_place, cell, col_complete, col_dup_free, col_has,
    complete, consistent, grid_wf, lemma_set_cell, row_complete, row_dup_free, row_has, set_cell,
    Grid,
};
use vstd::prelude::*;

verus! {

/// The reason a board could not be built: an entry out of range, or a second
/// entry aimed at an already-filled cell.
#[derive(Clone, Copy, PartialEq, Eq, Structural, Debug)]
pub enum InvalidInput {
    /// The entry's coordinates lie outside the grid or its value outside 1..=9.
    OutOfRange { row: usize, col: usize, value: u8 },
    /// The entry targets a cell that an earlier entry already filled.
    DuplicateCell { row: usize, col: usize },
}

/// The all-empty grid.
pub open spec fn empty_grid() -> Grid {
    Seq::new(81, |i: int| None)
}

/// The entry's coordinates lie inside the grid and its value inside 1..=9.
pub open spec fn entry_in_range(e: (usize, usize, u8)) -> bool {
    e.0 < 9 && e.1 < 9 && 1 <= e.2 <= 9
}

/// The grid that results from laying the entries onto `g` in order, or the
/// error raised by the first entry that is out of range or hits a filled cell.
pub open spec fn build(g: Grid, entries: Seq<(usize, usize, u8)>) -> Result<Grid, InvalidInput>
    decreases entries.len(),
{
    if entries.len() == 0 {
        Ok(g)
    } else {
        match build(g, entries.drop_last()) {
            Ok(h) => {
                let e = entries.last();
                if !entry_in_range(e) {
                    Err(InvalidInput::OutOfRange { row: e.0, col: e.1, value: e.2 })
                } else if cell(h, e.0 as int, e.1 as int) is Some {
                    Err(InvalidInput::DuplicateCell { row: e.0, col: e.1 })
                } else {
                    Ok(set_cell(h, e.0 as int, e.1 as int, Some(e.2)))
                }
            },
            Err(err) => Err(err),
        }
    }
}

/// Once a prefix of the entries raises an error, the whole list raises the
/// same error.
proof fn lemma_build_err_stable(g: Grid, entries: Seq<(usize, usize, u8)>, n: int)
    requires
        0 <= n <= entries.len(),
        build(g, entries.take(n)) is Err,
    ensures
        build(g, entries) == build(g, entries.take(n)),
    decreases entries.len() - n,
{
    if n == entries.len() {
        assert(entries.take(n) =~= entries);
    } else {
        assert(entries.take(n + 1).drop_last() =~= entries.take(n));
        lemma_build_err_stable(g, entries, n + 1);
    }
}

/// The value the entry list aims at cell (`r`, `c`): the value of the latest
/// entry with those coordinates, or None when no entry targets the cell.
/// (A list that builds successfully holds at most one entry per cell.)
pub open spec fn assigned_value(entries: Seq<(usize, usize, u8)>, r: int, c: int) -> Option<u8>
    decreases entries.len(),
{
    if entries.len() == 0 {
        None
    } else if entries.last().0 == r && entries.last().1 == c {
        Some(entries.last().2)
    } else {
        assigned_value(entries.drop_last(), r, c)
    }
}

/// A successfully built board holds exactly what its entry list assigned:
/// each targeted cell carries its entry's value, and every other cell is
/// empty.
pub proof fn lemma_built_board_cells(entries: Seq<(usize, usize, u8)>, g: Grid)
    requires
        build(empty_grid(), entries) == Ok::<Grid, InvalidInput>(g),
    ensures
        g.len() == 81,
        forall|r: int, c: int|
            0 <= r < 9 && 0 <= c < 9 ==> #[trigger] cell(g, r, c) == assigned_value(entries, r, c),
    decreases entries.len(),
{
    if entries.len() == 0 {
        assert(g == empty_grid());
        assert forall|r: int, c: int| 0 <= r < 9 && 0 <= c < 9 implies #[trigger] cell(g, r, c)
            == assigned_value(entries, r, c) by {
            assert(0 <= r * 9 + c < 81);
        }
    } else {
        match build(empty_grid(), entries.drop_last()) {
            Ok(h) => {
                lemma_built_board_cells(entries.drop_last(), h);
                let e = entries.last();
                assert(entry_in_range(e));
                lemma_set_cell(h, e.0 as int, e.1 as int, Some(e.2));
                assert(g == set_cell(h, e.0 as int, e.1 as int, Some(e.2)));
            },
            Err(_) => {
                assert(false);
            },
        }
    }
}

/// A 9x9 Sudoku board: 81 cells in row-major order, each empty or holding a
/// digit 1 through 9.
pub struct Sudoku {
    cells: Vec<Option<u8>>,
}

impl View for Sudoku {
    type V = Grid;

    closed spec fn view(&self) -> Grid {
        self.cells@
    }
}

impl Sudoku {
    /// The board is well-formed: its model is a well-formed grid.
    pub open spec fn wf(&self) -> bool {
        grid_wf(self@)
    }

    /// Initialize a board from a list of (row, column, value) entries laid
    /// onto an empty grid in order. Fails on the first entry whose coordinates
    /// or value are out of range, or whose cell an earlier entry already set.
    pub fn new(initial: Vec<(usize, usize, u8)>) -> (result: Result<Self, InvalidInput>)
        ensures
            match result {
                Ok(board) => board.wf() && build(empty_grid(), initial@) == Ok::<
                    Grid,
                    InvalidInput,
                >(board@),
                Err(e) => build(empty_grid(), initial@) == Err::<Grid, InvalidInput>(e),
            },
    {
        let mut cells: Vec<Option<u8>> = Vec::new();
        let mut i: usize = 0;
        while i < 81
            invariant
                i <= 81,
                cells@.len() == i,
                forall|k: int| 0 <= k < i ==> cells@[k] is None,
            decreases 81 - i,
        {
            cells.push(None);
            i = i + 1;
        }
        proof {
            assert(cells@ =~= empty_grid());
        }
        let mut k: usize = 0;
        while k < initial.len()
            invariant
                k <= initial@.len(),
                grid_wf(cells@),
                build(empty_grid(), initial@.take(k as int)) == Ok::<Grid, InvalidInput>(cells@),
            decreases initial@.len() - k,
        {
            let (row, col, val) = initial[k];
            proof {
                assert(initial@.take(k + 1).drop_last() =~= initial@.take(k as int));
                assert(initial@.take(k + 1).last() == initial@[k as int]);
            }
            if row >= 9 || col >= 9 || val == 0 || val > 9 {
                let e = InvalidInput::OutOfRange { row, col, value: val };
                proof {
                    assert(build(empty_grid(), initial@.take(k + 1)) == Err::<Grid, InvalidInput>(
                        e,
                    ));
                    lemma_build_err_stable(empty_grid(), initial@, k + 1);
                    assert(initial@.take(initial@.len() as int) =~= initial@);
                }
                return Err(e);
            }
            if cells[row * 9 + col].is_some() {
                let e = InvalidInput::DuplicateCell { row, col };
                proof {
                    assert(cell(cells@, row as int, col as int) is Some);
                    assert(build(empty_grid(), initial@.take(k + 1)) == Err::<Grid, InvalidInput>(
                        e,
                    ));
                    lemma_build_err_stable(empty_grid(), initial@, k + 1);
                    assert(initial@.take(initial@.len() as int) =~= initial@);
                }
                return Err(e);
            }
            let ghost before = cells@;
            cells.set(row * 9 + col, Some(val));
            proof {
                assert(cells@ =~= set_cell(before, row as int, col as int, Some(val)));
                lemma_set_cell(before, row as int, col as int, Some(val));
                assert(build(empty_grid(), initial@.take(k + 1)) == Ok::<Grid, InvalidInput>(
                    cells@,
                ));
            }
            k = k + 1;
        }
        proof {
            assert(initial@.take(initial@.len() as int) =~= initial@);
        }
        Ok(Sudoku { cells })
    }

    /// Return true iff the given row on the board is complete and correct:
    /// every cell of the row is filled and no digit occurs in it twice.
    pub fn verify_row_(&self, row: usize) -> (result: bool)
        requires
            self.wf(),
            row < 9,
        ensures
            result == (row_complete(self@, row as int) && row_dup_free(self@, row as int)),
    {
        let mut col: usize = 0;
        while col < 9
            invariant
                self.wf(),
                row < 9,
                col <= 9,
                forall|c: int| 0 <= c < col ==> #[trigger] cell(self@, row as int, c) is Some,
            decreases 9 - col,
        {
            if self.cells[row * 9 + col].is_none() {
                proof {
                    assert(cell(self@, row as int, col as int) is None);
                }
                return false;
            }
            col = col + 1;
        }
        let mut c1: usize = 0;
        while c1 < 9
            invariant
                self.wf(),
                row < 9,
                c1 <= 9,
                row_complete(self@, row as int),
                forall|a: int, b: int|
                    0 <= a < c1 && a < b < 9 ==> #[trigger] cell(self@, row as int, a)
                        != #[trigger] cell(self@, row as int, b),
            decreases 9 - c1,
        {
            let first = self.cells[row * 9 + c1];
            proof {
                assert(first == cell(self@, row as int, c1 as int));
                assert(first is Some);
            }
            let a = first.unwrap();
            let mut c2: usize = c1 + 1;
            while c2 < 9
                invariant
                    self.wf(),
                    row < 9,
                    c1 < 9,
                    c1 < c2 <= 9,
                    row_complete(self@, row as int),
                    cell(self@, row as int, c1 as int) == Some(a),
                    forall|b: int|
                        c1 < b < c2 ==> #[trigger] cell(self@, row as int, b) != cell(
                            self@,
                            row as int,
                            c1 as int,
                        ),
                decreases 9 - c2,
            {
                let second = self.cells[row * 9 + c2];
                proof {
                    assert(second == cell(self@, row as int, c2 as int));
                }
                if a == second.unwrap() {
                    proof {
                        assert(cell(self@, row as int, c2 as int) == Some(a));
                        assert(!row_dup_free(self@, row as int));
                    }
                    return false;
                }
                c2 = c2 + 1;
            }
            c1 = c1 + 1;
        }
        proof {
            assert forall|a: int, b: int|
                0 <= a < 9 && 0 <= b < 9 && a != b && #[trigger] cell(self@, row as int, a)
                    is Some implies cell(self@, row as int, a) != #[trigger] cell(
                self@,
                row as int,
                b,
            ) by {
                if a < b {
                } else {
                    assert(cell(self@, row as int, b) != cell(self@, row as int, a));
                }
            }
        }
        true
    }

    /// Return true iff the given column on the board is complete and correct:
    /// every cell of the column is filled and no digit occurs in it twice.
    pub fn verify_col_(&self, col: usize) -> (result: bool)
        requires
            self.wf(),
            col < 9,
        ensures
            result == (col_complete(self@, col as int) && col_dup_free(self@, col as int)),
    {
        let mut row: usize = 0;
        while row < 9
            invariant
                self.wf(),
                col < 9,
                row <= 9,
                forall|r: int| 0 <= r < row ==> #[trigger] cell(self@, r, col as int) is Some,
            decreases 9 - row,
        {
            if self.cells[row * 9 + col].is_none() {
                proof {
                    assert(cell(self@, row as int, col as int) is None);
                }
                return false;
            }
            row = row + 1;
        }
        let mut r1: usize = 0;
        while r1 < 9
            invariant
                self.wf(),
                col < 9,
                r1 <= 9,
                col_complete(self@, col as int),
                forall|a: int, b: int|
                    0 <= a < r1 && a < b < 9 ==> #[trigger] cell(self@, a, col as int)
                        != #[trigger] cell(self@, b, col as int),
            decreases 9 - r1,
        {
            let first = self.cells[r1 * 9 + col];
            proof {
                assert(first == cell(self@, r1 as int, col as int));
                assert(first is Some);
            }
            let a = first.unwrap();
            let mut r2: usize = r1 + 1;
            while r2 < 9
                invariant
                    self.wf(),
                    col < 9,
                    r1 < 9,
                    r1 < r2 <= 9,
                    col_complete(self@, col as int),
                    cell(self@, r1 as int, col as int) == Some(a),
                    forall|b: int|
                        r1 < b < r2 ==> #[trigger] cell(self@, b, col as int) != cell(
                            self@,
                            r1 as int,
                            col as int,
                        ),
                decreases 9 - r2,
            {
                let second = self.cells[r2 * 9 + col];
                proof {
                    assert(second == cell(self@, r2 as int, col as int));
                }
                if a == second.unwrap() {
                    proof {
                        assert(cell(self@, r2 as int, col as int) == Some(a));
                        assert(!col_dup_free(self@, col as int));
                    }
                    return false;
                }
                r2 = r2 + 1;
            }
            r1 = r1 + 1;
        }
        proof {
            assert forall|a: int, b: int|
                0 <= a < 9 && 0 <= b < 9 && a != b && #[trigger] cell(self@, a, col as int)
                    is Some implies cell(self@, a, col as int) != #[trigger] cell(
                self@,
                b,
                col as int,
            ) by {
                if a < b {
                } else {
                    assert(cell(self@, b, col as int) != cell(self@, a, col as int));
                }
            }
        }
        true
    }

    /// Return true iff the given cage on the board is complete and correct:
    /// every cell of the 3x3 block is filled and no digit occurs in it twice.
    pub fn verify_cage_(&self, cage_row: usize, cage_col: usize) -> (result: bool)
        requires
            self.wf(),
            cage_row < 3,
            cage_col < 3,
        ensures
            result == (cage_complete(self@, cage_row as int, cage_col as int) && cage_dup_free(
                self@,
                cage_row as int,
                cage_col as int,
            )),
    {
        let ghost cr = cage_row as int;
        let ghost cc = cage_col as int;
        let mut i: usize = 0;
        while i < 3
            invariant
                self.wf(),
                cage_row < 3,
                cage_col < 3,
                cr == cage_row as int,
                cc == cage_col as int,
                i <= 3,
                forall|r: int, c: int|
                    3 * cr <= r < 3 * cr + i && 3 * cc <= c < 3 * cc + 3 ==> #[trigger] cell(
                        self@,
                        r,
                        c,
                    ) is Some,
            decreases 3 - i,
        {
            let mut j: usize = 0;
            while j < 3
                invariant
                    self.wf(),
                    cage_row < 3,
                    cage_col < 3,
                    cr == cage_row as int,
                    cc == cage_col as int,
                    i < 3,
                    j <= 3,
                    forall|r: int, c: int|
                        (3 * cr <= r < 3 * cr + i && 3 * cc <= c < 3 * cc + 3) || (r == 3 * cr + i
                            && 3 * cc <= c < 3 * cc + j) ==> #[trigger] cell(self@, r, c) is Some,
                decreases 3 - j,
            {
                if self.cells[(cage_row * 3 + i) * 9 + (cage_col * 3 + j)].is_none() {
                    proof {
                        assert(cell(self@, 3 * cr + i, 3 * cc + j) is None);
                        assert((3 * cr + i) / 3 == cr && (3 * cc + j) / 3 == cc);
                        assert(!cage_complete(self@, cr, cc));
                    }
                    return false;
                }
                j = j + 1;
            }
            i = i + 1;
        }
        assert(cage_complete(self@, cr, cc));
        let mut k1: usize = 0;
        while k1 < 9
            invariant
                self.wf(),
                cage_row < 3,
                cage_col < 3,
                cr == cage_row as int,
                cc == cage_col as int,
                k1 <= 9,
                cage_complete(self@, cr, cc),
                forall|r1: int, c1: int, r2: int, c2: int|
                    3 * cr <= r1 < 3 * cr + 3 && 3 * cc <= c1 < 3 * cc + 3 && 3 * cr <= r2 < 3 * cr
                        + 3 && 3 * cc <= c2 < 3 * cc + 3 && (r1 - 3 * cr) * 3 + (c1 - 3 * cc) < (r2
                        - 3 * cr) * 3 + (c2 - 3 * cc) && (r1 - 3 * cr) * 3 + (c1 - 3 * cc)
                        < k1 ==> #[trigger] cell(self@, r1, c1) != #[trigger] cell(self@, r2, c2),
            decreases 9 - k1,
        {
            let row1: usize = cage_row * 3 + k1 / 3;
            let col1: usize = cage_col * 3 + k1 % 3;
            let first = self.cells[row1 * 9 + col1];
            proof {
                assert(first == cell(self@, row1 as int, col1 as int));
                assert(row1 / 3 == cr && col1 / 3 == cc);
                assert(first is Some);
            }
            let a = first.unwrap();
            let mut k2: usize = k1 + 1;
            while k2 < 9
                invariant
                    self.wf(),
                    cage_row < 3,
                    cage_col < 3,
                    cr == cage_row as int,
                    cc == cage_col as int,
                    k1 < 9,
                    k1 < k2 <= 9,
                    cage_complete(self@, cr, cc),
                    row1 == cage_row * 3 + k1 / 3,
                    col1 == cage_col * 3 + k1 % 3,
                    cell(self@, row1 as int, col1 as int) == Some(a),
                    forall|r1: int, c1: int, r2: int, c2: int|
                        3 * cr <= r1 < 3 * cr + 3 && 3 * cc <= c1 < 3 * cc + 3 && 3 * cr <= r2 < 3
                            * cr + 3 && 3 * cc <= c2 < 3 * cc + 3 && (r1 - 3 * cr) * 3 + (c1 - 3
                            * cc) < (r2 - 3 * cr) * 3 + (c2 - 3 * cc) && (r1 - 3 * cr) * 3 + (c1 - 3
                            * cc) < k1 ==> #[trigger] cell(self@, r1, c1) != #[trigger] cell(
                            self@,
                            r2,
                            c2,
                        ),
                    forall|r2: int, c2: int|
                        3 * cr <= r2 < 3 * cr + 3 && 3 * cc <= c2 < 3 * cc + 3 && k1 < (r2 - 3 * cr)
                            * 3 + (c2 - 3 * cc) < k2 ==> #[trigger] cell(self@, r2, c2) != cell(
                            self@,
                            row1 as int,
                            col1 as int,
                        ),
                decreases 9 - k2,
            {
                let row2: usize = cage_row * 3 + k2 / 3;
                let col2: usize = cage_col * 3 + k2 % 3;
                let second = self.cells[row2 * 9 + col2];
                proof {
                    assert(second == cell(self@, row2 as int, col2 as int));
                    assert(row2 / 3 == cr && col2 / 3 == cc);
                    assert((row2 as int - 3 * cr) * 3 + (col2 as int - 3 * cc) == k2);
                    assert((row1 as int - 3 * cr) * 3 + (col1 as int - 3 * cc) == k1);
                }
                if a == second.unwrap() {
                    proof {
                        assert(cell(self@, row2 as int, col2 as int) == Some(a));
                        assert(row1 != row2 || col1 != col2);
                        assert(!cage_dup_free(self@, cr, cc));
                    }
                    return false;
                }
                k2 = k2 + 1;
            }
            k1 = k1 + 1;
        }
        proof {
            assert forall|r1: int, c1: int, r2: int, c2: int|
                0 <= r1 < 9 && 0 <= c1 < 9 && 0 <= r2 < 9 && 0 <= c2 < 9 && r1 / 3 == cr && c1 / 3
                    == cc && r2 / 3 == cr && c2 / 3 == cc && (r1 != r2 || c1 != c2)
                    && #[trigger] cell(self@, r1, c1) is Some implies cell(self@, r1, c1)
                != #[trigger] cell(self@, r2, c2) by {
                let n1 = (r1 - 3 * cr) * 3 + (c1 - 3 * cc);
                let n2 = (r2 - 3 * cr) * 3 + (c2 - 3 * cc);
                assert(n1 != n2);
                if n1 < n2 {
                } else {
                    assert(cell(self@, r2, c2) != cell(self@, r1, c1));
                }
            }
        }
        true
    }

    /// Return the row and column indexes of the first empty cell in row-major
    /// order. If all cells are filled, return None.
    pub fn find_open_cell_(&self) -> (result: Option<(usize, usize)>)
        requires
            self.wf(),
        ensures
            match result {
                Some(rc) => rc.0 < 9 && rc.1 < 9 && cell(self@, rc.0 as int, rc.1 as int) is None
                    && forall|r: int, c: int|
                    0 <= r < 9 && 0 <= c < 9 && (r < rc.0 || (r == rc.0 && c < rc.1))
                        ==> #[trigger] cell(self@, r, c) is Some,
                None => complete(self@),
            },
    {
        let mut i: usize = 0;
        while i < 9
            invariant
                self.wf(),
                i <= 9,
                forall|r: int, c: int|
                    0 <= r < i && 0 <= c < 9 ==> #[trigger] cell(self@, r, c) is Some,
            decreases 9 - i,
        {
            let mut j: usize = 0;
            while j < 9
                invariant
                    self.wf(),
                    i < 9,
                    j <= 9,
                    forall|r: int, c: int|
                        0 <= r < i && 0 <= c < 9 ==> #[trigger] cell(self@, r, c) is Some,
                    forall|c: int| 0 <= c < j ==> #[trigger] cell(self@, i as int, c) is Some,
                decreases 9 - j,
            {
                if self.cells[i * 9 + j].is_none() {
                    proof {
                        assert(cell(self@, i as int, j as int) is None);
                    }
                    return Some((i, j));
                }
                j = j + 1;
            }
            i = i + 1;
        }
        None
    }

    /// Return true iff no cell of the given row currently holds `val`.
    pub fn valid_row_insert_(&self, row: usize, val: u8) -> (result: bool)
        requires
            self.wf(),
            row < 9,
        ensures
            result == !row_has(self@, row as int, val),
    {
        let mut col: usize = 0;
        while col < 9
            invariant
                self.wf(),
                row < 9,
                col <= 9,
                forall|c: int| 0 <= c < col ==> #[trigger] cell(self@, row as int, c) != Some(val),
            decreases 9 - col,
        {
            let entry = self.cells[row * 9 + col];
            proof {
                assert(entry == cell(self@, row as int, col as int));
            }
            if let Some(v) = entry {
                if v == val {
                    return false;
                }
            }
            col = col + 1;
        }
        true
    }

    /// Return true iff no cell of the given column currently holds `val`.
    pub fn valid_col_insert_(&self, col: usize, val: u8) -> (result: bool)
        requires
            self.wf(),
            col < 9,
        ensures
            result == !col_has(self@, col as int, val),
    {
        let mut row: usize = 0;
        while row < 9
            invariant
                self.wf(),
                col < 9,
                row <= 9,
                forall|r: int| 0 <= r < row ==> #[trigger] cell(self@, r, col as int) != Some(val),
            decreases 9 - row,
        {
            let entry = self.cells[row * 9 + col];
            proof {
                assert(entry == cell(self@, row as int, col as int));
            }
            if let Some(v) = entry {
                if v == val {
                    return false;
                }
            }
            row = row + 1;
        }
        true
    }

    /// Return true iff no cell of the given cage currently holds `val`.
    pub fn valid_cage_insert_(&self, cage_row: usize, cage_col: usize, val: u8) -> (result: bool)
        requires
            self.wf(),
            cage_row < 3,
            cage_col < 3,
        ensures
            result == !cage_has(self@, cage_row as int, cage_col as int, val),
    {
        let ghost cr = cage_row as int;
        let ghost cc = cage_col as int;
        let mut i: usize = 0;
        while i < 3
            invariant
                self.wf(),
                cage_row < 3,
                cage_col < 3,
                cr == cage_row as int,
                cc == cage_col as int,
                i <= 3,
                forall|r: int, c: int|
                    3 * cr <= r < 3 * cr + i && 3 * cc <= c < 3 * cc + 3 ==> #[trigger] cell(
                        self@,
                        r,
                        c,
                    ) != Some(val),
            decreases 3 - i,
        {
            let mut j: usize = 0;
            while j < 3
                invariant
                    self.wf(),
                    cage_row < 3,
                    cage_col < 3,
                    cr == cage_row as int,
                    cc == cage_col as int,
                    i < 3,
                    j <= 3,
                    forall|r: int, c: int|
                        (3 * cr <= r < 3 * cr + i && 3 * cc <= c < 3 * cc + 3) || (r == 3 * cr + i
                            && 3 * cc <= c < 3 * cc + j) ==> #[trigger] cell(self@, r, c) != Some(
                            val,
                        ),
                decreases 3 - j,
            {
                let entry = self.cells[(cage_row * 3 + i) * 9 + (cage_col * 3 + j)];
                proof {
                    assert(entry == cell(self@, 3 * cr + i, 3 * cc + j));
                    assert((3 * cr + i) / 3 == cr && (3 * cc + j) / 3 == cc);
                }
                if let Some(v) = entry {
                    if v == val {
                        return false;
                    }
                }
                j = j + 1;
            }
            i = i + 1;
        }
        proof {
            assert forall|r: int, c: int|
                0 <= r < 9 && 0 <= c < 9 && r / 3 == cr && c / 3 == cc implies #[trigger] cell(
                self@,
                r,
                c,
            ) != Some(val) by {
                assert(3 * cr <= r < 3 * cr + 3 && 3 * cc <= c < 3 * cc + 3);
            }
        }
        true
    }

    /// Return true iff the given value can be placed in the given cell: the
    /// cell is empty and its row, column, and cage are all free of `val`.
    pub fn valid_insert(&self, row: usize, col: usize, val: u8) -> (result: bool)
        requires
            self.wf(),
            row < 9,
            col < 9,
        ensures
            result == can_place(self@, row as int, col as int, val),
    {
        let open = self.cells[row * 9 + col].is_none();
        proof {
            assert(open == (cell(self@, row as int, col as int) is None));
        }
        open && self.valid_row_insert_(row, val) && self.valid_col_insert_(col, val)
            && self.valid_cage_insert_(row / 3, col / 3, val)
    }

    /// Return true iff the board is complete and correct: every row, column,
    /// and cage contains each digit 1 through 9 exactly once.
    pub fn verify(&self) -> (result: bool)
        requires
            self.wf(),
        ensures
            result == (complete(self@) && consistent(self@)),
    {
        let mut i: usize = 0;
        while i < 9
            invariant
                self.wf(),
                i <= 9,
                forall|r: int| 0 <= r < i ==> #[trigger] row_complete(self@, r),
                forall|r: int| 0 <= r < i ==> #[trigger] row_dup_free(self@, r),
            decreases 9 - i,
        {
            if !self.verify_row_(i) {
                proof {
                    if complete(self@) && consistent(self@) {
                        assert(row_dup_free(self@, i as int));
                        assert forall|c: int| 0 <= c < 9 implies #[trigger] cell(
                            self@,
                            i as int,
                            c,
                        ) is Some by {}
                        assert(row_complete(self@, i as int));
                    }
                }
                return false;
            }
            i = i + 1;
        }
        let mut j: usize = 0;
        while j < 9
            invariant
                self.wf(),
                j <= 9,
                forall|r: int| 0 <= r < 9 ==> #[trigger] row_complete(self@, r),
                forall|r: int| 0 <= r < 9 ==> #[trigger] row_dup_free(self@, r),
                forall|c: int| 0 <= c < j ==> #[trigger] col_dup_free(self@, c),
            decreases 9 - j,
        {
            if !self.verify_col_(j) {
                proof {
                    if complete(self@) && consistent(self@) {
                        assert(col_dup_free(self@, j as int));
                        assert forall|r: int| 0 <= r < 9 implies #[trigger] cell(
                            self@,
                            r,
                            j as int,
                        ) is Some by {}
                        assert(col_complete(self@, j as int));
                    }
                }
                return false;
            }
            j = j + 1;
        }
        let mut ci: usize = 0;
        while ci < 3
            invariant
                self.wf(),
                ci <= 3,
                forall|r: int| 0 <= r < 9 ==> #[trigger] row_complete(self@, r),
                forall|r: int| 0 <= r < 9 ==> #[trigger] row_dup_free(self@, r),
                forall|c: int| 0 <= c < 9 ==> #[trigger] col_dup_free(self@, c),
                forall|cr: int, cc: int|
                    0 <= cr < ci && 0 <= cc < 3 ==> #[trigger] cage_dup_free(self@, cr, cc),
            decreases 3 - ci,
        {
            let mut cj: usize = 0;
            while cj < 3
                invariant
                    self.wf(),
                    ci < 3,
                    cj <= 3,
                    forall|r: int| 0 <= r < 9 ==> #[trigger] row_complete(self@, r),
                    forall|r: int| 0 <= r < 9 ==> #[trigger] row_dup_free(self@, r),
                    forall|c: int| 0 <= c < 9 ==> #[trigger] col_dup_free(self@, c),
                    forall|cr: int, cc: int|
                        (0 <= cr < ci && 0 <= cc < 3) || (cr == ci && 0 <= cc < cj)
                            ==> #[trigger] cage_dup_free(self@, cr, cc),
                decreases 3 - cj,
            {
                if !self.verify_cage_(ci, cj) {
                    proof {
                        if complete(self@) && consistent(self@) {
                            assert(cage_dup_free(self@, ci as int, cj as int));
                            assert forall|r: int, c: int|
                                0 <= r < 9 && 0 <= c < 9 && r / 3 == ci && c / 3
                                    == cj implies #[trigger] cell(self@, r, c) is Some by {}
                            assert(cage_complete(self@, ci as int, cj as int));
                        }
                    }
                    return false;
                }
                cj = cj + 1;
            }
            ci = ci + 1;
        }
        proof {
            assert forall|r: int, c: int| 0 <= r < 9 && 0 <= c < 9 implies #[trigger] cell(
                self@,
                r,
                c,
            ) is Some by {
                assert(row_complete(self@, r));
            }
        }
        true
    }

    /// Read one cell of the board: None for an empty cell, or the digit it
    /// holds. This is the read-only access a display layer iterates with.
    pub fn get(&self, row: usize, col: usize) -> (result: Option<u8>)
        requires
            self.wf(),
            row < 9,
            col < 9,
        ensures
            result == cell(self@, row as int, col as int),
    {
        self.cells[row * 9 + col]
    }

    /// Replace the contents of one cell. Used by the solver to lay down and
    /// take back a tentative placement.
    pub(crate) fn put_cell(&mut self, row: usize, col: usize, x: Option<u8>)
        requires
            row < 9,
            col < 9,
            old(self)@.len() == 81,
        ensures
            final(self)@ == set_cell(old(self)@, row as int, col as int, x),
    {
        self.cells.set(row * 9 + col, x);
    }
}

} // verus!
