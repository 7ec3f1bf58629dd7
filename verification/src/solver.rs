//! The backtracking search that fills a board in place, and the laws that
//! relate solving to verification.

use crate::board::Sudoku;
use crate::grid::{
    cage_dup_free, cage_has, can_place, cell, col_dup_free, col_has, complete, consistent,
    empty_count, extends, grid_wf, is_solution, lemma_empty_count_fill, lemma_lex_lt_asymmetric,
    lemma_set_cell, lex_lt, lex_lt_at, row_dup_free, row_has, set_cell, Grid,
};
use vstd::prelude::*;

verus! {

/// The signal that exhaustive search found no completion of the board.
#[derive(Clone, Copy, PartialEq, Eq, Structural, Debug)]
pub struct Unsolvable;

/// Any full solution of a puzzle whose cell (`r`, `c`) is empty fills that
/// cell with a digit that may legally be placed there now: the solution's own
/// row, column, and cage constraints push every copy of the digit out of the
/// puzzle's current scope.
proof fn lemma_solution_cell_can_place(g: Grid, s: Grid, r: int, c: int)
    requires
        grid_wf(g),
        is_solution(g, s),
        0 <= r < 9,
        0 <= c < 9,
        cell(g, r, c) is None,
    ensures
        cell(s, r, c) is Some,
        1 <= cell(s, r, c)->0 <= 9,
        can_place(g, r, c, cell(s, r, c)->0),
{
    assert(cell(s, r, c) is Some);
    let v = cell(s, r, c)->0;
    assert(1 <= v <= 9);
    if row_has(g, r, v) {
        let c2 = choose|c2: int| 0 <= c2 < 9 && #[trigger] cell(g, r, c2) == Some(v);
        assert(cell(s, r, c2) == Some(v));
        assert(row_dup_free(s, r));
        assert(false);
    }
    if col_has(g, c, v) {
        let r2 = choose|r2: int| 0 <= r2 < 9 && #[trigger] cell(g, r2, c) == Some(v);
        assert(cell(s, r2, c) == Some(v));
        assert(col_dup_free(s, c));
        assert(false);
    }
    if cage_has(g, r / 3, c / 3, v) {
        let (r2, c2) = choose|r2: int, c2: int|
            0 <= r2 < 9 && 0 <= c2 < 9 && r2 / 3 == r / 3 && c2 / 3 == c / 3 && #[trigger] cell(
                g,
                r2,
                c2,
            ) == Some(v);
        assert(cell(s, r2, c2) == Some(v));
        assert(cage_dup_free(s, r / 3, c / 3));
        assert(false);
    }
}

/// Legally placing a digit in an empty cell keeps the grid well-formed and
/// consistent, and only extends it.
proof fn lemma_place_preserves(g: Grid, r: int, c: int, v: u8)
    requires
        grid_wf(g),
        consistent(g),
        0 <= r < 9,
        0 <= c < 9,
        1 <= v <= 9,
        can_place(g, r, c, v),
    ensures
        grid_wf(set_cell(g, r, c, Some(v))),
        consistent(set_cell(g, r, c, Some(v))),
        extends(g, set_cell(g, r, c, Some(v))),
        cell(set_cell(g, r, c, Some(v)), r, c) == Some(v),
{
    let g2 = set_cell(g, r, c, Some(v));
    lemma_set_cell(g, r, c, Some(v));
    assert forall|r2: int, c2: int|
        0 <= r2 < 9 && 0 <= c2 < 9 && #[trigger] cell(g2, r2, c2) is Some implies 1 <= cell(
        g2,
        r2,
        c2,
    )->0 <= 9 by {
        if r2 != r || c2 != c {
            assert(cell(g2, r2, c2) == cell(g, r2, c2));
        }
    }
    assert forall|r0: int| 0 <= r0 < 9 implies #[trigger] row_dup_free(g2, r0) by {
        assert(row_dup_free(g, r0));
        assert forall|c1: int, c2: int|
            0 <= c1 < 9 && 0 <= c2 < 9 && c1 != c2 && #[trigger] cell(g2, r0, c1)
                is Some implies cell(g2, r0, c1) != #[trigger] cell(g2, r0, c2) by {
            if r0 == r && c1 == c {
                if cell(g, r0, c2) == Some(v) {
                    assert(row_has(g, r, v));
                }
            } else if r0 == r && c2 == c {
                if cell(g, r0, c1) == Some(v) {
                    assert(row_has(g, r, v));
                }
            } else {
                assert(cell(g2, r0, c1) == cell(g, r0, c1));
                assert(cell(g2, r0, c2) == cell(g, r0, c2));
            }
        }
    }
    assert forall|c0: int| 0 <= c0 < 9 implies #[trigger] col_dup_free(g2, c0) by {
        assert(col_dup_free(g, c0));
        assert forall|r1: int, r2: int|
            0 <= r1 < 9 && 0 <= r2 < 9 && r1 != r2 && #[trigger] cell(g2, r1, c0)
                is Some implies cell(g2, r1, c0) != #[trigger] cell(g2, r2, c0) by {
            if c0 == c && r1 == r {
                if cell(g, r2, c0) == Some(v) {
                    assert(col_has(g, c, v));
                }
            } else if c0 == c && r2 == r {
                if cell(g, r1, c0) == Some(v) {
                    assert(col_has(g, c, v));
                }
            } else {
                assert(cell(g2, r1, c0) == cell(g, r1, c0));
                assert(cell(g2, r2, c0) == cell(g, r2, c0));
            }
        }
    }
    assert forall|cr: int, cc: int| 0 <= cr < 3 && 0 <= cc < 3 implies #[trigger] cage_dup_free(
        g2,
        cr,
        cc,
    ) by {
        assert(cage_dup_free(g, cr, cc));
        assert forall|r1: int, c1: int, r2: int, c2: int|
            0 <= r1 < 9 && 0 <= c1 < 9 && 0 <= r2 < 9 && 0 <= c2 < 9 && r1 / 3 == cr && c1 / 3 == cc
                && r2 / 3 == cr && c2 / 3 == cc && (r1 != r2 || c1 != c2) && #[trigger] cell(
                g2,
                r1,
                c1,
            ) is Some implies cell(g2, r1, c1) != #[trigger] cell(g2, r2, c2) by {
            if r1 == r && c1 == c {
                if cell(g, r2, c2) == Some(v) {
                    assert(cage_has(g, r / 3, c / 3, v));
                }
            } else if r2 == r && c2 == c {
                if cell(g, r1, c1) == Some(v) {
                    assert(cage_has(g, r / 3, c / 3, v));
                }
            } else {
                assert(cell(g2, r1, c1) == cell(g, r1, c1));
                assert(cell(g2, r2, c2) == cell(g, r2, c2));
            }
        }
    }
}

/// A solution of the puzzle that fills the empty cell (`r`, `c`) with `v` is
/// also a solution of the puzzle with `v` already placed there.
proof fn lemma_solution_after_place(g: Grid, r: int, c: int, v: u8, s: Grid)
    requires
        g.len() == 81,
        0 <= r < 9,
        0 <= c < 9,
        cell(g, r, c) is None,
        is_solution(g, s),
        cell(s, r, c) == Some(v),
    ensures
        is_solution(set_cell(g, r, c, Some(v)), s),
{
    let g2 = set_cell(g, r, c, Some(v));
    lemma_set_cell(g, r, c, Some(v));
    assert forall|r2: int, c2: int|
        0 <= r2 < 9 && 0 <= c2 < 9 && #[trigger] cell(g2, r2, c2) is Some implies #[trigger] cell(
        s,
        r2,
        c2,
    ) == cell(g2, r2, c2) by {
        if r2 != r || c2 != c {
            assert(cell(g2, r2, c2) == cell(g, r2, c2));
        }
    }
}

impl Sudoku {
    /// Fill the board in place by exhaustive backtracking search.
    ///
    /// On success the board is a full solution of its starting state —
    /// complete, consistent, and extending every pre-filled cell — and it is
    /// the lexicographically-first such solution under the row-major scan
    /// order and ascending candidate order. On failure no solution exists at
    /// all, and the board is returned to its exact starting state, so
    /// repeated failed calls are idempotent.
    pub fn solve(&mut self) -> (result: Result<(), Unsolvable>)
        requires
            old(self).wf(),
            consistent(old(self)@),
        ensures
            final(self).wf(),
            consistent(final(self)@),
            extends(old(self)@, final(self)@),
            match result {
                Ok(_) => is_solution(old(self)@, final(self)@) && forall|s: Grid|
                    is_solution(old(self)@, s) ==> final(self)@ == s || lex_lt(final(self)@, s),
                Err(_) => final(self)@ == old(self)@ && forall|s: Grid|
                    !is_solution(old(self)@, s),
            },
        decreases empty_count(old(self)@),
    {
        let open = self.find_open_cell_();
        match open {
            None => {
                proof {
                    assert(extends(self@, self@));
                    assert forall|s: Grid| is_solution(self@, s) implies self@ == s by {
                        assert forall|i: int| 0 <= i < 81 implies self@[i] == s[i] by {
                            let r = i / 9;
                            let c = i % 9;
                            assert(r * 9 + c == i);
                            assert(cell(self@, r, c) is Some);
                            assert(cell(s, r, c) == cell(self@, r, c));
                        }
                        assert(self@ =~= s);
                    }
                }
                Ok(())
            },
            Some(rc) => {
                let row: usize = rc.0;
                let col: usize = rc.1;
                let ghost g0 = self@;
                let mut val: u8 = 1;
                proof {
                    assert forall|s: Grid| is_solution(g0, s) implies cell(s, row as int, col as int)
                        is Some && cell(s, row as int, col as int)->0 >= 1 by {
                        lemma_solution_cell_can_place(g0, s, row as int, col as int);
                    }
                }
                while val <= 9
                    invariant
                        self.wf(),
                        self@ == g0,
                        g0 == old(self)@,
                        grid_wf(g0),
                        consistent(g0),
                        row < 9,
                        col < 9,
                        cell(g0, row as int, col as int) is None,
                        forall|r2: int, c2: int|
                            0 <= r2 < 9 && 0 <= c2 < 9 && (r2 < row || (r2 == row && c2 < col))
                                ==> #[trigger] cell(g0, r2, c2) is Some,
                        1 <= val <= 10,
                        forall|s: Grid|
                            is_solution(g0, s) ==> cell(s, row as int, col as int) is Some && cell(
                                s,
                                row as int,
                                col as int,
                            )->0 >= val,
                    decreases 10 - val,
                {
                    if self.valid_insert(row, col, val) {
                        proof {
                            lemma_place_preserves(g0, row as int, col as int, val);
                            lemma_empty_count_fill(g0, row as int, col as int, val);
                        }
                        self.put_cell(row, col, Some(val));
                        let ghost g1 = self@;
                        let res = self.solve();
                        match res {
                            Ok(_) => {
                                proof {
                                    lemma_set_cell(g0, row as int, col as int, Some(val));
                                    assert forall|r2: int, c2: int|
                                        0 <= r2 < 9 && 0 <= c2 < 9 && #[trigger] cell(g0, r2, c2)
                                            is Some implies #[trigger] cell(self@, r2, c2) == cell(
                                        g0,
                                        r2,
                                        c2,
                                    ) by {
                                        assert(cell(g1, r2, c2) == cell(g0, r2, c2));
                                    }
                                    let k0 = (row as int) * 9 + (col as int);
                                    assert(cell(g1, row as int, col as int) == Some(val));
                                    assert(cell(self@, row as int, col as int) == Some(val));
                                    assert forall|s: Grid| is_solution(g0, s) implies self@ == s
                                        || lex_lt(self@, s) by {
                                        if cell(s, row as int, col as int)->0 == val {
                                            lemma_solution_after_place(
                                                g0,
                                                row as int,
                                                col as int,
                                                val,
                                                s,
                                            );
                                        } else {
                                            assert forall|i: int| 0 <= i < k0 implies self@[i]
                                                == s[i] by {
                                                let r2 = i / 9;
                                                let c2 = i % 9;
                                                assert(r2 * 9 + c2 == i);
                                                assert(r2 < row || (r2 == row && c2 < col));
                                                assert(cell(g0, r2, c2) is Some);
                                                assert(cell(self@, r2, c2) == cell(g0, r2, c2));
                                                assert(cell(s, r2, c2) == cell(g0, r2, c2));
                                            }
                                            assert(self@[k0]->0 < s[k0]->0);
                                            assert(lex_lt_at(self@, s, k0));
                                        }
                                    }
                                }
                                return Ok(());
                            },
                            Err(_) => {
                                self.put_cell(row, col, None);
                                proof {
                                    assert(self@ =~= g0);
                                    assert forall|s: Grid| is_solution(g0, s) implies cell(
                                        s,
                                        row as int,
                                        col as int,
                                    ) is Some && cell(s, row as int, col as int)->0 >= val
                                        + 1 by {
                                        lemma_solution_cell_can_place(
                                            g0,
                                            s,
                                            row as int,
                                            col as int,
                                        );
                                        if cell(s, row as int, col as int)->0 == val {
                                            lemma_solution_after_place(
                                                g0,
                                                row as int,
                                                col as int,
                                                val,
                                                s,
                                            );
                                        }
                                    }
                                }
                            },
                        }
                    } else {
                        proof {
                            assert forall|s: Grid| is_solution(g0, s) implies cell(
                                s,
                                row as int,
                                col as int,
                            ) is Some && cell(s, row as int, col as int)->0 >= val + 1 by {
                                lemma_solution_cell_can_place(g0, s, row as int, col as int);
                                if cell(s, row as int, col as int)->0 == val {
                                    assert(can_place(g0, row as int, col as int, val));
                                }
                            }
                        }
                    }
                    val = val + 1;
                }
                proof {
                    assert forall|s: Grid| !is_solution(g0, s) by {
                        if is_solution(g0, s) {
                            lemma_solution_cell_can_place(g0, s, row as int, col as int);
                        }
                    }
                    assert(extends(g0, g0));
                }
                Err(Unsolvable)
            },
        }
    }
}

/// Soundness of the search: a full solution of any puzzle is a board on which
/// `verify` returns true, for its model is complete and consistent.
pub proof fn lemma_solution_verifies(g: Grid, s: Grid)
    requires
        is_solution(g, s),
    ensures
        complete(s),
        consistent(s),
{
}

/// Determinism of the search: for a given starting board the result is always
/// the same one, since two boards that are each a lexicographically-least full
/// solution of the puzzle must be equal.
pub proof fn lemma_search_deterministic(g: Grid, a: Grid, b: Grid)
    requires
        is_solution(g, a),
        forall|s: Grid| is_solution(g, s) ==> a == s || lex_lt(a, s),
        is_solution(g, b),
        forall|s: Grid| is_solution(g, s) ==> b == s || lex_lt(b, s),
    ensures
        a == b,
{
    if a != b {
        assert(lex_lt(a, b));
        assert(lex_lt(b, a));
        lemma_lex_lt_asymmetric(a, b);
    }
}

/// Completeness on well-posed input: when a puzzle has exactly one solution,
/// any full solution the search arrives at is that known solution, and it
/// passes verification.
pub proof fn lemma_unique_solution(g: Grid, known: Grid, found: Grid)
    requires
        is_solution(g, known),
        forall|t: Grid| is_solution(g, t) ==> t == known,
        is_solution(g, found),
    ensures
        found == known,
        complete(found),
        consistent(found),
{
}

} // verus!
