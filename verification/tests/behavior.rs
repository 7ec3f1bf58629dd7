use sudoku::{InvalidInput, Sudoku};

/// A fully filled valid grid: row r holds the digits 1..=9 shifted so that
/// rows, columns, and all nine 3x3 cages each contain every digit once.
fn full_grid() -> Vec<(usize, usize, u8)> {
    let mut v: Vec<(usize, usize, u8)> = Vec::new();
    for r in 0..9usize {
        for c in 0..9usize {
            let val: u8 = ((r * 3 + r / 3 + c) % 9 + 1) as u8;
            v.push((r, c, val));
        }
    }
    v
}

/// A consistent board with no completion: row 0 holds 1..=8 in its first
/// eight cells, and the 9 that its last cell would need already stands in
/// column 8.
fn unsolvable_board() -> Vec<(usize, usize, u8)> {
    let mut v: Vec<(usize, usize, u8)> = (0..8usize).map(|c| (0usize, c, (c + 1) as u8)).collect();
    v.push((1, 8, 9));
    v
}

#[test]
fn construct_single_entry_ok() {
    let puzzle = Sudoku::new(vec![(0, 0, 5)]);
    assert!(puzzle.is_ok());
}

#[test]
fn construct_out_of_range_value() {
    let puzzle = Sudoku::new(vec![(0, 0, 10)]);
    assert_eq!(puzzle.err(), Some(InvalidInput::OutOfRange { row: 0, col: 0, value: 10 }));
}

#[test]
fn construct_zero_value_rejected() {
    let puzzle = Sudoku::new(vec![(3, 3, 0)]);
    assert_eq!(puzzle.err(), Some(InvalidInput::OutOfRange { row: 3, col: 3, value: 0 }));
}

#[test]
fn construct_out_of_range_coordinate() {
    let puzzle = Sudoku::new(vec![(9, 0, 1)]);
    assert_eq!(puzzle.err(), Some(InvalidInput::OutOfRange { row: 9, col: 0, value: 1 }));
}

#[test]
fn construct_duplicate_cell_rejected() {
    let puzzle = Sudoku::new(vec![(0, 0, 5), (0, 0, 6)]);
    assert_eq!(puzzle.err(), Some(InvalidInput::DuplicateCell { row: 0, col: 0 }));
}

#[test]
fn construct_first_error_wins() {
    let puzzle = Sudoku::new(vec![(0, 0, 5), (2, 2, 10), (0, 0, 6)]);
    assert_eq!(puzzle.err(), Some(InvalidInput::OutOfRange { row: 2, col: 2, value: 10 }));
}

#[test]
fn single_cell_insert_checks() {
    let puzzle = Sudoku::new(vec![(4, 4, 5)]).unwrap();
    assert_eq!(puzzle.valid_row_insert_(4, 5), false);
    assert_eq!(puzzle.valid_row_insert_(4, 1), true);
    assert_eq!(puzzle.valid_col_insert_(4, 5), false);
    assert_eq!(puzzle.valid_cage_insert_(1, 1, 5), false);
    assert_eq!(puzzle.valid_cage_insert_(1, 1, 4), true);
}

#[test]
fn validator_consistency_over_all_cells() {
    let puzzle = Sudoku::new(vec![(4, 4, 5)]).unwrap();
    for r in 0..9usize {
        for c in 0..9usize {
            // 5 may go exactly where no shared row, column, or cage holds it.
            let expected_5 = !(r == 4 || c == 4 || (r / 3 == 1 && c / 3 == 1));
            assert_eq!(puzzle.valid_insert(r, c, 5), expected_5);
            // 1 may go anywhere except the one filled cell.
            let expected_1 = !(r == 4 && c == 4);
            assert_eq!(puzzle.valid_insert(r, c, 1), expected_1);
        }
    }
}

#[test]
fn failed_solve_leaves_board_unchanged() {
    let mut puzzle = Sudoku::new(unsolvable_board()).unwrap();
    let mut before: Vec<Option<u8>> = Vec::new();
    for r in 0..9usize {
        for c in 0..9usize {
            before.push(puzzle.get(r, c));
        }
    }
    assert!(puzzle.solve().is_err());
    for r in 0..9usize {
        for c in 0..9usize {
            assert_eq!(puzzle.get(r, c), before[r * 9 + c]);
        }
    }
    // A second failed attempt is idempotent too.
    assert!(puzzle.solve().is_err());
    for r in 0..9usize {
        for c in 0..9usize {
            assert_eq!(puzzle.get(r, c), before[r * 9 + c]);
        }
    }
}

#[test]
fn solve_reaches_known_solution() {
    let givens: Vec<(usize, usize, u8)> = vec![
        (0, 0, 5),
        (0, 1, 3),
        (0, 4, 7),
        (1, 0, 6),
        (1, 3, 1),
        (1, 4, 9),
        (1, 5, 5),
        (2, 1, 9),
        (2, 2, 8),
        (2, 7, 6),
        (3, 0, 8),
        (3, 4, 6),
        (3, 8, 3),
        (4, 0, 4),
        (4, 3, 8),
        (4, 5, 3),
        (4, 8, 1),
        (5, 0, 7),
        (5, 4, 2),
        (5, 8, 6),
        (6, 1, 6),
        (6, 6, 2),
        (6, 7, 8),
        (7, 3, 4),
        (7, 4, 1),
        (7, 5, 9),
        (7, 8, 5),
        (8, 4, 8),
        (8, 7, 7),
        (8, 8, 9),
    ];
    let known: [[u8; 9]; 9] = [
        [5, 3, 4, 6, 7, 8, 9, 1, 2],
        [6, 7, 2, 1, 9, 5, 3, 4, 8],
        [1, 9, 8, 3, 4, 2, 5, 6, 7],
        [8, 5, 9, 7, 6, 1, 4, 2, 3],
        [4, 2, 6, 8, 5, 3, 7, 9, 1],
        [7, 1, 3, 9, 2, 4, 8, 5, 6],
        [9, 6, 1, 5, 3, 7, 2, 8, 4],
        [2, 8, 7, 4, 1, 9, 6, 3, 5],
        [3, 4, 5, 2, 8, 6, 1, 7, 9],
    ];
    let mut puzzle = Sudoku::new(givens).unwrap();
    assert!(puzzle.solve().is_ok());
    assert_eq!(puzzle.verify(), true);
    for r in 0..9usize {
        for c in 0..9usize {
            assert_eq!(puzzle.get(r, c), Some(known[r][c]));
        }
    }
}

#[test]
fn solve_empty_board() {
    let mut puzzle = Sudoku::new(Vec::new()).unwrap();
    assert_eq!(puzzle.verify(), false);
    assert!(puzzle.solve().is_ok());
    assert_eq!(puzzle.verify(), true);
}

#[test]
fn solve_complete_board_is_immediate() {
    let mut puzzle = Sudoku::new(full_grid()).unwrap();
    assert!(puzzle.solve().is_ok());
    for r in 0..9usize {
        for c in 0..9usize {
            let val: u8 = ((r * 3 + r / 3 + c) % 9 + 1) as u8;
            assert_eq!(puzzle.get(r, c), Some(val));
        }
    }
}

#[test]
fn full_grid_verifies_and_one_change_breaks_it() {
    let puzzle = Sudoku::new(full_grid()).unwrap();
    assert_eq!(puzzle.verify(), true);
    // Copy the digit of (8, 7) into (8, 8): row 8 now holds it twice.
    let mut entries = full_grid();
    entries.retain(|e| !(e.0 == 8 && e.1 == 8));
    let dup: u8 = ((8 * 3 + 8 / 3 + 7) % 9 + 1) as u8;
    entries.push((8, 8, dup));
    let broken = Sudoku::new(entries).unwrap();
    assert_eq!(broken.verify(), false);
}

#[test]
fn solve_is_deterministic() {
    // An under-constrained board has many completions; two searches from the
    // same start must still land on the same one.
    let mut first = Sudoku::new(vec![(0, 0, 1), (4, 4, 5)]).unwrap();
    let mut second = Sudoku::new(vec![(0, 0, 1), (4, 4, 5)]).unwrap();
    assert!(first.solve().is_ok());
    assert!(second.solve().is_ok());
    for r in 0..9usize {
        for c in 0..9usize {
            assert_eq!(first.get(r, c), second.get(r, c));
        }
    }
}

#[test]
fn find_open_cell_row_major_order() {
    let puzzle = Sudoku::new(vec![(0, 0, 1), (0, 1, 2)]).unwrap();
    assert_eq!(puzzle.find_open_cell_(), Some((0, 2)));
    let full = Sudoku::new(full_grid()).unwrap();
    assert_eq!(full.find_open_cell_(), None);
}
