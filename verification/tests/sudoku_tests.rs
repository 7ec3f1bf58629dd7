use sudoku::Sudoku;

/// A fully filled valid grid: row r holds the digits 1..=9 shifted so that
/// rows, columns, and all nine 3x3 cages each contain every digit once.
fn valid_solution() -> Vec<(usize, usize, u8)> {
    let mut v: Vec<(usize, usize, u8)> = Vec::new();
    for r in 0..9usize {
        for c in 0..9usize {
            let val: u8 = ((r * 3 + r / 3 + c) % 9 + 1) as u8;
            v.push((r, c, val));
        }
    }
    v
}

/// The valid grid with cell (0, 0) changed from 1 to 2, duplicating the 2 in
/// row 0: complete but incorrect.
fn invalid_solution() -> Vec<(usize, usize, u8)> {
    let mut v: Vec<(usize, usize, u8)> = Vec::new();
    for r in 0..9usize {
        for c in 0..9usize {
            let val: u8 = if r == 0 && c == 0 {
                2
            } else {
                ((r * 3 + r / 3 + c) % 9 + 1) as u8
            };
            v.push((r, c, val));
        }
    }
    v
}

/// Row 4 filled with the digits 1..=9 in order; everything else empty.
fn valid_row() -> Vec<(usize, usize, u8)> {
    (0..9usize).map(|c| (4usize, c, (c + 1) as u8)).collect()
}

/// Row 4 complete but with the digit 1 appearing twice.
fn invalid_row() -> Vec<(usize, usize, u8)> {
    let mut v: Vec<(usize, usize, u8)> = (0..8usize).map(|c| (4usize, c, (c + 1) as u8)).collect();
    v.push((4, 8, 1));
    v
}

/// Column 4 filled with the digits 1..=9 in order; everything else empty.
fn valid_col() -> Vec<(usize, usize, u8)> {
    (0..9usize).map(|r| (r, 4usize, (r + 1) as u8)).collect()
}

/// Column 4 complete but with the digit 1 appearing twice.
fn invalid_col() -> Vec<(usize, usize, u8)> {
    let mut v: Vec<(usize, usize, u8)> = (0..8usize).map(|r| (r, 4usize, (r + 1) as u8)).collect();
    v.push((8, 4, 1));
    v
}

/// The top-left cage filled with the digits 1..=9; everything else empty.
fn valid_cage() -> Vec<(usize, usize, u8)> {
    let mut v: Vec<(usize, usize, u8)> = Vec::new();
    for i in 0..3usize {
        for j in 0..3usize {
            v.push((i, j, (i * 3 + j + 1) as u8));
        }
    }
    v
}

/// The top-left cage complete but with the digit 1 appearing twice.
fn invalid_cage() -> Vec<(usize, usize, u8)> {
    let mut v: Vec<(usize, usize, u8)> = Vec::new();
    for i in 0..3usize {
        for j in 0..3usize {
            let val: u8 = if i == 2 && j == 2 { 1 } else { (i * 3 + j + 1) as u8 };
            v.push((i, j, val));
        }
    }
    v
}

/// A classic puzzle with a unique solution.
fn valid_puzzle_1() -> Vec<(usize, usize, u8)> {
    vec![
        (0, 0, 5),
        (0, 1, 3),
        (0, 4, 7),
        (1, 0, 6),
        (1, 3, 1),
        (1, 4, 9),
        (1, 5, 5),
        (2, 1, 9),
        (2, 2, 8),
        (2, 7, 6),
        (3, 0, 8),
        (3, 4, 6),
        (3, 8, 3),
        (4, 0, 4),
        (4, 3, 8),
        (4, 5, 3),
        (4, 8, 1),
        (5, 0, 7),
        (5, 4, 2),
        (5, 8, 6),
        (6, 1, 6),
        (6, 6, 2),
        (6, 7, 8),
        (7, 3, 4),
        (7, 4, 1),
        (7, 5, 9),
        (7, 8, 5),
        (8, 4, 8),
        (8, 7, 7),
        (8, 8, 9),
    ]
}

/// The valid grid with roughly half of its cells removed.
fn valid_puzzle_2() -> Vec<(usize, usize, u8)> {
    valid_solution().into_iter().filter(|e| (e.0 * 9 + e.1) % 2 == 0).collect()
}

/// The valid grid with a third of its cells removed.
fn valid_puzzle_3() -> Vec<(usize, usize, u8)> {
    valid_solution().into_iter().filter(|e| (e.0 + e.1) % 3 != 0).collect()
}

#[test]
fn create_puzzle() {
    let puzzle = Sudoku::new(vec![(0, 1, 3), (5, 3, 8), (8, 8, 4)]);
    assert!(puzzle.is_ok());
}

#[test]
fn create_invalid_puzzle() {
    let puzzle = Sudoku::new(vec![(0, 0, 10)]);
    assert!(puzzle.is_err());
}

#[test]
fn verify_valid_solution() {
    let puzzle = Sudoku::new(valid_solution()).unwrap();
    assert_eq!(puzzle.verify(), true);
}

#[test]
fn verify_invalid_solution() {
    let puzzle = Sudoku::new(invalid_solution()).unwrap();
    assert_eq!(puzzle.verify(), false);
}

#[test]
fn verify_valid_row() {
    let puzzle = Sudoku::new(valid_row()).unwrap();
    assert_eq!(puzzle.verify_row_(4), true);
}

#[test]
fn verify_invalid_row() {
    let puzzle = Sudoku::new(invalid_row()).unwrap();
    assert_eq!(puzzle.verify_row_(4), false);
}

#[test]
fn verify_valid_col() {
    let puzzle = Sudoku::new(valid_col()).unwrap();
    assert_eq!(puzzle.verify_col_(4), true);
}

#[test]
fn verify_invalid_col() {
    let puzzle = Sudoku::new(invalid_col()).unwrap();
    assert_eq!(puzzle.verify_col_(4), false);
}

#[test]
fn verify_valid_cage() {
    let puzzle = Sudoku::new(valid_cage()).unwrap();
    assert_eq!(puzzle.verify_cage_(0, 0), true);
}

#[test]
fn verify_invalid_cage() {
    let puzzle = Sudoku::new(invalid_cage()).unwrap();
    assert_eq!(puzzle.verify_cage_(0, 0), false);
}

#[test]
fn try_valid_row_insert() {
    let puzzle = Sudoku::new(Vec::new()).unwrap();
    assert_eq!(puzzle.valid_row_insert_(0, 1), true);
}

#[test]
fn try_invalid_row_insert() {
    let puzzle = Sudoku::new(valid_row()).unwrap();
    assert_eq!(puzzle.valid_row_insert_(4, 1), false);
}

#[test]
fn try_valid_col_insert() {
    let puzzle = Sudoku::new(Vec::new()).unwrap();
    assert_eq!(puzzle.valid_col_insert_(0, 1), true);
}

#[test]
fn try_invalid_col_insert() {
    let puzzle = Sudoku::new(valid_col()).unwrap();
    assert_eq!(puzzle.valid_col_insert_(4, 1), false);
}

#[test]
fn try_valid_cage_insert() {
    let puzzle = Sudoku::new(Vec::new()).unwrap();
    assert_eq!(puzzle.valid_cage_insert_(0, 0, 1), true);
}

#[test]
fn try_invalid_cage_insert() {
    let puzzle = Sudoku::new(valid_cage()).unwrap();
    assert_eq!(puzzle.valid_cage_insert_(0, 0, 1), false);
}

#[test]
fn solve_valid_puzzle_1() {
    let mut puzzle = Sudoku::new(valid_puzzle_1()).unwrap();
    assert_eq!(puzzle.verify(), false);
    let _ = puzzle.solve();
    assert_eq!(puzzle.verify(), true);
}

#[test]
fn solve_valid_puzzle_2() {
    let mut puzzle = Sudoku::new(valid_puzzle_2()).unwrap();
    assert_eq!(puzzle.verify(), false);
    let _ = puzzle.solve();
    assert_eq!(puzzle.verify(), true);
}

#[test]
fn solve_valid_puzzle_3() {
    let mut puzzle = Sudoku::new(valid_puzzle_3()).unwrap();
    assert_eq!(puzzle.verify(), false);
    let _ = puzzle.solve();
    assert_eq!(puzzle.verify(), true);
}
