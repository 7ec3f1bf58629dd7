//! A verified solver for standard 9x9 Sudoku puzzles.
//!
//! A board is built from a sparse list of pre-filled cells, solved in place by
//! exhaustive backtracking search, and checked for completeness and
//! consistency. The solver's contract states both soundness (a successful
//! search yields a board on which verification passes) and completeness (a
//! failed search means no completion of the starting board exists, and the
//! board is left untouched).

mod board;
mod grid;
mod solver;

pub use board::InvalidInput;
pub use board::Sudoku;
pub use solver::Unsolvable;
