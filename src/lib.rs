//! A backtracking solver for 9x9 Sudoku puzzles, verified with Verus.
//!
//! `SudokuGrid::from` reads a puzzle, `SudokuGrid::solve` completes it in place
//! and `SudokuGrid::serialize` writes it back; `laws` states what holds of them
//! together.
pub mod cell;
pub mod grid;
pub mod laws;
pub mod region;

pub use cell::{DynCellOption, SudokuCell};
pub use grid::{FormatError, SudokuGrid};
