//! A 9x9 Sudoku solver: candidate elimination and forced placement run to a
//! fixed point, with a backtracking search over what remains.
pub mod model;
pub mod grid;
pub mod solver;
pub mod text;

pub use grid::{FormatError, Sudoku, SudokuCell};
