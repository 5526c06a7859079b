//! A 9x9 Sudoku grid and an iterative backtracking solver with an
//! iteration budget.

pub mod grid;
pub mod input;
pub mod random;
pub mod solver;
