//! A verified 9x9 Sudoku solver.
//!
//! The library is built from three layers: the [`Sudoku`] grid type with its
//! row / column / region accessors, the validation predicates that say what a
//! consistent, full, or solved grid is, and a backtracking solver that is
//! proved sound (whatever it returns solves the puzzle) and complete (when it
//! returns nothing, no solution exists).

pub mod grid;
pub mod solver;
pub mod validate;

pub use grid::Sudoku;
pub use solver::{find_next_empty_cell, find_valid_numbers, solve};
pub use validate::{contains_dup, is_full, is_solution_to, is_solved, is_true, is_true_to_source};
