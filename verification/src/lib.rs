//! A 9x9 Sudoku solver: constraint propagation over candidate sets followed by
//! depth-first search on the most constrained cell, with machine-checked
//! contracts.

pub mod board;
pub mod candidates;
pub mod grid;
pub mod laws;
pub mod rules;
pub mod solution;
pub mod solver;
