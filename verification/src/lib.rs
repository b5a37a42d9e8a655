//! An exhaustive Sudoku solver: a 9x9 board model, candidate elimination
//! and a depth-first search that collects every solution it reaches.

pub mod board;
pub mod rules;
pub mod passes;
pub mod order;
pub mod search;
pub mod clock;
pub mod solver;
pub mod valid;
pub mod laws;
pub mod exhaust;
pub mod render;
