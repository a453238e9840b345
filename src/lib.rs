//! A Sudoku solver driven by candidate narrowing and lowest-entropy collapse.

pub mod cell;
pub mod laws;
mod rng;
pub mod sudoku;
