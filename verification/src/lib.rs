//! A 9x9 Sudoku solver that works by pure logical deduction: candidate
//! elimination driven to a fixed point by four rules (sole candidate, then
//! row, column and box reduction), with no guessing or backtracking.

pub mod error;
pub mod model;
pub mod solver;
