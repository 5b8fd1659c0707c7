//! A 9x9 Sudoku solver built on candidate elimination ("wave-function
//! collapse" style propagation), pure-negative deduction, and recursive
//! backtracking, with machine-checked contracts for every step.

pub mod board;
pub mod cell;
pub mod deduce;
pub mod laws;
pub mod propagate;
pub mod solver;
