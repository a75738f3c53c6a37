//! Generation of uniquely solvable 9x9 Sudoku puzzles from a seed.
//!
//! A complete grid is built by randomized backtracking, then clues are
//! removed one at a time while a SAT-backed oracle confirms that the
//! remaining puzzle still has exactly one completion.
pub mod fill;
pub mod board;
pub mod encode;
pub mod grid;
pub mod oracle;
mod random;
