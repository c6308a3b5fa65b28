//! A constraint-propagation solver for 9x9 Sudoku puzzles.
//!
//! Each cell of the board holds a candidate mask: a 9-bit set in which bit
//! `k` means that digit `k + 1` is still a legal candidate for the cell.
//! Assigning a digit to a cell removes that digit from the candidate masks
//! of the 20 peers sharing the cell's row, column, or 3x3 box, cascading
//! whenever an elimination forces another cell down to a single candidate.
//! A backtracking search with a minimum-remaining-values heuristic sits on
//! top of that propagation rule.

pub mod masks;
pub mod topology;
pub mod board;
pub mod laws;

pub use board::Board;
