//! A Nonogram (picture-logic) puzzle solver.
//!
//! A board carries a hint sequence for every row and column: the lengths of
//! the contiguous filled runs in that line, in order. The solver deduces,
//! line by line, which cells are forced to be filled or empty across every
//! placement of runs that is consistent with the hints and the cells already
//! known, and repeats until the board is solved or an iteration budget runs
//! out.

pub mod seqs;
pub mod cell;
pub mod bits;
pub mod gaps;
pub mod line;
pub mod board;

pub use board::Nonogram;
pub use gaps::get_possible_gaps;
pub use line::solve_vector;

pub use cell::Cell;
pub use cell::SolveError;
