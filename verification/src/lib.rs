//! A lazy, exhaustive solver for the classic 9x9 constraint puzzle.
//!
//! A [`Grid`] of 81 cells is decoded from a comma-separated text form,
//! validated into a [`Solver`], and the solver then emits every valid
//! completion of the starting grid, one at a time, in a deterministic
//! order driven by plain chronological backtracking.

pub mod bitset;
pub mod cursor;
pub mod digit;
pub mod grid;
pub mod solver;

pub use digit::Digit;
pub use digit::ParseDigitError;
pub use grid::Grid;
pub use grid::ParseGridError;
pub use solver::Solver;
pub use solver::SolverError;
