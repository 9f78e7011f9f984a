//! A Minesweeper solving engine: the neighbor graph of a rectangular grid,
//! the per-cell deduction rules, flood-fill propagation of revealed cells and
//! the minimum-risk guess used when no deduction applies.
//!
//! Everything that talks to a live game (clicking, reading a cell's rendering,
//! restarting) is left to the caller: the engine says what to do and is told
//! what was observed.

pub mod board;
pub mod cell;
pub mod flood;
pub mod grid;
pub mod guess;
pub mod info;
pub mod posn;

pub use board::{Board, Guess, Move, Observed, Propagation};
pub use cell::{Cell, CellState};
pub use info::get_reps;
pub use posn::Posn;
