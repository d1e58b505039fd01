//! Game engine for a minesweeper variant played on a six-axis grid.
//!
//! The board is a dense grid over six independent axes, each of which may
//! individually wrap around (toroidal topology). The engine owns the grid of
//! cell states and the game-level counters, generates mine layouts from a
//! 64-bit seed, reveals cells by breadth-first flood fill, and keeps a
//! per-cell "remaining mines" delta consistent across arbitrary sequences of
//! mark and unmark operations.

pub mod bwi;
pub mod coords;
pub mod counting;
pub mod minesweeper_model;
mod rng;
