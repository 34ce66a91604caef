//! A verified engine for a single-board sliding-tile merge game.
//!
//! The board is a fixed 4x4 grid of cells, each either empty or holding a
//! positive tile value. A press in one of the four directions slides all
//! tiles toward that edge, merges equal adjacent pairs once, and slides
//! again to close the gaps the merges left. Spawning places a random tile
//! of value 2 or 4 into a random empty cell.

pub mod board;
pub mod direction;
pub mod lines;
mod rng;
