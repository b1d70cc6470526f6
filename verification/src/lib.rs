//! A verified model of a "Queens"-style puzzle board.
//!
//! The library turns a grid of inline-style declarations (one per tile)
//! into an immutable board of coloured, markable squares, and keeps a
//! game as an append-only history of board snapshots.

pub mod error;
pub mod board;
pub mod game;
pub mod style;
pub mod extract;
pub mod markup;
