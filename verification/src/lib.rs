//! Rule engine for a 16-cell sliding-tile merge puzzle.
//!
//! The engine owns a 4x4 board of numbered tiles, applies directional
//! moves with at-most-one merge per resulting tile, tracks the score,
//! latches the win flag, and exposes a read-only projection of the board
//! for a presentation layer.

pub mod game_state;
mod rng;
