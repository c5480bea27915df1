//! Rule engine for a sliding-tile merging puzzle on a 4x4 grid.
//!
//! Tiles are stored as exponents of two (`Some(e)` stands for the value
//! `2^e`, `None` for an empty cell). A move slides every lane toward one
//! edge, merges equal neighbours once, slides again, and then a new tile
//! is spawned on a random empty cell.

pub mod lane;
pub mod grid;
pub mod board;
mod random;

pub use board::Board;
pub use grid::Arrow;




