//! A generalized sliding-tile puzzle: a `width × height` grid of numbered
//! tiles and one blank cell, with legal slides, a solvability test based on
//! permutation parity, and a generator of random solvable boards.
mod board;
mod direction;
mod error;
mod generate;
pub mod grid;
pub mod laws;
pub mod parity;
mod piece;
mod puzzle;
pub mod slide;
pub mod solvable;
mod stack;

pub use board::BoxPuzzle;
pub use direction::{direction_delta, Direction};
pub use error::BoardError;
pub use generate::{arrange_layout, generated_layout, placed, rotated};
pub use piece::Piece;
pub use puzzle::{clamp, slide_reply, towards_target, Puzzle};
pub use solvable::is_solvable;
pub use stack::StackPuzzle;
