//! Jump game: decide whether a board of jump distances can be won from a
//! starting cell, by jumping left or right until a cell holding 0 is reached.
pub mod reach;
pub mod jump_game;

pub use jump_game::{JumpGame, JumpGameError};
