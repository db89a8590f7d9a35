//! A territory-conquest grid game: a human trail and a population of bot
//! trails move over a fixed grid, and every cell near the human trail's path
//! becomes conquered for good.

pub mod grid;
pub mod trail;
pub mod game;
mod random;
