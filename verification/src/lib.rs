//! An Othello (Reversi) board: move generation, move play and undo,
//! position scoring and a minimax search, with their rules stated as
//! specifications over a mathematical model of the board.

pub mod game;
pub mod model;
mod geometry;
pub mod laws;
pub mod rules;
pub mod search;
