//! Recursively nested tic-tac-toe with a Monte Carlo tree search engine.

pub mod marker;
pub mod bitboard;
pub mod moves;
pub mod board;
pub mod state;
pub mod search;
pub mod engine;
