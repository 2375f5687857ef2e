//! Exhaustive solver for tic-tac-toe: board model, outcome rules and a
//! memoised negamax over the game-theoretic value of every position.

pub mod board;
pub mod solver;
