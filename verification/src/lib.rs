//! Verified solutions to a set of programming projects: a guessing game, a
//! growable vector, chatbot session bookkeeping and tic-tac-toe agents.
pub mod board;
mod clock;
pub mod tic_tac_toe_3x3;
pub mod tic_tac_toe_5x5;
pub mod fast_vec;
pub mod guessing;
pub mod chatbot;
