//! The decision engine of a Tablut player: the board, the rules of the game
//! (legal moves, captures, end of game), a heuristic evaluation and an
//! alpha-beta search under a deadline, each with a proved contract.
pub mod constants;
pub mod game;
pub mod network;
pub mod rules;
pub mod search;
pub mod serialization;
