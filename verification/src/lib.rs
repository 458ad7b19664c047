//! Verified core of a Quoridor engine: a bitboard game state, Zobrist hashing,
//! move generation, path search over the wall graph, and FEN notation.

pub mod bits;
pub mod board;
pub mod bottleneck;
pub mod fen;
pub mod laws;
pub mod mirror;
pub mod movegen;
pub mod reach;
pub mod rules;
pub mod state;
pub mod zobrist;

pub use fen::FenError;
pub use movegen::{Engine, Move};
pub use state::GameState;
pub use zobrist::{get_zobrist, ZobristTable};
