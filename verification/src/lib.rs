//! A bitboard chess engine: move generation, reversible move execution and
//! alpha-beta search, with machine-checked contracts.

pub mod utils;
pub mod bitboard;
pub mod chessboard;
pub mod chessai;
