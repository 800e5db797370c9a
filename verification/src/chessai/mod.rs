//! The player: static evaluation and game-tree search on a board of its own.

pub mod evaluation;
pub mod search;
pub mod uci;

use vstd::prelude::*;
use crate::chessboard::fen::{parse_position, FenError};
use crate::chessboard::{Chessboard, Position};
use crate::utils::color::Color;

verus! {

/// A player: a board of its own, the side it plays for, and how it searches.
pub struct Ai {
    pub chessboard: Chessboard,
    /// The side that the search plays for.
    pub color: Color,
    /// Set while the search stands on a position without legal moves.
    pub is_end_game: bool,
    /// Whether a stalemate counts as a draw for either side to move; if
    /// not, one with the opponent to move is scored by material.
    pub stalemate_draws: bool,
    /// How many moves deep each move is searched when the player is asked
    /// for its best move.
    pub search_depth: u32,
}

/// How deep a new player searches.
pub const DEFAULT_SEARCH_DEPTH: u32 = 3;

impl Ai {
    /// A player on the board that `fen` describes, playing for the side to
    /// move, with every stalemate counted as a draw and the usual search
    /// depth; or why `fen` describes no board.
    pub fn new(fen: String) -> (r: Result<Ai, FenError>)
        ensures
            match r {
                Ok(ai) => {
                    &&& ai.chessboard.wf()
                    &&& parse_position(fen@) == Ok::<Position, FenError>(ai.chessboard@)
                    &&& ai.color == ai.chessboard.turn
                    &&& !ai.is_end_game
                    &&& ai.stalemate_draws
                    &&& ai.search_depth == DEFAULT_SEARCH_DEPTH
                },
                Err(e) => parse_position(fen@) == Err::<Position, FenError>(e),
            },
    {
        match Chessboard::new(fen) {
            Ok(chessboard) => {
                let color = chessboard.turn;
                Ok(
                    Ai {
                        chessboard,
                        color,
                        is_end_game: false,
                        stalemate_draws: true,
                        search_depth: DEFAULT_SEARCH_DEPTH,
                    },
                )
            },
            Err(e) => Err(e),
        }
    }
}

} // verus!
