//! Static evaluation of a position.

pub mod basic;

use vstd::prelude::*;
use crate::chessai::evaluation::basic::material::{material, material_balance};
use crate::chessai::Ai;
use crate::chessboard::attacks::king_attacked;
use crate::chessboard::Position;
use crate::utils::color::Color;

verus! {

/// The highest score: the opponent is mated.
pub const MAX_SCORE: i32 = 2147483647;

/// The lowest score: the player is mated.
pub const MIN_SCORE: i32 = -2147483648;

/// The score of position `p` for the player `root`, seen with `turn` to
/// move. At the end of the game (`end_game`: no legal move): the lowest
/// score if `turn` is in check and is the player, the highest if it is in
/// check and is the opponent, and zero for a stalemate with the player to
/// move, or with either side to move if `stalemate_draws`. In every other
/// case the material balance of `turn`.
pub open spec fn evaluation(p: Position, root: Color, turn: Color, end_game: bool, stalemate_draws: bool) -> int {
    if end_game && king_attacked(p, turn) {
        if turn == root {
            MIN_SCORE as int
        } else {
            MAX_SCORE as int
        }
    } else if end_game && (turn == root || stalemate_draws) {
        0
    } else {
        material(p, turn)
    }
}

impl Ai {
    /// The score of the board with `turn` to move, and the end of the
    /// end-game mark.
    pub fn evaluate_board(&mut self, turn: &Color) -> (score: i32)
        requires
            old(self).chessboard.board_ok(),
        ensures
            score == evaluation(
                old(self).chessboard@,
                old(self).color,
                *turn,
                old(self).is_end_game,
                old(self).stalemate_draws,
            ),
            final(self).chessboard == old(self).chessboard,
            final(self).color == old(self).color,
            final(self).stalemate_draws == old(self).stalemate_draws,
            final(self).search_depth == old(self).search_depth,
            !final(self).is_end_game,
    {
        if self.is_end_game {
            self.is_end_game = false;
            if self.chessboard.is_king_attacked(turn) {
                if *turn == self.color {
                    return MIN_SCORE;
                } else {
                    return MAX_SCORE;
                }
            } else if *turn == self.color || self.stalemate_draws {
                return 0;
            }
        }
        material_balance(&self.chessboard, turn)
    }
}

} // verus!
