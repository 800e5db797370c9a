//! The moves of the queens.

use vstd::prelude::*;
use crate::bitboard::holds;
use crate::chessboard::{Chessboard, Position};
use crate::chessboard::moves::Move;
use crate::chessboard::moves::piece::sliding_piece::bishop::{bishop_moves, lemma_bishop_moves_admitted};
use crate::chessboard::moves::piece::sliding_piece::rook::{lemma_rook_moves_admitted, rook_moves};
use crate::chessboard::moves::piece::sliding_piece::{bishop, rook};
use crate::utils::color::Color;
use crate::utils::piece::Piece;

verus! {

/// The pseudo-legal moves of `queens` for `color`: their moves along the
/// diagonals, then their moves along files and ranks.
pub open spec fn queen_moves(p: Position, queens: u64, color: Color) -> Seq<Move> {
    bishop_moves(p, queens, color) + rook_moves(p, queens, color)
}

/// The queen moves all fit the position when `color` is the side to move
/// and `queens` are queens of its own.
pub proof fn lemma_queen_moves_admitted(p: Position, queens: u64, color: Color)
    requires
        p.wf(),
        color == p.turn,
        forall|s: int| holds(queens, s) ==> p.squares[s] == Some((color, Piece::Queen)),
    ensures
        p.admits_all(queen_moves(p, queens, color)),
{
    lemma_bishop_moves_admitted(p, queens, color, Piece::Queen);
    lemma_rook_moves_admitted(p, queens, color, Piece::Queen);
}

/// Appends the pseudo-legal moves of `queens` for `color`.
pub fn generate_pseudo_moves(queens: u64, chessboard: &Chessboard, color: &Color, moves: &mut Vec<Move>)
    requires
        chessboard.board_ok(),
    ensures
        final(moves)@ == old(moves)@ + queen_moves(chessboard@, queens, *color),
{
    let ghost start = moves@;
    bishop::generate_pseudo_moves(queens, chessboard, color, moves);
    let mut straight = rook::generate_pseudo_moves(queens, chessboard, color);
    moves.append(&mut straight);
    assert(moves@ =~= start + queen_moves(chessboard@, queens, *color));
}

} // verus!
