//! The moves of the knights.

use vstd::prelude::*;
use crate::bitboard::patterns::knight::{no_ea_ea, no_no_ea, no_no_we, no_we_we, so_ea_ea, so_so_ea, so_so_we, so_we_we};
use crate::bitboard::{file_of, holds, lemma_holds_bitwise};
use crate::chessboard::{Chessboard, Position};
use crate::chessboard::moves::Move;
use crate::chessboard::moves::piece::{convert_bb_to_moves, held_by, lemma_moves_where, lemma_moves_where_admitted, moves_where, not_held_by};
use crate::utils::color::Color;
use crate::utils::piece::Piece;

verus! {

/// A knight of `pieces` reaches square `t` by the jump of `offset` square numbers,
/// which takes it `df` files to the east without leaving the board, and no
/// man of `color` stands on `t`.
pub open spec fn jump_lands(p: Position, pieces: u64, color: Color, offset: int, df: int, t: int) -> bool {
    holds(pieces, t - offset) && 0 <= file_of(t) - df < 8 && not_held_by(p, color, t)
}

/// The moves of one jump, lowest target first.
pub open spec fn jump_moves(p: Position, pieces: u64, color: Color, offset: int, df: int) -> Seq<Move> {
    moves_where(p, |t: int| jump_lands(p, pieces, color, offset, df, t), -offset, 0)
}

/// The pseudo-legal moves of the knights of `pieces` for `color`: the eight
/// jumps in turn, each with its targets from the lowest square up.
pub open spec fn knight_moves(p: Position, pieces: u64, color: Color) -> Seq<Move> {
    jump_moves(p, pieces, color, 17, 1)
        + jump_moves(p, pieces, color, 10, 2)
        + jump_moves(p, pieces, color, -6, 2)
        + jump_moves(p, pieces, color, -15, 1)
        + jump_moves(p, pieces, color, 15, -1)
        + jump_moves(p, pieces, color, 6, -2)
        + jump_moves(p, pieces, color, -10, -2)
        + jump_moves(p, pieces, color, -17, -1)
}

/// The knight moves all fit the position when `color` is the side to move and
/// `pieces` are knights of its own.
pub proof fn lemma_knight_moves_admitted(p: Position, pieces: u64, color: Color)
    requires
        p.wf(),
        color == p.turn,
        forall|s: int| holds(pieces, s) ==> p.squares[s] == Some((color, Piece::Knight)),
    ensures
        p.admits_all(knight_moves(p, pieces, color)),
{
    lemma_moves_where_admitted(p, |t: int| jump_lands(p, pieces, color, 17, 1, t), -17, 0);
    lemma_moves_where_admitted(p, |t: int| jump_lands(p, pieces, color, 10, 2, t), -10, 0);
    lemma_moves_where_admitted(p, |t: int| jump_lands(p, pieces, color, -6, 2, t), 6, 0);
    lemma_moves_where_admitted(p, |t: int| jump_lands(p, pieces, color, -15, 1, t), 15, 0);
    lemma_moves_where_admitted(p, |t: int| jump_lands(p, pieces, color, 15, -1, t), -15, 0);
    lemma_moves_where_admitted(p, |t: int| jump_lands(p, pieces, color, 6, -2, t), -6, 0);
    lemma_moves_where_admitted(p, |t: int| jump_lands(p, pieces, color, -10, -2, t), 10, 0);
    lemma_moves_where_admitted(p, |t: int| jump_lands(p, pieces, color, -17, -1, t), 17, 0);
}

/// Appends the moves of one jump: `shifted` holds the squares that the
/// knights reach by it.
fn append_jump(
    chessboard: &Chessboard,
    shifted: u64,
    allies: u64,
    offset: i32,
    moves: &mut Vec<Move>,
    Ghost(pieces): Ghost<u64>,
    Ghost(color): Ghost<Color>,
    Ghost(df): Ghost<int>,
)
    requires
        chessboard.board_ok(),
        -64 < offset < 64,
        forall|t: int| #[trigger] holds(shifted, t) == (0 <= t < 64 && holds(pieces, t - offset) && 0 <= file_of(t) - df < 8),
        forall|t: int| 0 <= t < 64 ==> #[trigger] holds(allies, t) == held_by(chessboard@, color, t),
    ensures
        final(moves)@ == old(moves)@ + jump_moves(chessboard@, pieces, color, offset as int, df),
{
    let targets = shifted & !allies;
    proof {
        lemma_holds_bitwise();
        lemma_moves_where(
            chessboard@,
            targets,
            |t: int| jump_lands(chessboard@, pieces, color, offset as int, df, t),
            -offset,
            0,
        );
    }
    convert_bb_to_moves(chessboard, targets, -offset, moves);
}

/// Appends the pseudo-legal moves of the knights of `knights` for `color`.
pub fn generate_pseudo_moves(knights: u64, chessboard: &Chessboard, color: &Color, moves: &mut Vec<Move>)
    requires
        chessboard.board_ok(),
    ensures
        final(moves)@ == old(moves)@ + knight_moves(chessboard@, knights, *color),
{
    let allies = chessboard.get_colors(color);
    let ghost p = chessboard@;
    let ghost start = moves@;
    proof {
        assert forall|t: int| 0 <= t < 64 implies #[trigger] holds(allies, t) == held_by(p, *color, t) by {
            assert(chessboard.square_ok(t));
        }
    }
    append_jump(chessboard, no_no_ea(knights), allies, 17, moves, Ghost(knights), Ghost(*color), Ghost(1));
    append_jump(chessboard, no_ea_ea(knights), allies, 10, moves, Ghost(knights), Ghost(*color), Ghost(2));
    append_jump(chessboard, so_ea_ea(knights), allies, -6, moves, Ghost(knights), Ghost(*color), Ghost(2));
    append_jump(chessboard, so_so_ea(knights), allies, -15, moves, Ghost(knights), Ghost(*color), Ghost(1));
    append_jump(chessboard, no_no_we(knights), allies, 15, moves, Ghost(knights), Ghost(*color), Ghost(-1));
    append_jump(chessboard, no_we_we(knights), allies, 6, moves, Ghost(knights), Ghost(*color), Ghost(-2));
    append_jump(chessboard, so_we_we(knights), allies, -10, moves, Ghost(knights), Ghost(*color), Ghost(-2));
    append_jump(chessboard, so_so_we(knights), allies, -17, moves, Ghost(knights), Ghost(*color), Ghost(-1));
    assert(moves@ =~= start + knight_moves(p, knights, *color));
}

} // verus!
