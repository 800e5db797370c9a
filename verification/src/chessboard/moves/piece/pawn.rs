//! The moves of the pawns: pushes, double pushes and captures.

use vstd::prelude::*;
use crate::bitboard::patterns::pawn::{double_push_rank, double_push_targets, east_attack_targets, single_push_targets, west_attack_targets};
use crate::bitboard::{file_of, holds, lemma_holds_bitwise, rank_of};
use crate::chessboard::{Chessboard, Position};
use crate::chessboard::moves::Move;
use crate::chessboard::moves::piece::{convert_bb_to_moves, held_by, lemma_moves_where, lemma_moves_where_admitted, lemma_moves_where_same, moves_where, not_held_by};
use crate::utils::color::Color;
use crate::utils::piece::Piece;
use crate::utils::square::Square;

verus! {

/// A pawn of `pawns` stands right behind the empty square `t`.
pub open spec fn push_lands(p: Position, pawns: u64, color: Color, t: int) -> bool {
    0 <= t < 64 && p.squares[t] is None && holds(pawns, t - color.forward())
}

/// A pawn of `pawns` stands two squares behind `t`, which lies on the rank
/// of the double pushes, and both squares in front of the pawn are empty.
pub open spec fn double_push_lands(p: Position, pawns: u64, color: Color, t: int) -> bool {
    &&& 0 <= t < 64
    &&& rank_of(t) == double_push_rank(color)
    &&& p.squares[t] is None
    &&& p.squares[t - color.forward()] is None
    &&& holds(pawns, t - 2 * color.forward())
}

/// A pawn of `pawns` attacks square `t`, which `prey` accepts, from one rank
/// behind and `df` files to the west of it.
pub open spec fn capture_lands(pawns: u64, prey: spec_fn(int) -> bool, color: Color, df: int, t: int) -> bool {
    0 <= t < 64 && prey(t) && 0 <= file_of(t) - df < 8 && holds(pawns, t - color.forward() - df)
}

/// The single pushes of `pawns`, lowest target first.
pub open spec fn single_push_moves(p: Position, pawns: u64, color: Color) -> Seq<Move> {
    moves_where(p, |t: int| push_lands(p, pawns, color, t), -color.forward(), 0)
}

/// The double pushes of `pawns`, lowest target first.
pub open spec fn double_push_moves(p: Position, pawns: u64, color: Color) -> Seq<Move> {
    moves_where(p, |t: int| double_push_lands(p, pawns, color, t), -2 * color.forward(), 0)
}

/// The captures of `pawns` on the squares that `prey` accepts: those towards
/// the west first, then those towards the east, each lowest target first.
pub open spec fn capture_moves(p: Position, pawns: u64, prey: spec_fn(int) -> bool, color: Color) -> Seq<Move> {
    moves_where(p, |t: int| capture_lands(pawns, prey, color, -1, t), -color.forward() + 1, 0) + moves_where(
        p,
        |t: int| capture_lands(pawns, prey, color, 1, t),
        -color.forward() - 1,
        0,
    )
}

/// What a pawn of `color` may capture on: a man of the other side, or the
/// en-passant target.
pub open spec fn pawn_prey(p: Position, color: Color, t: int) -> bool {
    held_by(p, color.other(), t) || p.en_passant == Some(Square::of_index(t))
}

/// The pseudo-legal moves of `pawns` for `color`: single pushes, double
/// pushes, then captures, a capture en passant among them.
pub open spec fn pawn_moves(p: Position, pawns: u64, color: Color) -> Seq<Move> {
    single_push_moves(p, pawns, color) + double_push_moves(p, pawns, color) + capture_moves(
        p,
        pawns,
        |t: int| pawn_prey(p, color, t),
        color,
    )
}

/// The pawn moves all fit the position when `color` is the side to move and
/// `pawns` are pawns of its own.
pub proof fn lemma_pawn_moves_admitted(p: Position, pawns: u64, color: Color)
    requires
        p.wf(),
        color == p.turn,
        forall|s: int| holds(pawns, s) ==> p.squares[s] == Some((color, Piece::Pawn)),
    ensures
        p.admits_all(pawn_moves(p, pawns, color)),
{
    let prey = |t: int| pawn_prey(p, color, t);
    assert forall|t: int| 0 <= t < 64 && #[trigger] prey(t) implies not_held_by(p, color, t) by {
        if p.en_passant == Some(Square::of_index(t)) {
            crate::utils::square::lemma_index_square(t);
        }
    }
    lemma_moves_where_admitted(p, |t: int| push_lands(p, pawns, color, t), -color.forward(), 0);
    lemma_moves_where_admitted(p, |t: int| double_push_lands(p, pawns, color, t), -2 * color.forward(), 0);
    lemma_moves_where_admitted(p, |t: int| capture_lands(pawns, prey, color, -1, t), -color.forward() + 1, 0);
    lemma_moves_where_admitted(p, |t: int| capture_lands(pawns, prey, color, 1, t), -color.forward() - 1, 0);
}

/// Appends the pseudo-legal moves of `pawns` for `color`.
pub fn generate_pseudo_moves(pawns: u64, chessboard: &Chessboard, color: &Color, moves: &mut Vec<Move>)
    requires
        chessboard.board_ok(),
    ensures
        final(moves)@ == old(moves)@ + pawn_moves(chessboard@, pawns, *color),
{
    let ghost p = chessboard@;
    let ghost start = moves@;
    let enemies = chessboard.get_colors(&color.opposite());
    let mut single = generate_single_push_moves(pawns, chessboard, color);
    moves.append(&mut single);
    let mut double = generate_double_push_moves(pawns, chessboard, color);
    moves.append(&mut double);
    let ep: u64 = match chessboard.en_passant {
        Some(ep) => ep.to_bitboard(),
        None => 0,
    };
    let prey = enemies | ep;
    let mut captures = generate_capture_moves(pawns, &prey, chessboard, color);
    moves.append(&mut captures);
    proof {
        lemma_holds_bitwise();
        let shown = |t: int| holds(prey, t);
        let meant = |t: int| pawn_prey(p, *color, t);
        assert forall|t: int| 0 <= t < 64 implies #[trigger] shown(t) == meant(t) by {
            assert(chessboard.square_ok(t));
            crate::utils::square::lemma_index_square(t);
            if chessboard.en_passant is Some {
                crate::utils::square::lemma_square_index(chessboard.en_passant->Some_0);
            }
        }
        let west_shown = |t: int| capture_lands(pawns, shown, *color, -1, t);
        let west_meant = |t: int| capture_lands(pawns, meant, *color, -1, t);
        let east_shown = |t: int| capture_lands(pawns, shown, *color, 1, t);
        let east_meant = |t: int| capture_lands(pawns, meant, *color, 1, t);
        lemma_moves_where_same(p, west_shown, west_meant, -color.forward() + 1, 0);
        lemma_moves_where_same(p, east_shown, east_meant, -color.forward() - 1, 0);
        assert(capture_moves(p, pawns, shown, *color) == capture_moves(p, pawns, meant, *color));
        assert(moves@ =~= start + pawn_moves(p, pawns, *color));
    }
}

/// The single pushes of `pawns` for `color`.
pub fn generate_single_push_moves(pawns: u64, chessboard: &Chessboard, color: &Color) -> (moves: Vec<Move>)
    requires
        chessboard.board_ok(),
    ensures
        moves@ == single_push_moves(chessboard@, pawns, *color),
{
    let mut moves: Vec<Move> = Vec::new();
    let targets: u64 = single_push_targets(pawns, chessboard.empty_board, color);
    let direction: i32 = match color {
        Color::White => -8,
        Color::Black => 8,
    };
    proof {
        assert forall|t: int| 0 <= t < 64 implies holds(targets, t) == push_lands(chessboard@, pawns, *color, t) by {
            assert(chessboard.square_ok(t));
        }
        lemma_moves_where(chessboard@, targets, |t: int| push_lands(chessboard@, pawns, *color, t), direction as int, 0);
    }
    convert_bb_to_moves(chessboard, targets, direction, &mut moves);
    moves
}

/// The double pushes of `pawns` for `color`.
pub fn generate_double_push_moves(pawns: u64, chessboard: &Chessboard, color: &Color) -> (moves: Vec<Move>)
    requires
        chessboard.board_ok(),
    ensures
        moves@ == double_push_moves(chessboard@, pawns, *color),
{
    let mut moves: Vec<Move> = Vec::new();
    let targets: u64 = double_push_targets(pawns, chessboard.empty_board, color);
    let direction: i32 = match color {
        Color::White => -16,
        Color::Black => 16,
    };
    proof {
        assert forall|t: int| 0 <= t < 64 implies holds(targets, t) == double_push_lands(
            chessboard@,
            pawns,
            *color,
            t,
        ) by {
            assert(chessboard.square_ok(t));
            if 0 <= t - color.forward() < 64 {
                assert(chessboard.square_ok(t - color.forward()));
            }
        }
        lemma_moves_where(
            chessboard@,
            targets,
            |t: int| double_push_lands(chessboard@, pawns, *color, t),
            direction as int,
            0,
        );
    }
    convert_bb_to_moves(chessboard, targets, direction, &mut moves);
    moves
}

/// The captures of `pawns` for `color` on the squares of `enemies`: those
/// towards the west first, then those towards the east.
pub fn generate_capture_moves(pawns: u64, enemies: &u64, chessboard: &Chessboard, color: &Color) -> (moves: Vec<
    Move,
>)
    requires
        chessboard.board_ok(),
    ensures
        moves@ == capture_moves(chessboard@, pawns, |t: int| holds(*enemies, t), *color),
{
    let west: u64 = west_attack_targets(pawns, color) & *enemies;
    let east: u64 = east_attack_targets(pawns, color) & *enemies;
    let west_direction: i32 = match color {
        Color::White => -7,
        Color::Black => 9,
    };
    let east_direction: i32 = match color {
        Color::White => -9,
        Color::Black => 7,
    };
    let mut moves: Vec<Move> = Vec::new();
    let ghost prey = |t: int| holds(*enemies, t);
    proof {
        lemma_holds_bitwise();
        lemma_moves_where(chessboard@, west, |t: int| capture_lands(pawns, prey, *color, -1, t), west_direction as int, 0);
        lemma_moves_where(chessboard@, east, |t: int| capture_lands(pawns, prey, *color, 1, t), east_direction as int, 0);
    }
    convert_bb_to_moves(chessboard, west, west_direction, &mut moves);
    convert_bb_to_moves(chessboard, east, east_direction, &mut moves);
    moves
}

} // verus!
