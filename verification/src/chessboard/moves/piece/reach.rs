//! What the moves of the knights and of the kings mean: a knight has a move
//! to every square a jump away, a king to every neighbour, unless a man of
//! their own side stands there.

use vstd::prelude::*;
use crate::bitboard::holds;
use crate::chessboard::attacks::{knight_hop, lemma_king_offsets, lemma_knight_offsets};
use crate::chessboard::moves::piece::king::{king_moves, step_lands, step_moves};
use crate::chessboard::moves::piece::knight::{jump_lands, jump_moves, knight_moves};
use crate::chessboard::moves::piece::sliding_piece::lines::distance;
use crate::chessboard::moves::piece::sliding_piece::reach::lemma_contains_either;
use crate::chessboard::moves::piece::{moves_where, not_held_by};
use crate::chessboard::moves::Move;
use crate::chessboard::Position;
use crate::utils::color::Color;
use crate::utils::piece::Piece;
use crate::utils::square::{lemma_index_square, Square};

verus! {

/// No pawn stands on square `s`.
pub open spec fn no_pawn(p: Position, s: int) -> bool {
    !(p.squares[s] matches Some((_, k)) && k == Piece::Pawn)
}

/// The moves to the squares that a predicate accepts, none of them the move
/// of a pawn, hold the move from square `s` to square `t` exactly if the
/// predicate accepts `t` and `s` is the square that goes with it.
pub proof fn lemma_moves_where_hold(
    p: Position,
    lands: spec_fn(int) -> bool,
    relation: int,
    lo: int,
    s: int,
    t: int,
)
    requires
        0 <= lo,
        0 <= s < 64,
        0 <= t < 64,
        forall|x: int| lo <= x < 64 && #[trigger] lands(x) ==> 0 <= x + relation < 64 && no_pawn(p, x + relation),
    ensures
        moves_where(p, lands, relation, lo).contains(p.plain_move(Square::of_index(s), Square::of_index(t))) == (
        lo <= t && lands(t) && s == t + relation),
    decreases 64 - lo,
{
    let m = p.plain_move(Square::of_index(s), Square::of_index(t));
    if lo < 64 {
        lemma_moves_where_hold(p, lands, relation, lo + 1, s, t);
        let rest = moves_where(p, lands, relation, lo + 1);
        if lands(lo) {
            let first = p.moves_to(lo + relation, lo);
            let one = p.plain_move(Square::of_index(lo + relation), Square::of_index(lo));
            assert(first == seq![one]);
            lemma_index_square(lo);
            lemma_index_square(lo + relation);
            lemma_index_square(s);
            lemma_index_square(t);
            assert(first.contains(m) == (lo == t && s == t + relation)) by {
                if lo == t && s == t + relation {
                    assert(first[0] == m);
                }
            }
            lemma_contains_either(first, rest, m);
        }
    }
}

/// The knights of `knights`, no pawn among them, have a move from square
/// `s` to square `t` exactly if a knight stands on `s`, `t` is a knight's
/// jump away, and no man of `color` stands on `t`.
pub proof fn lemma_knight_moves_reach(p: Position, knights: u64, color: Color, s: int, t: int)
    requires
        0 <= s < 64,
        0 <= t < 64,
        forall|x: int| holds(knights, x) ==> no_pawn(p, x),
    ensures
        knight_moves(p, knights, color).contains(p.plain_move(Square::of_index(s), Square::of_index(t))) == (
        holds(knights, s) && knight_hop(s, t) && not_held_by(p, color, t)),
{
    let m = p.plain_move(Square::of_index(s), Square::of_index(t));
    lemma_knight_offsets(s, t);
    lemma_moves_where_hold(p, |x: int| jump_lands(p, knights, color, 17, 1, x), -17, 0, s, t);
    lemma_moves_where_hold(p, |x: int| jump_lands(p, knights, color, 10, 2, x), -10, 0, s, t);
    lemma_moves_where_hold(p, |x: int| jump_lands(p, knights, color, -6, 2, x), 6, 0, s, t);
    lemma_moves_where_hold(p, |x: int| jump_lands(p, knights, color, -15, 1, x), 15, 0, s, t);
    lemma_moves_where_hold(p, |x: int| jump_lands(p, knights, color, 15, -1, x), -15, 0, s, t);
    lemma_moves_where_hold(p, |x: int| jump_lands(p, knights, color, 6, -2, x), -6, 0, s, t);
    lemma_moves_where_hold(p, |x: int| jump_lands(p, knights, color, -10, -2, x), 10, 0, s, t);
    lemma_moves_where_hold(p, |x: int| jump_lands(p, knights, color, -17, -1, x), 17, 0, s, t);
    let a = jump_moves(p, knights, color, 17, 1);
    let b = jump_moves(p, knights, color, 10, 2);
    let c = jump_moves(p, knights, color, -6, 2);
    let d = jump_moves(p, knights, color, -15, 1);
    let e = jump_moves(p, knights, color, 15, -1);
    let f = jump_moves(p, knights, color, 6, -2);
    let g = jump_moves(p, knights, color, -10, -2);
    let h = jump_moves(p, knights, color, -17, -1);
    lemma_contains_either(a, b, m);
    lemma_contains_either(a + b, c, m);
    lemma_contains_either(a + b + c, d, m);
    lemma_contains_either(a + b + c + d, e, m);
    lemma_contains_either(a + b + c + d + e, f, m);
    lemma_contains_either(a + b + c + d + e + f, g, m);
    lemma_contains_either(a + b + c + d + e + f + g, h, m);
}

/// The kings of `kings`, no pawn among them, have a move from square `s`
/// to square `t` exactly if a king stands on `s`, `t` is a neighbour of
/// `s`, and no man of `color` stands on `t`. Castling is not among these
/// moves.
pub proof fn lemma_king_moves_reach(p: Position, kings: u64, color: Color, s: int, t: int)
    requires
        0 <= s < 64,
        0 <= t < 64,
        forall|x: int| holds(kings, x) ==> no_pawn(p, x),
    ensures
        king_moves(p, kings, color).contains(p.plain_move(Square::of_index(s), Square::of_index(t))) == (holds(
            kings,
            s,
        ) && distance(s, t) == 1 && not_held_by(p, color, t)),
{
    let m = p.plain_move(Square::of_index(s), Square::of_index(t));
    lemma_king_offsets(s, t);
    lemma_moves_where_hold(p, |x: int| step_lands(p, kings, color, 8, 0, x), -8, 0, s, t);
    lemma_moves_where_hold(p, |x: int| step_lands(p, kings, color, 9, 1, x), -9, 0, s, t);
    lemma_moves_where_hold(p, |x: int| step_lands(p, kings, color, 1, 1, x), -1, 0, s, t);
    lemma_moves_where_hold(p, |x: int| step_lands(p, kings, color, -7, 1, x), 7, 0, s, t);
    lemma_moves_where_hold(p, |x: int| step_lands(p, kings, color, -8, 0, x), 8, 0, s, t);
    lemma_moves_where_hold(p, |x: int| step_lands(p, kings, color, -9, -1, x), 9, 0, s, t);
    lemma_moves_where_hold(p, |x: int| step_lands(p, kings, color, -1, -1, x), 1, 0, s, t);
    lemma_moves_where_hold(p, |x: int| step_lands(p, kings, color, 7, -1, x), -7, 0, s, t);
    let a = step_moves(p, kings, color, 8, 0);
    let b = step_moves(p, kings, color, 9, 1);
    let c = step_moves(p, kings, color, 1, 1);
    let d = step_moves(p, kings, color, -7, 1);
    let e = step_moves(p, kings, color, -8, 0);
    let f = step_moves(p, kings, color, -9, -1);
    let g = step_moves(p, kings, color, -1, -1);
    let h = step_moves(p, kings, color, 7, -1);
    lemma_contains_either(a, b, m);
    lemma_contains_either(a + b, c, m);
    lemma_contains_either(a + b + c, d, m);
    lemma_contains_either(a + b + c + d, e, m);
    lemma_contains_either(a + b + c + d + e, f, m);
    lemma_contains_either(a + b + c + d + e + f, g, m);
    lemma_contains_either(a + b + c + d + e + f + g, h, m);
}

} // verus!
