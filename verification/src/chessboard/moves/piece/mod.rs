//! The move generators, one module per piece kind.

pub mod king;
pub mod knight;
pub mod pawn;
pub mod reach;
pub mod sliding_piece;

use vstd::prelude::*;
use crate::bitboard::{holds, lemma_holds_bitwise, lemma_mask_where, lemma_pop_lowest, lemma_same_squares, lemma_squares_up_skip, mask_where, population, squares_up};
use crate::chessboard::{Chessboard, Position};
use crate::chessboard::moves::{lemma_moves_to_admitted, Move};
use crate::utils::color::Color;
use crate::utils::piece::Piece;
use crate::utils::square::Square;

verus! {

/// The moves to every square that `lands` accepts, lowest square first from
/// `lo` on, each from the square `relation` square numbers away from its
/// target.
pub open spec fn moves_where(p: Position, lands: spec_fn(int) -> bool, relation: int, lo: int) -> Seq<Move>
    decreases 64 - lo,
{
    if lo >= 64 {
        Seq::empty()
    } else if lands(lo) {
        p.moves_to(lo + relation, lo) + moves_where(p, lands, relation, lo + 1)
    } else {
        moves_where(p, lands, relation, lo + 1)
    }
}

/// No man of `color` stands on square `t`.
pub open spec fn not_held_by(p: Position, color: Color, t: int) -> bool {
    !(p.squares[t] matches Some((c, _)) && c == color)
}

/// A man of `color` stands on square `t`.
pub open spec fn held_by(p: Position, color: Color, t: int) -> bool {
    p.squares[t] matches Some((c, _)) && c == color
}

/// The mask of the squares that men of `color` hold.
pub open spec fn side_mask(p: Position, color: Color) -> u64 {
    mask_where(|t: int| held_by(p, color, t), 0)
}

/// The mask of the squares that men of `color` and of kind `kind` hold.
pub open spec fn men_mask(p: Position, color: Color, kind: Piece) -> u64 {
    mask_where(|t: int| p.squares[t] == Some((color, kind)), 0)
}

/// The masks of a position hold the squares of the men they are named
/// after.
pub proof fn lemma_masks_of_men(p: Position, color: Color)
    ensures
        forall|t: int| #[trigger] holds(side_mask(p, color), t) == (0 <= t < 64 && held_by(p, color, t)),
        forall|kind: Piece, t: int|
            #[trigger] holds(men_mask(p, color, kind), t) == (0 <= t < 64 && p.squares[t] == Some((color, kind))),
{
    lemma_mask_where(|t: int| held_by(p, color, t), 0);
    assert forall|kind: Piece, t: int|
        #[trigger] holds(men_mask(p, color, kind), t) == (0 <= t < 64 && p.squares[t] == Some((color, kind))) by {
        lemma_mask_where(|t: int| p.squares[t] == Some((color, kind)), 0);
    }
}

/// On a sound board the color mask is the mask of the squares that the men
/// of the color hold.
pub proof fn lemma_side_mask(board: &Chessboard, color: Color)
    requires
        board.board_ok(),
    ensures
        board.color_mask(color) == side_mask(board@, color),
{
    let own = board.color_mask(color);
    lemma_masks_of_men(board@, color);
    assert forall|t: int| 0 <= t < 64 implies holds(own, t) == holds(side_mask(board@, color), t) by {
        assert(board.square_ok(t));
    }
    lemma_same_squares(own, side_mask(board@, color));
}

/// On a sound board the men of one kind and color are those that both the
/// kind's mask and the color's mask hold.
pub proof fn lemma_men_mask(board: &Chessboard, color: Color, kind: Piece)
    requires
        board.board_ok(),
    ensures
        board.piece_mask(kind) & board.color_mask(color) == men_mask(board@, color, kind),
{
    let both = board.piece_mask(kind) & board.color_mask(color);
    lemma_masks_of_men(board@, color);
    lemma_holds_bitwise();
    assert forall|t: int| 0 <= t < 64 implies holds(both, t) == holds(men_mask(board@, color, kind), t) by {
        assert(board.square_ok(t));
    }
    lemma_same_squares(both, men_mask(board@, color, kind));
}

/// The moves to a list of targets, the first target apart.
pub proof fn lemma_moves_over_first(p: Position, first: int, rest: Seq<int>, relation: int)
    ensures
        p.moves_over(seq![first] + rest, relation) == p.moves_to(first + relation, first) + p.moves_over(
            rest,
            relation,
        ),
    decreases rest.len(),
{
    let all = seq![first] + rest;
    if rest.len() == 0 {
        assert(all.drop_last() =~= Seq::<int>::empty());
        assert(p.moves_over(all.drop_last(), relation) =~= Seq::<Move>::empty());
        assert(p.moves_over(rest, relation) =~= Seq::<Move>::empty());
        assert(all.last() == first);
        assert(p.moves_over(all, relation) =~= p.moves_to(first + relation, first));
        assert(p.moves_to(first + relation, first) + p.moves_over(rest, relation) =~= p.moves_to(
            first + relation,
            first,
        ));
    } else {
        lemma_moves_over_first(p, first, rest.drop_last(), relation);
        assert(all.drop_last() =~= seq![first] + rest.drop_last());
        assert(all.last() == rest.last());
        assert(p.moves_over(all, relation) =~= p.moves_to(first + relation, first) + p.moves_over(rest, relation));
    }
}

/// The moves to the squares of a mask are the moves to the squares that a
/// predicate accepts, where the mask holds exactly those.
pub proof fn lemma_moves_where(p: Position, bb: u64, lands: spec_fn(int) -> bool, relation: int, lo: int)
    requires
        0 <= lo,
        forall|t: int| lo <= t < 64 ==> holds(bb, t) == lands(t),
    ensures
        p.moves_over(squares_up(bb, lo), relation) == moves_where(p, lands, relation, lo),
    decreases 64 - lo,
{
    if lo < 64 {
        lemma_moves_where(p, bb, lands, relation, lo + 1);
        if holds(bb, lo) {
            lemma_moves_over_first(p, lo, squares_up(bb, lo + 1), relation);
        }
    }
}

/// Two predicates that accept the same squares give the same moves.
pub proof fn lemma_moves_where_same(
    p: Position,
    one: spec_fn(int) -> bool,
    other: spec_fn(int) -> bool,
    relation: int,
    lo: int,
)
    requires
        0 <= lo,
        forall|t: int| lo <= t < 64 ==> #[trigger] one(t) == other(t),
    ensures
        moves_where(p, one, relation, lo) == moves_where(p, other, relation, lo),
    decreases 64 - lo,
{
    if lo < 64 {
        lemma_moves_where_same(p, one, other, relation, lo + 1);
    }
}

/// The moves to the squares that a predicate accepts all fit the position,
/// where each of them goes from a man of the side to move to a square that
/// its side does not hold, is no castling move in shape, and where it has
/// the shape of a double push is one.
pub proof fn lemma_moves_where_admitted(p: Position, lands: spec_fn(int) -> bool, relation: int, lo: int)
    requires
        p.wf(),
        0 <= lo,
        relation != 0,
        relation != 2,
        relation != -2,
        forall|t: int|
            lo <= t < 64 && #[trigger] lands(t) ==> {
                &&& 0 <= t + relation < 64
                &&& held_by(p, p.turn, t + relation)
                &&& not_held_by(p, p.turn, t)
                &&& (p.squares[t + relation] matches Some((_, k)) && k == Piece::Pawn) && (relation == 16
                    || relation == -16) ==> {
                    &&& crate::bitboard::rank_of(t + relation) == (match p.turn {
                        Color::White => 1int,
                        Color::Black => 6int,
                    })
                    &&& t == t + relation + 2 * p.turn.forward()
                    &&& p.squares[t + relation + p.turn.forward()] is None
                    &&& p.squares[t] is None
                }
            },
    ensures
        p.admits_all(moves_where(p, lands, relation, lo)),
    decreases 64 - lo,
{
    if lo < 64 {
        lemma_moves_where_admitted(p, lands, relation, lo + 1);
        if lands(lo) {
            lemma_moves_to_admitted(p, lo + relation, lo);
        }
    }
}

/// Appends to `moves` the moves to each square of `bb`, lowest first, each
/// from the square `relation` square numbers away from its target. A pawn
/// that reaches the first or the last rank gets its four promotions.
pub fn convert_bb_to_moves(chessboard: &Chessboard, bb: u64, relation: i32, moves: &mut Vec<Move>)
    requires
        chessboard.board_ok(),
        -64 < relation < 64,
        forall|s: int| holds(bb, s) ==> 0 <= s + relation < 64,
    ensures
        final(moves)@ == old(moves)@ + chessboard@.moves_over(squares_up(bb, 0), relation as int),
{
    let mut rest = bb;
    let ghost done: Seq<int> = Seq::empty();
    let ghost start = moves@;
    proof {
        assert(start + chessboard@.moves_over(done, relation as int) == start);
    }
    while rest != 0
        invariant
            chessboard.board_ok(),
            -64 < relation < 64,
            forall|s: int| holds(bb, s) ==> 0 <= s + relation < 64,
            forall|s: int| holds(rest, s) ==> holds(bb, s),
            done + squares_up(rest, 0) == squares_up(bb, 0),
            moves@ == start + chessboard@.moves_over(done, relation as int),
        decreases population(rest, 0),
    {
        proof {
            lemma_pop_lowest(rest);
            crate::bitboard::lemma_lowest(rest);
            lemma_holds_bitwise();
        }
        let sq = rest.trailing_zeros();
        let to = Square::from_u32(sq);
        let origin: i32 = sq as i32 + relation;
        let from = Square::from_u32(origin as u32);
        let mv = chessboard.generate_move(from, to);
        let ghost so_far = moves@;
        proof {
            crate::utils::square::lemma_index_square(sq as int);
            crate::utils::square::lemma_index_square(origin as int);
        }
        match chessboard.get_piece(&mv.from) {
            Some(Piece::Pawn) => {
                proof {
                    assert(chessboard.square_ok(origin as int));
                }
                chessboard.generate_promotion_moves(moves, mv);
            },
            _ => {
                proof {
                    assert(chessboard.square_ok(origin as int));
                }
                moves.push(mv);
                assert(moves@ == so_far + seq![mv]);
            },
        }
        proof {
            let next = done.push(sq as int);
            assert(next.drop_last() == done);
            assert(moves@ == so_far + chessboard@.moves_to(origin as int, sq as int));
            assert(moves@ == start + chessboard@.moves_over(next, relation as int)) by {
                assert((start + chessboard@.moves_over(done, relation as int)) + chessboard@.moves_to(
                    origin as int,
                    sq as int,
                ) == start + (chessboard@.moves_over(done, relation as int) + chessboard@.moves_to(
                    origin as int,
                    sq as int,
                )));
            }
            let tail = squares_up(rest ^ (1u64 << sq), 0);
            assert(next + tail == done + (seq![sq as int] + tail));
            done = next;
        }
        rest = rest ^ (1u64 << sq);
    }
    proof {
        lemma_holds_bitwise();
        lemma_squares_up_skip(0u64, 0, 64);
        assert(done + Seq::<int>::empty() == done);
    }
}

} // verus!
