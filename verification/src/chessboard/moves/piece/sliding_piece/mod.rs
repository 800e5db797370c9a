//! Bishops, rooks and queens: pieces that slide along a line until
//! something stands in the way.

pub mod bishop;
pub mod flood;
pub mod lines;
pub mod queen;
pub mod reach;
pub mod rook;
pub mod tables;

use vstd::prelude::*;
use vstd::std_specs::bits::u64_leading_zeros;
use crate::bitboard::{bit_scan_forward, file_of, holds, lemma_holds_bitwise, lemma_pop_highest, lemma_squares_down_skip, shift_one, squares_down};
use crate::chessboard::moves::piece::{held_by, not_held_by};
use crate::chessboard::moves::{lemma_moves_to_admitted, Move};
use crate::chessboard::{Chessboard, Position};
use crate::utils::direction::Direction;
use crate::utils::piece::Piece;
use crate::utils::square::Square;
pub use crate::chessboard::moves::piece::sliding_piece::flood::flood;
pub use crate::chessboard::moves::piece::sliding_piece::lines::{along, between, can_step, clear_between, distance, larger, lemma_file_rank, lemma_longest_ray, lemma_ray_step, lemma_sees_further, lemma_sees_nearer, lemma_step_geometry, longest_ray, next_to, on_bishop_line, on_line, on_rook_line, open_line, ray_length, scaled, sees, slider_attacks, strictly_within, toward};
pub use crate::chessboard::moves::piece::sliding_piece::tables::{mask_of, ring_of, steps_of, SlidingTables};

verus! {

/// The per-square data of one sliding piece: the mask of its lines, the
/// ring of its neighbours, the length of its longest line, and the
/// directions of its rays.
pub struct SlidingPiece {
    pub mask: u64,
    pub init: u64,
    pub step: usize,
    pub directions: Vec<Direction>,
}

impl SlidingPiece {
    /// The data are those of a piece on `square` that slides on diagonals
    /// (`diagonal`) or on files and ranks.
    pub open spec fn is_for(&self, square: int, diagonal: bool) -> bool {
        &&& forall|t: int| #[trigger] holds(self.mask, t) == (0 <= t < 64 && on_line(square, t, diagonal))
        &&& forall|t: int|
            #[trigger] holds(self.init, t) == (0 <= t < 64 && on_line(square, t, diagonal) && distance(square, t)
                == 1)
        &&& self.step == longest_ray(square, diagonal)
        &&& forall|i: int|
            0 <= i < self.directions@.len() ==> (#[trigger] self.directions@[i]).is_diagonal() == diagonal
    }
}

/// The moves from `from`, one to each of `targets` in turn.
pub open spec fn moves_from(p: Position, from: Square, targets: Seq<int>) -> Seq<Move>
    decreases targets.len(),
{
    if targets.len() == 0 {
        Seq::empty()
    } else {
        moves_from(p, from, targets.drop_last()).push(p.plain_move(from, Square::of_index(targets.last())))
    }
}

/// The moves from `from` to every square that `lands` accepts, highest
/// square first from `hi` down.
pub open spec fn moves_from_where(p: Position, from: Square, lands: spec_fn(int) -> bool, hi: int) -> Seq<Move>
    decreases hi + 1,
{
    if hi < 0 {
        Seq::empty()
    } else if lands(hi) {
        seq![p.plain_move(from, Square::of_index(hi))] + moves_from_where(p, from, lands, hi - 1)
    } else {
        moves_from_where(p, from, lands, hi - 1)
    }
}

/// The moves to a list of targets, the first target apart.
pub proof fn lemma_moves_from_first(p: Position, from: Square, first: int, rest: Seq<int>)
    ensures
        moves_from(p, from, seq![first] + rest) == seq![p.plain_move(from, Square::of_index(first))] + moves_from(
            p,
            from,
            rest,
        ),
    decreases rest.len(),
{
    let all = seq![first] + rest;
    if rest.len() == 0 {
        assert(all.drop_last() =~= Seq::<int>::empty());
        assert(all.last() == first);
        assert(moves_from(p, from, all.drop_last()) =~= Seq::<Move>::empty());
        assert(moves_from(p, from, rest) =~= Seq::<Move>::empty());
        assert(moves_from(p, from, all) =~= seq![p.plain_move(from, Square::of_index(first))]);
        assert(seq![p.plain_move(from, Square::of_index(first))] + moves_from(p, from, rest) =~= seq![
            p.plain_move(from, Square::of_index(first)),
        ]);
    } else {
        lemma_moves_from_first(p, from, first, rest.drop_last());
        assert(all.drop_last() =~= seq![first] + rest.drop_last());
        assert(all.last() == rest.last());
        assert(moves_from(p, from, all) =~= seq![p.plain_move(from, Square::of_index(first))] + moves_from(
            p,
            from,
            rest,
        ));
    }
}

/// The moves to the squares of a mask are the moves to the squares that a
/// predicate accepts, where the mask holds exactly those.
pub proof fn lemma_moves_from_where(p: Position, from: Square, bb: u64, lands: spec_fn(int) -> bool, hi: int)
    requires
        hi < 64,
        forall|t: int| 0 <= t <= hi ==> holds(bb, t) == #[trigger] lands(t),
    ensures
        moves_from(p, from, squares_down(bb, hi)) == moves_from_where(p, from, lands, hi),
    decreases hi + 1,
{
    if hi >= 0 {
        lemma_moves_from_where(p, from, bb, lands, hi - 1);
        if holds(bb, hi) {
            lemma_moves_from_first(p, from, hi, squares_down(bb, hi - 1));
        }
    }
}

/// Two predicates that accept the same squares give the same moves.
pub proof fn lemma_moves_from_where_same(
    p: Position,
    from: Square,
    one: spec_fn(int) -> bool,
    other: spec_fn(int) -> bool,
    hi: int,
)
    requires
        hi < 64,
        forall|t: int| 0 <= t <= hi ==> #[trigger] one(t) == other(t),
    ensures
        moves_from_where(p, from, one, hi) == moves_from_where(p, from, other, hi),
    decreases hi + 1,
{
    if hi >= 0 {
        lemma_moves_from_where_same(p, from, one, other, hi - 1);
    }
}

/// Moves from a piece of the side to move that is neither pawn nor king,
/// to squares that its side does not hold, all fit the position.
pub proof fn lemma_moves_from_where_admitted(p: Position, from: Square, lands: spec_fn(int) -> bool, hi: int)
    requires
        p.wf(),
        hi < 64,
        p.squares[from.index()] matches Some((c, k)) && c == p.turn && k != Piece::Pawn && k != Piece::King,
        forall|t: int| 0 <= t <= hi && #[trigger] lands(t) ==> t != from.index() && not_held_by(p, p.turn, t),
    ensures
        p.admits_all(moves_from_where(p, from, lands, hi)),
    decreases hi + 1,
{
    if hi >= 0 {
        lemma_moves_from_where_admitted(p, from, lands, hi - 1);
        if lands(hi) {
            crate::utils::square::lemma_square_index(from);
            lemma_moves_to_admitted(p, from.index(), hi);
            assert(p.moves_to(from.index(), hi)[0] == p.plain_move(from, Square::of_index(hi)));
        }
    }
}

/// The moves of a sliding piece on `from` along one ray, beyond the empty
/// square `cur` of that ray: to the next square unless a man of `allies`
/// holds it, and further on while the squares are empty, for `fuel` steps
/// at most.
pub open spec fn ray_moves(
    p: Position,
    allies: u64,
    from: Square,
    cur: int,
    direction: Direction,
    fuel: nat,
) -> Seq<Move>
    decreases fuel,
{
    let t = cur + direction.offset();
    if fuel == 0 || !can_step(cur, direction) || holds(allies, t) {
        Seq::empty()
    } else if p.squares[t] is None {
        seq![p.plain_move(from, Square::of_index(t))] + ray_moves(
            p,
            allies,
            from,
            t,
            direction,
            (fuel - 1) as nat,
        )
    } else {
        seq![p.plain_move(from, Square::of_index(t))]
    }
}

/// The moves of a sliding piece on `from` in one direction to squares two
/// or more steps away: none unless the neighbour in that direction is
/// empty.
pub open spec fn direction_moves(
    p: Position,
    allies: u64,
    from: Square,
    direction: Direction,
    fuel: nat,
) -> Seq<Move> {
    let first = from.index() + direction.offset();
    if can_step(from.index(), direction) && !holds(allies, first) && p.squares[first] is None {
        ray_moves(p, allies, from, first, direction, fuel)
    } else {
        Seq::empty()
    }
}

/// The moves of a sliding piece on `from` in each of `directions` in turn,
/// to squares two or more steps away.
pub open spec fn rays_moves(
    p: Position,
    allies: u64,
    from: Square,
    directions: Seq<Direction>,
    fuel: nat,
) -> Seq<Move>
    decreases directions.len(),
{
    if directions.len() == 0 {
        Seq::empty()
    } else {
        rays_moves(p, allies, from, directions.drop_last(), fuel) + direction_moves(
            p,
            allies,
            from,
            directions.last(),
            fuel,
        )
    }
}

/// Square `t` is a neighbour of `from` on a line of the piece that no man
/// of `allies` holds.
pub open spec fn ring_lands(allies: u64, from: int, diagonal: bool, t: int) -> bool {
    0 <= t < 64 && on_line(from, t, diagonal) && distance(from, t) == 1 && !holds(allies, t)
}

/// The moves of a sliding piece on `from`: first those to its neighbours,
/// highest square first, then for each direction in turn those further
/// along the ray.
pub open spec fn sliding_moves(
    p: Position,
    allies: u64,
    from: Square,
    diagonal: bool,
    directions: Seq<Direction>,
    fuel: nat,
) -> Seq<Move> {
    moves_from_where(p, from, |t: int| ring_lands(allies, from.index(), diagonal, t), 63) + rays_moves(
        p,
        allies,
        from,
        directions,
        fuel,
    )
}

/// Appends to `moves` the moves from `from` to each square of `bb`, highest
/// first.
pub fn convert_bb_to_moves(chessboard: &Chessboard, bb: u64, from: Square, moves: &mut Vec<Move>)
    requires
        chessboard.board_ok(),
    ensures
        final(moves)@ == old(moves)@ + moves_from(chessboard@, from, squares_down(bb, 63)),
{
    let mut rest: u64 = bb;
    let ghost done: Seq<int> = Seq::empty();
    let ghost start = moves@;
    proof {
        assert(start + moves_from(chessboard@, from, done) == start);
    }
    while rest != 0
        invariant
            chessboard.board_ok(),
            done + squares_down(rest, 63) == squares_down(bb, 63),
            moves@ == start + moves_from(chessboard@, from, done),
        decreases rest,
    {
        proof {
            lemma_pop_highest(rest);
            crate::bitboard::lemma_highest(rest);
            lemma_holds_bitwise();
        }
        let square = bit_scan_forward(rest);
        let to = Square::from_u32(square);
        moves.push(chessboard.generate_move(from, to));
        proof {
            assert(rest ^ (1u64 << square) < rest) by {
                crate::bitboard::lemma_mask_shrinks(rest, square as u64);
            }
            let next = done.push(square as int);
            assert(next.drop_last() == done);
            let tail = squares_down(rest ^ (1u64 << square), 63);
            assert(next + tail == done + (seq![square as int] + tail));
            done = next;
        }
        rest = rest ^ (1u64 << square);
    }
    proof {
        lemma_holds_bitwise();
        lemma_squares_down_skip(0u64, 63, -1);
        assert(done + Seq::<int>::empty() == done);
    }
}

/// On a sound board the empty mask holds exactly the squares without a man.
pub proof fn lemma_vacant(board: &Chessboard)
    requires
        board.board_ok(),
    ensures
        forall|s: int| 0 <= s < 64 ==> #[trigger] holds(board.empty_board, s) == (board@.squares[s] is None),
{
    assert forall|s: int| 0 <= s < 64 implies #[trigger] holds(board.empty_board, s) == (board@.squares[s] is None) by {
        assert(board.square_ok(s));
    }
}

/// Where a ray starts: on the neighbour of the piece in the ray's
/// direction, if that is an empty square of the ring that no man of
/// `allies` holds.
proof fn lemma_ray_start(
    p: Position,
    from: int,
    direction: Direction,
    from_bb: u64,
    first: u64,
    init: u64,
    allies: u64,
    empty: u64,
    ray: u64,
)
    requires
        0 <= from < 64,
        p.squares.len() == 64,
        forall|s: int| #[trigger] holds(from_bb, s) == (s == from),
        forall|s: int|
            #[trigger] holds(first, s) == (0 <= s < 64 && 0 <= file_of(s) - direction.df() < 8 && holds(
                from_bb,
                s - direction.offset(),
            )),
        forall|t: int|
            #[trigger] holds(init, t) == (0 <= t < 64 && on_line(from, t, direction.is_diagonal()) && distance(
                from,
                t,
            ) == 1),
        forall|s: int| 0 <= s < 64 ==> #[trigger] holds(empty, s) == (p.squares[s] is None),
        ray == first & init & !allies & empty,
    ensures
        (ray != 0) == (can_step(from, direction) && !holds(allies, from + direction.offset()) && p.squares[from
            + direction.offset()] is None),
        ray != 0 ==> {
            &&& forall|t: int| #[trigger] holds(ray, t) == (t == from + direction.offset())
            &&& along(from, from + direction.offset(), direction, 1)
        },
{
    let cur = from + direction.offset();
    lemma_holds_bitwise();
    lemma_ray_step(from, from, direction, 0);
    crate::bitboard::lemma_zero_mask(ray);
    assert(forall|t: int| holds(ray, t) ==> t == cur);
    let starts = can_step(from, direction) && !holds(allies, cur) && p.squares[cur] is None;
    if ray != 0 {
        assert(holds(ray, cur));
    } else {
        if starts {
            assert(holds(first, cur));
            assert(holds(init, cur));
            assert(holds(empty, cur));
            assert(holds(ray, cur));
        }
    }
}

/// One round of a ray: from the empty square `cur` the ray reaches the next
/// square `t` if the board goes on and no man of `allies` holds `t`, and it
/// lives on if `t` is empty.
proof fn lemma_ray_round(
    p: Position,
    from: int,
    cur: int,
    direction: Direction,
    n: int,
    ray: u64,
    shifted: u64,
    mask: u64,
    allies: u64,
    empty: u64,
    hit: u64,
    next: u64,
)
    requires
        0 <= from < 64,
        p.squares.len() == 64,
        along(from, cur, direction, n),
        forall|s: int| #[trigger] holds(ray, s) == (s == cur),
        forall|s: int|
            #[trigger] holds(shifted, s) == (0 <= s < 64 && 0 <= file_of(s) - direction.df() < 8 && holds(
                ray,
                s - direction.offset(),
            )),
        forall|t: int| #[trigger] holds(mask, t) == (0 <= t < 64 && on_line(from, t, direction.is_diagonal())),
        forall|s: int| 0 <= s < 64 ==> #[trigger] holds(empty, s) == (p.squares[s] is None),
        hit == shifted & mask & !allies,
        next == hit & empty,
    ensures
        (hit != 0) == (can_step(cur, direction) && !holds(allies, cur + direction.offset())),
        hit != 0 ==> 63 - u64_leading_zeros(hit) == cur + direction.offset(),
        (next != 0) == (hit != 0 && p.squares[cur + direction.offset()] is None),
        next != 0 ==> {
            &&& forall|s: int| #[trigger] holds(next, s) == (s == cur + direction.offset())
            &&& along(from, cur + direction.offset(), direction, n + 1)
        },
{
    let t = cur + direction.offset();
    lemma_holds_bitwise();
    lemma_ray_step(from, cur, direction, n);
    crate::bitboard::lemma_zero_mask(hit);
    crate::bitboard::lemma_zero_mask(next);
    assert(forall|s: int| holds(hit, s) ==> s == t);
    assert(forall|s: int| holds(next, s) ==> s == t);
    let lands = can_step(cur, direction) && !holds(allies, t);
    if hit != 0 {
        assert(holds(hit, t));
        crate::bitboard::lemma_highest(hit);
    } else {
        if lands {
            assert(holds(shifted, t));
            assert(holds(mask, t));
            assert(holds(hit, t));
        }
    }
    if next != 0 {
        assert(holds(next, t));
    } else {
        if hit != 0 && p.squares[t] is None {
            assert(holds(next, t));
        }
    }
}

impl Chessboard {
    /// Appends the moves of the sliding piece on `square` along the ray in
    /// `direction`, beyond its neighbour.
    fn walk_ray(
        &self,
        square: usize,
        allies: u64,
        sliding: &SlidingPiece,
        direction: Direction,
        moves: &mut Vec<Move>,
        Ghost(diagonal): Ghost<bool>,
    )
        requires
            self.board_ok(),
            square < 64,
            sliding.is_for(square as int, diagonal),
            direction.is_diagonal() == diagonal,
        ensures
            final(moves)@ == old(moves)@ + direction_moves(
                self@,
                allies,
                Square::of_index(square as int),
                direction,
                sliding.step as nat,
            ),
    {
        let from = Square::from_u32(square as u32);
        let from_bb = from.to_bitboard();
        let ghost p = self@;
        let ghost start = moves@;
        let ghost cur: int = square as int + direction.offset();
        let first = shift_one(from_bb, direction);
        let mut ray: u64 = first & sliding.init & !allies & self.empty_board;
        let mut j: usize = 0;
        proof {
            lemma_vacant(self);
            lemma_ray_start(
                p,
                square as int,
                direction,
                from_bb,
                first,
                sliding.init,
                allies,
                self.empty_board,
                ray,
            );
            assert(start + direction_moves(p, allies, from, direction, sliding.step as nat) =~= moves@
                + direction_moves(p, allies, from, direction, sliding.step as nat));
        }
        while j < sliding.step && ray != 0
            invariant
                self.board_ok(),
                p == self@,
                square < 64,
                from == Square::of_index(square as int),
                sliding.is_for(square as int, diagonal),
                direction.is_diagonal() == diagonal,
                j <= sliding.step,
                ray != 0 ==> {
                    &&& forall|t: int| #[trigger] holds(ray, t) == (t == cur)
                    &&& p.squares[cur] is None
                    &&& along(square as int, cur, direction, j + 1)
                },
                moves@ + (if ray != 0 {
                    ray_moves(p, allies, from, cur, direction, (sliding.step - j) as nat)
                } else {
                    Seq::empty()
                }) == start + direction_moves(p, allies, from, direction, sliding.step as nat),
            decreases sliding.step - j,
        {
            let ghost old_ray = ray;
            let shifted = shift_one(ray, direction);
            let hit = shifted & sliding.mask & !allies;
            let ghost t = cur + direction.offset();
            let ghost so_far = moves@;
            let ghost before = ray_moves(p, allies, from, cur, direction, (sliding.step - j) as nat);
            let next = hit & self.empty_board;
            proof {
                lemma_vacant(self);
                lemma_ray_round(
                    p,
                    square as int,
                    cur,
                    direction,
                    j + 1,
                    old_ray,
                    shifted,
                    sliding.mask,
                    allies,
                    self.empty_board,
                    hit,
                    next,
                );
            }
            if hit != 0 {
                moves.push(self.convert_bb_to_move(from, hit));
            }
            ray = next;
            proof {
                let after = if ray != 0 {
                    ray_moves(p, allies, from, t, direction, (sliding.step - j - 1) as nat)
                } else {
                    Seq::empty()
                };
                let mv = p.plain_move(from, Square::of_index(t));
                if hit != 0 {
                    assert(moves@ == so_far.push(mv));
                    if ray != 0 {
                        assert(before == seq![mv] + after);
                    } else {
                        assert(before == seq![mv]);
                    }
                } else {
                    assert(moves@ == so_far);
                    assert(before == Seq::<Move>::empty());
                }
                assert(moves@ + after =~= so_far + before);
                cur = t;
            }
            j = j + 1;
        }
        proof {
            assert(moves@ + Seq::<Move>::empty() == moves@);
        }
    }

    /// Appends the moves of the sliding piece that stands on `square`:
    /// those to its neighbours first, then ray by ray those further away.
    /// A ray ends at the first square that is not empty, which is a target
    /// itself unless a man of `allies` holds it.
    pub fn generate_sliding_piece_moves(
        &self,
        square: usize,
        allies: u64,
        sliding: &SlidingPiece,
        moves: &mut Vec<Move>,
    )
        requires
            self.board_ok(),
            square < 64,
            sliding.is_for(square as int, true) || sliding.is_for(square as int, false),
        ensures
            final(moves)@ == old(moves)@ + sliding_moves(
                self@,
                allies,
                Square::of_index(square as int),
                sliding.is_for(square as int, true),
                sliding.directions@,
                sliding.step as nat,
            ),
    {
        let ghost diagonal = sliding.is_for(square as int, true);
        let ghost p = self@;
        let ghost start = moves@;
        let from = Square::from_u32(square as u32);
        let init = sliding.init & !allies;
        proof {
            lemma_holds_bitwise();
            if !diagonal {
                assert(sliding.is_for(square as int, false));
            }
            lemma_moves_from_where(p, from, init, |t: int| ring_lands(allies, from.index(), diagonal, t), 63);
        }
        convert_bb_to_moves(self, init, from, moves);
        let ghost ring = moves@;
        let mut i: usize = 0;
        proof {
            assert(sliding.directions@.take(0) =~= Seq::<Direction>::empty());
            assert(ring + rays_moves(p, allies, from, sliding.directions@.take(0), sliding.step as nat) == ring);
        }
        while i < sliding.directions.len()
            invariant
                self.board_ok(),
                p == self@,
                square < 64,
                from == Square::of_index(square as int),
                sliding.is_for(square as int, diagonal),
                i <= sliding.directions@.len(),
                moves@ == ring + rays_moves(p, allies, from, sliding.directions@.take(i as int), sliding.step as nat),
            decreases sliding.directions@.len() - i,
        {
            let direction = sliding.directions[i];
            let ghost so_far = moves@;
            self.walk_ray(square, allies, sliding, direction, moves, Ghost(diagonal));
            proof {
                let upto = sliding.directions@.take(i as int + 1);
                assert(upto.drop_last() =~= sliding.directions@.take(i as int));
                assert(upto.last() == direction);
                assert(moves@ =~= ring + rays_moves(p, allies, from, upto, sliding.step as nat));
            }
            i = i + 1;
        }
        proof {
            assert(sliding.directions@.take(sliding.directions@.len() as int) =~= sliding.directions@);
            assert(moves@ =~= start + sliding_moves(
                p,
                allies,
                from,
                diagonal,
                sliding.directions@,
                sliding.step as nat,
            ));
        }
    }

    /// The move from `from` to the highest square of `bb`.
    pub fn convert_bb_to_move(&self, from: Square, bb: u64) -> (m: Move)
        requires
            self.board_ok(),
            bb != 0,
        ensures
            m == self@.plain_move(from, Square::of_index(63 - u64_leading_zeros(bb))),
    {
        self.generate_move(from, Square::from_u32(bit_scan_forward(bb)))
    }
}

/// On a sound board, what a slider attacks over the empty mask is what it
/// attacks over the squares.
pub proof fn lemma_sees_on_board(board: &Chessboard, from: int, t: int, diagonal: bool)
    requires
        board.board_ok(),
    ensures
        sees(board.empty_board, from, t, diagonal) == slider_attacks(board@, from, t, diagonal),
{
    lemma_vacant(board);
    if sees(board.empty_board, from, t, diagonal) {
        assert forall|m: int| between(from, m, t) implies #[trigger] board@.squares[m] is None by {
            assert(holds(board.empty_board, m));
        }
    }
    if slider_attacks(board@, from, t, diagonal) {
        assert forall|m: int| between(from, m, t) implies #[trigger] holds(board.empty_board, m) by {
            assert(board@.squares[m] is None);
        }
    }
}

/// The results of `each` for the squares of `list` in turn, one after the
/// other.
pub open spec fn each_in_turn(list: Seq<int>, each: spec_fn(int) -> Seq<Move>) -> Seq<Move>
    decreases list.len(),
{
    if list.len() == 0 {
        Seq::empty()
    } else {
        each_in_turn(list.drop_last(), each) + each(list.last())
    }
}

/// Every move of every result fits the position if every result does.
pub proof fn lemma_each_in_turn_admitted(p: Position, list: Seq<int>, each: spec_fn(int) -> Seq<Move>)
    requires
        forall|i: int| 0 <= i < list.len() ==> p.admits_all(#[trigger] each(list[i])),
    ensures
        p.admits_all(each_in_turn(list, each)),
    decreases list.len(),
{
    if list.len() > 0 {
        lemma_each_in_turn_admitted(p, list.drop_last(), each);
        assert(p.admits_all(each(list[list.len() - 1])));
    }
}

/// The moves along a ray all fit the position when they start from a
/// bishop, rook or queen of the side to move and `allies` holds its men.
pub proof fn lemma_ray_moves_admitted(
    p: Position,
    allies: u64,
    from: Square,
    cur: int,
    direction: Direction,
    fuel: nat,
    n: int,
)
    requires
        p.wf(),
        p.squares[from.index()] matches Some((c, k)) && c == p.turn && k != Piece::Pawn && k != Piece::King,
        forall|t: int| 0 <= t < 64 ==> #[trigger] holds(allies, t) == held_by(p, p.turn, t),
        along(from.index(), cur, direction, n) || (n == 0 && cur == from.index()),
    ensures
        p.admits_all(ray_moves(p, allies, from, cur, direction, fuel)),
    decreases fuel,
{
    crate::utils::square::lemma_square_index(from);
    let t = cur + direction.offset();
    lemma_ray_step(from.index(), cur, direction, n);
    if fuel == 0 || !can_step(cur, direction) || holds(allies, t) {
    } else {
        lemma_moves_to_admitted(p, from.index(), t);
        assert(p.moves_to(from.index(), t)[0] == p.plain_move(from, Square::of_index(t)));
        if p.squares[t] is None {
            lemma_ray_moves_admitted(p, allies, from, t, direction, (fuel - 1) as nat, n + 1);
        }
    }
}

/// The moves of a sliding piece all fit the position when it is a bishop,
/// rook or queen of the side to move and `allies` holds its men.
pub proof fn lemma_sliding_moves_admitted(
    p: Position,
    allies: u64,
    from: Square,
    diagonal: bool,
    directions: Seq<Direction>,
    fuel: nat,
)
    requires
        p.wf(),
        p.squares[from.index()] matches Some((c, k)) && c == p.turn && k != Piece::Pawn && k != Piece::King,
        forall|t: int| 0 <= t < 64 ==> #[trigger] holds(allies, t) == held_by(p, p.turn, t),
    ensures
        p.admits_all(rays_moves(p, allies, from, directions, fuel)),
        p.admits_all(sliding_moves(p, allies, from, diagonal, directions, fuel)),
    decreases directions.len(),
{
    crate::utils::square::lemma_square_index(from);
    lemma_moves_from_where_admitted(p, from, |t: int| ring_lands(allies, from.index(), diagonal, t), 63);
    if directions.len() > 0 {
        lemma_sliding_moves_admitted(p, allies, from, diagonal, directions.drop_last(), fuel);
        let direction = directions.last();
        let first = from.index() + direction.offset();
        lemma_ray_step(from.index(), from.index(), direction, 0);
        if can_step(from.index(), direction) {
            lemma_ray_moves_admitted(p, allies, from, first, direction, fuel, 1);
        }
    }
}

} // verus!
