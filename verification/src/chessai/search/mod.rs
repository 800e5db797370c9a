//! Choosing a move: move ordering by exchange value, and the search for the
//! best move.

pub mod alpha_beta;
pub mod minimax;
pub mod negamax;

use vstd::prelude::*;
use crate::chessai::evaluation::basic::material::{piece_value, worth};
use crate::chessai::evaluation::{MAX_SCORE, MIN_SCORE};
use crate::chessai::search::alpha_beta::search;
use crate::chessai::Ai;
use crate::chessboard::moves::{lemma_legal_moves_admitted, lemma_make_unmake, Move};
use crate::chessboard::{Chessboard, Position};
use crate::utils::square::Square;

verus! {

/// How many captures on one square an exchange is followed for.
pub const EXCHANGE_DEPTH: u8 = 64;

/// What `m` wins at once: the worth of the piece it promotes to, or else of
/// the piece it captures.
pub open spec fn gain(m: Move) -> int {
    match m.promotion {
        Some(k) => worth(k),
        None => match m.capture {
            Some(k) => worth(k),
            None => 0,
        },
    }
}

/// The exchange value of `m`: zero for a move that neither captures nor
/// promotes; else what it wins at once, less the best exchange value among
/// the legal replies that land on the same square, if there is such a
/// reply. The exchange is followed for `fuel` replies at most.
pub open spec fn exchange(p: Position, m: Move, fuel: nat) -> int
    decreases fuel, 0nat, 0nat,
{
    if m.capture is None && m.promotion is None {
        0
    } else if fuel == 0 {
        gain(m)
    } else {
        gain(m) - (match best_recapture(p.make(m), m.to, p.make(m).legal_moves(), (fuel - 1) as nat) {
            Some(best) => best,
            None => 0,
        })
    }
}

/// The best exchange value among those of `replies` that land on `target`,
/// if any does.
pub open spec fn best_recapture(q: Position, target: Square, replies: Seq<Move>, fuel: nat) -> Option<int>
    decreases fuel, 1nat, replies.len(),
{
    if replies.len() == 0 {
        None
    } else {
        let rest = best_recapture(q, target, replies.drop_last(), fuel);
        let reply = replies.last();
        if reply.to == target {
            let value = exchange(q, reply, fuel);
            match rest {
                Some(best) => Some(
                    if best >= value {
                        best
                    } else {
                        value
                    },
                ),
                None => Some(value),
            }
        } else {
            rest
        }
    }
}

/// The score of move `m` in position `p`: that of the position after it,
/// searched `depth` moves deep for the side that moves in `p`.
#[verifier::opaque]
pub open spec fn move_score(p: Position, stalemate_draws: bool, depth: nat, m: Move) -> int {
    search(p.make(m), p.turn, stalemate_draws, depth, MIN_SCORE as int, MAX_SCORE as int)
}

/// The best of `moves` from number `i` on, with `best` found before them at
/// the score `best_score`: each move is made and the position searched
/// `depth` moves deep for the side that moves in `p`; a move takes the
/// place of the best one before it only with a higher score.
pub open spec fn pick(
    p: Position,
    stalemate_draws: bool,
    depth: nat,
    moves: Seq<Move>,
    i: int,
    best: Option<Move>,
    best_score: int,
) -> Option<Move>
    decreases moves.len() - i,
{
    if i < 0 || i >= moves.len() {
        best
    } else {
        let score = move_score(p, stalemate_draws, depth, moves[i]);
        if best is None || score > best_score {
            pick(p, stalemate_draws, depth, moves, i + 1, Some(moves[i]), score)
        } else {
            pick(p, stalemate_draws, depth, moves, i + 1, best, best_score)
        }
    }
}

/// The move that the search chooses for the side to move in `p`: among its
/// legal moves in the order of the search, the first with the highest
/// score. None if there is no legal move.
pub open spec fn best_move(p: Position, stalemate_draws: bool, depth: nat) -> Option<Move> {
    pick(p, stalemate_draws, depth, ordered(p, p.legal_moves()), 0, None, MIN_SCORE as int)
}

/// The search picks one of the moves it is given, and picks none only if
/// it is given none and had none before.
pub proof fn lemma_pick(
    p: Position,
    stalemate_draws: bool,
    depth: nat,
    moves: Seq<Move>,
    i: int,
    best: Option<Move>,
    best_score: int,
)
    requires
        0 <= i <= moves.len(),
    ensures
        (pick(p, stalemate_draws, depth, moves, i, best, best_score) is None) == (best is None && i == moves.len()),
        pick(p, stalemate_draws, depth, moves, i, best, best_score) == best || moves.contains(
            pick(p, stalemate_draws, depth, moves, i, best, best_score)->Some_0,
        ),
    decreases moves.len() - i,
{
    if i < moves.len() {
        let score = move_score(p, stalemate_draws, depth, moves[i]);
        if best is None || score > best_score {
            lemma_pick(p, stalemate_draws, depth, moves, i + 1, Some(moves[i]), score);
        } else {
            lemma_pick(p, stalemate_draws, depth, moves, i + 1, best, best_score);
        }
    }
}

/// Move number `k` is the first of `moves` with the highest score.
pub open spec fn first_highest(p: Position, stalemate_draws: bool, depth: nat, moves: Seq<Move>, k: int) -> bool {
    &&& 0 <= k < moves.len()
    &&& forall|j: int|
        0 <= j < moves.len() ==> move_score(p, stalemate_draws, depth, #[trigger] moves[j]) <= move_score(
            p,
            stalemate_draws,
            depth,
            moves[k],
        )
    &&& forall|j: int|
        0 <= j < k ==> move_score(p, stalemate_draws, depth, #[trigger] moves[j]) < move_score(
            p,
            stalemate_draws,
            depth,
            moves[k],
        )
}

/// What the search picks from move number `i` on is the first move with
/// the highest score, counting the best move before `i`, which is move
/// number `k`.
proof fn lemma_pick_first_highest(
    p: Position,
    stalemate_draws: bool,
    depth: nat,
    moves: Seq<Move>,
    i: int,
    k: int,
)
    requires
        0 <= k < i <= moves.len(),
        forall|j: int|
            0 <= j < i ==> move_score(p, stalemate_draws, depth, #[trigger] moves[j]) <= move_score(
                p,
                stalemate_draws,
                depth,
                moves[k],
            ),
        forall|j: int|
            0 <= j < k ==> move_score(p, stalemate_draws, depth, #[trigger] moves[j]) < move_score(
                p,
                stalemate_draws,
                depth,
                moves[k],
            ),
    ensures
        exists|best: int|
            first_highest(p, stalemate_draws, depth, moves, best) && pick(
                p,
                stalemate_draws,
                depth,
                moves,
                i,
                Some(moves[k]),
                move_score(p, stalemate_draws, depth, moves[k]),
            ) == Some(#[trigger] moves[best]),
    decreases moves.len() - i,
{
    if i >= moves.len() {
        assert(first_highest(p, stalemate_draws, depth, moves, k));
    } else {
        let score = move_score(p, stalemate_draws, depth, moves[i]);
        if score > move_score(p, stalemate_draws, depth, moves[k]) {
            lemma_pick_first_highest(p, stalemate_draws, depth, moves, i + 1, i);
        } else {
            lemma_pick_first_highest(p, stalemate_draws, depth, moves, i + 1, k);
        }
    }
}

/// The move that the search chooses is, among the legal moves in the order
/// of the search, the first with the highest score: a later move takes its
/// place only with a strictly higher score. The choice depends on nothing
/// but the position, the depth and the scoring of stalemates.
pub proof fn lemma_best_move_is_first_highest(p: Position, stalemate_draws: bool, depth: nat)
    requires
        p.wf(),
        p.legal_moves().len() > 0,
    ensures
        exists|best: int|
            first_highest(p, stalemate_draws, depth, ordered(p, p.legal_moves()), best) && best_move(
                p,
                stalemate_draws,
                depth,
            ) == Some(#[trigger] ordered(p, p.legal_moves())[best]),
{
    let moves = ordered(p, p.legal_moves());
    lemma_legal_moves_admitted(p);
    lemma_ordered_admitted(p, p.legal_moves());
    lemma_pick_first_highest(p, stalemate_draws, depth, moves, 1, 0);
}

/// The exchange value of `m`, the exchange followed as far as the search
/// follows it.
#[verifier::opaque]
pub open spec fn exchange_value(p: Position, m: Move) -> int {
    exchange(p, m, EXCHANGE_DEPTH as nat)
}

/// `sorted` with `m` put in behind every move whose exchange value is not
/// smaller than its own.
pub open spec fn place(p: Position, sorted: Seq<Move>, m: Move) -> Seq<Move>
    decreases sorted.len(),
{
    if sorted.len() == 0 {
        seq![m]
    } else if exchange_value(p, sorted.last()) >= exchange_value(p, m) {
        sorted.push(m)
    } else {
        place(p, sorted.drop_last(), m).push(sorted.last())
    }
}

/// `moves` in the order of the search: by falling exchange value, moves of
/// equal value in the order they came in.
pub open spec fn ordered(p: Position, moves: Seq<Move>) -> Seq<Move>
    decreases moves.len(),
{
    if moves.len() == 0 {
        Seq::empty()
    } else {
        place(p, ordered(p, moves.drop_last()), moves.last())
    }
}

/// An exchange value is bounded by the worth of a king for each capture.
pub proof fn lemma_exchange_bounds(p: Position, m: Move, fuel: nat)
    ensures
        -2000 * (fuel + 1) <= exchange(p, m, fuel) <= 2000 * (fuel + 1),
    decreases fuel, 0nat, 0nat,
{
    if m.capture is None && m.promotion is None {
    } else if fuel == 0 {
    } else {
        lemma_best_recapture_bounds(p.make(m), m.to, p.make(m).legal_moves(), (fuel - 1) as nat);
    }
}

/// The best exchange value of a reply is bounded as each of them is.
pub proof fn lemma_best_recapture_bounds(q: Position, target: Square, replies: Seq<Move>, fuel: nat)
    ensures
        match best_recapture(q, target, replies, fuel) {
            Some(best) => -2000 * (fuel + 1) <= best <= 2000 * (fuel + 1),
            None => true,
        },
    decreases fuel, 1nat, replies.len(),
{
    if replies.len() > 0 {
        lemma_best_recapture_bounds(q, target, replies.drop_last(), fuel);
        lemma_exchange_bounds(q, replies.last(), fuel);
    }
}

/// Where `place` puts a move: behind the last move whose value is not
/// smaller.
pub proof fn lemma_place(p: Position, sorted: Seq<Move>, m: Move, k: int)
    requires
        0 <= k <= sorted.len(),
        forall|j: int|
            k <= j < sorted.len() ==> exchange_value(p, #[trigger] sorted[j]) < exchange_value(p, m),
        k > 0 ==> exchange_value(p, sorted[k - 1]) >= exchange_value(p, m),
    ensures
        place(p, sorted, m) == sorted.insert(k, m),
    decreases sorted.len(),
{
    if sorted.len() == 0 {
        assert(sorted.insert(k, m) =~= seq![m]);
    } else if k == sorted.len() {
        assert(sorted.insert(k, m) =~= sorted.push(m));
    } else {
        assert(exchange_value(p, sorted[sorted.len() - 1]) < exchange_value(p, m));
        lemma_place(p, sorted.drop_last(), m, k);
        assert(sorted.insert(k, m) =~= sorted.drop_last().insert(k, m).push(sorted.last()));
    }
}

/// Putting a move in among moves that fit the position leaves moves that
/// fit it.
pub proof fn lemma_place_admitted(p: Position, sorted: Seq<Move>, m: Move)
    requires
        p.admits_all(sorted),
        p.admits(m),
    ensures
        p.admits_all(place(p, sorted, m)),
        place(p, sorted, m).len() == sorted.len() + 1,
    decreases sorted.len(),
{
    if sorted.len() == 0 {
    } else if exchange_value(p, sorted.last()) >= exchange_value(p, m) {
    } else {
        let rest = sorted.drop_last();
        assert forall|i: int| 0 <= i < rest.len() implies p.admits(#[trigger] rest[i]) by {
            assert(rest[i] == sorted[i]);
        }
        lemma_place_admitted(p, rest, m);
        assert(p.admits(sorted[sorted.len() - 1]));
    }
}

/// Ordering moves that fit the position leaves as many moves, which fit
/// it.
pub proof fn lemma_ordered_admitted(p: Position, moves: Seq<Move>)
    requires
        p.admits_all(moves),
    ensures
        p.admits_all(ordered(p, moves)),
        ordered(p, moves).len() == moves.len(),
    decreases moves.len(),
{
    if moves.len() > 0 {
        let rest = moves.drop_last();
        assert forall|i: int| 0 <= i < rest.len() implies p.admits(#[trigger] rest[i]) by {
            assert(rest[i] == moves[i]);
        }
        lemma_ordered_admitted(p, rest);
        assert(p.admits(moves[moves.len() - 1]));
        lemma_place_admitted(p, ordered(p, rest), moves.last());
    }
}

/// `moves` by falling value, moves of equal value in the order they came
/// in; `values` holds the exchange value of each move.
fn sort_by_values(moves: &Vec<Move>, values: &Vec<i32>, Ghost(p): Ghost<Position>) -> (sorted: Vec<Move>)
    requires
        values@.len() == moves@.len(),
        forall|j: int|
            0 <= j < moves@.len() ==> #[trigger] values@[j] == exchange_value(p, moves@[j]),
    ensures
        sorted@ == ordered(p, moves@),
{
    let mut sorted: Vec<Move> = Vec::new();
    let mut ranks: Vec<i32> = Vec::new();
    let mut i: usize = 0;
    proof {
        assert(moves@.take(0) =~= Seq::<Move>::empty());
    }
    while i < moves.len()
        invariant
            i <= moves@.len(),
            values@.len() == moves@.len(),
            forall|j: int|
                0 <= j < moves@.len() ==> #[trigger] values@[j] == exchange_value(p, moves@[j]),
            sorted@ == ordered(p, moves@.take(i as int)),
            ranks@.len() == sorted@.len(),
            forall|j: int|
                0 <= j < sorted@.len() ==> #[trigger] ranks@[j] == exchange_value(p, sorted@[j]),
        decreases moves@.len() - i,
    {
        let m = moves[i];
        let value = values[i];
        let mut k: usize = sorted.len();
        while k > 0 && ranks[k - 1] < value
            invariant
                k <= sorted@.len(),
                ranks@.len() == sorted@.len(),
                forall|j: int| k <= j < sorted@.len() ==> #[trigger] ranks@[j] < value,
            decreases k,
        {
            k = k - 1;
        }
        proof {
            assert(value == exchange_value(p, m));
            assert forall|j: int| k <= j < sorted@.len() implies exchange_value(p, #[trigger] sorted@[j]) < exchange_value(p, m) by {
                assert(ranks@[j] < value);
            }
            if k > 0 {
                assert(ranks@[k - 1] >= value);
            }
            lemma_place(p, sorted@, m, k as int);
            let upto = moves@.take(i as int + 1);
            assert(upto.drop_last() =~= moves@.take(i as int));
            assert(upto.last() == m);
        }
        sorted.insert(k, m);
        ranks.insert(k, value);
        i = i + 1;
    }
    proof {
        assert(moves@.take(moves@.len() as int) =~= moves@);
    }
    sorted
}

/// Putting a move in keeps the moves that were there and adds the one.
pub proof fn lemma_place_keeps(p: Position, sorted: Seq<Move>, m: Move)
    ensures
        place(p, sorted, m).to_multiset() == sorted.to_multiset().insert(m),
    decreases sorted.len(),
{
    if sorted.len() == 0 {
        assert(seq![m] =~= sorted.push(m));
        vstd::seq_lib::to_multiset_build(sorted, m);
    } else if exchange_value(p, sorted.last()) >= exchange_value(p, m) {
        vstd::seq_lib::to_multiset_build(sorted, m);
    } else {
        let rest = sorted.drop_last();
        lemma_place_keeps(p, rest, m);
        vstd::seq_lib::to_multiset_build(place(p, rest, m), sorted.last());
        vstd::seq_lib::to_multiset_build(rest, sorted.last());
        assert(rest.push(sorted.last()) =~= sorted);
        assert(place(p, sorted, m).to_multiset() =~= sorted.to_multiset().insert(m));
    }
}

/// The order of the search holds each move as often as it was given.
pub proof fn lemma_ordered_keeps(p: Position, moves: Seq<Move>)
    ensures
        ordered(p, moves).to_multiset() == moves.to_multiset(),
    decreases moves.len(),
{
    if moves.len() == 0 {
        assert(ordered(p, moves) =~= moves);
    } else {
        let rest = moves.drop_last();
        lemma_ordered_keeps(p, rest);
        lemma_place_keeps(p, ordered(p, rest), moves.last());
        vstd::seq_lib::to_multiset_build(rest, moves.last());
        assert(rest.push(moves.last()) =~= moves);
    }
}

/// `moves` come by falling exchange value.
pub open spec fn falls(p: Position, moves: Seq<Move>) -> bool {
    forall|i: int, j: int|
        0 <= i < j < moves.len() ==> exchange_value(p, #[trigger] moves[i]) >= exchange_value(p, #[trigger] moves[j])
}

/// Putting a move in among moves that come by falling value leaves them
/// so.
pub proof fn lemma_place_falls(p: Position, sorted: Seq<Move>, m: Move)
    requires
        falls(p, sorted),
    ensures
        falls(p, place(p, sorted, m)),
        forall|i: int|
            0 <= i < place(p, sorted, m).len() ==> #[trigger] place(p, sorted, m)[i] == m || sorted.contains(
                place(p, sorted, m)[i],
            ),
    decreases sorted.len(),
{
    let placed = place(p, sorted, m);
    if sorted.len() == 0 {
    } else if exchange_value(p, sorted.last()) >= exchange_value(p, m) {
        assert forall|i: int| 0 <= i < placed.len() implies #[trigger] placed[i] == m || sorted.contains(
            placed[i],
        ) by {
            if i < sorted.len() {
                assert(sorted[i] == placed[i]);
            }
        }
        assert forall|i: int, j: int| 0 <= i < j < placed.len() implies exchange_value(p, #[trigger] placed[i]) >= exchange_value(p, #[trigger] placed[j]) by {
            if j < sorted.len() {
                assert(placed[i] == sorted[i] && placed[j] == sorted[j]);
            } else if i < sorted.len() - 1 {
                assert(placed[i] == sorted[i]);
                assert(exchange_value(p, sorted[i]) >= exchange_value(p, sorted[sorted.len() - 1]));
            } else {
                assert(placed[i] == sorted[sorted.len() - 1]);
            }
        }
    } else {
        let rest = sorted.drop_last();
        assert forall|i: int, j: int| 0 <= i < j < rest.len() implies exchange_value(p, #[trigger] rest[i]) >= exchange_value(p, #[trigger] rest[j]) by {
            assert(rest[i] == sorted[i] && rest[j] == sorted[j]);
        }
        lemma_place_falls(p, rest, m);
        let inner = place(p, rest, m);
        assert forall|i: int| 0 <= i < placed.len() implies #[trigger] placed[i] == m || sorted.contains(
            placed[i],
        ) by {
            if i < inner.len() {
                assert(placed[i] == inner[i]);
                if inner[i] != m {
                    assert(rest.contains(inner[i]));
                    let k = choose|k: int| 0 <= k < rest.len() && rest[k] == inner[i];
                    assert(sorted[k] == inner[i]);
                }
            } else {
                assert(placed[i] == sorted[sorted.len() - 1]);
            }
        }
        assert forall|i: int, j: int| 0 <= i < j < placed.len() implies exchange_value(p, #[trigger] placed[i]) >= exchange_value(p, #[trigger] placed[j]) by {
            if j < inner.len() {
                assert(placed[i] == inner[i] && placed[j] == inner[j]);
            } else {
                assert(placed[j] == sorted[sorted.len() - 1]);
                assert(placed[i] == inner[i]);
                if inner[i] != m {
                    assert(rest.contains(inner[i]));
                    let k = choose|k: int| 0 <= k < rest.len() && rest[k] == inner[i];
                    assert(sorted[k] == inner[i]);
                    assert(exchange_value(p, sorted[k]) >= exchange_value(p, sorted[sorted.len() - 1]));
                }
            }
        }
    }
}

/// The order of the search goes by falling exchange value.
pub proof fn lemma_ordered_falls(p: Position, moves: Seq<Move>)
    ensures
        falls(p, ordered(p, moves)),
    decreases moves.len(),
{
    if moves.len() > 0 {
        lemma_ordered_falls(p, moves.drop_last());
        lemma_place_falls(p, ordered(p, moves.drop_last()), moves.last());
    }
}

impl Chessboard {
    /// Puts `moves` in the order of the search: by falling exchange value,
    /// moves of equal value in the order they came in. The board is the
    /// same afterwards.
    pub fn order_moves(&mut self, moves: &mut Vec<Move>)
        requires
            old(self).wf(),
            old(self)@.admits_all(old(moves)@),
        ensures
            final(self).wf(),
            final(self)@ == old(self)@,
            final(moves)@ == ordered(old(self)@, old(moves)@),
    {
        let ghost p = self@;
        let mut values: Vec<i32> = Vec::new();
        let mut i: usize = 0;
        while i < moves.len()
            invariant
                self.wf(),
                self@ == p,
                moves@ == old(moves)@,
                p.admits_all(moves@),
                i <= moves@.len(),
                values@.len() == i,
                forall|j: int|
                    0 <= j < i ==> #[trigger] values@[j] == exchange_value(p, moves@[j]),
            decreases moves@.len() - i,
        {
            let m = moves[i];
            let value = self.see(&m);
            proof {
                reveal(exchange_value);
            }
            values.push(value);
            i = i + 1;
        }
        let sorted = sort_by_values(moves, &values, Ghost(p));
        *moves = sorted;
    }

    /// The exchange value of `mv`: zero for a move that neither captures
    /// nor promotes; else what it wins at once, less the best exchange
    /// value among the legal replies that land on the same square. The
    /// board is the same afterwards.
    pub fn see(&mut self, mv: &Move) -> (value: i32)
        requires
            old(self).wf(),
            old(self)@.admits(*mv),
        ensures
            final(self).wf(),
            final(self)@ == old(self)@,
            value == exchange(old(self)@, *mv, EXCHANGE_DEPTH as nat),
    {
        self.see_within(mv, EXCHANGE_DEPTH)
    }

    /// The exchange value of `mv`, the exchange followed for `fuel` replies
    /// at most.
    fn see_within(&mut self, mv: &Move, fuel: u8) -> (value: i32)
        requires
            old(self).wf(),
            old(self)@.admits(*mv),
        ensures
            final(self).wf(),
            final(self)@ == old(self)@,
            value == exchange(old(self)@, *mv, fuel as nat),
            -2000 * (fuel + 1) <= value <= 2000 * (fuel + 1),
        decreases fuel,
    {
        let ghost p = self@;
        proof {
            lemma_exchange_bounds(p, *mv, fuel as nat);
        }
        let piece = match mv.promotion {
            Some(promoted) => promoted,
            None => match mv.capture {
                Some(captured) => captured,
                None => {
                    return 0;
                },
            },
        };
        let value = piece_value(&piece);
        if fuel == 0 {
            return value;
        }
        proof {
            lemma_make_unmake(p, *mv);
        }
        self.make_move(mv);
        let ghost q = self@;
        let opponents_moves = self.generate_legal_moves();
        let mut best: Option<i32> = None;
        let mut i: usize = 0;
        proof {
            assert(opponents_moves@.take(0) =~= Seq::<Move>::empty());
        }
        while i < opponents_moves.len()
            invariant
                self.wf(),
                self@ == q,
                q == p.make(*mv),
                fuel > 0,
                i <= opponents_moves@.len(),
                opponents_moves@ == q.legal_moves(),
                q.admits_all(opponents_moves@),
                match best {
                    Some(b) => best_recapture(q, mv.to, opponents_moves@.take(i as int), (fuel - 1) as nat) == Some(
                        b as int,
                    ),
                    None => best_recapture(q, mv.to, opponents_moves@.take(i as int), (fuel - 1) as nat) is None,
                },
            decreases opponents_moves@.len() - i,
        {
            let reply = opponents_moves[i];
            if reply.to == mv.to {
                let response = self.see_within(&reply, fuel - 1);
                best = match best {
                    Some(b) => Some(
                        if b >= response {
                            b
                        } else {
                            response
                        },
                    ),
                    None => Some(response),
                };
            }
            proof {
                let upto = opponents_moves@.take(i as int + 1);
                assert(upto.drop_last() =~= opponents_moves@.take(i as int));
                assert(upto.last() == reply);
            }
            i = i + 1;
        }
        proof {
            assert(opponents_moves@.take(opponents_moves@.len() as int) =~= opponents_moves@);
            lemma_best_recapture_bounds(q, mv.to, q.legal_moves(), (fuel - 1) as nat);
        }
        self.unmake_move(mv);
        match best {
            Some(b) => value - b,
            None => value,
        }
    }
}

impl Ai {
    /// The move that the search chooses for the side to move, each legal
    /// move being searched `flag` moves deep; none if the position has no
    /// legal move. The player becomes the side to move. The board is the
    /// same afterwards.
    pub fn find_best_move(&mut self, flag: u32) -> (best: Option<Move>)
        requires
            old(self).chessboard.wf(),
            !old(self).is_end_game,
        ensures
            final(self).chessboard.wf(),
            final(self).chessboard@ == old(self).chessboard@,
            final(self).color == old(self).chessboard.turn,
            final(self).stalemate_draws == old(self).stalemate_draws,
            final(self).search_depth == old(self).search_depth,
            !final(self).is_end_game,
            best == best_move(old(self).chessboard@, old(self).stalemate_draws, flag as nat),
            (best is None) == (old(self).chessboard@.legal_moves().len() == 0),
    {
        let ghost p = self.chessboard@;
        let ghost draws = self.stalemate_draws;
        self.color = self.chessboard.turn;
        let mut best_move: Option<Move> = None;
        let mut best_move_score: i32 = MIN_SCORE;

        let mut moves = self.chessboard.generate_legal_moves();
        self.chessboard.order_moves(&mut moves);
        proof {
            lemma_legal_moves_admitted(p);
            lemma_ordered_admitted(p, p.legal_moves());
            lemma_pick(p, draws, flag as nat, moves@, 0, None, MIN_SCORE as int);
        }

        let mut i: usize = 0;
        while i < moves.len()
            invariant
                self.chessboard.wf(),
                self.chessboard@ == p,
                self.color == p.turn,
                self.stalemate_draws == draws,
                self.search_depth == old(self).search_depth,
                !self.is_end_game,
                i <= moves@.len(),
                p.admits_all(moves@),
                pick(p, draws, flag as nat, moves@, 0, None, MIN_SCORE as int) == pick(
                    p,
                    draws,
                    flag as nat,
                    moves@,
                    i as int,
                    best_move,
                    best_move_score as int,
                ),
            decreases moves@.len() - i,
        {
            let mv = moves[i];
            proof {
                lemma_make_unmake(p, mv);
            }
            self.chessboard.make_move(&mv);
            let score = self.alpha_beta(flag, MIN_SCORE, MAX_SCORE);
            self.chessboard.unmake_move(&mv);
            proof {
                reveal(move_score);
                assert(score == move_score(p, draws, flag as nat, mv));
            }

            if best_move.is_none() || score > best_move_score {
                best_move = Some(mv);
                best_move_score = score;
            }
            i = i + 1;
        }
        best_move
    }
}

} // verus!
