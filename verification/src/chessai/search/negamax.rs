//! Plain negamax search: every line is looked at, to the full depth.

use vstd::prelude::*;
use crate::chessai::evaluation::{evaluation, MAX_SCORE, MIN_SCORE};
use crate::chessai::search::alpha_beta::higher;
use crate::chessai::Ai;
use crate::chessboard::moves::{lemma_legal_moves_admitted, lemma_make_unmake, Move};
use crate::chessboard::Position;
use crate::utils::color::Color;

verus! {

/// The score seen from the other side: its negative, and the highest score
/// for the lowest, which has no negative.
pub open spec fn negated(x: int) -> int {
    if x == MIN_SCORE {
        MAX_SCORE as int
    } else {
        -x
    }
}

/// The score as it is, or seen from the other side.
pub open spec fn seen(own: bool, x: int) -> int {
    if own {
        x
    } else {
        negated(x)
    }
}

/// The negamax score of position `p`, `depth` moves deep, for the side
/// `color_to_max` and the player `root`: at depth zero the evaluation for
/// `color_to_max`, seen from the side to move; else the highest of the
/// scores of the legal moves, each the score of the position after it seen
/// from the other side, or the lowest score if there is no legal move.
pub open spec fn negamax_score(
    p: Position,
    root: Color,
    stalemate_draws: bool,
    color_to_max: Color,
    depth: nat,
) -> int
    decreases depth, 1nat, 0nat,
{
    if depth == 0 {
        seen(
            p.turn == color_to_max,
            evaluation(p, root, color_to_max, p.legal_moves().len() == 0, stalemate_draws),
        )
    } else {
        negamax_moves(p, root, stalemate_draws, color_to_max, depth, p.legal_moves(), 0, MIN_SCORE as int)
    }
}

/// The highest score among `max` and the scores of `moves` from number `i`
/// on.
pub open spec fn negamax_moves(
    p: Position,
    root: Color,
    stalemate_draws: bool,
    color_to_max: Color,
    depth: nat,
    moves: Seq<Move>,
    i: int,
    max: int,
) -> int
    decreases depth, 0nat, moves.len() - i,
{
    if depth == 0 || i < 0 || i >= moves.len() {
        max
    } else {
        let below = negamax_score(p.make(moves[i]), root, stalemate_draws, color_to_max, (depth - 1) as nat);
        let score = seen(p.turn != color_to_max, below);
        negamax_moves(p, root, stalemate_draws, color_to_max, depth, moves, i + 1, higher(max, score))
    }
}

/// The score seen from the other side.
fn negate(x: i32) -> (r: i32)
    ensures
        r == negated(x as int),
{
    if x == MIN_SCORE {
        MAX_SCORE
    } else {
        -x
    }
}

impl Ai {
    /// The negamax score of the board, `depth` moves deep, for the side
    /// `color_to_max`. The board is the same afterwards.
    pub fn negamax(&mut self, color_to_max: &Color, depth: u32) -> (score: i32)
        requires
            old(self).chessboard.wf(),
            !old(self).is_end_game,
        ensures
            final(self).chessboard.wf(),
            final(self).chessboard@ == old(self).chessboard@,
            final(self).color == old(self).color,
            final(self).stalemate_draws == old(self).stalemate_draws,
            final(self).search_depth == old(self).search_depth,
            !final(self).is_end_game,
            score == negamax_score(
                old(self).chessboard@,
                old(self).color,
                old(self).stalemate_draws,
                *color_to_max,
                depth as nat,
            ),
        decreases depth,
    {
        let ghost p = self.chessboard@;
        let ghost root = self.color;
        let ghost draws = self.stalemate_draws;
        let own = self.chessboard.turn == *color_to_max;
        let moves = self.chessboard.generate_legal_moves();

        if moves.len() == 0 {
            self.is_end_game = true;
        }
        if depth == 0 {
            let value = self.evaluate_board(color_to_max);
            return if own {
                value
            } else {
                negate(value)
            };
        }
        self.is_end_game = false;
        proof {
            lemma_legal_moves_admitted(p);
        }

        let mut max: i32 = MIN_SCORE;
        let mut i: usize = 0;
        while i < moves.len()
            invariant
                self.chessboard.wf(),
                self.chessboard@ == p,
                p == old(self).chessboard@,
                self.color == root,
                self.stalemate_draws == draws,
                self.search_depth == old(self).search_depth,
                !self.is_end_game,
                depth > 0,
                own == (p.turn == *color_to_max),
                i <= moves@.len(),
                moves@ == p.legal_moves(),
                p.admits_all(moves@),
                negamax_moves(p, root, draws, *color_to_max, depth as nat, moves@, 0, MIN_SCORE as int)
                    == negamax_moves(p, root, draws, *color_to_max, depth as nat, moves@, i as int, max as int),
            decreases moves@.len() - i,
        {
            let mv = moves[i];
            proof {
                lemma_make_unmake(p, mv);
            }
            self.chessboard.make_move(&mv);
            let below = self.negamax(color_to_max, depth - 1);
            self.chessboard.unmake_move(&mv);
            let score = if own {
                negate(below)
            } else {
                below
            };
            if score > max {
                max = score;
            }
            i = i + 1;
        }
        max
    }
}

} // verus!
