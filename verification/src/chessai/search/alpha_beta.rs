//! Alpha-beta search: the value of a position for the player, found
//! without looking at lines that cannot change it.

use vstd::prelude::*;
use crate::chessai::evaluation::{evaluation, MAX_SCORE, MIN_SCORE};
use crate::chessai::search::{lemma_ordered_admitted, ordered};
use crate::chessai::Ai;
use crate::chessboard::moves::{lemma_legal_moves_admitted, lemma_make_unmake, Move};
use crate::chessboard::Position;
use crate::utils::color::Color;

verus! {

/// The larger of two scores.
pub open spec fn higher(a: int, b: int) -> int {
    if a >= b {
        a
    } else {
        b
    }
}

/// The smaller of two scores.
pub open spec fn lower(a: int, b: int) -> int {
    if a <= b {
        a
    } else {
        b
    }
}

/// The score that the search gives position `p` for the player `root`,
/// `depth` moves deep, within the window from `alpha` to `beta`. Where no
/// move is left to look at (`depth` is zero) or none is legal, it is the
/// evaluation of `p`; else it is the bound that the moves of `p` give, in
/// the order of the search.
pub open spec fn search(p: Position, root: Color, stalemate_draws: bool, depth: nat, alpha: int, beta: int) -> int
    decreases depth, 1nat, 0nat,
{
    let legal = p.legal_moves();
    if depth == 0 || legal.len() == 0 {
        evaluation(p, root, p.turn, legal.len() == 0, stalemate_draws)
    } else {
        search_moves(
            p,
            root,
            stalemate_draws,
            depth,
            ordered(p, legal),
            0,
            alpha,
            beta,
            if p.turn == root {
                MIN_SCORE as int
            } else {
                MAX_SCORE as int
            },
        )
    }
}

/// The bound after the moves of `moves` from number `i` on, with `bound`
/// reached before them: each move is searched one move less deep; its
/// score raises the bound and `alpha` if the player is to move and lowers
/// the bound and `beta` if the opponent is; and no further move is looked
/// at once `beta` is not above `alpha`.
pub open spec fn search_moves(
    p: Position,
    root: Color,
    stalemate_draws: bool,
    depth: nat,
    moves: Seq<Move>,
    i: int,
    alpha: int,
    beta: int,
    bound: int,
) -> int
    decreases depth, 0nat, moves.len() - i,
{
    if depth == 0 || i < 0 || i >= moves.len() {
        bound
    } else {
        let score = search(p.make(moves[i]), root, stalemate_draws, (depth - 1) as nat, alpha, beta);
        let bound = if p.turn == root {
            higher(bound, score)
        } else {
            lower(bound, score)
        };
        let alpha = if p.turn == root {
            higher(alpha, score)
        } else {
            alpha
        };
        let beta = if p.turn == root {
            beta
        } else {
            lower(beta, score)
        };
        if beta <= alpha {
            bound
        } else {
            search_moves(p, root, stalemate_draws, depth, moves, i + 1, alpha, beta, bound)
        }
    }
}

/// The search scores a checkmate, at any depth and in any window, as the
/// lowest score if the player is mated and as the highest if the opponent
/// is; never by material.
pub proof fn lemma_checkmate_score(
    p: Position,
    root: Color,
    stalemate_draws: bool,
    depth: nat,
    alpha: int,
    beta: int,
)
    requires
        p.is_checkmate(),
    ensures
        p.turn == root ==> search(p, root, stalemate_draws, depth, alpha, beta) == MIN_SCORE,
        p.turn != root ==> search(p, root, stalemate_draws, depth, alpha, beta) == MAX_SCORE,
{
}

/// The search scores a stalemate as a draw if the player is to move, or if
/// every stalemate counts as a draw; else by the material of the side to
/// move.
pub proof fn lemma_stalemate_score(
    p: Position,
    root: Color,
    stalemate_draws: bool,
    depth: nat,
    alpha: int,
    beta: int,
)
    requires
        p.is_stalemate(),
    ensures
        p.turn == root || stalemate_draws ==> search(p, root, stalemate_draws, depth, alpha, beta) == 0,
        p.turn != root && !stalemate_draws ==> search(p, root, stalemate_draws, depth, alpha, beta)
            == crate::chessai::evaluation::basic::material::material(p, p.turn),
{
}

impl Ai {
    /// The score of the board for the player, `depth` moves deep, within
    /// the window from `alpha` to `beta`. The board is the same afterwards.
    pub fn alpha_beta(&mut self, depth: u32, alpha: i32, beta: i32) -> (score: i32)
        requires
            old(self).chessboard.wf(),
            !old(self).is_end_game,
        ensures
            final(self).chessboard.wf(),
            final(self).chessboard@ == old(self).chessboard@,
            final(self).color == old(self).color,
            final(self).stalemate_draws == old(self).stalemate_draws,
            final(self).search_depth == old(self).search_depth,
            !final(self).is_end_game,
            score == search(
                old(self).chessboard@,
                old(self).color,
                old(self).stalemate_draws,
                depth as nat,
                alpha as int,
                beta as int,
            ),
        decreases depth,
    {
        let ghost p = self.chessboard@;
        let ghost root = self.color;
        let ghost draws = self.stalemate_draws;
        let mut alpha = alpha;
        let mut beta = beta;
        let mut moves = self.chessboard.generate_legal_moves();
        let color = self.chessboard.turn;

        if moves.len() == 0 {
            self.is_end_game = true;
        }
        if depth == 0 || self.is_end_game {
            return self.evaluate_board(&color);
        }
        self.chessboard.order_moves(&mut moves);
        proof {
            lemma_legal_moves_admitted(p);
            lemma_ordered_admitted(p, p.legal_moves());
        }

        let maximizing = self.chessboard.turn == self.color;
        let mut boundary: i32 = if maximizing {
            MIN_SCORE
        } else {
            MAX_SCORE
        };
        let ghost start_alpha = alpha as int;
        let ghost start_beta = beta as int;
        let ghost start_bound = boundary as int;
        let mut i: usize = 0;
        let mut cut = false;
        while i < moves.len() && !cut
            invariant
                self.chessboard.wf(),
                self.chessboard@ == p,
                p == old(self).chessboard@,
                self.color == root,
                self.stalemate_draws == draws,
                self.search_depth == old(self).search_depth,
                !self.is_end_game,
                depth > 0,
                maximizing == (p.turn == root),
                i <= moves@.len(),
                p.admits_all(moves@),
                cut ==> search_moves(p, root, draws, depth as nat, moves@, 0, start_alpha, start_beta, start_bound)
                    == boundary,
                !cut ==> search_moves(p, root, draws, depth as nat, moves@, 0, start_alpha, start_beta, start_bound)
                    == search_moves(
                    p,
                    root,
                    draws,
                    depth as nat,
                    moves@,
                    i as int,
                    alpha as int,
                    beta as int,
                    boundary as int,
                ),
            decreases moves@.len() - i + (if cut {
                    0int
                } else {
                    1int
                }),
        {
            let mv = moves[i];
            proof {
                lemma_make_unmake(p, mv);
            }
            self.chessboard.make_move(&mv);
            let score = self.alpha_beta(depth - 1, alpha, beta);
            self.chessboard.unmake_move(&mv);

            if maximizing {
                if score > boundary {
                    boundary = score;
                }
                if score > alpha {
                    alpha = score;
                }
            } else {
                if score < boundary {
                    boundary = score;
                }
                if score < beta {
                    beta = score;
                }
            }
            if beta <= alpha {
                cut = true;
            } else {
                i = i + 1;
            }
        }
        boundary
    }
}

} // verus!
