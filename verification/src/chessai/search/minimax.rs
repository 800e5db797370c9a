//! What the alpha-beta search is worth: within its window it finds the
//! minimax value of the position.

use vstd::prelude::*;
use crate::chessai::evaluation::basic::material::lemma_material_bounds;
use crate::chessai::evaluation::{evaluation, MAX_SCORE, MIN_SCORE};
use crate::chessai::search::alpha_beta::{higher, lower, search, search_moves};
use crate::chessai::search::{move_score, ordered};
use crate::chessboard::moves::Move;
use crate::chessboard::Position;
use crate::utils::color::Color;

verus! {

/// The minimax value of position `p` for the player `root`, `depth` moves
/// deep: the evaluation of `p` where no move is left to look at or none is
/// legal; else the highest of the values of the positions after the legal
/// moves if the player is to move, and the lowest if the opponent is.
pub open spec fn minimax(p: Position, root: Color, stalemate_draws: bool, depth: nat) -> int
    decreases depth, 1nat, 0nat,
{
    let legal = p.legal_moves();
    if depth == 0 || legal.len() == 0 {
        evaluation(p, root, p.turn, legal.len() == 0, stalemate_draws)
    } else {
        best_from(p, root, stalemate_draws, depth, ordered(p, legal), 0)
    }
}

/// The best of the minimax values of the positions after `moves` from
/// number `i` on: the highest if the player is to move in `p`, the lowest
/// if the opponent is.
pub open spec fn best_from(
    p: Position,
    root: Color,
    stalemate_draws: bool,
    depth: nat,
    moves: Seq<Move>,
    i: int,
) -> int
    decreases depth, 0nat, moves.len() - i,
{
    if depth == 0 || i < 0 || i >= moves.len() {
        if p.turn == root {
            MIN_SCORE as int
        } else {
            MAX_SCORE as int
        }
    } else {
        let value = minimax(p.make(moves[i]), root, stalemate_draws, (depth - 1) as nat);
        let rest = best_from(p, root, stalemate_draws, depth, moves, i + 1);
        if p.turn == root {
            higher(value, rest)
        } else {
            lower(value, rest)
        }
    }
}

/// The score `r` of a search in the window from `alpha` to `beta` tells of
/// the value `v`: inside the window it is the value, at or below `alpha`
/// the value is no higher, at or above `beta` the value is no lower.
pub open spec fn tells(r: int, v: int, alpha: int, beta: int) -> bool {
    &&& r <= alpha ==> v <= r
    &&& r >= beta ==> v >= r
    &&& alpha < r < beta ==> r == v
}

/// Every minimax value is a score.
pub proof fn lemma_minimax_bounds(p: Position, root: Color, stalemate_draws: bool, depth: nat)
    ensures
        MIN_SCORE <= minimax(p, root, stalemate_draws, depth) <= MAX_SCORE,
    decreases depth, 1nat, 0nat,
{
    let legal = p.legal_moves();
    if depth == 0 || legal.len() == 0 {
        lemma_material_bounds(p, p.turn);
    } else {
        lemma_best_from_bounds(p, root, stalemate_draws, depth, ordered(p, legal), 0);
    }
}

/// The best of minimax values is a score.
pub proof fn lemma_best_from_bounds(
    p: Position,
    root: Color,
    stalemate_draws: bool,
    depth: nat,
    moves: Seq<Move>,
    i: int,
)
    ensures
        MIN_SCORE <= best_from(p, root, stalemate_draws, depth, moves, i) <= MAX_SCORE,
    decreases depth, 0nat, moves.len() - i,
{
    if depth == 0 || i < 0 || i >= moves.len() {
    } else {
        lemma_minimax_bounds(p.make(moves[i]), root, stalemate_draws, (depth - 1) as nat);
        lemma_best_from_bounds(p, root, stalemate_draws, depth, moves, i + 1);
    }
}

/// The score of the search tells of the minimax value of the position, in
/// every window of scores that is not empty.
pub proof fn lemma_search_tells(
    p: Position,
    root: Color,
    stalemate_draws: bool,
    depth: nat,
    alpha: int,
    beta: int,
)
    requires
        MIN_SCORE <= alpha < beta <= MAX_SCORE,
    ensures
        tells(
            search(p, root, stalemate_draws, depth, alpha, beta),
            minimax(p, root, stalemate_draws, depth),
            alpha,
            beta,
        ),
    decreases depth, 1nat, 0nat,
{
    let legal = p.legal_moves();
    if depth == 0 || legal.len() == 0 {
    } else {
        let moves = ordered(p, legal);
        lemma_best_from_bounds(p, root, stalemate_draws, depth, moves, 0);
        if p.turn == root {
            lemma_player_moves_tell(
                p,
                root,
                stalemate_draws,
                depth,
                moves,
                0,
                alpha,
                alpha,
                beta,
                MIN_SCORE as int,
                MIN_SCORE as int,
            );
        } else {
            lemma_opponent_moves_tell(
                p,
                root,
                stalemate_draws,
                depth,
                moves,
                0,
                beta,
                alpha,
                beta,
                MAX_SCORE as int,
                MAX_SCORE as int,
            );
        }
    }
}

/// With the player to move: the bound that the search reaches from move
/// number `i` on tells of the highest value of all the moves, where
/// `earlier` is the highest value of the moves before `i`, `bound` the
/// bound reached with them, and the window began at `alpha0`.
proof fn lemma_player_moves_tell(
    p: Position,
    root: Color,
    stalemate_draws: bool,
    depth: nat,
    moves: Seq<Move>,
    i: int,
    alpha0: int,
    alpha: int,
    beta: int,
    bound: int,
    earlier: int,
)
    requires
        p.turn == root,
        depth > 0,
        0 <= i <= moves.len(),
        MIN_SCORE <= alpha0,
        beta <= MAX_SCORE,
        alpha == higher(alpha0, bound),
        alpha < beta,
        MIN_SCORE <= earlier <= bound,
        bound > alpha0 ==> earlier == bound,
    ensures
        tells(
            search_moves(p, root, stalemate_draws, depth, moves, i, alpha, beta, bound),
            higher(earlier, best_from(p, root, stalemate_draws, depth, moves, i)),
            alpha0,
            beta,
        ),
    decreases depth, 0nat, moves.len() - i,
{
    if i < moves.len() {
        let child = p.make(moves[i]);
        let score = search(child, root, stalemate_draws, (depth - 1) as nat, alpha, beta);
        let value = minimax(child, root, stalemate_draws, (depth - 1) as nat);
        lemma_search_tells(child, root, stalemate_draws, (depth - 1) as nat, alpha, beta);
        lemma_best_from_bounds(p, root, stalemate_draws, depth, moves, i + 1);
        let next_bound = higher(bound, score);
        let next_alpha = higher(alpha, score);
        if beta <= next_alpha {
        } else {
            lemma_player_moves_tell(
                p,
                root,
                stalemate_draws,
                depth,
                moves,
                i + 1,
                alpha0,
                next_alpha,
                beta,
                next_bound,
                higher(earlier, value),
            );
        }
    }
}

/// With the opponent to move: the bound that the search reaches from move
/// number `i` on tells of the lowest value of all the moves, where
/// `earlier` is the lowest value of the moves before `i`, `bound` the
/// bound reached with them, and the window ended at `beta0`.
proof fn lemma_opponent_moves_tell(
    p: Position,
    root: Color,
    stalemate_draws: bool,
    depth: nat,
    moves: Seq<Move>,
    i: int,
    beta0: int,
    alpha: int,
    beta: int,
    bound: int,
    earlier: int,
)
    requires
        p.turn != root,
        depth > 0,
        0 <= i <= moves.len(),
        MIN_SCORE <= alpha,
        beta0 <= MAX_SCORE,
        beta == lower(beta0, bound),
        alpha < beta,
        bound <= earlier <= MAX_SCORE,
        bound < beta0 ==> earlier == bound,
    ensures
        tells(
            search_moves(p, root, stalemate_draws, depth, moves, i, alpha, beta, bound),
            lower(earlier, best_from(p, root, stalemate_draws, depth, moves, i)),
            alpha,
            beta0,
        ),
    decreases depth, 0nat, moves.len() - i,
{
    if i < moves.len() {
        let child = p.make(moves[i]);
        let score = search(child, root, stalemate_draws, (depth - 1) as nat, alpha, beta);
        let value = minimax(child, root, stalemate_draws, (depth - 1) as nat);
        lemma_search_tells(child, root, stalemate_draws, (depth - 1) as nat, alpha, beta);
        lemma_best_from_bounds(p, root, stalemate_draws, depth, moves, i + 1);
        let next_bound = lower(bound, score);
        let next_beta = lower(beta, score);
        if next_beta <= alpha {
        } else {
            lemma_opponent_moves_tell(
                p,
                root,
                stalemate_draws,
                depth,
                moves,
                i + 1,
                beta0,
                alpha,
                next_beta,
                next_bound,
                lower(earlier, value),
            );
        }
    }
}

/// In the window of all scores the search finds the minimax value.
pub proof fn lemma_search_is_minimax(p: Position, root: Color, stalemate_draws: bool, depth: nat)
    ensures
        search(p, root, stalemate_draws, depth, MIN_SCORE as int, MAX_SCORE as int) == minimax(
            p,
            root,
            stalemate_draws,
            depth,
        ),
{
    lemma_search_tells(p, root, stalemate_draws, depth, MIN_SCORE as int, MAX_SCORE as int);
    lemma_minimax_bounds(p, root, stalemate_draws, depth);
    lemma_search_bounds(p, root, stalemate_draws, depth, MIN_SCORE as int, MAX_SCORE as int);
}

/// The score by which the search chooses among the moves is the minimax
/// value of the position after the move, for the side that moves.
pub proof fn lemma_move_score_is_minimax(p: Position, stalemate_draws: bool, depth: nat, m: Move)
    ensures
        move_score(p, stalemate_draws, depth, m) == minimax(p.make(m), p.turn, stalemate_draws, depth),
{
    reveal(move_score);
    lemma_search_is_minimax(p.make(m), p.turn, stalemate_draws, depth);
}

/// Every score of the search is a score, in a window of scores.
pub proof fn lemma_search_bounds(
    p: Position,
    root: Color,
    stalemate_draws: bool,
    depth: nat,
    alpha: int,
    beta: int,
)
    ensures
        MIN_SCORE <= search(p, root, stalemate_draws, depth, alpha, beta) <= MAX_SCORE,
    decreases depth, 1nat, 0nat,
{
    let legal = p.legal_moves();
    if depth == 0 || legal.len() == 0 {
        lemma_material_bounds(p, p.turn);
    } else {
        lemma_search_moves_bounds(
            p,
            root,
            stalemate_draws,
            depth,
            ordered(p, legal),
            0,
            alpha,
            beta,
            if p.turn == root {
                MIN_SCORE as int
            } else {
                MAX_SCORE as int
            },
        );
    }
}

/// Every bound of the search is a score.
pub proof fn lemma_search_moves_bounds(
    p: Position,
    root: Color,
    stalemate_draws: bool,
    depth: nat,
    moves: Seq<Move>,
    i: int,
    alpha: int,
    beta: int,
    bound: int,
)
    requires
        MIN_SCORE <= bound <= MAX_SCORE,
    ensures
        MIN_SCORE <= search_moves(p, root, stalemate_draws, depth, moves, i, alpha, beta, bound) <= MAX_SCORE,
    decreases depth, 0nat, moves.len() - i,
{
    if depth == 0 || i < 0 || i >= moves.len() {
    } else {
        lemma_search_bounds(p.make(moves[i]), root, stalemate_draws, (depth - 1) as nat, alpha, beta);
        let score = search(p.make(moves[i]), root, stalemate_draws, (depth - 1) as nat, alpha, beta);
        let next_bound = if p.turn == root {
            higher(bound, score)
        } else {
            lower(bound, score)
        };
        let next_alpha = if p.turn == root {
            higher(alpha, score)
        } else {
            alpha
        };
        let next_beta = if p.turn == root {
            beta
        } else {
            lower(beta, score)
        };
        if next_beta <= next_alpha {
        } else {
            lemma_search_moves_bounds(
                p,
                root,
                stalemate_draws,
                depth,
                moves,
                i + 1,
                next_alpha,
                next_beta,
                next_bound,
            );
        }
    }
}

} // verus!
