//! Counting the leaves of the tree of legal moves, to check the move
//! generator against known counts.

use vstd::prelude::*;
use crate::chessboard::moves::{lemma_make_unmake, Move};
use crate::chessboard::{Chessboard, Position};

verus! {

impl Position {
    /// The number of positions that lie as many legal moves below this one
    /// as its search-depth budget says; one if the budget is zero.
    pub open spec fn leaf_count(self) -> nat
        decreases self.perft_depth, 1nat, 0nat,
    {
        if self.perft_depth == 0 {
            1
        } else {
            self.leaf_sum(self.legal_moves())
        }
    }

    /// The leaf counts of the positions after each of `moves`, added up.
    pub open spec fn leaf_sum(self, moves: Seq<Move>) -> nat
        decreases self.perft_depth, 0nat, moves.len(),
    {
        if self.perft_depth == 0 || moves.len() == 0 {
            0
        } else {
            self.leaf_sum(moves.drop_last()) + self.make(moves.last()).leaf_count()
        }
    }
}

/// With a budget of one, each of `moves` counts as one leaf.
pub proof fn lemma_leaf_sum_of_one(p: Position, moves: Seq<Move>)
    requires
        p.perft_depth == 1,
    ensures
        p.leaf_sum(moves) == moves.len(),
    decreases moves.len(),
{
    if moves.len() > 0 {
        lemma_leaf_sum_of_one(p, moves.drop_last());
        let after = p.make(moves.last());
        assert(after.perft_depth == 0);
        assert(after.leaf_count() == 1);
        assert(p.leaf_sum(moves) == p.leaf_sum(moves.drop_last()) + after.leaf_count());
    }
}

/// With a budget of one the leaves are the legal moves.
pub proof fn lemma_leaf_count_of_one(p: Position)
    requires
        p.perft_depth == 1,
    ensures
        p.leaf_count() == p.legal_moves().len(),
{
    lemma_leaf_sum_of_one(p, p.legal_moves());
}

/// A count as a `u64` can hold it: itself, or the largest `u64` if it is
/// larger than that.
pub open spec fn capped(n: nat) -> u64 {
    if n >= 0xffff_ffff_ffff_ffff {
        0xffff_ffff_ffff_ffff
    } else {
        n as u64
    }
}

impl Chessboard {
    /// The number of leaves of the tree of legal moves below the board, as
    /// deep as the search-depth budget says. The count stops at the largest
    /// `u64`. The board is the same afterwards.
    pub fn perft(&mut self) -> (nodes: u64)
        requires
            old(self).wf(),
        ensures
            final(self).wf(),
            final(self)@ == old(self)@,
            nodes == capped(old(self)@.leaf_count()),
        decreases old(self).perft_depth,
    {
        if self.perft_depth == 0 {
            return 1;
        }
        let ghost p = self@;
        let mut nodes: u64 = 0;
        let moves = self.generate_legal_moves();
        let mut i: usize = 0;
        proof {
            assert(moves@.take(0) =~= Seq::<Move>::empty());
        }
        while i < moves.len()
            invariant
                self.wf(),
                self@ == p,
                p == old(self)@,
                p.perft_depth > 0,
                i <= moves@.len(),
                moves@ == p.legal_moves(),
                p.admits_all(moves@),
                nodes == capped(p.leaf_sum(moves@.take(i as int))),
            decreases moves@.len() - i,
        {
            let m = moves[i];
            proof {
                lemma_make_unmake(p, m);
            }
            self.make_move(&m);
            let below = self.perft();
            self.unmake_move(&m);
            proof {
                let upto = moves@.take(i as int + 1);
                assert(upto.drop_last() =~= moves@.take(i as int));
                assert(upto.last() == m);
            }
            nodes = nodes.saturating_add(below);
            i = i + 1;
        }
        proof {
            assert(moves@.take(moves@.len() as int) =~= moves@);
        }
        nodes
    }
}

} // verus!
