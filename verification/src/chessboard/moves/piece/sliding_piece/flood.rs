//! The squares that a sliding piece attacks, found by growing the set of
//! attacked squares one step at a time in all its directions at once.

use vstd::prelude::*;
use crate::bitboard::{east_one, holds, lemma_holds_bitwise, no_east_one, no_west_one, north_one, so_east_one, so_west_one, south_one, west_one};
use crate::chessboard::moves::piece::sliding_piece::lines::{between, distance, lemma_longest_ray, lemma_sees_further, lemma_sees_nearer, lemma_step_geometry, longest_ray, next_to, on_line, sees, toward};
use crate::chessboard::moves::piece::sliding_piece::tables::{mask_of, ring_of, steps_of, SlidingTables};

verus! {

/// One round of growth is sound: a square one step beyond an attacked empty
/// square, on a line of the piece, is attacked.
proof fn lemma_grow_sound(empty: u64, from: int, bb: u64, mask: u64, grown: u64, diagonal: bool)
    requires
        0 <= from < 64,
        forall|t: int| #[trigger] holds(mask, t) == (0 <= t < 64 && on_line(from, t, diagonal)),
        forall|t: int| #[trigger] holds(bb, t) ==> sees(empty, from, t, diagonal) && holds(empty, t),
        forall|t: int|
            #[trigger] holds(grown, t) ==> holds(mask, t) && exists|u: int|
                0 <= u < 64 && #[trigger] holds(bb, u) && next_to(u, t, diagonal),
    ensures
        forall|t: int| #[trigger] holds(grown, t) ==> sees(empty, from, t, diagonal),
{
    assert forall|t: int| #[trigger] holds(grown, t) implies sees(empty, from, t, diagonal) by {
        assert(holds(mask, t));
        let u = choose|u: int| 0 <= u < 64 && #[trigger] holds(bb, u) && next_to(u, t, diagonal);
        lemma_sees_further(empty, from, u, t, diagonal);
    }
}

/// One round of growth is complete: it reaches every attacked square one
/// step beyond the frontier.
proof fn lemma_grow_complete(empty: u64, from: int, bb: u64, mask: u64, grown: u64, diagonal: bool, k: int)
    requires
        0 <= from < 64,
        0 <= k,
        forall|t: int| #[trigger] holds(mask, t) == (0 <= t < 64 && on_line(from, t, diagonal)),
        forall|t: int|
            sees(empty, from, t, diagonal) && holds(empty, t) && distance(from, t) == k + 1 ==> #[trigger] holds(
                bb,
                t,
            ),
        forall|u: int, t: int|
            0 <= u < 64 && holds(bb, u) && #[trigger] next_to(u, t, diagonal) && holds(mask, t) ==> holds(
                grown,
                t,
            ),
    ensures
        forall|t: int| sees(empty, from, t, diagonal) && distance(from, t) == k + 2 ==> #[trigger] holds(grown, t),
{
    assert forall|t: int| sees(empty, from, t, diagonal) && distance(from, t) == k + 2 implies #[trigger] holds(
        grown,
        t,
    ) by {
        lemma_sees_nearer(empty, from, t, diagonal);
        let u = toward(from, t);
        assert(holds(bb, u));
        assert(holds(mask, t));
        assert(next_to(u, t, diagonal));
    }
}

/// One round of growth: the squares one step beyond the frontier `bb`
/// along the lines of the piece, as far as `mask` holds them.
fn grow(bb: u64, mask: u64, diagonal: bool) -> (grown: u64)
    ensures
        forall|t: int|
            #[trigger] holds(grown, t) ==> holds(mask, t) && exists|u: int|
                0 <= u < 64 && #[trigger] holds(bb, u) && next_to(u, t, diagonal),
        forall|u: int, t: int|
            0 <= u < 64 && holds(bb, u) && #[trigger] next_to(u, t, diagonal) && holds(mask, t) ==> holds(
                grown,
                t,
            ),
{
    let a = (if diagonal {
        no_east_one(bb)
    } else {
        north_one(bb)
    }) & mask;
    let b = (if diagonal {
        no_west_one(bb)
    } else {
        east_one(bb)
    }) & mask;
    let c = (if diagonal {
        so_east_one(bb)
    } else {
        south_one(bb)
    }) & mask;
    let d = (if diagonal {
        so_west_one(bb)
    } else {
        west_one(bb)
    }) & mask;
    let grown = a | b | c | d;
    proof {
        lemma_holds_bitwise();
        assert forall|t: int| #[trigger] holds(grown, t) implies holds(mask, t) && exists|u: int|
            0 <= u < 64 && #[trigger] holds(bb, u) && next_to(u, t, diagonal) by {
            let u = if holds(a, t) {
                if diagonal {
                    t - 9
                } else {
                    t - 8
                }
            } else if holds(b, t) {
                if diagonal {
                    t - 7
                } else {
                    t - 1
                }
            } else if holds(c, t) {
                if diagonal {
                    t + 7
                } else {
                    t + 8
                }
            } else {
                if diagonal {
                    t + 9
                } else {
                    t + 1
                }
            };
            assert(holds(bb, u));
            lemma_step_geometry(u, t);
            assert(next_to(u, t, diagonal));
        }
        assert forall|u: int, t: int|
            0 <= u < 64 && holds(bb, u) && #[trigger] next_to(u, t, diagonal) && holds(mask, t) implies holds(
            grown,
            t,
        ) by {
            lemma_step_geometry(u, t);
        }
    }
    grown
}

/// The squares that a slider on square `from` attacks when `empty` holds
/// the empty squares, worked out from the ring and the mask of the square
/// and from the length of its longest line.
pub(crate) fn flood_with(
    ring: u64,
    mask: u64,
    steps: usize,
    empty: u64,
    diagonal: bool,
    Ghost(from): Ghost<int>,
) -> (at: u64)
    requires
        0 <= from < 64,
        forall|t: int| #[trigger] holds(ring, t) == (0 <= t < 64 && on_line(from, t, diagonal) && distance(from, t) == 1),
        forall|t: int| #[trigger] holds(mask, t) == (0 <= t < 64 && on_line(from, t, diagonal)),
        steps == longest_ray(from, diagonal),
    ensures
        forall|t: int| #[trigger] holds(at, t) == sees(empty, from, t, diagonal),
{
    let mut at = ring;
    let mut bb = ring & empty;
    let mut k: usize = 0;
    proof {
        lemma_holds_bitwise();
        assert forall|t: int| holds(ring, t) implies sees(empty, from, t, diagonal) by {
            assert forall|m: int| between(from, m, t) implies #[trigger] holds(empty, m) by {}
        }
    }
    while k < steps
        invariant
            0 <= from < 64,
            k <= steps,
            steps == longest_ray(from, diagonal),
            forall|t: int| #[trigger] holds(mask, t) == (0 <= t < 64 && on_line(from, t, diagonal)),
            forall|t: int| #[trigger] holds(at, t) ==> sees(empty, from, t, diagonal),
            forall|t: int| sees(empty, from, t, diagonal) && distance(from, t) <= k + 1 ==> #[trigger] holds(at, t),
            forall|t: int| #[trigger] holds(bb, t) ==> sees(empty, from, t, diagonal) && holds(empty, t),
            forall|t: int|
                sees(empty, from, t, diagonal) && holds(empty, t) && distance(from, t) == k + 1 ==> #[trigger] holds(
                    bb,
                    t,
                ),
        decreases steps - k,
    {
        let grown = grow(bb, mask, diagonal);
        proof {
            lemma_holds_bitwise();
            lemma_grow_sound(empty, from, bb, mask, grown, diagonal);
            lemma_grow_complete(empty, from, bb, mask, grown, diagonal, k as int);
        }
        at = at | grown;
        bb = grown & empty;
        k = k + 1;
    }
    proof {
        assert forall|t: int| sees(empty, from, t, diagonal) implies holds(at, t) by {
            lemma_longest_ray(from, t, diagonal);
        }
    }
    at
}

/// The squares that a slider on `square` attacks when `empty` holds the
/// empty squares: along each of its lines as far as the first square that
/// is not empty, that square included.
pub fn flood(square: usize, empty: u64, diagonal: bool) -> (at: u64)
    requires
        square < 64,
    ensures
        forall|t: int| #[trigger] holds(at, t) == sees(empty, square as int, t, diagonal),
{
    flood_with(
        ring_of(square, diagonal),
        mask_of(square, diagonal),
        steps_of(square, diagonal),
        empty,
        diagonal,
        Ghost(square as int),
    )
}

impl SlidingTables {
    /// The squares that a slider on `square` attacks when `empty` holds the
    /// empty squares, worked out from the tables.
    pub fn flood(&self, square: usize, empty: u64, diagonal: bool) -> (at: u64)
        requires
            self.sound(),
            square < 64,
        ensures
            forall|t: int| #[trigger] holds(at, t) == sees(empty, square as int, t, diagonal),
    {
        flood_with(
            self.ring_at(square, diagonal),
            self.mask_at(square, diagonal),
            self.steps_at(square, diagonal),
            empty,
            diagonal,
            Ghost(square as int),
        )
    }
}

} // verus!
