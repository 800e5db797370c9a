//! The geometry of the lines on which pieces slide: files, ranks and
//! diagonals, the squares between two squares, and steps along a ray.

use vstd::prelude::*;
use crate::bitboard::{file_of, holds, rank_of};
use crate::chessboard::Position;
use crate::utils::direction::Direction;

verus! {


/// `x` lies strictly between `a` and `b`, whichever of the two is larger.
pub open spec fn strictly_within(a: int, x: int, b: int) -> bool {
    (a < x && x < b) || (b < x && x < a)
}

/// The distance between two squares in king steps.
pub open spec fn distance(a: int, b: int) -> int {
    let df = if file_of(a) <= file_of(b) {
        file_of(b) - file_of(a)
    } else {
        file_of(a) - file_of(b)
    };
    let dr = if rank_of(a) <= rank_of(b) {
        rank_of(b) - rank_of(a)
    } else {
        rank_of(a) - rank_of(b)
    };
    if df <= dr {
        dr
    } else {
        df
    }
}

/// Two different squares share a file or a rank.
pub open spec fn on_rook_line(a: int, b: int) -> bool {
    a != b && (file_of(a) == file_of(b) || rank_of(a) == rank_of(b))
}

/// Two different squares share a diagonal.
pub open spec fn on_bishop_line(a: int, b: int) -> bool {
    a != b && (file_of(b) - file_of(a) == rank_of(b) - rank_of(a) || file_of(b) - file_of(a) == rank_of(a)
        - rank_of(b))
}

/// Two different squares share a line of the piece: a diagonal for the
/// bishop (`diagonal`), a file or a rank for the rook.
pub open spec fn on_line(a: int, b: int, diagonal: bool) -> bool {
    if diagonal {
        on_bishop_line(a, b)
    } else {
        on_rook_line(a, b)
    }
}

/// Square `m` lies on the straight line from `a` to `b`, strictly between
/// the two.
pub open spec fn between(a: int, m: int, b: int) -> bool {
    &&& 0 <= m < 64
    &&& {
        ||| file_of(a) == file_of(b) && file_of(m) == file_of(a) && strictly_within(
            rank_of(a),
            rank_of(m),
            rank_of(b),
        )
        ||| rank_of(a) == rank_of(b) && rank_of(m) == rank_of(a) && strictly_within(
            file_of(a),
            file_of(m),
            file_of(b),
        )
        ||| file_of(b) - file_of(a) == rank_of(b) - rank_of(a) && file_of(m) - file_of(a) == rank_of(m)
            - rank_of(a) && strictly_within(file_of(a), file_of(m), file_of(b))
        ||| file_of(b) - file_of(a) == rank_of(a) - rank_of(b) && file_of(m) - file_of(a) == rank_of(a)
            - rank_of(m) && strictly_within(file_of(a), file_of(m), file_of(b))
    }
}

/// Every square strictly between `a` and `b` is in `empty`.
pub open spec fn open_line(empty: u64, a: int, b: int) -> bool {
    forall|m: int| between(a, m, b) ==> #[trigger] holds(empty, m)
}

/// A slider on `from` attacks square `t`: the two share a line of the piece
/// and nothing stands between them.
pub open spec fn sees(empty: u64, from: int, t: int, diagonal: bool) -> bool {
    0 <= t < 64 && on_line(from, t, diagonal) && open_line(empty, from, t)
}

/// `t` is the neighbour of `u` one step along a line of the piece.
pub open spec fn next_to(u: int, t: int, diagonal: bool) -> bool {
    let df = file_of(t) - file_of(u);
    let dr = rank_of(t) - rank_of(u);
    if diagonal {
        (df == 1 || df == -1) && (dr == 1 || dr == -1)
    } else {
        ((df == 1 || df == -1) && dr == 0) || ((dr == 1 || dr == -1) && df == 0)
    }
}

/// The neighbour of `t` one step closer to `from` on their common line.
pub open spec fn toward(from: int, t: int) -> int {
    let f = if file_of(t) > file_of(from) {
        file_of(t) - 1
    } else if file_of(t) < file_of(from) {
        file_of(t) + 1
    } else {
        file_of(t)
    };
    let r = if rank_of(t) > rank_of(from) {
        rank_of(t) - 1
    } else if rank_of(t) < rank_of(from) {
        rank_of(t) + 1
    } else {
        rank_of(t)
    };
    r * 8 + f
}

/// A slider that attacks an empty square attacks the next square on the
/// same line too.
pub proof fn lemma_sees_further(empty: u64, from: int, u: int, t: int, diagonal: bool)
    requires
        0 <= from < 64,
        0 <= t < 64,
        sees(empty, from, u, diagonal),
        holds(empty, u),
        next_to(u, t, diagonal),
        on_line(from, t, diagonal),
    ensures
        sees(empty, from, t, diagonal),
{
    assert forall|m: int| between(from, m, t) implies #[trigger] holds(empty, m) by {
        if m != u {
            assert(between(from, m, u));
        }
    }
}

/// A slider that attacks a square two or more steps away attacks the square
/// before it too, and that square is empty.
pub proof fn lemma_sees_nearer(empty: u64, from: int, t: int, diagonal: bool)
    requires
        0 <= from < 64,
        sees(empty, from, t, diagonal),
        distance(from, t) >= 2,
    ensures
        0 <= toward(from, t) < 64,
        sees(empty, from, toward(from, t), diagonal),
        holds(empty, toward(from, t)),
        next_to(toward(from, t), t, diagonal),
        distance(from, toward(from, t)) == distance(from, t) - 1,
{
    let u = toward(from, t);
    assert(between(from, u, t));
    assert forall|m: int| between(from, m, u) implies #[trigger] holds(empty, m) by {
        assert(between(from, m, t));
    }
}

/// How many steps lead from square `sq` to the edge of the board in the
/// direction that changes the file by `df` and the rank by `dr` each step.
pub open spec fn ray_length(sq: int, df: int, dr: int) -> int {
    let by_file = if df > 0 {
        7 - file_of(sq)
    } else if df < 0 {
        file_of(sq)
    } else {
        7
    };
    let by_rank = if dr > 0 {
        7 - rank_of(sq)
    } else if dr < 0 {
        rank_of(sq)
    } else {
        7
    };
    if by_file <= by_rank {
        by_file
    } else {
        by_rank
    }
}

/// The larger of two numbers.
pub open spec fn larger(a: int, b: int) -> int {
    if a >= b {
        a
    } else {
        b
    }
}

/// The length of the longest line of the piece from square `sq`.
pub open spec fn longest_ray(sq: int, diagonal: bool) -> int {
    if diagonal {
        larger(
            larger(ray_length(sq, 1, 1), ray_length(sq, -1, 1)),
            larger(ray_length(sq, 1, -1), ray_length(sq, -1, -1)),
        )
    } else {
        larger(
            larger(ray_length(sq, 0, 1), ray_length(sq, 1, 0)),
            larger(ray_length(sq, 0, -1), ray_length(sq, -1, 0)),
        )
    }
}

/// No square on a line of the piece is farther away than the longest line
/// is long.
pub proof fn lemma_longest_ray(sq: int, t: int, diagonal: bool)
    requires
        0 <= sq < 64,
        0 <= t < 64,
        on_line(sq, t, diagonal),
    ensures
        1 <= distance(sq, t) <= longest_ray(sq, diagonal),
{
}

/// How the index of a square changes with one step along a line.
pub proof fn lemma_step_geometry(u: int, t: int)
    requires
        0 <= u < 64,
        0 <= t < 64,
    ensures
        t == u + 8 ==> next_to(u, t, false),
        t == u - 8 ==> next_to(u, t, false),
        t == u + 1 && file_of(t) != 0 ==> next_to(u, t, false),
        t == u - 1 && file_of(t) != 7 ==> next_to(u, t, false),
        t == u + 9 && file_of(t) != 0 ==> next_to(u, t, true),
        t == u + 7 && file_of(t) != 7 ==> next_to(u, t, true),
        t == u - 7 && file_of(t) != 0 ==> next_to(u, t, true),
        t == u - 9 && file_of(t) != 7 ==> next_to(u, t, true),
        next_to(u, t, false) ==> t == u + 8 || t == u - 8 || (t == u + 1 && file_of(t) != 0) || (t == u - 1
            && file_of(t) != 7),
        next_to(u, t, true) ==> (t == u + 9 && file_of(t) != 0) || (t == u + 7 && file_of(t) != 7) || (t == u
            - 7 && file_of(t) != 0) || (t == u - 9 && file_of(t) != 7),
{
}

/// `d` times `n` for a step `d` of one file or rank.
pub open spec fn scaled(d: int, n: int) -> int {
    if d > 0 {
        n
    } else if d < 0 {
        -n
    } else {
        0
    }
}

/// Square `cur` lies `n` steps in `direction` from square `from`.
pub open spec fn along(from: int, cur: int, direction: Direction, n: int) -> bool {
    &&& n >= 1
    &&& 0 <= cur < 64
    &&& file_of(cur) - file_of(from) == scaled(direction.df(), n)
    &&& rank_of(cur) - rank_of(from) == scaled(direction.dr(), n)
}

/// One more step in `direction` from square `cur` stays on the board.
pub open spec fn can_step(cur: int, direction: Direction) -> bool {
    0 <= file_of(cur) + direction.df() < 8 && 0 <= rank_of(cur) + direction.dr() < 8
}

/// The square with file `f` and rank `r` has those as its file and rank.
pub proof fn lemma_file_rank(f: int, r: int)
    requires
        0 <= f < 8,
    ensures
        file_of(r * 8 + f) == f,
        rank_of(r * 8 + f) == r,
{
    vstd::arithmetic::div_mod::lemma_fundamental_div_mod_converse(r * 8 + f, 8, r, f);
}

/// One step along a ray leads to the next square of the ray, which lies on
/// a line of the piece.
pub proof fn lemma_ray_step(from: int, cur: int, direction: Direction, n: int)
    requires
        0 <= from < 64,
        along(from, cur, direction, n) || (n == 0 && cur == from),
    ensures
        can_step(cur, direction) ==> along(from, cur + direction.offset(), direction, n + 1) && on_line(
            from,
            cur + direction.offset(),
            direction.is_diagonal(),
        ),
        can_step(cur, direction) == (0 <= cur + direction.offset() < 64 && 0 <= file_of(
            cur + direction.offset(),
        ) - direction.df() < 8),
        can_step(cur, direction) ==> distance(from, cur + direction.offset()) == n + 1,
{
    let df = direction.df();
    let dr = direction.dr();
    let t = cur + direction.offset();
    let f = file_of(cur);
    let r = rank_of(cur);
    assert(cur == r * 8 + f);
    assert(t == (r + dr) * 8 + (f + df));
    if can_step(cur, direction) {
        lemma_file_rank(f + df, r + dr);
        assert(file_of(t) == f + df);
        assert(rank_of(t) == r + dr);
    }
    if 0 <= t < 64 && 0 <= file_of(t) - df < 8 {
        let ft = file_of(t);
        let rt = rank_of(t);
        assert(cur == (rt - dr) * 8 + (ft - df));
        lemma_file_rank(ft - df, rt - dr);
    }
}

/// Nothing stands strictly between squares `a` and `b`.
pub open spec fn clear_between(p: Position, a: int, b: int) -> bool {
    forall|m: int| between(a, m, b) ==> #[trigger] p.squares[m] is None
}

/// A slider on `from` attacks square `t`: the two share a line of the piece
/// and nothing stands between them.
pub open spec fn slider_attacks(p: Position, from: int, t: int, diagonal: bool) -> bool {
    0 <= t < 64 && on_line(from, t, diagonal) && clear_between(p, from, t)
}

} // verus!
