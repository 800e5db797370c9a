//! What the moves of a sliding piece mean: it reaches exactly the squares
//! that it attacks and that its own side does not hold.

use vstd::prelude::*;
use crate::bitboard::{file_of, holds, rank_of};
use crate::chessboard::moves::piece::not_held_by;
use crate::chessboard::moves::piece::sliding_piece::bishop::{bishop_directions, bishop_moves_from};
use crate::chessboard::moves::piece::sliding_piece::rook::{rook_lands, rook_moves_from};
use crate::utils::color::Color;
use crate::chessboard::moves::piece::sliding_piece::{along, between, can_step, clear_between, direction_moves, distance, lemma_longest_ray, lemma_ray_step, longest_ray, moves_from_where, on_line, ray_moves, rays_moves, ring_lands, slider_attacks, sliding_moves};
use crate::chessboard::moves::Move;
use crate::chessboard::Position;
use crate::utils::direction::Direction;
use crate::utils::square::{lemma_index_square, lemma_square_index, Square};

verus! {

/// A list of two parts holds what one of the parts holds.
pub proof fn lemma_contains_either(a: Seq<Move>, b: Seq<Move>, m: Move)
    ensures
        (a + b).contains(m) == (a.contains(m) || b.contains(m)),
{
    let all = a + b;
    if all.contains(m) {
        let i = choose|i: int| 0 <= i < all.len() && all[i] == m;
        if i < a.len() {
            assert(a[i] == m);
        } else {
            assert(b[i - a.len()] == m);
        }
    }
    if a.contains(m) {
        let i = choose|i: int| 0 <= i < a.len() && a[i] == m;
        assert(all[i] == m);
    }
    if b.contains(m) {
        let i = choose|i: int| 0 <= i < b.len() && b[i] == m;
        assert(all[a.len() + i] == m);
    }
}

/// Moves from one square to different squares are different moves.
pub proof fn lemma_plain_moves_differ(p: Position, from: Square, a: int, b: int)
    requires
        0 <= a < 64,
        0 <= b < 64,
    ensures
        (p.plain_move(from, Square::of_index(a)) == p.plain_move(from, Square::of_index(b))) == (a == b),
{
    lemma_index_square(a);
    lemma_index_square(b);
}

/// The moves to the squares that a predicate accepts hold the move to a
/// square exactly if the predicate accepts the square.
pub proof fn lemma_moves_from_where_holds(p: Position, from: Square, lands: spec_fn(int) -> bool, hi: int, t: int)
    requires
        hi < 64,
        0 <= t < 64,
    ensures
        moves_from_where(p, from, lands, hi).contains(p.plain_move(from, Square::of_index(t))) == (t <= hi
            && lands(t)),
    decreases hi + 1,
{
    let m = p.plain_move(from, Square::of_index(t));
    if hi >= 0 {
        lemma_moves_from_where_holds(p, from, lands, hi - 1, t);
        lemma_plain_moves_differ(p, from, hi, t);
        let rest = moves_from_where(p, from, lands, hi - 1);
        if lands(hi) {
            let first = seq![p.plain_move(from, Square::of_index(hi))];
            lemma_contains_either(first, rest, m);
            assert(first.contains(m) == (hi == t)) by {
                if hi == t {
                    assert(first[0] == m);
                }
            }
        }
    }
}

/// The direction in which square `t` lies from square `s`.
pub open spec fn heading(s: int, t: int) -> Direction {
    let df = file_of(t) - file_of(s);
    let dr = rank_of(t) - rank_of(s);
    if dr > 0 {
        if df > 0 {
            Direction::NorthEast
        } else if df < 0 {
            Direction::NorthWest
        } else {
            Direction::North
        }
    } else if dr < 0 {
        if df > 0 {
            Direction::SouthEast
        } else if df < 0 {
            Direction::SouthWest
        } else {
            Direction::South
        }
    } else if df > 0 {
        Direction::East
    } else {
        Direction::West
    }
}

/// A square on a line of the piece lies as many steps away as its distance
/// says, in its heading; and a square some steps away in a direction lies
/// on a line of that direction, at that distance.
pub proof fn lemma_heading(s: int, t: int, direction: Direction, m: int)
    requires
        0 <= s < 64,
        0 <= t < 64,
    ensures
        on_line(s, t, false) ==> along(s, t, heading(s, t), distance(s, t)) && !heading(s, t).is_diagonal(),
        on_line(s, t, true) ==> along(s, t, heading(s, t), distance(s, t)) && heading(s, t).is_diagonal(),
        along(s, t, direction, m) ==> on_line(s, t, direction.is_diagonal()) && distance(s, t) == m && heading(s, t)
            == direction,
{
}

/// Between a square and one that lies two or more steps away in some
/// direction lie the first square on the way and what lies between that and
/// the far square.
pub proof fn lemma_between_steps(cur: int, t: int, direction: Direction, m: int, x: int)
    requires
        0 <= cur < 64,
        0 <= t < 64,
        along(cur, t, direction, m),
    ensures
        can_step(cur, direction),
        m >= 2 ==> along(cur + direction.offset(), t, direction, m - 1),
        m == 1 ==> t == cur + direction.offset(),
        m == 1 ==> !between(cur, x, t),
        m >= 2 ==> between(cur, x, t) == (x == cur + direction.offset() || between(
            cur + direction.offset(),
            x,
            t,
        )),
{
    lemma_ray_step(cur, cur, direction, 0);
    let next = cur + direction.offset();
    assert(file_of(next) == file_of(cur) + direction.df());
    assert(rank_of(next) == rank_of(cur) + direction.dr());
    if m == 1 {
        assert(t == rank_of(t) * 8 + file_of(t));
        assert(next == rank_of(next) * 8 + file_of(next));
    }
    if 0 <= x < 64 {
        assert(x == rank_of(x) * 8 + file_of(x));
        assert(next == rank_of(next) * 8 + file_of(next));
    }
}

/// The ray beyond square `cur` reaches square `t`: `t` lies some steps on,
/// `fuel` at most, nothing stands between the two, and no man of `allies`
/// holds `t`.
pub open spec fn ray_reaches(
    p: Position,
    allies: u64,
    cur: int,
    direction: Direction,
    fuel: nat,
    t: int,
) -> bool {
    &&& exists|m: int| 1 <= m <= fuel && #[trigger] along(cur, t, direction, m)
    &&& clear_between(p, cur, t)
    &&& !holds(allies, t)
}

/// A ray that cannot start reaches nothing.
proof fn lemma_ray_stops(p: Position, allies: u64, cur: int, direction: Direction, fuel: nat, t: int)
    requires
        0 <= cur < 64,
        0 <= t < 64,
        forall|x: int| holds(allies, x) ==> p.squares[x] is Some,
        fuel == 0 || !can_step(cur, direction) || holds(allies, cur + direction.offset()),
    ensures
        !ray_reaches(p, allies, cur, direction, fuel, t),
{
    let next = cur + direction.offset();
    if ray_reaches(p, allies, cur, direction, fuel, t) {
        let k = choose|k: int| 1 <= k <= fuel && #[trigger] along(cur, t, direction, k);
        lemma_between_steps(cur, t, direction, k, next);
        if k >= 2 {
            assert(between(cur, next, t));
            assert(p.squares[next] is None);
        }
    }
}

/// What a ray reaches beyond its next square, the ray from the next square
/// reaches, and the next square is empty.
proof fn lemma_ray_goes_on(p: Position, allies: u64, cur: int, direction: Direction, fuel: nat, t: int)
    requires
        0 <= cur < 64,
        0 <= t < 64,
        t != cur + direction.offset(),
        ray_reaches(p, allies, cur, direction, fuel, t),
    ensures
        fuel >= 1,
        p.squares[cur + direction.offset()] is None,
        ray_reaches(p, allies, cur + direction.offset(), direction, (fuel - 1) as nat, t),
{
    let next = cur + direction.offset();
    let k = choose|k: int| 1 <= k <= fuel && #[trigger] along(cur, t, direction, k);
    lemma_between_steps(cur, t, direction, k, next);
    assert(k >= 2);
    assert(between(cur, next, t));
    assert(along(next, t, direction, k - 1));
    assert forall|x: int| between(next, x, t) implies #[trigger] p.squares[x] is None by {
        lemma_between_steps(cur, t, direction, k, x);
    }
}

/// A ray reaches its next square unless a man of `allies` holds it.
proof fn lemma_ray_reaches_next(p: Position, allies: u64, cur: int, direction: Direction, fuel: nat)
    requires
        0 <= cur < 64,
        fuel >= 1,
        can_step(cur, direction),
        !holds(allies, cur + direction.offset()),
    ensures
        0 <= cur + direction.offset() < 64,
        ray_reaches(p, allies, cur, direction, fuel, cur + direction.offset()),
{
    let next = cur + direction.offset();
    lemma_ray_step(cur, cur, direction, 0);
    assert(along(cur, next, direction, 1));
    assert forall|x: int| between(cur, x, next) implies #[trigger] p.squares[x] is None by {
        lemma_between_steps(cur, next, direction, 1, x);
    }
}

/// What the ray from the next square reaches, the ray from this square
/// reaches too if the next square is empty.
proof fn lemma_ray_comes_from(p: Position, allies: u64, cur: int, direction: Direction, fuel: nat, t: int)
    requires
        0 <= cur < 64,
        0 <= t < 64,
        fuel >= 1,
        can_step(cur, direction),
        p.squares[cur + direction.offset()] is None,
        ray_reaches(p, allies, cur + direction.offset(), direction, (fuel - 1) as nat, t),
    ensures
        ray_reaches(p, allies, cur, direction, fuel, t),
{
    let next = cur + direction.offset();
    let k = choose|k: int| 1 <= k <= fuel - 1 && #[trigger] along(next, t, direction, k);
    lemma_along_on(cur, next, t, direction, k);
    assert(along(cur, t, direction, k + 1));
    assert forall|x: int| between(cur, x, t) implies #[trigger] p.squares[x] is None by {
        lemma_between_steps(cur, t, direction, k + 1, x);
    }
}

/// The moves along a ray hold the move to a square exactly if the ray
/// reaches the square.
pub proof fn lemma_ray_moves_hold(
    p: Position,
    allies: u64,
    from: Square,
    cur: int,
    direction: Direction,
    fuel: nat,
    t: int,
)
    requires
        0 <= cur < 64,
        0 <= t < 64,
        forall|x: int| holds(allies, x) ==> p.squares[x] is Some,
    ensures
        ray_moves(p, allies, from, cur, direction, fuel).contains(p.plain_move(from, Square::of_index(t)))
            == ray_reaches(p, allies, cur, direction, fuel, t),
    decreases fuel,
{
    let m = p.plain_move(from, Square::of_index(t));
    let next = cur + direction.offset();
    let moves = ray_moves(p, allies, from, cur, direction, fuel);
    let reaches = ray_reaches(p, allies, cur, direction, fuel, t);
    if fuel == 0 || !can_step(cur, direction) || holds(allies, next) {
        lemma_ray_stops(p, allies, cur, direction, fuel, t);
        assert(moves =~= Seq::<Move>::empty());
    } else {
        lemma_ray_reaches_next(p, allies, cur, direction, fuel);
        lemma_plain_moves_differ(p, from, next, t);
        let first = seq![p.plain_move(from, Square::of_index(next))];
        assert(first.contains(m) == (next == t)) by {
            if next == t {
                assert(first[0] == m);
            }
        }
        let further = ray_reaches(p, allies, next, direction, (fuel - 1) as nat, t);
        if reaches && next != t {
            lemma_ray_goes_on(p, allies, cur, direction, fuel, t);
        }
        if p.squares[next] is None {
            let rest = ray_moves(p, allies, from, next, direction, (fuel - 1) as nat);
            lemma_ray_moves_hold(p, allies, from, next, direction, (fuel - 1) as nat, t);
            lemma_contains_either(first, rest, m);
            assert(moves == first + rest);
            if further {
                lemma_ray_comes_from(p, allies, cur, direction, fuel, t);
            }
        } else {
            assert(moves == first);
        }
    }
}

/// A square that lies some steps beyond the next square lies one step more
/// beyond this one.
proof fn lemma_along_on(cur: int, next: int, t: int, direction: Direction, k: int)
    requires
        0 <= cur < 64,
        can_step(cur, direction),
        next == cur + direction.offset(),
        along(next, t, direction, k),
    ensures
        along(cur, t, direction, k + 1),
{
    lemma_ray_step(cur, cur, direction, 0);
}

/// A sliding piece on square `s` reaches square `t` in `direction`: the
/// neighbour in that direction is empty and the ray beyond it reaches `t`.
pub open spec fn direction_reaches(
    p: Position,
    allies: u64,
    s: int,
    direction: Direction,
    fuel: nat,
    t: int,
) -> bool {
    let first = s + direction.offset();
    can_step(s, direction) && !holds(allies, first) && p.squares[first] is None && ray_reaches(
        p,
        allies,
        first,
        direction,
        fuel,
        t,
    )
}

/// The moves of a sliding piece in a list of directions hold the move to a
/// square exactly if the piece reaches the square in one of them.
pub proof fn lemma_rays_moves_hold(
    p: Position,
    allies: u64,
    from: Square,
    directions: Seq<Direction>,
    fuel: nat,
    t: int,
)
    requires
        0 <= t < 64,
        forall|x: int| holds(allies, x) ==> p.squares[x] is Some,
    ensures
        rays_moves(p, allies, from, directions, fuel).contains(p.plain_move(from, Square::of_index(t)))
            == exists|i: int|
            0 <= i < directions.len() && direction_reaches(p, allies, from.index(), #[trigger] directions[i], fuel, t),
    decreases directions.len(),
{
    let m = p.plain_move(from, Square::of_index(t));
    lemma_square_index(from);
    if directions.len() > 0 {
        let rest = directions.drop_last();
        let last = directions.last();
        lemma_rays_moves_hold(p, allies, from, rest, fuel, t);
        lemma_contains_either(
            rays_moves(p, allies, from, rest, fuel),
            direction_moves(p, allies, from, last, fuel),
            m,
        );
        let first = from.index() + last.offset();
        if can_step(from.index(), last) {
            lemma_ray_step(from.index(), from.index(), last, 0);
            lemma_ray_moves_hold(p, allies, from, first, last, fuel, t);
        }
        assert(direction_moves(p, allies, from, last, fuel).contains(m) == direction_reaches(
            p,
            allies,
            from.index(),
            last,
            fuel,
            t,
        ));
        if exists|i: int|
            0 <= i < directions.len() && direction_reaches(p, allies, from.index(), #[trigger] directions[i], fuel, t) {
            let i = choose|i: int|
                0 <= i < directions.len() && direction_reaches(
                    p,
                    allies,
                    from.index(),
                    #[trigger] directions[i],
                    fuel,
                    t,
                );
            if i < rest.len() {
                assert(rest[i] == directions[i]);
            }
        }
        if exists|i: int|
            0 <= i < rest.len() && direction_reaches(p, allies, from.index(), #[trigger] rest[i], fuel, t) {
            let i = choose|i: int|
                0 <= i < rest.len() && direction_reaches(p, allies, from.index(), #[trigger] rest[i], fuel, t);
            assert(directions[i] == rest[i]);
        }
        if direction_reaches(p, allies, from.index(), last, fuel, t) {
            assert(directions[directions.len() - 1] == last);
        }
    }
}

/// Where a sliding piece reaches a square in a direction of its own, it
/// attacks the square.
proof fn lemma_reach_attacks(p: Position, allies: u64, s: int, direction: Direction, fuel: nat, t: int)
    requires
        0 <= s < 64,
        0 <= t < 64,
        direction_reaches(p, allies, s, direction, fuel, t),
    ensures
        slider_attacks(p, s, t, direction.is_diagonal()),
        !holds(allies, t),
{
    let first = s + direction.offset();
    let k = choose|k: int| 1 <= k <= fuel && #[trigger] along(first, t, direction, k);
    lemma_along_on(s, first, t, direction, k);
    lemma_heading(s, t, direction, k + 1);
    assert forall|x: int| between(s, x, t) implies #[trigger] p.squares[x] is None by {
        lemma_between_steps(s, t, direction, k + 1, x);
    }
}

/// A square two or more steps away that a sliding piece attacks, it
/// reaches in the heading of the square, with fuel for its longest line.
proof fn lemma_attack_reaches(p: Position, allies: u64, s: int, t: int, diagonal: bool)
    requires
        0 <= s < 64,
        0 <= t < 64,
        forall|x: int| holds(allies, x) ==> p.squares[x] is Some,
        slider_attacks(p, s, t, diagonal),
        !holds(allies, t),
        distance(s, t) >= 2,
    ensures
        heading(s, t).is_diagonal() == diagonal,
        direction_reaches(p, allies, s, heading(s, t), longest_ray(s, diagonal) as nat, t),
{
    lemma_longest_ray(s, t, diagonal);
    lemma_heading(s, t, Direction::North, 0);
    let direction = heading(s, t);
    let far = distance(s, t);
    let first = s + direction.offset();
    lemma_between_steps(s, t, direction, far, first);
    assert(between(s, first, t));
    assert(p.squares[first] is None);
    assert(along(first, t, direction, far - 1));
    assert forall|x: int| between(first, x, t) implies #[trigger] p.squares[x] is None by {
        lemma_between_steps(s, t, direction, far, x);
    }
}

/// A sliding piece on square `s` reaches square `t` in one of
/// `directions`.
pub open spec fn some_direction_reaches(
    p: Position,
    allies: u64,
    s: int,
    directions: Seq<Direction>,
    fuel: nat,
    t: int,
) -> bool {
    exists|i: int|
        0 <= i < directions.len() && direction_reaches(p, allies, s, #[trigger] directions[i], fuel, t)
}

/// The moves of a sliding piece hold the move to a square exactly if the
/// square is a neighbour that `allies` does not hold or the piece reaches
/// it in one of its directions.
proof fn lemma_sliding_moves_hold(
    p: Position,
    allies: u64,
    from: Square,
    diagonal: bool,
    directions: Seq<Direction>,
    fuel: nat,
    t: int,
)
    requires
        0 <= t < 64,
        forall|x: int| holds(allies, x) ==> p.squares[x] is Some,
    ensures
        sliding_moves(p, allies, from, diagonal, directions, fuel).contains(
            p.plain_move(from, Square::of_index(t)),
        ) == (ring_lands(allies, from.index(), diagonal, t) || some_direction_reaches(
            p,
            allies,
            from.index(),
            directions,
            fuel,
            t,
        )),
{
    let m = p.plain_move(from, Square::of_index(t));
    let ring = moves_from_where(p, from, |x: int| ring_lands(allies, from.index(), diagonal, x), 63);
    let rays = rays_moves(p, allies, from, directions, fuel);
    lemma_moves_from_where_holds(p, from, |x: int| ring_lands(allies, from.index(), diagonal, x), 63, t);
    lemma_rays_moves_hold(p, allies, from, directions, fuel, t);
    lemma_contains_either(ring, rays, m);
}

/// What a sliding piece reaches, as a neighbour or along a ray, it attacks.
proof fn lemma_reached_is_attacked(
    p: Position,
    allies: u64,
    s: int,
    diagonal: bool,
    directions: Seq<Direction>,
    fuel: nat,
    t: int,
)
    requires
        0 <= s < 64,
        0 <= t < 64,
        forall|i: int| 0 <= i < directions.len() ==> (#[trigger] directions[i]).is_diagonal() == diagonal,
        ring_lands(allies, s, diagonal, t) || some_direction_reaches(p, allies, s, directions, fuel, t),
    ensures
        slider_attacks(p, s, t, diagonal),
        !holds(allies, t),
{
    if ring_lands(allies, s, diagonal, t) {
        assert forall|x: int| between(s, x, t) implies #[trigger] p.squares[x] is None by {
            lemma_near_squares(s, t, x);
        }
    } else {
        let i = choose|i: int|
            0 <= i < directions.len() && direction_reaches(p, allies, s, #[trigger] directions[i], fuel, t);
        lemma_reach_attacks(p, allies, s, directions[i], fuel, t);
    }
}

/// What a sliding piece attacks it reaches, as a neighbour or along a ray,
/// unless a man of `allies` holds it.
proof fn lemma_attacked_is_reached(
    p: Position,
    allies: u64,
    s: int,
    diagonal: bool,
    directions: Seq<Direction>,
    t: int,
)
    requires
        0 <= s < 64,
        0 <= t < 64,
        forall|x: int| holds(allies, x) ==> p.squares[x] is Some,
        forall|d: Direction| d.is_diagonal() == diagonal ==> #[trigger] directions.contains(d),
        slider_attacks(p, s, t, diagonal),
        !holds(allies, t),
    ensures
        ring_lands(allies, s, diagonal, t) || some_direction_reaches(
            p,
            allies,
            s,
            directions,
            longest_ray(s, diagonal) as nat,
            t,
        ),
{
    lemma_longest_ray(s, t, diagonal);
    if distance(s, t) >= 2 {
        lemma_attack_reaches(p, allies, s, t, diagonal);
        let direction = heading(s, t);
        assert(directions.contains(direction));
        let i = choose|i: int| 0 <= i < directions.len() && directions[i] == direction;
        assert(direction_reaches(p, allies, s, directions[i], longest_ray(s, diagonal) as nat, t));
    }
}

/// A piece that slides on files and ranks from square `s` has a move to
/// square `t` exactly if it attacks `t`, that is if the two share a file or
/// a rank with nothing between them, and no man of `color` stands on `t`.
pub proof fn lemma_rook_moves_reach(p: Position, color: Color, s: int, t: int)
    requires
        0 <= s < 64,
        0 <= t < 64,
    ensures
        rook_moves_from(p, color, s).contains(p.plain_move(Square::of_index(s), Square::of_index(t))) == (
        slider_attacks(p, s, t, false) && not_held_by(p, color, t)),
{
    lemma_moves_from_where_holds(p, Square::of_index(s), |x: int| rook_lands(p, color, s, x), 63, t);
}

/// A piece that slides on the diagonals from square `s` has a move to
/// square `t` exactly if it attacks `t`, that is if the two share a
/// diagonal with nothing between them, and no man of `allies` holds `t`.
/// Here `allies` holds nothing but men.
pub proof fn lemma_bishop_moves_reach(p: Position, allies: u64, s: int, t: int)
    requires
        0 <= s < 64,
        0 <= t < 64,
        forall|x: int| holds(allies, x) ==> p.squares[x] is Some,
    ensures
        bishop_moves_from(p, allies, s).contains(p.plain_move(Square::of_index(s), Square::of_index(t))) == (
        slider_attacks(p, s, t, true) && !holds(allies, t)),
{
    let from = Square::of_index(s);
    lemma_index_square(s);
    let fuel = longest_ray(s, true) as nat;
    let directions = bishop_directions();
    lemma_sliding_moves_hold(p, allies, from, true, directions, fuel, t);
    assert forall|d: Direction| d.is_diagonal() implies #[trigger] directions.contains(d) by {
        let i: int = if d == Direction::NorthEast {
            0
        } else if d == Direction::NorthWest {
            1
        } else if d == Direction::SouthEast {
            2
        } else {
            3
        };
        assert(directions[i] == d);
    }
    if ring_lands(allies, s, true, t) || some_direction_reaches(p, allies, s, directions, fuel, t) {
        lemma_reached_is_attacked(p, allies, s, true, directions, fuel, t);
    }
    if slider_attacks(p, s, t, true) && !holds(allies, t) {
        lemma_attacked_is_reached(p, allies, s, true, directions, t);
    }
}

/// Every move of `moves` goes from `from` to a square of the board, with
/// the capture that the board shows.
pub open spec fn all_plain(p: Position, from: Square, moves: Seq<Move>) -> bool {
    forall|i: int|
        0 <= i < moves.len() ==> exists|t: int|
            0 <= t < 64 && #[trigger] moves[i] == p.plain_move(from, Square::of_index(t))
}

/// Two lists of moves from a square make one.
proof fn lemma_all_plain_both(p: Position, from: Square, a: Seq<Move>, b: Seq<Move>)
    requires
        all_plain(p, from, a),
        all_plain(p, from, b),
    ensures
        all_plain(p, from, a + b),
{
    let all = a + b;
    assert forall|i: int| 0 <= i < all.len() implies exists|t: int|
        0 <= t < 64 && #[trigger] all[i] == p.plain_move(from, Square::of_index(t)) by {
        if i < a.len() {
            assert(all[i] == a[i]);
            let t = choose|t: int| 0 <= t < 64 && a[i] == p.plain_move(from, Square::of_index(t));
            assert(all[i] == p.plain_move(from, Square::of_index(t)));
        } else {
            assert(all[i] == b[i - a.len()]);
            let t = choose|t: int| 0 <= t < 64 && b[i - a.len()] == p.plain_move(from, Square::of_index(t));
            assert(all[i] == p.plain_move(from, Square::of_index(t)));
        }
    }
}

/// The one move from a square to a square of the board.
proof fn lemma_all_plain_one(p: Position, from: Square, t: int)
    requires
        0 <= t < 64,
    ensures
        all_plain(p, from, seq![p.plain_move(from, Square::of_index(t))]),
{
    let one = seq![p.plain_move(from, Square::of_index(t))];
    assert forall|i: int| 0 <= i < one.len() implies exists|u: int|
        0 <= u < 64 && #[trigger] one[i] == p.plain_move(from, Square::of_index(u)) by {
        assert(one[i] == p.plain_move(from, Square::of_index(t)));
    }
}

/// The moves to the squares that a predicate accepts go from the one
/// square, each to a square of the board.
proof fn lemma_moves_from_where_plain(p: Position, from: Square, lands: spec_fn(int) -> bool, hi: int)
    requires
        hi < 64,
    ensures
        all_plain(p, from, moves_from_where(p, from, lands, hi)),
    decreases hi + 1,
{
    if hi >= 0 {
        lemma_moves_from_where_plain(p, from, lands, hi - 1);
        if lands(hi) {
            lemma_all_plain_one(p, from, hi);
            lemma_all_plain_both(
                p,
                from,
                seq![p.plain_move(from, Square::of_index(hi))],
                moves_from_where(p, from, lands, hi - 1),
            );
        }
    }
}

/// The moves along a ray go from the one square, each to a square of the
/// board.
proof fn lemma_ray_moves_plain(
    p: Position,
    allies: u64,
    from: Square,
    cur: int,
    direction: Direction,
    fuel: nat,
)
    requires
        0 <= cur < 64,
    ensures
        all_plain(p, from, ray_moves(p, allies, from, cur, direction, fuel)),
    decreases fuel,
{
    let next = cur + direction.offset();
    if fuel == 0 || !can_step(cur, direction) || holds(allies, next) {
    } else {
        lemma_ray_step(cur, cur, direction, 0);
        lemma_all_plain_one(p, from, next);
        if p.squares[next] is None {
            lemma_ray_moves_plain(p, allies, from, next, direction, (fuel - 1) as nat);
            lemma_all_plain_both(
                p,
                from,
                seq![p.plain_move(from, Square::of_index(next))],
                ray_moves(p, allies, from, next, direction, (fuel - 1) as nat),
            );
        }
    }
}

/// The moves along the rays of a sliding piece go from its square, each to
/// a square of the board.
proof fn lemma_rays_moves_plain(p: Position, allies: u64, from: Square, directions: Seq<Direction>, fuel: nat)
    ensures
        all_plain(p, from, rays_moves(p, allies, from, directions, fuel)),
    decreases directions.len(),
{
    lemma_square_index(from);
    if directions.len() > 0 {
        lemma_rays_moves_plain(p, allies, from, directions.drop_last(), fuel);
        let last = directions.last();
        if can_step(from.index(), last) {
            lemma_ray_step(from.index(), from.index(), last, 0);
            lemma_ray_moves_plain(p, allies, from, from.index() + last.offset(), last, fuel);
        }
        lemma_all_plain_both(
            p,
            from,
            rays_moves(p, allies, from, directions.drop_last(), fuel),
            direction_moves(p, allies, from, last, fuel),
        );
    }
}

/// Every move of a piece that slides on the diagonals from square `s` goes
/// from `s` to a square of the board, with the capture that the board
/// shows.
pub proof fn lemma_bishop_moves_plain(p: Position, allies: u64, s: int)
    requires
        0 <= s < 64,
    ensures
        all_plain(p, Square::of_index(s), bishop_moves_from(p, allies, s)),
{
    let from = Square::of_index(s);
    let fuel = longest_ray(s, true) as nat;
    lemma_moves_from_where_plain(p, from, |x: int| ring_lands(allies, from.index(), true, x), 63);
    lemma_rays_moves_plain(p, allies, from, bishop_directions(), fuel);
    lemma_all_plain_both(
        p,
        from,
        moves_from_where(p, from, |x: int| ring_lands(allies, from.index(), true, x), 63),
        rays_moves(p, allies, from, bishop_directions(), fuel),
    );
}

/// Nothing lies between neighbours.
proof fn lemma_near_squares(s: int, t: int, x: int)
    requires
        0 <= s < 64,
        0 <= t < 64,
        distance(s, t) == 1,
    ensures
        !between(s, x, t),
{
}

} // verus!
