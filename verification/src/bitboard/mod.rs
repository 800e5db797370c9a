//! Board masks: 64-bit sets of squares, bit `rank * 8 + file` for each square.

pub mod patterns;

use vstd::prelude::*;
use vstd::std_specs::bits::{axiom_u64_leading_zeros, axiom_u64_trailing_zeros, u64_leading_zeros, u64_trailing_zeros};
use crate::utils::direction::Direction;
use crate::utils::file::{NOT_A_FILE, NOT_H_FILE};

verus! {

/// Square number `sq` belongs to the mask `bb`.
pub open spec fn holds(bb: u64, sq: int) -> bool {
    0 <= sq < 64 && (bb >> (sq as u64)) & 1u64 == 1u64
}

/// File (column) of a square number, 0 for the A file.
pub open spec fn file_of(sq: int) -> int {
    sq % 8
}

/// Rank (row) of a square number, 0 for the first rank.
pub open spec fn rank_of(sq: int) -> int {
    sq / 8
}

/// The squares of `bb` from `lo` upwards, in ascending order.
pub open spec fn squares_up(bb: u64, lo: int) -> Seq<int>
    decreases 64 - lo,
{
    if lo >= 64 {
        Seq::empty()
    } else if holds(bb, lo) {
        seq![lo] + squares_up(bb, lo + 1)
    } else {
        squares_up(bb, lo + 1)
    }
}

/// The squares of `bb` from `hi` downwards, in descending order.
pub open spec fn squares_down(bb: u64, hi: int) -> Seq<int>
    decreases hi + 1,
{
    if hi < 0 {
        Seq::empty()
    } else if holds(bb, hi) {
        seq![hi] + squares_down(bb, hi - 1)
    } else {
        squares_down(bb, hi - 1)
    }
}

/// How many squares `bb` has at or above `lo`.
pub open spec fn population(bb: u64, lo: int) -> nat
    decreases 64 - lo,
{
    if lo >= 64 {
        0
    } else if holds(bb, lo) {
        1 + population(bb, lo + 1)
    } else {
        population(bb, lo + 1)
    }
}

proof fn lemma_raw_bitwise()
    by (bit_vector)
    ensures
        forall|a: u64, b: u64, i: u64|
            i < 64 ==> ((#[trigger] ((a ^ b) >> i)) & 1u64 == 1u64) == (((a >> i) & 1u64 == 1u64) != ((b
                >> i) & 1u64 == 1u64)),
        forall|a: u64, b: u64, i: u64|
            i < 64 ==> ((#[trigger] ((a | b) >> i)) & 1u64 == 1u64) == (((a >> i) & 1u64 == 1u64) || ((b
                >> i) & 1u64 == 1u64)),
        forall|a: u64, b: u64, i: u64|
            i < 64 ==> ((#[trigger] ((a & b) >> i)) & 1u64 == 1u64) == (((a >> i) & 1u64 == 1u64) && ((b
                >> i) & 1u64 == 1u64)),
        forall|a: u64, i: u64|
            i < 64 ==> ((#[trigger] ((!a) >> i)) & 1u64 == 1u64) == !((a >> i) & 1u64 == 1u64),
        forall|s: u64, i: u64|
            i < 64 && s < 64 ==> ((#[trigger] ((1u64 << s) >> i)) & 1u64 == 1u64) == (i == s),
        forall|i: u64| i < 64 ==> (#[trigger] (0u64 >> i)) & 1u64 != 1u64,
        forall|i: u64| i < 64 ==> (#[trigger] (0xffff_ffff_ffff_ffffu64 >> i)) & 1u64 == 1u64,
{
}

proof fn lemma_raw_shifts()
    by (bit_vector)
    ensures
        forall|a: u64, k: u64, i: u64|
            i < 64 && k < 64 ==> ((#[trigger] ((a << k) >> i)) & 1u64 == 1u64) == (i >= k && (a >> ((i
                - k) as u64)) & 1u64 == 1u64),
        forall|a: u64, k: u64, i: u64|
            i < 64 && k < 64 ==> ((#[trigger] ((a >> k) >> i)) & 1u64 == 1u64) == (i + k < 64 && (a >> ((i
                + k) as u64)) & 1u64 == 1u64),
{
}

proof fn lemma_raw_files()
    by (bit_vector)
    ensures
        forall|i: u64| i < 64 ==> ((#[trigger] (0xfefefefefefefefeu64 >> i)) & 1u64 == 1u64) == (i % 8 != 0),
        forall|i: u64| i < 64 ==> ((#[trigger] (0x7f7f7f7f7f7f7f7fu64 >> i)) & 1u64 == 1u64) == (i % 8 != 7),
        forall|i: u64| i < 64 ==> ((#[trigger] (0xfcfcfcfcfcfcfcfcu64 >> i)) & 1u64 == 1u64) == (i % 8 >= 2),
        forall|i: u64| i < 64 ==> ((#[trigger] (0x3f3f3f3f3f3f3f3fu64 >> i)) & 1u64 == 1u64) == (i % 8 < 6),
        forall|i: u64| i < 64 ==> ((#[trigger] (0x0000_0000_FF00_0000u64 >> i)) & 1u64 == 1u64) == (24 <= i < 32),
        forall|i: u64| i < 64 ==> ((#[trigger] (0x0000_00FF_0000_0000u64 >> i)) & 1u64 == 1u64) == (32 <= i < 40),
{
}

proof fn lemma_raw_lines()
    by (bit_vector)
    ensures
        forall|i: u64| i < 64 ==> ((#[trigger] (0x0101010101010101u64 >> i)) & 1u64 == 1u64) == (i % 8 == 0),
        forall|i: u64| i < 64 ==> ((#[trigger] (0x0000_0000_0000_00FFu64 >> i)) & 1u64 == 1u64) == (i < 8),
        forall|i: u64| i < 64 ==> ((#[trigger] (0x8040201008040201u64 >> i)) & 1u64 == 1u64) == (i % 8 == i / 8),
        forall|i: u64| i < 64 ==> ((#[trigger] (0x0102040810204080u64 >> i)) & 1u64 == 1u64) == (i % 8 + i / 8 == 7),
{
}

proof fn lemma_raw_zero(a: u64, b: u64)
    by (bit_vector)
    ensures
        a ^ b == 0 ==> a == b,
{
}

/// Membership in the masks that the bitwise operators build.
pub proof fn lemma_holds_bitwise()
    ensures
        forall|a: u64, b: u64, s: int| #[trigger] holds(a ^ b, s) == (holds(a, s) != holds(b, s)),
        forall|a: u64, b: u64, s: int| #[trigger] holds(a | b, s) == (holds(a, s) || holds(b, s)),
        forall|a: u64, b: u64, s: int| #[trigger] holds(a & b, s) == (holds(a, s) && holds(b, s)),
        forall|a: u64, s: int| #[trigger] holds(!a, s) == (0 <= s < 64 && !holds(a, s)),
        forall|t: u64, s: int| t < 64 ==> #[trigger] holds(1u64 << t, s) == (s == t),
        forall|s: int| !#[trigger] holds(0u64, s),
        forall|s: int| #[trigger] holds(0xffff_ffff_ffff_ffffu64, s) == (0 <= s < 64),
{
    lemma_raw_bitwise();
}

/// Membership in a mask moved up or down by `k` square numbers.
pub proof fn lemma_holds_shifts()
    ensures
        forall|a: u64, k: u64, s: int|
            k < 64 ==> #[trigger] holds(a << k, s) == (s < 64 && holds(a, s - k)),
        forall|a: u64, k: u64, s: int|
            k < 64 ==> #[trigger] holds(a >> k, s) == (0 <= s && holds(a, s + k)),
{
    lemma_raw_shifts();
}

/// Which squares the file and rank masks hold.
pub proof fn lemma_holds_files()
    ensures
        forall|s: int| #[trigger] holds(NOT_A_FILE, s) == (0 <= s < 64 && file_of(s) != 0),
        forall|s: int| #[trigger] holds(NOT_H_FILE, s) == (0 <= s < 64 && file_of(s) != 7),
        forall|s: int| #[trigger] holds(0xfcfcfcfcfcfcfcfcu64, s) == (0 <= s < 64 && file_of(s) >= 2),
        forall|s: int| #[trigger] holds(0x3f3f3f3f3f3f3f3fu64, s) == (0 <= s < 64 && file_of(s) < 6),
        forall|s: int| #[trigger] holds(0x0000_0000_FF00_0000u64, s) == (0 <= s < 64 && rank_of(s) == 3),
        forall|s: int| #[trigger] holds(0x0000_00FF_0000_0000u64, s) == (0 <= s < 64 && rank_of(s) == 4),
{
    lemma_raw_files();
}

/// Which squares the A file, the first rank and the two long diagonals hold.
pub proof fn lemma_holds_lines()
    ensures
        forall|s: int| #[trigger] holds(0x0101010101010101u64, s) == (0 <= s < 64 && file_of(s) == 0),
        forall|s: int| #[trigger] holds(0x0000_0000_0000_00FFu64, s) == (0 <= s < 64 && rank_of(s) == 0),
        forall|s: int| #[trigger] holds(0x8040201008040201u64, s) == (0 <= s < 64 && file_of(s) == rank_of(s)),
        forall|s: int| #[trigger] holds(0x0102040810204080u64, s) == (0 <= s < 64 && file_of(s) + rank_of(s) == 7),
{
    lemma_raw_lines();
}

/// Two masks that hold the same squares are the same mask.
pub proof fn lemma_same_squares(a: u64, b: u64)
    requires
        forall|s: int| 0 <= s < 64 ==> holds(a, s) == holds(b, s),
    ensures
        a == b,
{
    let d = a ^ b;
    if d != 0 {
        axiom_u64_trailing_zeros(d);
        let t = u64_trailing_zeros(d) as int;
        lemma_holds_bitwise();
        assert(holds(d, t));
        assert(holds(a, t) != holds(b, t));
    } else {
        lemma_raw_zero(a, b);
    }
}

/// The mask of the squares from `lo` upwards that `wanted` accepts.
pub open spec fn mask_where(wanted: spec_fn(int) -> bool, lo: int) -> u64
    decreases 64 - lo,
{
    if lo >= 64 || lo < 0 {
        0
    } else if wanted(lo) {
        (1u64 << (lo as u64)) | mask_where(wanted, lo + 1)
    } else {
        mask_where(wanted, lo + 1)
    }
}

/// The mask of a predicate holds the squares that the predicate accepts.
pub proof fn lemma_mask_where(wanted: spec_fn(int) -> bool, lo: int)
    requires
        0 <= lo,
    ensures
        forall|t: int| #[trigger] holds(mask_where(wanted, lo), t) == (lo <= t < 64 && wanted(t)),
    decreases 64 - lo,
{
    lemma_holds_bitwise();
    let mask = mask_where(wanted, lo);
    if lo < 64 {
        lemma_mask_where(wanted, lo + 1);
        let rest = mask_where(wanted, lo + 1);
        let bit = 1u64 << (lo as u64);
        assert(forall|t: int| #[trigger] holds(bit, t) == (t == lo));
        assert forall|t: int| #[trigger] holds(mask, t) == (lo <= t < 64 && wanted(t)) by {
            if wanted(lo) {
                assert(mask == bit | rest);
                assert(holds(mask, t) == (holds(bit, t) || holds(rest, t)));
            } else {
                assert(mask == rest);
            }
        }
    } else {
        assert(mask == 0);
    }
}

/// A mask without one of its squares is a smaller number.
pub proof fn lemma_mask_shrinks(bb: u64, square: u64)
    by (bit_vector)
    requires
        square < 64,
        (bb >> square) & 1u64 == 1u64,
    ensures
        bb ^ (1u64 << square) < bb,
{
}

/// Only the empty mask holds no square.
pub proof fn lemma_zero_mask(bb: u64)
    ensures
        (bb == 0) == (forall|s: int| !holds(bb, s)),
{
    lemma_holds_bitwise();
    if bb != 0 {
        lemma_lowest(bb);
    }
}

/// The lowest square of a non-empty mask.
pub proof fn lemma_lowest(bb: u64)
    requires
        bb != 0,
    ensures
        u64_trailing_zeros(bb) < 64,
        holds(bb, u64_trailing_zeros(bb) as int),
        forall|s: int| 0 <= s < u64_trailing_zeros(bb) ==> !holds(bb, s),
{
    axiom_u64_trailing_zeros(bb);
    assert forall|s: int| 0 <= s < u64_trailing_zeros(bb) implies !holds(bb, s) by {
        let j = s as u64;
        assert((bb >> j) & 1u64 == 0u64);
    }
}

/// The highest square of a non-empty mask.
pub proof fn lemma_highest(bb: u64)
    requires
        bb != 0,
    ensures
        0 <= u64_leading_zeros(bb) < 64,
        holds(bb, 63 - u64_leading_zeros(bb)),
        forall|s: int| 63 - u64_leading_zeros(bb) < s < 64 ==> !holds(bb, s),
{
    axiom_u64_leading_zeros(bb);
    let z = u64_leading_zeros(bb);
    assert(holds(bb, 63 - z)) by {
        let k = (63 - z) as u64;
        assert((bb >> k) & 1u64 != 0u64);
        lemma_odd_bit(bb >> k);
    }
    assert forall|s: int| 63 - z < s < 64 implies !holds(bb, s) by {
        let j = s as u64;
        assert((bb >> j) & 1u64 == 0u64);
    }
}

proof fn lemma_odd_bit(x: u64)
    by (bit_vector)
    ensures
        x & 1u64 != 0u64 ==> x & 1u64 == 1u64,
{
}

/// Below an empty stretch the ascending list does not change.
pub proof fn lemma_squares_up_skip(bb: u64, lo: int, hi: int)
    requires
        0 <= lo <= hi <= 64,
        forall|s: int| lo <= s < hi ==> !holds(bb, s),
    ensures
        squares_up(bb, lo) == squares_up(bb, hi),
    decreases hi - lo,
{
    if lo < hi {
        lemma_squares_up_skip(bb, lo + 1, hi);
    }
}

/// The ascending list from `lo` depends on the squares from `lo` upwards only.
pub proof fn lemma_squares_up_same(a: u64, b: u64, lo: int)
    requires
        0 <= lo,
        forall|s: int| lo <= s < 64 ==> holds(a, s) == holds(b, s),
    ensures
        squares_up(a, lo) == squares_up(b, lo),
    decreases 64 - lo,
{
    if lo < 64 {
        lemma_squares_up_same(a, b, lo + 1);
    }
}

/// The ascending list holds exactly the squares of the mask, each once, in
/// rising order.
pub proof fn lemma_squares_up_members(bb: u64, lo: int)
    requires
        0 <= lo,
    ensures
        forall|i: int|
            0 <= i < squares_up(bb, lo).len() ==> lo <= #[trigger] squares_up(bb, lo)[i] && holds(
                bb,
                squares_up(bb, lo)[i],
            ),
        forall|s: int| lo <= s && holds(bb, s) ==> squares_up(bb, lo).contains(s),
        forall|i: int, j: int|
            0 <= i < j < squares_up(bb, lo).len() ==> squares_up(bb, lo)[i] < squares_up(bb, lo)[j],
        squares_up(bb, lo).len() == population(bb, lo),
        population(bb, lo) <= 64 - lo || lo >= 64,
    decreases 64 - lo,
{
    let all = squares_up(bb, lo);
    if lo < 64 {
        lemma_squares_up_members(bb, lo + 1);
        let rest = squares_up(bb, lo + 1);
        if holds(bb, lo) {
            assert(all == seq![lo] + rest);
            assert(all[0] == lo);
            assert forall|i: int| 0 <= i < all.len() implies lo <= #[trigger] all[i] && holds(bb, all[i]) by {
                if i > 0 {
                    assert(all[i] == rest[i - 1]);
                }
            }
            assert forall|s: int| lo <= s && holds(bb, s) implies all.contains(s) by {
                if s == lo {
                    assert(all[0] == s);
                } else {
                    assert(rest.contains(s));
                    let i = choose|i: int| 0 <= i < rest.len() && rest[i] == s;
                    assert(all[i + 1] == s);
                }
            }
            assert forall|i: int, j: int| 0 <= i < j < all.len() implies all[i] < all[j] by {
                assert(all[j] == rest[j - 1]);
                if i > 0 {
                    assert(all[i] == rest[i - 1]);
                }
            }
        } else {
            assert(all == rest);
        }
    }
}

/// Taking the lowest square out of a mask takes the head off its ascending list.
pub proof fn lemma_pop_lowest(bb: u64)
    requires
        bb != 0,
    ensures
        u64_trailing_zeros(bb) < 64,
        squares_up(bb, 0) == seq![u64_trailing_zeros(bb) as int] + squares_up(
            bb ^ (1u64 << u64_trailing_zeros(bb)),
            0,
        ),
        population(bb, 0) == 1 + population(bb ^ (1u64 << u64_trailing_zeros(bb)), 0),
{
    lemma_lowest(bb);
    lemma_holds_bitwise();
    let t = u64_trailing_zeros(bb);
    let ti = t as int;
    let rest = bb ^ (1u64 << t);
    assert(forall|s: int| #[trigger] holds(rest, s) == (holds(bb, s) && s != ti)) by {
        assert(forall|s: int| #[trigger] holds(1u64 << (t as u64), s) == (s == t));
    }
    lemma_squares_up_skip(bb, 0, ti);
    lemma_squares_up_skip(rest, 0, ti + 1);
    lemma_squares_up_same(bb, rest, ti + 1);
    lemma_squares_up_members(bb, 0);
    lemma_squares_up_members(rest, 0);
}

/// Above an empty stretch the descending list does not change.
pub proof fn lemma_squares_down_skip(bb: u64, hi: int, lo: int)
    requires
        -1 <= lo <= hi < 64,
        forall|s: int| lo < s <= hi ==> !holds(bb, s),
    ensures
        squares_down(bb, hi) == squares_down(bb, lo),
    decreases hi - lo,
{
    if lo < hi {
        lemma_squares_down_skip(bb, hi - 1, lo);
    }
}

/// The descending list from `hi` depends on the squares up to `hi` only.
pub proof fn lemma_squares_down_same(a: u64, b: u64, hi: int)
    requires
        hi < 64,
        forall|s: int| 0 <= s <= hi ==> holds(a, s) == holds(b, s),
    ensures
        squares_down(a, hi) == squares_down(b, hi),
    decreases hi + 1,
{
    if hi >= 0 {
        lemma_squares_down_same(a, b, hi - 1);
    }
}

/// The descending list holds exactly the squares of the mask, each once, in
/// falling order.
pub proof fn lemma_squares_down_members(bb: u64, hi: int)
    requires
        hi < 64,
    ensures
        forall|i: int|
            0 <= i < squares_down(bb, hi).len() ==> #[trigger] squares_down(bb, hi)[i] <= hi && holds(
                bb,
                squares_down(bb, hi)[i],
            ),
        forall|s: int| s <= hi && holds(bb, s) ==> squares_down(bb, hi).contains(s),
        forall|i: int, j: int|
            0 <= i < j < squares_down(bb, hi).len() ==> squares_down(bb, hi)[i] > squares_down(bb, hi)[j],
        squares_down(bb, hi).len() <= hi + 1 || hi < 0,
    decreases hi + 1,
{
    let all = squares_down(bb, hi);
    if hi >= 0 {
        lemma_squares_down_members(bb, hi - 1);
        let rest = squares_down(bb, hi - 1);
        if holds(bb, hi) {
            assert(all == seq![hi] + rest);
            assert(all[0] == hi);
            assert forall|i: int| 0 <= i < all.len() implies #[trigger] all[i] <= hi && holds(bb, all[i]) by {
                if i > 0 {
                    assert(all[i] == rest[i - 1]);
                }
            }
            assert forall|s: int| s <= hi && holds(bb, s) implies all.contains(s) by {
                if s == hi {
                    assert(all[0] == s);
                } else {
                    assert(rest.contains(s));
                    let i = choose|i: int| 0 <= i < rest.len() && rest[i] == s;
                    assert(all[i + 1] == s);
                }
            }
            assert forall|i: int, j: int| 0 <= i < j < all.len() implies all[i] > all[j] by {
                assert(all[j] == rest[j - 1]);
                if i > 0 {
                    assert(all[i] == rest[i - 1]);
                }
            }
        } else {
            assert(all == rest);
        }
    }
}

/// Taking the highest square out of a mask takes the head off its descending
/// list.
pub proof fn lemma_pop_highest(bb: u64)
    requires
        bb != 0,
    ensures
        0 <= u64_leading_zeros(bb) < 64,
        squares_down(bb, 63) == seq![63 - u64_leading_zeros(bb)] + squares_down(
            bb ^ (1u64 << ((63 - u64_leading_zeros(bb)) as u64)),
            63,
        ),
{
    lemma_highest(bb);
    lemma_holds_bitwise();
    let ti = 63 - u64_leading_zeros(bb);
    let t = ti as u64;
    let rest = bb ^ (1u64 << t);
    assert(forall|s: int| #[trigger] holds(rest, s) == (holds(bb, s) && s != ti)) by {
        assert(forall|s: int| #[trigger] holds(1u64 << t, s) == (s == t));
    }
    lemma_squares_down_skip(bb, 63, ti);
    lemma_squares_down_skip(rest, 63, ti - 1);
    lemma_squares_down_same(bb, rest, ti - 1);
}

/// Whether the mask holds no square.
pub fn is_empty(bb: u64) -> (r: bool)
    ensures
        r == (bb == 0),
        r == (forall|s: int| !holds(bb, s)),
{
    proof {
        lemma_holds_bitwise();
        if bb != 0 {
            lemma_lowest(bb);
        }
    }
    bb == 0
}

/// Number of the lowest square of the mask; 64 for the empty mask.
pub fn bit_scan_reverse(bb: u64) -> (r: u32)
    ensures
        r <= 64,
        (r == 64) == (bb == 0),
        bb != 0 ==> holds(bb, r as int),
        forall|s: int| 0 <= s < r ==> !holds(bb, s),
        r == u64_trailing_zeros(bb),
{
    proof {
        axiom_u64_trailing_zeros(bb);
        if bb != 0 {
            lemma_lowest(bb);
        } else {
            lemma_holds_bitwise();
        }
    }
    bb.trailing_zeros()
}

/// Number of the highest square of a non-empty mask.
pub fn bit_scan_forward(bb: u64) -> (r: u32)
    requires
        bb != 0,
    ensures
        r < 64,
        holds(bb, r as int),
        forall|s: int| r < s < 64 ==> !holds(bb, s),
        r == 63 - u64_leading_zeros(bb),
{
    proof {
        lemma_highest(bb);
    }
    63 - bb.leading_zeros()
}

/// The rank of a square seen from the other side of the board.
pub open spec fn flipped(sq: int) -> int {
    (7 - rank_of(sq)) * 8 + file_of(sq)
}

proof fn lemma_raw_flip(b: u64)
    by (bit_vector)
    ensures
        forall|i: u64|
            i < 64 ==> (((#[trigger] (((b << 56) | ((b << 40) & 0x00ff_0000_0000_0000) | ((b << 24)
                & 0x0000_ff00_0000_0000) | ((b << 8) & 0x0000_00ff_0000_0000) | ((b >> 8)
                & 0x0000_0000_ff00_0000) | ((b >> 24) & 0x0000_0000_00ff_0000) | ((b >> 40)
                & 0x0000_0000_0000_ff00) | (b >> 56)) >> i)) & 1u64 == 1u64) == ((b >> (((7 - i / 8) * 8 + i
                % 8) as u64)) & 1u64 == 1u64)),
{
}

/// Mirrors the mask top to bottom: rank 1 becomes rank 8 and so on.
pub fn flip_vertical(bb: u64) -> (r: u64)
    ensures
        forall|s: int| 0 <= s < 64 ==> holds(r, s) == holds(bb, flipped(s)),
{
    let r: u64 = (bb << 56) | ((bb << 40) & 0x00ff_0000_0000_0000) | ((bb << 24) & 0x0000_ff00_0000_0000) | ((bb
        << 8) & 0x0000_00ff_0000_0000) | ((bb >> 8) & 0x0000_0000_ff00_0000) | ((bb >> 24)
        & 0x0000_0000_00ff_0000) | ((bb >> 40) & 0x0000_0000_0000_ff00) | (bb >> 56);
    proof {
        lemma_raw_flip(bb);
        assert forall|s: int| 0 <= s < 64 implies holds(r, s) == holds(bb, flipped(s)) by {
            let i = s as u64;
            assert(((r >> i) & 1u64 == 1u64) == ((bb >> (((7 - i / 8) * 8 + i % 8) as u64)) & 1u64 == 1u64));
        }
    }
    r
}

/// How many squares the mask holds.
pub fn count_bits(bb: u64) -> (r: u32)
    ensures
        r == population(bb, 0),
        r <= 64,
{
    let mut rest = bb;
    let mut n: u32 = 0;
    proof {
        lemma_squares_up_members(bb, 0);
    }
    while rest != 0
        invariant
            n + population(rest, 0) == population(bb, 0),
            population(bb, 0) <= 64,
        decreases population(rest, 0),
    {
        proof {
            lemma_pop_lowest(rest);
        }
        let sq = rest.trailing_zeros();
        rest = rest ^ (1u64 << sq);
        n = n + 1;
    }
    proof {
        assert(population(0u64, 0) == 0) by {
            lemma_holds_bitwise();
            lemma_squares_up_skip(0u64, 0, 64);
            lemma_squares_up_members(0u64, 0);
        }
    }
    n
}

/// Moves every square of the mask one rank down.
pub fn south_one(b: u64) -> (r: u64)
    ensures
        r == b >> 8u64,
        forall|s: int| #[trigger] holds(r, s) == (0 <= s && holds(b, s + 8)),
{
    proof {
        lemma_holds_shifts();
    }
    b >> 8u64
}

/// Moves every square of the mask one rank up.
pub fn north_one(b: u64) -> (r: u64)
    ensures
        r == b << 8u64,
        forall|s: int| #[trigger] holds(r, s) == (s < 64 && holds(b, s - 8)),
{
    proof {
        lemma_holds_shifts();
    }
    b << 8u64
}

/// Moves every square of the mask one file to the east.
pub fn east_one(b: u64) -> (r: u64)
    ensures
        r == (b << 1u64) & NOT_A_FILE,
        forall|s: int| #[trigger] holds(r, s) == (s < 64 && file_of(s) != 0 && holds(b, s - 1)),
{
    proof {
        lemma_holds_shifts();
        lemma_holds_bitwise();
        lemma_holds_files();
    }
    (b << 1u64) & NOT_A_FILE
}

/// Moves every square of the mask one step to the north-east.
pub fn no_east_one(b: u64) -> (r: u64)
    ensures
        r == (b << 9u64) & NOT_A_FILE,
        forall|s: int| #[trigger] holds(r, s) == (s < 64 && file_of(s) != 0 && holds(b, s - 9)),
{
    proof {
        lemma_holds_shifts();
        lemma_holds_bitwise();
        lemma_holds_files();
    }
    (b << 9u64) & NOT_A_FILE
}

/// Moves every square of the mask one step to the south-east.
pub fn so_east_one(b: u64) -> (r: u64)
    ensures
        r == (b >> 7u64) & NOT_A_FILE,
        forall|s: int| #[trigger] holds(r, s) == (0 <= s && file_of(s) != 0 && holds(b, s + 7)),
{
    proof {
        lemma_holds_shifts();
        lemma_holds_bitwise();
        lemma_holds_files();
    }
    (b >> 7u64) & NOT_A_FILE
}

/// Moves every square of the mask one file to the west.
pub fn west_one(b: u64) -> (r: u64)
    ensures
        r == (b >> 1u64) & NOT_H_FILE,
        forall|s: int| #[trigger] holds(r, s) == (0 <= s && file_of(s) != 7 && holds(b, s + 1)),
{
    proof {
        lemma_holds_shifts();
        lemma_holds_bitwise();
        lemma_holds_files();
    }
    (b >> 1u64) & NOT_H_FILE
}

/// Moves every square of the mask one step to the north-west.
pub fn no_west_one(b: u64) -> (r: u64)
    ensures
        r == (b << 7u64) & NOT_H_FILE,
        forall|s: int| #[trigger] holds(r, s) == (s < 64 && file_of(s) != 7 && holds(b, s - 7)),
{
    proof {
        lemma_holds_shifts();
        lemma_holds_bitwise();
        lemma_holds_files();
    }
    (b << 7u64) & NOT_H_FILE
}

/// Moves every square of the mask one step to the south-west.
pub fn so_west_one(b: u64) -> (r: u64)
    ensures
        r == (b >> 9u64) & NOT_H_FILE,
        forall|s: int| #[trigger] holds(r, s) == (0 <= s && file_of(s) != 7 && holds(b, s + 9)),
{
    proof {
        lemma_holds_shifts();
        lemma_holds_bitwise();
        lemma_holds_files();
    }
    (b >> 9u64) & NOT_H_FILE
}

/// Moves every square of the mask one step in `direction`; squares that
/// would leave the board are dropped.
pub fn shift_one(b: u64, direction: Direction) -> (r: u64)
    ensures
        forall|s: int|
            #[trigger] holds(r, s) == (0 <= s < 64 && 0 <= file_of(s) - direction.df() < 8 && holds(
                b,
                s - direction.offset(),
            )),
{
    match direction {
        Direction::North => north_one(b),
        Direction::NorthEast => no_east_one(b),
        Direction::East => east_one(b),
        Direction::SouthEast => so_east_one(b),
        Direction::South => south_one(b),
        Direction::SouthWest => so_west_one(b),
        Direction::West => west_one(b),
        Direction::NorthWest => no_west_one(b),
    }
}

} // verus!
