use chessengine::bitboard::patterns::bb_to_squares;
use chessengine::bitboard::patterns::knight::{no_ea_ea, no_no_ea, no_no_we, no_we_we, so_ea_ea, so_so_ea, so_so_we, so_we_we};
use chessengine::bitboard::patterns::pawn::{double_push_targets, east_attack_targets, east_defended_pawns, ram, single_push_targets, west_attack_targets, west_defended_pawns};
use chessengine::bitboard::{bit_scan_forward, bit_scan_reverse, count_bits, east_one, flip_vertical, is_empty, no_east_one, no_west_one, north_one, shift_one, so_east_one, so_west_one, south_one, west_one};
use chessengine::utils::color::Color;
use chessengine::utils::direction::Direction;
use chessengine::utils::square::Square;

#[test]
fn test_is_empty() {
    assert!(is_empty(0));
    assert!(!is_empty(1));
}

#[test]
fn test_bit_scan_reverse() {
    assert_eq!(bit_scan_reverse(0b01), 0);
    assert_eq!(bit_scan_reverse(0b1_000), 3);
}

#[test]
fn test_bit_scan_forward() {
    assert_eq!(bit_scan_forward(0b01), 0);
    assert_eq!(bit_scan_forward(0b1_000), 3);
}

#[test]
fn test_flip_vertical() {
    assert_eq!(
        flip_vertical(0b00000000_00000000_00000000_00000000_00000000_00000000_00000000_10000000),
        0b10000000_00000000_00000000_00000000_00000000_00000000_00000000_00000000
    );
    assert_eq!(
        flip_vertical(0b01111000_01000100_01000100_01001000_01110000_01010000_01001000_01000100),
        0b01000100_01001000_01010000_01110000_01001000_01000100_01000100_01111000
    );
}

#[test]
fn test_bb_to_squares() {
    let bb = 0b00000000_00000000_00000000_00000000_00000000_00000000_00000000_00000001;
    let squares = bb_to_squares(bb);
    assert_eq!(squares.len(), 1);
    assert_eq!(squares[0], Square::from_u32(0));

    let bb = 0b00000000_00000000_00000000_00000000_00000000_00000000_00000001_00000001;
    let squares = bb_to_squares(bb);
    assert_eq!(squares.len(), 2);
    assert_eq!(squares[0], Square::from_u32(0));
    assert_eq!(squares[1], Square::from_u32(8));

    let bb = 0b00000000_00000000_00000000_00000000_00000000_00000000_00000000_00000000;
    let squares = bb_to_squares(bb);
    assert_eq!(squares.len(), 0);
}

#[test]
fn test_single_push_targets() {
    let pawns = 0b10000000_00000000;
    let empty = !pawns;
    assert_eq!(single_push_targets(pawns, empty, &Color::White), 0b10000000_00000000_00000000);
    let empty = 0;
    assert_eq!(single_push_targets(pawns, empty, &Color::Black), 0);
}

#[test]
fn test_double_push_targets() {
    let pawns = 0b10000000_00000000;
    let empty = !pawns;
    assert_eq!(double_push_targets(pawns, empty, &Color::White), 0b10000000_00000000_00000000_00000000);
    let empty = 0;
    assert_eq!(double_push_targets(pawns, empty, &Color::Black), 0);
}

#[test]
fn test_west_attack_targets() {
    let pawns = 0b00000001_00000000;
    assert_eq!(west_attack_targets(pawns, &Color::White), 0b00000000_00000000);

    let pawns = 0b00000001_00000000_00000000;
    assert_eq!(west_attack_targets(pawns, &Color::Black), 0b00000000_00000000);
}

#[test]
fn test_east_attack_targets() {
    let pawns = 0b00000001_00000000;
    assert_eq!(east_attack_targets(pawns, &Color::White), 0b00000010_00000000_00000000);

    let pawns = 0b00000001_00000000_00000000;
    assert_eq!(east_attack_targets(pawns, &Color::Black), 0b00000010_00000000);
}

#[test]
fn test_count_bits() {
    assert_eq!(count_bits(0), 0);
    assert_eq!(count_bits(0b1011), 3);
    assert_eq!(count_bits(u64::MAX), 64);
    assert_eq!(count_bits(0x8000_0000_0000_0001), 2);
}

#[test]
fn test_bit_scan_of_empty_mask() {
    assert_eq!(bit_scan_reverse(0), 64);
    assert_eq!(bit_scan_reverse(u64::MAX), 0);
    assert_eq!(bit_scan_forward(u64::MAX), 63);
    assert_eq!(bit_scan_forward(0x8000_0000_0000_0000), 63);
}

#[test]
fn test_single_steps_drop_squares_at_the_edges() {
    let a1: u64 = 1;
    let h1: u64 = 1 << 7;
    let a8: u64 = 1 << 56;
    let h8: u64 = 1 << 63;
    let d4: u64 = 1 << 27;
    assert_eq!(north_one(d4), 1 << 35);
    assert_eq!(south_one(d4), 1 << 19);
    assert_eq!(east_one(d4), 1 << 28);
    assert_eq!(west_one(d4), 1 << 26);
    assert_eq!(no_east_one(d4), 1 << 36);
    assert_eq!(no_west_one(d4), 1 << 34);
    assert_eq!(so_east_one(d4), 1 << 20);
    assert_eq!(so_west_one(d4), 1 << 18);
    assert_eq!(west_one(a1), 0);
    assert_eq!(so_west_one(a1), 0);
    assert_eq!(south_one(a1), 0);
    assert_eq!(no_west_one(a1), 0);
    assert_eq!(east_one(h1), 0);
    assert_eq!(no_east_one(h1), 0);
    assert_eq!(so_east_one(h1), 0);
    assert_eq!(north_one(a8), 0);
    assert_eq!(no_east_one(a8), 0);
    assert_eq!(north_one(h8), 0);
    assert_eq!(east_one(h8), 0);
    assert_eq!(west_one(h8), 1 << 62);
}

#[test]
fn test_shift_one_follows_the_direction() {
    let d4: u64 = 1 << 27;
    assert_eq!(shift_one(d4, Direction::North), north_one(d4));
    assert_eq!(shift_one(d4, Direction::NorthEast), no_east_one(d4));
    assert_eq!(shift_one(d4, Direction::East), east_one(d4));
    assert_eq!(shift_one(d4, Direction::SouthEast), so_east_one(d4));
    assert_eq!(shift_one(d4, Direction::South), south_one(d4));
    assert_eq!(shift_one(d4, Direction::SouthWest), so_west_one(d4));
    assert_eq!(shift_one(d4, Direction::West), west_one(d4));
    assert_eq!(shift_one(d4, Direction::NorthWest), no_west_one(d4));
}

#[test]
fn test_knight_jumps() {
    let d4: u64 = 1 << 27;
    assert_eq!(no_no_ea(d4), 1 << 44);
    assert_eq!(no_ea_ea(d4), 1 << 37);
    assert_eq!(so_ea_ea(d4), 1 << 21);
    assert_eq!(so_so_ea(d4), 1 << 12);
    assert_eq!(no_no_we(d4), 1 << 42);
    assert_eq!(no_we_we(d4), 1 << 33);
    assert_eq!(so_we_we(d4), 1 << 17);
    assert_eq!(so_so_we(d4), 1 << 10);
    let h1: u64 = 1 << 7;
    assert_eq!(no_no_ea(h1), 0);
    assert_eq!(no_ea_ea(h1), 0);
    assert_eq!(so_ea_ea(h1), 0);
    assert_eq!(no_no_we(h1), 1 << 22);
    assert_eq!(no_we_we(h1), 1 << 13);
    let g1: u64 = 1 << 6;
    assert_eq!(no_ea_ea(g1), 0);
    let b1: u64 = 1 << 1;
    assert_eq!(no_we_we(b1), 0);
    assert_eq!(so_we_we(1 << 9), 0);
    assert_eq!(so_so_we(1 << 16), 0);
}

#[test]
fn test_pawn_structure_masks() {
    let white: u64 = (1 << 12) | (1 << 19) | (1 << 26);
    let black: u64 = (1 << 20) | (1 << 34);
    assert_eq!(ram(white, black, &Color::White), (1 << 12) | (1 << 26));
    assert_eq!(ram(white, black, &Color::Black), (1 << 20) | (1 << 34));
    assert_eq!(west_defended_pawns(white, &Color::White), (1 << 19) | (1 << 26));
    assert_eq!(east_defended_pawns(white, &Color::White), 0);
    let chain: u64 = (1 << 9) | (1 << 18);
    assert_eq!(east_defended_pawns(chain, &Color::White), 1 << 18);
    assert_eq!(west_defended_pawns(chain, &Color::Black), 1 << 9);
}
