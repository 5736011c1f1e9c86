use chess_engine::bitboard::Bitboard;
use chess_engine::pieces::{Piece, MAP, PIECE_COUNT};

#[test]
fn get_bit_reads_one_square() {
    let b = Bitboard { bits: 0b1010 };
    assert_eq!(b.get_bit(1), 1);
    assert_eq!(b.get_bit(2), 0);
    assert_eq!(b.get_bit(3), 1);
    let top = Bitboard { bits: 1u64 << 63 };
    assert_eq!(top.get_bit(63), 1);
}

#[test]
fn add_remove_and_move_piece() {
    let mut b = Bitboard { bits: 0 };
    b.add_piece(10);
    assert_eq!(b.bits, 1 << 10);
    b.add_piece(10);
    assert_eq!(b.bits, 1 << 10);
    b.move_piece(10, 20);
    assert_eq!(b.bits, 1 << 20);
    b.remove_piece(20);
    assert_eq!(b.bits, 0);
    b.remove_piece(5);
    assert_eq!(b.bits, 0);
}

#[test]
fn mirror_reverses_ranks() {
    let b = Bitboard { bits: 0xff00 };
    assert_eq!(b.mirror().bits, 0x00ff_0000_0000_0000);
    let c = Bitboard { bits: 0x0102_0304_0506_0708 };
    assert_eq!(c.mirror().bits, 0x0807_0605_0403_0201);
}

#[test]
fn mirror_twice_is_identity() {
    let samples: [u64; 6] = [0, u64::MAX, 0x0123_4567_89ab_cdef, 1, 1 << 63, 0xdead_beef_0000_ffff];
    for &s in samples.iter() {
        let b = Bitboard { bits: s };
        assert_eq!(b.mirror().mirror().bits, s);
    }
}

#[test]
fn combine_bitboards_unions_all() {
    let boards = [Bitboard { bits: 1 }, Bitboard { bits: 2 }, Bitboard { bits: 0x100 }];
    assert_eq!(Bitboard::combine_bitboards(&boards).bits, 0x103);
    assert_eq!(Bitboard::combine_bitboards(&[]).bits, 0);
    let mut a = Bitboard { bits: 0xf0 };
    a.combine_bitboard(Bitboard { bits: 0x0f });
    assert_eq!(a.bits, 0xff);
}

#[test]
fn get_indices_ascending() {
    let b = Bitboard { bits: (1 << 63) | (1 << 8) | 1 };
    assert_eq!(b.get_indices(), vec![0, 8, 63]);
    assert_eq!(Bitboard { bits: 0 }.get_indices(), Vec::<usize>::new());
}

#[test]
fn count_bits_counts_squares() {
    assert_eq!(Bitboard { bits: 0 }.count_bits(), 0);
    assert_eq!(Bitboard { bits: 0xff00 }.count_bits(), 8);
    assert_eq!(Bitboard { bits: u64::MAX }.count_bits(), 64);
}

#[test]
fn piece_catalog() {
    assert_eq!(PIECE_COUNT, 6);
    assert_eq!(MAP, ['P', 'H', 'B', 'R', 'Q', 'K']);
    assert_eq!(Piece::usize_to_piece(0), Piece::Pawn);
    assert_eq!(Piece::usize_to_piece(3), Piece::Rook);
    assert_eq!(Piece::usize_to_piece(5), Piece::King);
    assert_eq!(Piece::usize_to_piece(9), Piece::King);
    assert_eq!(Piece::Pawn.value(), 100);
    assert_eq!(Piece::Knight.value(), 320);
    assert_eq!(Piece::Bishop.value(), 330);
    assert_eq!(Piece::Rook.value(), 500);
    assert_eq!(Piece::Queen.value(), 900);
    assert_eq!(Piece::King.value(), 100);
    assert_eq!(Piece::Queen.index(), 4);
}

#[test]
fn pawn_structure_scores() {
    assert_eq!(Bitboard { bits: 0 }.evaluate_pawn_structure(), 0);
    assert_eq!(Bitboard { bits: 0xff00 }.evaluate_pawn_structure(), -12);
    assert_eq!(Bitboard { bits: 1 }.evaluate_pawn_structure(), -39);
    let b = Bitboard { bits: (1 << 8) | (1 << 16) | (1 << 3) };
    assert_eq!(b.evaluate_pawn_structure(), -85);
}

#[test]
fn lone_pawn_scores_alike_on_every_square() {
    for sq in 0..64 {
        assert_eq!(Bitboard { bits: 1 << sq }.evaluate_pawn_structure(), -39, "square {}", sq);
    }
}
