use chess_engine::bitboard::Bitboard;
use chess_engine::game::{get_bitboards, get_player_and_opponent_bitboards};
use chess_engine::pieces::Piece;

fn start_sides() -> (Bitboard, Bitboard) {
    let bbs = get_bitboards();
    let (player, opponent) = get_player_and_opponent_bitboards(&bbs, false);
    (player, opponent.mirror())
}

#[test]
fn start_pawn_on_a2_moves_one_or_two() {
    let (player, opponent) = start_sides();
    assert_eq!(player.moves(8, opponent, Piece::Pawn, &None, true), vec![16, 24]);
}

#[test]
fn start_knight_on_b1_is_edge_clamped() {
    let (player, opponent) = start_sides();
    assert_eq!(player.moves(1, opponent, Piece::Knight, &None, true), vec![16, 18]);
}

#[test]
fn start_position_blocks_sliders_and_king() {
    let (player, opponent) = start_sides();
    assert_eq!(player.moves(0, opponent, Piece::Rook, &None, true), Vec::<usize>::new());
    assert_eq!(player.moves(2, opponent, Piece::Bishop, &None, true), Vec::<usize>::new());
    assert_eq!(player.moves(3, opponent, Piece::Queen, &None, true), Vec::<usize>::new());
    assert_eq!(player.moves(4, opponent, Piece::King, &None, true), Vec::<usize>::new());
}

#[test]
fn rook_on_empty_board() {
    let me = Bitboard { bits: 1 };
    let none = Bitboard { bits: 0 };
    assert_eq!(
        me.rook_moves(0, none),
        vec![1, 2, 3, 4, 5, 6, 7, 8, 16, 24, 32, 40, 48, 56]
    );
}

#[test]
fn rook_stops_at_own_and_after_opponent() {
    let me = Bitboard { bits: 1 | (1 << 16) };
    let them = Bitboard { bits: 1 << 3 };
    assert_eq!(me.rook_moves(0, them), vec![1, 2, 3, 8]);
}

#[test]
fn bishop_on_empty_board() {
    let me = Bitboard { bits: 1 };
    assert_eq!(me.bishop_moves(0, Bitboard { bits: 0 }), vec![9, 18, 27, 36, 45, 54, 63]);
}

#[test]
fn diagonal_rays_stop_at_the_edge() {
    let none = Bitboard { bits: 0 };
    let corner = Bitboard { bits: 1 << 56 };
    assert_eq!(corner.bishop_moves(56, none), vec![49, 42, 35, 28, 21, 14, 7]);
    let other = Bitboard { bits: 1 << 7 };
    assert_eq!(other.bishop_moves(7, none), vec![14, 21, 28, 35, 42, 49, 56]);
    let q = corner.queen_moves(56, none);
    let mut sorted = q.clone();
    sorted.sort();
    sorted.dedup();
    assert_eq!(sorted.len(), q.len());
    assert_eq!(q.len(), 21);
}

#[test]
fn queen_in_the_centre() {
    let me = Bitboard { bits: 1 << 27 };
    assert_eq!(
        me.queen_moves(27, Bitboard { bits: 0 }),
        vec![
            18, 9, 0, 20, 13, 6, 34, 41, 48, 36, 45, 54, 63, 19, 11, 3, 26, 25, 24, 28, 29, 30,
            31, 35, 43, 51, 59
        ]
    );
}

#[test]
fn knight_in_the_corner_and_centre() {
    let corner = Bitboard { bits: 1 << 63 };
    assert_eq!(corner.knight_moves(63), vec![46, 53]);
    let centre = Bitboard { bits: 1 << 27 };
    assert_eq!(centre.knight_moves(27), vec![10, 12, 17, 21, 33, 37, 42, 44]);
}

#[test]
fn king_with_castling_on_empty_rank() {
    let me = Bitboard { bits: 1 << 4 };
    let none = Bitboard { bits: 0 };
    assert_eq!(me.king_moves(4, none, true), vec![6, 2, 3, 5, 11, 12, 13]);
    assert_eq!(me.king_moves(4, none, false), vec![3, 5, 11, 12, 13]);
    let blocked = Bitboard { bits: 1 << 1 };
    assert_eq!(me.king_moves(4, blocked, true), vec![6, 3, 5, 11, 12, 13]);
    let away = Bitboard { bits: 1 << 7 };
    assert_eq!(away.king_moves(7, none, true), vec![6, 14, 15]);
}

#[test]
fn pawn_captures_both_sides() {
    let me = Bitboard { bits: 1 << 20 };
    let them = Bitboard { bits: (1 << 27) | (1 << 29) | (1 << 28) };
    assert_eq!(me.pawn_moves(20, them, &None), vec![27, 29]);
    let edge = Bitboard { bits: 1 << 24 };
    let them = Bitboard { bits: (1 << 31) | (1 << 33) };
    assert_eq!(edge.pawn_moves(24, them, &None), vec![32, 33]);
}

#[test]
fn pawn_en_passant_square_comes_first() {
    let me = Bitboard { bits: 1 << 33 };
    let them = Bitboard { bits: 1 << 34 };
    assert_eq!(me.pawn_moves(33, them, &Some((50, 34))), vec![42, 41]);
    assert_eq!(me.pawn_moves(33, them, &Some((42, 34))), vec![41]);
}

#[test]
fn en_passant_needs_a_neighbour_and_an_empty_square() {
    let edge = Bitboard { bits: 1 << 31 };
    let them = Bitboard { bits: 1 << 32 };
    assert_eq!(edge.pawn_moves(31, them, &Some((48, 32))), vec![39]);
    let me = Bitboard { bits: 1 << 33 };
    let blocked = Bitboard { bits: (1 << 34) | (1 << 42) };
    assert_eq!(me.pawn_moves(33, blocked, &Some((50, 34))), vec![41, 42]);
}
