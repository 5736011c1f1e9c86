use chess_engine::bitboard::Bitboard;
use chess_engine::game::{
    algebraic_to_index, check_win_conditions, get_bitboards, get_piece_index_to_move,
    get_player_and_opponent_bitboards, index_to_algebraic, invert_index, update_castling_rights,
    update_game_state, Color,
};
use chess_engine::pieces::Piece;

fn play(
    bbs: &mut [Bitboard; 12],
    last: &mut Option<(usize, usize)>,
    castle: &mut [bool; 2],
    turn: bool,
    piece: usize,
    from: usize,
    to: usize,
) {
    let (_, opponent) = get_player_and_opponent_bitboards(bbs, turn);
    update_game_state(bbs, opponent.mirror(), last, castle, turn, piece, from, to);
}

fn moves_of(
    bbs: &[Bitboard; 12],
    last: &Option<(usize, usize)>,
    castle: bool,
    turn: bool,
    piece: Piece,
    index: usize,
) -> Vec<usize> {
    let (player, opponent) = get_player_and_opponent_bitboards(bbs, turn);
    player.moves(index, opponent.mirror(), piece, last, castle)
}

#[test]
fn algebraic_conversions() {
    assert_eq!(algebraic_to_index("E2", false), Some(12));
    assert_eq!(algebraic_to_index("E2", true), Some(52));
    assert_eq!(algebraic_to_index("A1", false), Some(0));
    assert_eq!(algebraic_to_index("H8", false), Some(63));
    assert_eq!(algebraic_to_index("I1", false), None);
    assert_eq!(algebraic_to_index("A9", false), None);
    assert_eq!(algebraic_to_index("a1", false), None);
    assert_eq!(algebraic_to_index("A", false), None);
    assert_eq!(algebraic_to_index("A12", false), None);
    assert_eq!(index_to_algebraic(12, false), "E2");
    assert_eq!(index_to_algebraic(52, true), "E2");
    assert_eq!(index_to_algebraic(63, false), "H8");
    assert_eq!(invert_index(8), 48);
    assert_eq!(invert_index(63), 7);
}

#[test]
fn starting_position() {
    let bbs = get_bitboards();
    assert_eq!(bbs[0].bits, 0xff00);
    assert_eq!(bbs[6].bits, 0xff00);
    assert_eq!(bbs[1].bits, 0x42);
    assert_eq!(bbs[2].bits, 0x24);
    assert_eq!(bbs[3].bits, 0x81);
    assert_eq!(bbs[4].bits, 0x08);
    assert_eq!(bbs[5].bits, 0x10);
    assert_eq!(bbs[11].bits, 0x10);
    let (player, opponent) = get_player_and_opponent_bitboards(&bbs, true);
    assert_eq!(player.bits, 0xffff);
    assert_eq!(opponent.bits, 0xffff);
    assert_eq!(get_piece_index_to_move(&bbs, false, 8), Some(0));
    assert_eq!(get_piece_index_to_move(&bbs, true, 4), Some(5));
    assert_eq!(get_piece_index_to_move(&bbs, false, 20), None);
    assert_ne!(Color::White, Color::Black);
}

#[test]
fn win_when_a_king_board_is_empty() {
    let mut bbs = get_bitboards();
    let mut win = false;
    assert_eq!(check_win_conditions(&bbs, &mut win), (false, false));
    assert!(!win);
    bbs[11].bits = 0;
    assert_eq!(check_win_conditions(&bbs, &mut win), (true, false));
    assert!(win);
    let mut bbs = get_bitboards();
    bbs[5].bits = 0;
    let mut win = false;
    assert_eq!(check_win_conditions(&bbs, &mut win), (false, true));
    assert!(win);
}

#[test]
fn pawn_push_is_remembered_mirrored() {
    let mut bbs = get_bitboards();
    let mut last = None;
    let mut castle = [true, true];
    play(&mut bbs, &mut last, &mut castle, false, 0, 12, 28);
    assert_eq!(bbs[0].bits, (0xff00 & !(1 << 12)) | (1 << 28));
    assert_eq!(last, Some((52, 36)));
    assert_eq!(castle, [true, true]);
    play(&mut bbs, &mut last, &mut castle, true, 1, 6, 21);
    assert_eq!(bbs[7].bits, (1 << 1) | (1 << 21));
    assert_eq!(last, None);
}

#[test]
fn capture_removes_exactly_one_piece() {
    let mut bbs = [Bitboard { bits: 0 }; 12];
    bbs[3].bits = 1;
    bbs[5].bits = 1 << 4;
    bbs[6].bits = 1 << 48;
    bbs[11].bits = 1 << 4;
    let mut last = None;
    let mut castle = [false, false];
    play(&mut bbs, &mut last, &mut castle, false, 3, 0, 8);
    assert_eq!(bbs[3].bits, 1 << 8);
    assert_eq!(bbs[6].bits, 0);
    assert_eq!(bbs[11].bits, 1 << 4);
}

#[test]
fn en_passant_offered_once_then_taken() {
    let mut bbs = [Bitboard { bits: 0 }; 12];
    bbs[0].bits = 1 << 33;
    bbs[5].bits = 1 << 4;
    bbs[6].bits = 1 << 10;
    bbs[11].bits = 1 << 4;
    let mut last = None;
    let mut castle = [false, false];
    play(&mut bbs, &mut last, &mut castle, true, 0, 10, 26);
    assert_eq!(last, Some((50, 34)));
    assert_eq!(moves_of(&bbs, &last, false, false, Piece::Pawn, 33), vec![42, 41]);
    play(&mut bbs, &mut last, &mut castle, false, 0, 33, 42);
    assert_eq!(bbs[0].bits, 1 << 42);
    assert_eq!(bbs[6].bits, 0);
}

#[test]
fn en_passant_expires_after_another_move() {
    let mut bbs = [Bitboard { bits: 0 }; 12];
    bbs[0].bits = 1 << 33;
    bbs[5].bits = 1 << 4;
    bbs[6].bits = 1 << 10;
    bbs[11].bits = 1 << 4;
    let mut last = None;
    let mut castle = [false, false];
    play(&mut bbs, &mut last, &mut castle, true, 0, 10, 26);
    play(&mut bbs, &mut last, &mut castle, false, 5, 4, 3);
    play(&mut bbs, &mut last, &mut castle, true, 5, 4, 5);
    assert_eq!(last, None);
    assert_eq!(moves_of(&bbs, &last, false, false, Piece::Pawn, 33), vec![41]);
}

#[test]
fn castling_offered_then_lost_for_good() {
    let mut bbs = get_bitboards();
    bbs[1].bits = 0;
    bbs[2].bits = 0;
    bbs[4].bits = 0;
    let mut castle = [true, true];
    let last = None;
    let king = moves_of(&bbs, &last, castle[0], false, Piece::King, 4);
    assert_eq!(king, vec![6, 2, 3, 5]);

    let mut moved = bbs;
    let mut moved_last = None;
    let mut moved_castle = castle;
    play(&mut moved, &mut moved_last, &mut moved_castle, false, 5, 4, 6);
    assert_eq!(moved[5].bits, 1 << 6);
    assert_eq!(moved[3].bits, (1 << 0) | (1 << 5));

    let mut last = None;
    play(&mut bbs, &mut last, &mut castle, false, 3, 7, 6);
    update_castling_rights(&bbs, &mut castle);
    assert_eq!(castle, [false, true]);
    play(&mut bbs, &mut last, &mut castle, true, 1, 1, 16);
    update_castling_rights(&bbs, &mut castle);
    play(&mut bbs, &mut last, &mut castle, false, 3, 6, 7);
    update_castling_rights(&bbs, &mut castle);
    assert_eq!(castle, [false, true]);
    let king = moves_of(&bbs, &last, castle[0], false, Piece::King, 4);
    assert_eq!(king, vec![3, 5]);
}

#[test]
fn queenside_castling_brings_the_rook() {
    let mut bbs = get_bitboards();
    bbs[1].bits = 0;
    bbs[2].bits = 0;
    bbs[4].bits = 0;
    let mut castle = [true, true];
    let mut last = None;
    play(&mut bbs, &mut last, &mut castle, false, 5, 4, 2);
    assert_eq!(bbs[5].bits, 1 << 2);
    assert_eq!(bbs[3].bits, (1 << 3) | (1 << 7));
}

#[test]
fn promotion_makes_a_queen() {
    let mut bbs = [Bitboard { bits: 0 }; 12];
    bbs[0].bits = 1 << 50;
    bbs[5].bits = 1 << 4;
    bbs[11].bits = 1 << 4;
    let mut last = None;
    let mut castle = [false, false];
    let pawns = bbs[0].count_bits();
    let queens = bbs[4].count_bits();
    play(&mut bbs, &mut last, &mut castle, false, 0, 50, 58);
    assert_eq!(bbs[0].count_bits(), pawns - 1);
    assert_eq!(bbs[4].count_bits(), queens + 1);
    assert_eq!(bbs[4].bits, 1 << 58);
    assert_eq!(bbs[0].bits, 0);
}
