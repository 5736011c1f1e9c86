use chess_engine::bitboard::Bitboard;
use chess_engine::game::{get_bitboards, get_player_and_opponent_bitboards, update_game_state};
use chess_engine::search::{
    alpha_beta, candidate_moves, evaluate_board, minimax, play_ai, play_alpha_beta,
    play_minimax,
};

fn kings_and_pawn() -> [Bitboard; 12] {
    let mut bbs = [Bitboard { bits: 0 }; 12];
    bbs[0].bits = 1 << 8;
    bbs[5].bits = 1 << 4;
    bbs[11].bits = 1 << 4;
    bbs
}

fn opening_after_four_moves() -> ([Bitboard; 12], Option<(usize, usize)>) {
    let mut bbs = get_bitboards();
    let mut last = None;
    let mut castle = [true, true];
    let plies = [(false, 0, 12, 28), (true, 0, 12, 28), (false, 1, 6, 21), (true, 1, 1, 18)];
    for &(turn, piece, from, to) in plies.iter() {
        let (_, opponent) = get_player_and_opponent_bitboards(&bbs, turn);
        update_game_state(&mut bbs, opponent.mirror(), &mut last, &mut castle, turn, piece, from, to);
    }
    (bbs, last)
}

#[test]
fn alpha_beta_agrees_with_minimax_in_the_opening() {
    let (pos, last) = opening_after_four_moves();
    assert_eq!(last, None);
    for depth in 1..=2 {
        for &mp in [true, false].iter() {
            let mut a = pos;
            let mut b = pos;
            let mut castle = [true, true];
            let m = minimax(&mut a, last, castle, mp, false, depth);
            let ab = alpha_beta(&mut b, last, &mut castle, mp, false, depth, 1, isize::MIN, isize::MAX);
            assert_eq!(m, ab, "depth {} maximizing {}", depth, mp);
        }
    }
}

#[test]
fn evaluation_of_a_small_position() {
    let bbs = kings_and_pawn();
    assert_eq!(evaluate_board(&bbs, false, None, [false, false]), 120);
    assert_eq!(evaluate_board(&bbs, true, None, [false, false]), -120);
}

#[test]
fn start_position_scores_zero_for_both_sides() {
    let bbs = get_bitboards();
    assert_eq!(evaluate_board(&bbs, false, None, [true, true]), 0);
    assert_eq!(evaluate_board(&bbs, true, None, [true, true]), 0);
}

#[test]
fn candidate_moves_in_generation_order() {
    let bbs = kings_and_pawn();
    let ms = candidate_moves(&bbs, false, &None, false);
    assert_eq!(
        ms,
        vec![(0, 8, 16), (0, 8, 24), (5, 4, 3), (5, 4, 5), (5, 4, 11), (5, 4, 12), (5, 4, 13)]
    );
    let start = get_bitboards();
    assert_eq!(candidate_moves(&start, false, &None, true).len(), 20);
}

#[test]
fn alpha_beta_agrees_with_minimax() {
    let positions = [get_bitboards(), kings_and_pawn()];
    for (n, pos) in positions.iter().enumerate() {
        let max_depth = if n == 0 { 2 } else { 3 };
        for depth in 1..=max_depth {
            for &mp in [true, false].iter() {
                let mut a = *pos;
                let mut b = *pos;
                let mut castle = [true, true];
                let m = minimax(&mut a, None, castle, mp, false, depth);
                let ab = alpha_beta(&mut b, None, &mut castle, mp, false, depth, 1, isize::MIN, isize::MAX);
                assert_eq!(m, ab, "position {} depth {} maximizing {}", n, depth, mp);
                assert_eq!(a, *pos);
                assert_eq!(b, *pos);
            }
        }
    }
}

#[test]
fn minimax_depth_zero_is_the_evaluation() {
    let mut bbs = kings_and_pawn();
    assert_eq!(minimax(&mut bbs, None, [false, false], true, true, 0), -120);
    assert_eq!(minimax(&mut bbs, None, [false, false], true, false, 0), 120);
}

#[test]
fn search_plays_one_move() {
    let start = get_bitboards();
    for use_ab in [true, false] {
        let mut bbs = start;
        let mut last = None;
        let mut castle = [true, true];
        play_ai(&mut bbs, false, &mut last, &mut castle, 2, use_ab);
        let changed: Vec<usize> = (0..12).filter(|&k| bbs[k].bits != start[k].bits).collect();
        assert_eq!(changed.len(), 1);
        assert!(changed[0] < 6);
        assert_eq!(bbs[changed[0]].count_bits(), start[changed[0]].count_bits());
        assert_eq!(castle, [true, true]);
    }
}

#[test]
fn no_move_leaves_the_position_unchanged() {
    let mut bbs = [Bitboard { bits: 0 }; 12];
    bbs[11].bits = 1 << 4;
    let before = bbs;
    let mut last = Some((50, 34));
    let mut castle = [false, false];
    play_minimax(&mut bbs, false, &mut last, &mut castle, 2);
    assert_eq!(bbs, before);
    assert_eq!(last, Some((50, 34)));
    play_alpha_beta(&mut bbs, false, &mut last, &mut castle, 2);
    assert_eq!(bbs, before);
}

#[test]
fn alpha_beta_scores_a_king_capture_by_ply() {
    let mut bbs = [Bitboard { bits: 0 }; 12];
    bbs[4].bits = 1 << 52;
    bbs[5].bits = 1 << 4;
    bbs[11].bits = 1 << 4;
    let mut castle = [false, false];
    let mut a = bbs;
    assert_eq!(alpha_beta(&mut a, None, &mut castle, true, false, 1, 2, isize::MIN, isize::MAX), 600);
    assert_eq!(alpha_beta(&mut a, None, &mut castle, true, false, 1, 1, isize::MIN, isize::MAX), 1100);
    assert_eq!(alpha_beta(&mut a, None, &mut castle, false, false, 1, 4, isize::MIN, isize::MAX), -350);
    assert_eq!(a, bbs);
}
