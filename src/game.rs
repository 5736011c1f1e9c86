use vstd::prelude::*;
use crate::bitboard::{
    Bitboard, is_set, mirror_index, count_from, lemma_clear_bit, lemma_set_bit,
    lemma_count_one_less, lemma_or_and,
};
use crate::movegen::{
    last_ok, en_passant_targets, king_targets, castle_targets, jump_targets, king_offsets,
    piece_targets, CASTLE_LEFT, CASTLE_RIGHT,
};
use crate::pieces::Piece;

verus! {

/// Number of stored boards: one per piece kind for each of the two sides.
pub const BOARD_COUNT: usize = 12;

#[derive(Debug, PartialEq, Eq, Structural, Copy, Clone)]
pub enum Color {
    White,
    Black,
}

/// Storage offset of the boards of the side to move (`turn` false: the first side).
pub open spec fn own_offset(turn: bool) -> int {
    if turn {
        6
    } else {
        0
    }
}

/// Storage offset of the boards of the side not to move.
pub open spec fn opp_offset(turn: bool) -> int {
    if turn {
        0
    } else {
        6
    }
}

pub open spec fn turn_index(turn: bool) -> int {
    if turn {
        1
    } else {
        0
    }
}

fn side_offset(turn: bool) -> (r: usize)
    ensures
        r == own_offset(turn),
{
    if turn {
        6
    } else {
        0
    }
}

/// The square named by a file letter `A`..`H` and a rank digit `1`..`8`, counted from the
/// other side when `inverted`.
pub open spec fn algebraic_spec(s: Seq<char>, inverted: bool) -> Option<usize> {
    if s.len() == 2 && 'A' <= s[0] <= 'H' && '1' <= s[1] <= '8' {
        let file = s[0] as int - 'A' as int;
        let rank = s[1] as int - '1' as int;
        let rank = if inverted {
            7 - rank
        } else {
            rank
        };
        Some((rank * 8 + file) as usize)
    } else {
        None
    }
}

pub fn algebraic_to_index(algebraic: &str, inverted: bool) -> (r: Option<usize>)
    ensures
        r == algebraic_spec(algebraic@, inverted),
{
    if algebraic.unicode_len() != 2 {
        return None;
    }
    let file = algebraic.get_char(0);
    let rank = algebraic.get_char(1);
    if file < 'A' || file > 'H' || rank < '1' || rank > '8' {
        return None;
    }
    let file_index = file as usize - 'A' as usize;
    let mut rank_index = rank as usize - '1' as usize;
    rank_index = if inverted {
        7 - rank_index
    } else {
        rank_index
    };
    Some(rank_index * 8 + file_index)
}

/// Relies on `format!`: a `String` holding exactly the two characters, in order.
#[verifier::external_body]
fn two_char_string(a: char, b: char) -> (r: String)
    ensures
        r@ == seq![a, b],
{
    format!("{}{}", a, b)
}

/// The name of a square: a file letter and a rank digit, the rank counted from the other side
/// when `inverted`.
pub open spec fn algebraic_name(index: int, inverted: bool) -> Seq<char> {
    let rank = if inverted {
        7 - index / 8
    } else {
        index / 8
    };
    seq![(65 + index % 8) as char, (49 + rank) as char]
}

pub fn index_to_algebraic(index: usize, inverted: bool) -> (r: String)
    requires
        index < 64,
    ensures
        r@ == algebraic_name(index as int, inverted),
{
    let file_index = index % 8;
    let mut rank_index = index / 8;
    rank_index = if inverted {
        7 - rank_index
    } else {
        rank_index
    };
    let file = (65u8 + file_index as u8) as char;
    let rank = (49u8 + rank_index as u8) as char;
    two_char_string(file, rank)
}

pub fn invert_index(index: usize) -> (r: usize)
    requires
        index < 64,
    ensures
        r == mirror_index(index as int),
        r < 64,
{
    let file_index = index % 8;
    let mut rank_index = index / 8;
    rank_index = 7 - rank_index;
    rank_index * 8 + file_index
}

/// The mask of piece kind `k` in the standard starting placement, in its side's own frame.
pub open spec fn initial_bits(k: int) -> u64 {
    if k == 0 {
        0xff00
    } else if k == 1 {
        0x42
    } else if k == 2 {
        0x24
    } else if k == 3 {
        0x81
    } else if k == 4 {
        0x08
    } else {
        0x10
    }
}

/// The standard starting position: both sides hold the same masks in their own frames.
pub fn get_bitboards() -> (r: [Bitboard; BOARD_COUNT])
    ensures
        forall|k: int| 0 <= k < 12 ==> (#[trigger] r@[k]).bits == initial_bits(k % 6),
{
    let mut bitboards: [Bitboard; BOARD_COUNT] = [Bitboard { bits: 0 }; BOARD_COUNT];
    let masks: [u64; 6] = [0xff00, 0x42, 0x24, 0x81, 0x08, 0x10];
    let mut k: usize = 0;
    while k < 6
        invariant
            k <= 6,
            masks@ == seq![0xff00u64, 0x42u64, 0x24u64, 0x81u64, 0x08u64, 0x10u64],
            forall|j: int|
                0 <= j < k ==> (#[trigger] bitboards@[j]).bits == initial_bits(j) && bitboards@[j
                    + 6].bits == initial_bits(j),
        decreases 6 - k,
    {
        bitboards[k] = Bitboard { bits: masks[k] };
        bitboards[k + 6] = Bitboard { bits: masks[k] };
        k += 1;
    }
    assert forall|j: int| 0 <= j < 12 implies (#[trigger] bitboards@[j]).bits == initial_bits(
        j % 6,
    ) by {
        if j >= 6 {
            assert(bitboards@[(j - 6)].bits == initial_bits(j - 6));
        }
    }
    bitboards
}

/// The union of the first `k` piece boards of the side stored from `off`.
pub open spec fn side_union(bbs: Seq<Bitboard>, off: int, k: int) -> u64
    decreases k,
{
    if k <= 0 {
        0
    } else {
        side_union(bbs, off, k - 1) | bbs[off + k - 1].bits
    }
}

/// The occupancy of the side to move and of the other side, each in its own frame.
pub fn get_player_and_opponent_bitboards(bitboards: &[Bitboard; BOARD_COUNT], turn: bool) -> (r: (
    Bitboard,
    Bitboard,
))
    ensures
        r.0.bits == side_union(bitboards@, own_offset(turn), 6),
        r.1.bits == side_union(bitboards@, opp_offset(turn), 6),
{
    let mut player = Bitboard { bits: 0 };
    let mut opponent = Bitboard { bits: 0 };
    let own = side_offset(turn);
    let opp = side_offset(!turn);
    let mut i: usize = 0;
    while i < 6
        invariant
            i <= 6,
            own == own_offset(turn),
            opp == opp_offset(turn),
            player.bits == side_union(bitboards@, own as int, i as int),
            opponent.bits == side_union(bitboards@, opp as int, i as int),
        decreases 6 - i,
    {
        player.combine_bitboard(bitboards[i + own]);
        opponent.combine_bitboard(bitboards[i + opp]);
        i += 1;
    }
    (player, opponent)
}

/// The piece kind of the side to move that stands on `index`: the first kind, in index
/// order, whose board has the square set.
pub fn get_piece_index_to_move(bitboards: &[Bitboard; BOARD_COUNT], turn: bool, index: usize) -> (r:
    Option<usize>)
    requires
        index < 64,
    ensures
        match r {
            Some(i) => i < 6 && is_set(bitboards@[own_offset(turn) + i].bits, index as int)
                && forall|j: int|
                0 <= j < i ==> !is_set(
                    #[trigger] bitboards@[own_offset(turn) + j].bits,
                    index as int,
                ),
            None => forall|j: int|
                0 <= j < 6 ==> !is_set(
                    #[trigger] bitboards@[own_offset(turn) + j].bits,
                    index as int,
                ),
        },
{
    let own = side_offset(turn);
    let mut i: usize = 0;
    while i < 6
        invariant
            i <= 6,
            index < 64,
            own == own_offset(turn),
            forall|j: int|
                0 <= j < i ==> !is_set(#[trigger] bitboards@[own + j].bits, index as int),
        decreases 6 - i,
    {
        if bitboards[i + own].get_bit(index) == 1 {
            return Some(i);
        }
        i += 1;
    }
    None
}

/// Which side has won: the first side wins once the second side's king board is empty,
/// and the other way round.
pub open spec fn winners(bbs: Seq<Bitboard>) -> (bool, bool) {
    (bbs[11].bits == 0, bbs[5].bits == 0)
}

/// Sets `win` once either king board is empty; returns whether the first side (white)
/// and the second side (black) has won.
pub fn check_win_conditions(bitboards: &[Bitboard; BOARD_COUNT], win: &mut bool) -> (r: (
    bool,
    bool,
))
    ensures
        r == winners(bitboards@),
        *final(win) == (*old(win) || r.0 || r.1),
{
    let white_wins = bitboards[11].bits == 0;
    let black_wins = bitboards[5].bits == 0;
    if white_wins || black_wins {
        *win = true;
    }
    (white_wins, black_wins)
}

/// A side keeps its castling right only while its king stands on its home square and both
/// rooks on theirs.
pub open spec fn keeps_castling(bbs: Seq<Bitboard>, side: int) -> bool {
    is_set(bbs[side * 6 + 5].bits, 4) && is_set(bbs[side * 6 + 3].bits, 0) && is_set(
        bbs[side * 6 + 3].bits,
        7,
    )
}

/// Clears, for good, the castling right of each side whose king or either rook has left
/// its home square.
pub fn update_castling_rights(bitboards: &[Bitboard; BOARD_COUNT], castle: &mut [bool; 2])
    ensures
        final(castle)@ == rights_after(bitboards@, old(castle)@),
        forall|i: int|
            0 <= i < 2 ==> #[trigger] final(castle)@[i] == (old(castle)@[i] && keeps_castling(
                bitboards@,
                i,
            )),
{
    let mut i: usize = 0;
    while i < 2
        invariant
            i <= 2,
            forall|j: int|
                0 <= j < i ==> #[trigger] castle@[j] == (old(castle)@[j] && keeps_castling(
                    bitboards@,
                    j,
                )),
            forall|j: int| i <= j < 2 ==> #[trigger] castle@[j] == old(castle)@[j],
        decreases 2 - i,
    {
        if bitboards[5 + i * 6].get_bit(4) == 0 {
            castle[i] = false;
        }
        if bitboards[3 + i * 6].get_bit(0) == 0 {
            castle[i] = false;
        }
        if bitboards[3 + i * 6].get_bit(7) == 0 {
            castle[i] = false;
        }
        i += 1;
    }
    assert(castle@ =~= rights_after(bitboards@, old(castle)@));
}

/// `bits` with square `from` cleared, then square `to` set.
pub open spec fn move_bits(bits: u64, from: int, to: int) -> u64 {
    (bits & !(1u64 << (from as u64))) | (1u64 << (to as u64))
}

pub open spec fn clear_bit(bits: u64, i: int) -> u64 {
    bits & !(1u64 << (i as u64))
}

pub open spec fn set_bit(bits: u64, i: int) -> u64 {
    bits | (1u64 << (i as u64))
}

pub open spec fn with_bits(bbs: Seq<Bitboard>, k: int, bits: u64) -> Seq<Bitboard> {
    bbs.update(k, Bitboard { bits })
}

/// The move lands on the square behind the pawn that the opponent just advanced by two.
pub open spec fn is_en_passant(last: Option<(usize, usize)>, piece_index: int, to: int) -> bool {
    match last {
        Some((_, t)) => to == t + 8 && piece_index == 0,
        None => false,
    }
}

/// Removes the opponent's piece on `sq` from the first board, among kinds `j..6`, that
/// holds one there.
pub open spec fn capture_first(bbs: Seq<Bitboard>, opp: int, sq: int, j: int) -> Seq<Bitboard>
    decreases 6 - j,
{
    if j >= 6 || j < 0 {
        bbs
    } else if is_set(bbs[opp + j].bits, sq) {
        with_bits(bbs, opp + j, clear_bit(bbs[opp + j].bits, sq))
    } else {
        capture_first(bbs, opp, sq, j + 1)
    }
}

/// The boards after the mover's piece of kind `pi` goes from `from` to `to`: the piece
/// moves; an en passant capture removes the passed pawn; castling brings the rook along;
/// otherwise a piece of the opponent on the destination is captured when the mover's board
/// meets `opponent` (the opponent's occupancy in the mover's frame); a pawn reaching the
/// last rank becomes a queen.
pub open spec fn apply_boards(
    bbs: Seq<Bitboard>,
    opponent: u64,
    last: Option<(usize, usize)>,
    castle: bool,
    turn: bool,
    pi: int,
    from: int,
    to: int,
) -> Seq<Bitboard> {
    let own = own_offset(turn);
    let opp = opp_offset(turn);
    let inv = mirror_index(to);
    let s1 = with_bits(bbs, own + pi, move_bits(bbs[own + pi].bits, from, to));
    let ep = is_en_passant(last, pi, to);
    let s2 = if ep {
        with_bits(s1, opp, clear_bit(s1[opp].bits, inv + 8))
    } else {
        s1
    };
    let s3 = if pi == 5 && castle && to == 6 {
        with_bits(s2, own + 3, move_bits(s2[own + 3].bits, 7, 5))
    } else if pi == 5 && castle && to == 2 {
        with_bits(s2, own + 3, move_bits(s2[own + 3].bits, 0, 3))
    } else {
        s2
    };
    let s4 = if s3[own + pi].bits & opponent != 0 && !ep {
        capture_first(s3, opp, inv, 0)
    } else {
        s3
    };
    if pi == 0 && to > 55 {
        let s5 = with_bits(s4, own, clear_bit(s4[own].bits, to));
        with_bits(s5, own + 4, set_bit(s5[own + 4].bits, to))
    } else {
        s4
    }
}

/// What the next mover sees of this move: a pawn move is remembered in the other side's
/// frame, any other move clears the memory.
pub open spec fn apply_last(pi: int, from: int, to: int) -> Option<(usize, usize)> {
    if pi == 0 {
        Some((mirror_index(from) as usize, mirror_index(to) as usize))
    } else {
        None
    }
}

/// Plays the move of the mover's piece of kind `piece_index` from `from_index` to
/// `to_index` (both in the mover's frame), with every side effect of the rules.
pub fn update_game_state(
    bitboards: &mut [Bitboard; BOARD_COUNT],
    opponent: Bitboard,
    last_opponent_move: &mut Option<(usize, usize)>,
    castle: &mut [bool; 2],
    turn: bool,
    piece_index: usize,
    from_index: usize,
    to_index: usize,
)
    requires
        piece_index < 6,
        from_index < 64,
        to_index < 64,
        last_ok(*old(last_opponent_move)),
    ensures
        final(bitboards)@ == apply_boards(
            old(bitboards)@,
            opponent.bits,
            *old(last_opponent_move),
            old(castle)@[turn_index(turn)],
            turn,
            piece_index as int,
            from_index as int,
            to_index as int,
        ),
        *final(last_opponent_move) == apply_last(
            piece_index as int,
            from_index as int,
            to_index as int,
        ),
        last_ok(*final(last_opponent_move)),
        *final(castle) == *old(castle),
{
    let ghost bbs0 = bitboards@;
    let ghost pi = piece_index as int;
    let ghost from = from_index as int;
    let ghost to = to_index as int;
    let own = side_offset(turn);
    let opp = side_offset(!turn);
    let invert_input = invert_index(to_index);
    let mut en_passant: bool = false;
    let right = if turn {
        castle[1]
    } else {
        castle[0]
    };

    let mut b = bitboards[piece_index + own];
    b.move_piece(from_index, to_index);
    bitboards[piece_index + own] = b;
    let ghost s1 = bitboards@;
    assert(s1 == with_bits(bbs0, own + pi, move_bits(bbs0[own + pi].bits, from, to)));

    if let Some((_, t)) = *last_opponent_move {
        if to_index == t + 8 && piece_index == 0 {
            let mut b = bitboards[opp];
            b.remove_piece(invert_input + 8);
            bitboards[opp] = b;
            en_passant = true;
        }
    }
    let ghost s2 = bitboards@;
    assert(en_passant == is_en_passant(*old(last_opponent_move), pi, to));
    assert(s2 == (if en_passant {
        with_bits(s1, opp as int, clear_bit(s1[opp as int].bits, mirror_index(to) + 8))
    } else {
        s1
    }));

    if piece_index == 5 && right && to_index == 6 {
        let mut b = bitboards[own + 3];
        b.move_piece(7, 5);
        bitboards[own + 3] = b;
    }
    if piece_index == 5 && right && to_index == 2 {
        let mut b = bitboards[own + 3];
        b.move_piece(0, 3);
        bitboards[own + 3] = b;
    }
    let ghost s3 = bitboards@;

    if bitboards[piece_index + own].bits & opponent.bits != 0 {
        if !en_passant {
            let mut j: usize = 0;
            while j < 6
                invariant_except_break
                    j <= 6,
                    invert_input < 64,
                    opp == opp_offset(turn),
                    bitboards@ == s3,
                    capture_first(s3, opp as int, invert_input as int, j as int) == capture_first(
                        s3,
                        opp as int,
                        invert_input as int,
                        0,
                    ),
                ensures
                    bitboards@ == capture_first(s3, opp as int, invert_input as int, 0),
                decreases 6 - j,
            {
                if bitboards[j + opp].get_bit(invert_input) == 1 {
                    let mut b = bitboards[j + opp];
                    b.remove_piece(invert_input);
                    bitboards[j + opp] = b;
                    break;
                }
                j += 1;
            }
        }
    }
    let ghost s4 = bitboards@;

    if piece_index == 0 {
        *last_opponent_move = Some((invert_index(from_index), invert_input));
        if to_index > 55 {
            let mut b = bitboards[own];
            b.remove_piece(to_index);
            bitboards[own] = b;
            let mut b = bitboards[own + 4];
            b.add_piece(to_index);
            bitboards[own + 4] = b;
        }
    } else {
        *last_opponent_move = None;
    }
    assert(bitboards@ =~= apply_boards(
        bbs0,
        opponent.bits,
        *old(last_opponent_move),
        right,
        turn,
        pi,
        from,
        to,
    ));
}

/// The castling rights after one update on the boards `bbs`.
pub open spec fn rights_after(bbs: Seq<Bitboard>, castle: Seq<bool>) -> Seq<bool> {
    Seq::new(2, |i: int| castle[i] && keeps_castling(bbs, i))
}

/// The castling rights after an update on each position of `history`, in turn.
pub open spec fn rights_through(history: Seq<Seq<Bitboard>>, castle: Seq<bool>) -> Seq<bool>
    decreases history.len(),
{
    if history.len() == 0 {
        castle
    } else {
        rights_after(history.last(), rights_through(history.drop_last(), castle))
    }
}

/// Once a side's king or a rook has been seen off its home square by an update, that side's
/// castling right stays cleared in every later update, wherever the pieces go afterwards.
pub proof fn lemma_castling_lost_for_good(
    history: Seq<Seq<Bitboard>>,
    castle: Seq<bool>,
    side: int,
    t: int,
)
    requires
        castle.len() == 2,
        0 <= side < 2,
        0 <= t < history.len(),
        !keeps_castling(history[t], side),
    ensures
        !rights_through(history, castle)[side],
    decreases history.len(),
{
    if t < history.len() - 1 {
        assert(history.drop_last()[t] == history[t]);
        lemma_castling_lost_for_good(history.drop_last(), castle, side, t);
    }
}

/// With the right intact, the king on its home square and the squares between king and rooks
/// empty, the king is offered both castling squares, the king's side first; without the
/// right, or away from its home square, it is offered only its one-square steps.
pub proof fn lemma_castling_offered(p: u64, index: int, o: u64)
    ensures
        index == 4 && (p | o) & CASTLE_RIGHT == 0 && (p | o) & CASTLE_LEFT == 0 ==> king_targets(
            p,
            index,
            o,
            true,
        )[0] == 6 && king_targets(p, index, o, true)[1] == 2,
        king_targets(p, index, o, false) == jump_targets(p, index, king_offsets(), 1, 8),
        index != 4 ==> king_targets(p, index, o, true) == jump_targets(
            p,
            index,
            king_offsets(),
            1,
            8,
        ),
{
    assert(castle_targets(p, o, index, false) =~= Seq::<usize>::empty());
    assert(king_targets(p, index, o, false) =~= jump_targets(p, index, king_offsets(), 1, 8));
    if index != 4 {
        assert(castle_targets(p, o, index, true) =~= Seq::<usize>::empty());
        assert(king_targets(p, index, o, true) =~= jump_targets(p, index, king_offsets(), 1, 8));
    }
}

/// Right after a pawn advances two squares from `from` to `to`, an opposing pawn beside it on
/// the same rank (in the opponent's frame) is offered exactly one en passant square: the one
/// behind the pawn, when it is empty.
pub proof fn lemma_en_passant_offered(p: u64, o: u64, index: int, from: int, to: int)
    requires
        0 <= from < 64,
        to == from + 16,
        to < 64,
        index / 8 == mirror_index(to) / 8,
        index + 1 == mirror_index(to) || index - 1 == mirror_index(to),
        !is_set(p | o, mirror_index(to) + 8),
        mirror_index(to) + 8 < 64,
    ensures
        en_passant_targets(p, o, index, apply_last(0, from, to)) == seq![
            (mirror_index(to) + 8) as usize,
        ],
{
    assert(mirror_index(from) - mirror_index(to) == 16);
}

/// After any move other than a two-square pawn advance, no en passant square is offered.
pub proof fn lemma_en_passant_expires(p: u64, o: u64, index: int, pi: int, from: int, to: int)
    requires
        0 <= from < 64,
        0 <= to < 64,
        !(pi == 0 && (to - from == 16 || from - to == 16)),
    ensures
        en_passant_targets(p, o, index, apply_last(pi, from, to)) == Seq::<usize>::empty(),
{
    if pi == 0 {
        assert(mirror_index(to) - mirror_index(from) != 16 && mirror_index(from) - mirror_index(
            to,
        ) != 16);
    }
}

proof fn lemma_capture_first_frame(bbs: Seq<Bitboard>, opp: int, sq: int, j: int, k: int)
    requires
        0 <= k < bbs.len(),
        k < opp || k >= opp + 6,
        0 <= opp,
        opp + 6 <= bbs.len(),
    ensures
        capture_first(bbs, opp, sq, j)[k] == bbs[k],
        capture_first(bbs, opp, sq, j).len() == bbs.len(),
    decreases 6 - j,
{
    if j >= 0 && j < 6 && !is_set(bbs[opp + j].bits, sq) {
        lemma_capture_first_frame(bbs, opp, sq, j + 1, k);
    }
}

/// A pawn that reaches the last rank becomes a queen of the same side: its side has one
/// pawn fewer and one queen more, the queen standing on the arrival square.
pub proof fn lemma_promotion(
    bbs: Seq<Bitboard>,
    opponent: u64,
    last: Option<(usize, usize)>,
    castle: bool,
    turn: bool,
    from: int,
    to: int,
)
    requires
        bbs.len() == 12,
        0 <= from < 64,
        56 <= to < 64,
        is_set(bbs[own_offset(turn)].bits, from),
        !is_set(bbs[own_offset(turn)].bits, to),
        !is_set(bbs[own_offset(turn) + 4].bits, to),
    ensures
        ({
            let r = apply_boards(bbs, opponent, last, castle, turn, 0, from, to);
            &&& count_from(r[own_offset(turn)].bits, 0) + 1 == count_from(
                bbs[own_offset(turn)].bits,
                0,
            )
            &&& count_from(r[own_offset(turn) + 4].bits, 0) == count_from(
                bbs[own_offset(turn) + 4].bits,
                0,
            ) + 1
            &&& is_set(r[own_offset(turn) + 4].bits, to)
            &&& !is_set(r[own_offset(turn)].bits, to)
        }),
{
    let own = own_offset(turn);
    let opp = opp_offset(turn);
    let inv = mirror_index(to);
    let pawn0 = bbs[own].bits;
    let queen0 = bbs[own + 4].bits;
    let s1 = with_bits(bbs, own, move_bits(pawn0, from, to));
    let ep = is_en_passant(last, 0, to);
    let s2 = if ep {
        with_bits(s1, opp, clear_bit(s1[opp].bits, inv + 8))
    } else {
        s1
    };
    let s3 = s2;
    let s4 = if s3[own].bits & opponent != 0 && !ep {
        capture_first(s3, opp, inv, 0)
    } else {
        s3
    };
    if s3[own].bits & opponent != 0 && !ep {
        lemma_capture_first_frame(s3, opp, inv, 0, own);
        lemma_capture_first_frame(s3, opp, inv, 0, own + 4);
    }
    assert(s4[own].bits == move_bits(pawn0, from, to));
    assert(s4[own + 4].bits == queen0);
    let moved = move_bits(pawn0, from, to);
    let pawn1 = clear_bit(moved, to);
    let queen1 = set_bit(queen0, to);
    let r = apply_boards(bbs, opponent, last, castle, turn, 0, from, to);
    assert(r[own].bits == pawn1);
    assert(r[own + 4].bits == queen1);
    assert forall|j: int| 0 <= j < 64 && j != from implies is_set(pawn1, j) == is_set(
        pawn0,
        j,
    ) by {
        lemma_clear_bit(pawn0, from, j);
        lemma_set_bit(pawn0 & !(1u64 << (from as u64)), to, j);
        lemma_clear_bit(moved, to, j);
    }
    lemma_clear_bit(pawn0, from, from);
    lemma_set_bit(pawn0 & !(1u64 << (from as u64)), to, from);
    lemma_clear_bit(moved, to, from);
    lemma_count_one_less(pawn1, pawn0, from, 0);
    assert forall|j: int| 0 <= j < 64 && j != to implies is_set(queen0, j) == is_set(
        queen1,
        j,
    ) by {
        lemma_set_bit(queen0, to, j);
    }
    lemma_set_bit(queen0, to, to);
    lemma_clear_bit(moved, to, to);
    lemma_count_one_less(queen0, queen1, to, 0);
}


proof fn lemma_side_union_clear(bbs: Seq<Bitboard>, off: int, k: int, j: int)
    requires
        0 <= j < 64,
        forall|i: int| 0 <= i < k ==> !is_set(#[trigger] bbs[off + i].bits, j),
    ensures
        !is_set(side_union(bbs, off, k), j),
    decreases k,
{
    if k > 0 {
        lemma_side_union_clear(bbs, off, k - 1, j);
        assert(!is_set(bbs[off + (k - 1)].bits, j));
        lemma_or_and(side_union(bbs, off, k - 1), bbs[off + k - 1].bits, 0, j);
    } else {
        let ju = j as u64;
        assert((0u64 >> ju) & 1u64 == 0u64) by (bit_vector);
    }
}

/// After a move from `from` to another square, no piece of the mover stands on `from`, so
/// the moves then generated for the mover never take its own piece there. This holds when
/// no other board of the mover held `from`, and unless a king stepping onto a castling
/// square with the right intact brings the rook onto the square it left.
pub proof fn lemma_origin_left_empty(
    bbs: Seq<Bitboard>,
    opponent: u64,
    last: Option<(usize, usize)>,
    castle: bool,
    turn: bool,
    pi: int,
    from: int,
    to: int,
    piece: Piece,
    next_last: Option<(usize, usize)>,
    next_castle: bool,
)
    requires
        bbs.len() == 12,
        0 <= pi < 6,
        0 <= from < 64,
        0 <= to < 64,
        from != to,
        forall|k: int| 0 <= k < 6 && k != pi ==> !is_set(#[trigger] bbs[own_offset(turn) + k].bits, from),
        !(pi == 5 && castle && (to == 6 || to == 2)),
    ensures
        ({
            let r = apply_boards(bbs, opponent, last, castle, turn, pi, from, to);
            let p = side_union(r, own_offset(turn), 6);
            let o = crate::bitboard::mirror_bits(side_union(r, opp_offset(turn), 6));
            &&& !is_set(p, from)
            &&& forall|k: int|
                0 <= k < piece_targets(p, to, o, piece, next_last, next_castle).len()
                    && #[trigger] piece_targets(p, to, o, piece, next_last, next_castle)[k] == from
                    ==> !is_set(p, from)
        }),
{
    let own = own_offset(turn);
    let opp = opp_offset(turn);
    let inv = mirror_index(to);
    let b = bbs[own + pi].bits;
    let moved = move_bits(b, from, to);
    lemma_clear_bit(b, from, from);
    lemma_set_bit(b & !(1u64 << (from as u64)), to, from);
    let s1 = with_bits(bbs, own + pi, moved);
    let ep = is_en_passant(last, pi, to);
    let s2 = if ep {
        with_bits(s1, opp, clear_bit(s1[opp].bits, inv + 8))
    } else {
        s1
    };
    let s3 = s2;
    let s4 = if s3[own + pi].bits & opponent != 0 && !ep {
        capture_first(s3, opp, inv, 0)
    } else {
        s3
    };
    if s3[own + pi].bits & opponent != 0 && !ep {
        lemma_capture_first_frame(s3, opp, inv, 0, own);
    }
    assert(s4.len() == 12);
    assert forall|k: int| 0 <= k < 6 implies !is_set(#[trigger] s4[own + k].bits, from) by {
        if s3[own + pi].bits & opponent != 0 && !ep {
            lemma_capture_first_frame(s3, opp, inv, 0, own + k);
        }
    }
    let r = apply_boards(bbs, opponent, last, castle, turn, pi, from, to);
    let s5 = with_bits(s4, own, clear_bit(s4[own].bits, to));
    let s6 = with_bits(s5, own + 4, set_bit(s5[own + 4].bits, to));
    assert(r == if pi == 0 && to > 55 {
        s6
    } else {
        s4
    });
    lemma_clear_bit(s4[own].bits, to, from);
    lemma_set_bit(s5[own + 4].bits, to, from);
    assert(s5[own + 4] == s4[own + 4]);
    assert forall|k: int| 0 <= k < 6 implies !is_set(#[trigger] r[own + k].bits, from) by {
        if pi == 0 && to > 55 {
            if k != 0 && k != 4 {
                assert(r[own + k] == s4[own + k]);
            }
        }
    }
    lemma_side_union_clear(r, own, 6, from);
}

} // verus!
