use vstd::prelude::*;
use crate::bitboard::{
    Bitboard, mirror_bits, indices_from, lemma_indices_from, count_from, lemma_count_from,
};
use crate::game::{
    BOARD_COUNT, own_offset, opp_offset, turn_index, side_union, apply_boards, apply_last,
    get_player_and_opponent_bitboards, update_game_state, winners, check_win_conditions,
};
use crate::movegen::{piece_targets, last_ok, lemma_targets_bounded, on_board};
use crate::pieces::{Piece, piece_of, piece_value};

verus! {

/// A candidate move: piece kind index, origin square, destination square.
pub type Move = (usize, usize, usize);

/// The moves of piece kind `i` from the squares `idxs`, square by square, each square's
/// destinations in generation order.
pub open spec fn square_moves(
    player: u64,
    opponent: u64,
    i: int,
    idxs: Seq<usize>,
    last: Option<(usize, usize)>,
    castle: bool,
) -> Seq<Move>
    decreases idxs.len(),
{
    if idxs.len() == 0 {
        Seq::empty()
    } else {
        let idx = idxs.last();
        square_moves(player, opponent, i, idxs.drop_last(), last, castle) + piece_targets(
            player,
            idx as int,
            opponent,
            piece_of(i),
            last,
            castle,
        ).map_values(|d: usize| (i as usize, idx, d))
    }
}

/// The moves of the first `k` piece kinds of the side to move.
pub open spec fn kind_moves(
    bbs: Seq<Bitboard>,
    turn: bool,
    last: Option<(usize, usize)>,
    castle: bool,
    k: int,
) -> Seq<Move>
    decreases k,
{
    if k <= 0 {
        Seq::empty()
    } else {
        kind_moves(bbs, turn, last, castle, k - 1) + square_moves(
            side_union(bbs, own_offset(turn), 6),
            mirror_bits(side_union(bbs, opp_offset(turn), 6)),
            k - 1,
            indices_from(bbs[own_offset(turn) + k - 1].bits, 0),
            last,
            castle,
        )
    }
}

/// Every pseudo-legal move of the side to move: by piece kind, then by origin square
/// ascending, then in generation order.
#[verifier::opaque]
pub open spec fn all_moves(
    bbs: Seq<Bitboard>,
    turn: bool,
    last: Option<(usize, usize)>,
    castle: bool,
) -> Seq<Move> {
    kind_moves(bbs, turn, last, castle, 6)
}

/// Every move is of a piece kind and between squares of the board.
pub open spec fn moves_ok(ms: Seq<Move>) -> bool {
    forall|k: int| 0 <= k < ms.len() ==> #[trigger] ms[k].0 < 6 && ms[k].1 < 64 && ms[k].2 < 64
}

/// Lists every pseudo-legal move of the side to move.
pub fn candidate_moves(
    bitboards: &[Bitboard; BOARD_COUNT],
    turn: bool,
    last_opponent_move: &Option<(usize, usize)>,
    castle: bool,
) -> (r: Vec<Move>)
    requires
        last_ok(*last_opponent_move),
    ensures
        r@ == all_moves(bitboards@, turn, *last_opponent_move, castle),
        moves_ok(r@),
{
    let (player, opponent) = get_player_and_opponent_bitboards(bitboards, turn);
    let opponent = opponent.mirror();
    let own: usize = if turn {
        6
    } else {
        0
    };
    let ghost bbs = bitboards@;
    let ghost last = *last_opponent_move;
    let mut out: Vec<Move> = Vec::new();
    let mut i: usize = 0;
    while i < 6
        invariant
            i <= 6,
            own == own_offset(turn),
            last_ok(last),
            last == *last_opponent_move,
            bbs == bitboards@,
            player.bits == side_union(bbs, own_offset(turn), 6),
            opponent.bits == mirror_bits(side_union(bbs, opp_offset(turn), 6)),
            out@ == kind_moves(bbs, turn, last, castle, i as int),
            moves_ok(out@),
        decreases 6 - i,
    {
        let piece = Piece::usize_to_piece(i);
        let idxs = bitboards[i + own].get_indices();
        proof {
            lemma_indices_from(bitboards@[i + own].bits, 0);
        }
        let ghost base = out@;
        let mut j: usize = 0;
        while j < idxs.len()
            invariant
                i < 6,
                j <= idxs@.len(),
                idxs@ == indices_from(bbs[own + i].bits, 0),
                forall|k: int| 0 <= k < idxs@.len() ==> #[trigger] idxs@[k] < 64,
                last_ok(last),
                last == *last_opponent_move,
                piece == piece_of(i as int),
                out@ == base + square_moves(
                    player.bits,
                    opponent.bits,
                    i as int,
                    idxs@.take(j as int),
                    last,
                    castle,
                ),
                moves_ok(out@),
            decreases idxs.len() - j,
        {
            let index = idxs[j];
            let ms = player.moves(index, opponent, piece, last_opponent_move, castle);
            proof {
                lemma_targets_bounded(
                    player.bits,
                    index as int,
                    opponent.bits,
                    piece,
                    last,
                    castle,
                );
            }
            let ghost mid = out@;
            let mut k: usize = 0;
            while k < ms.len()
                invariant
                    i < 6,
                    index < 64,
                    k <= ms@.len(),
                    on_board(ms@),
                    out@ == mid + ms@.take(k as int).map_values(|d: usize| (i, index, d)),
                    moves_ok(out@),
                decreases ms.len() - k,
            {
                out.push((i, index, ms[k]));
                k += 1;
                assert(ms@.take(k as int).map_values(|d: usize| (i, index, d)) =~= ms@.take(
                    k as int - 1,
                ).map_values(|d: usize| (i, index, d)).push((i, index, ms@[k as int - 1])));
            }
            assert(ms@.take(k as int) =~= ms@);
            assert(idxs@.take(j as int + 1).drop_last() =~= idxs@.take(j as int));
            assert(idxs@.take(j as int + 1).last() == index);
            j += 1;
        }
        assert(idxs@.take(j as int) =~= idxs@);
        i += 1;
    }
    proof {
        reveal(all_moves);
    }
    out
}

/// Material of the first `k` piece kinds of the side stored from `off`.
pub open spec fn material(bbs: Seq<Bitboard>, off: int, k: int) -> int
    decreases k,
{
    if k <= 0 {
        0
    } else {
        material(bbs, off, k - 1) + count_from(bbs[off + k - 1].bits, 0) * piece_value(
            piece_of(k - 1),
        )
    }
}

/// Mobility of pieces of kind `piece` on the squares `idxs`: per piece, its number of
/// destinations times a tenth of its value (rounded down).
pub open spec fn square_mobility(
    me: u64,
    them: u64,
    piece: Piece,
    idxs: Seq<usize>,
    last: Option<(usize, usize)>,
    castle: bool,
) -> int
    decreases idxs.len(),
{
    if idxs.len() == 0 {
        0
    } else {
        square_mobility(me, them, piece, idxs.drop_last(), last, castle) + piece_targets(
            me,
            idxs.last() as int,
            them,
            piece,
            last,
            castle,
        ).len() * piece_value(piece) / 10
    }
}

/// Mobility of the first `k` piece kinds of the side stored from `off`, its moves generated
/// with `me` as own occupancy and `them` as the other side's.
pub open spec fn mobility(
    me: u64,
    them: u64,
    bbs: Seq<Bitboard>,
    off: int,
    last: Option<(usize, usize)>,
    castle: bool,
    k: int,
) -> int
    decreases k,
{
    if k <= 0 {
        0
    } else {
        mobility(me, them, bbs, off, last, castle, k - 1) + square_mobility(
            me,
            them,
            piece_of(k - 1),
            indices_from(bbs[off + k - 1].bits, 0),
            last,
            castle,
        )
    }
}

/// Material and mobility of the side `side`: its moves are generated in its own frame,
/// against the other side's occupancy mirrored into that frame.
pub open spec fn side_worth(
    bbs: Seq<Bitboard>,
    side: bool,
    last: Option<(usize, usize)>,
    castle: Seq<bool>,
) -> int {
    let me = side_union(bbs, own_offset(side), 6);
    let them = mirror_bits(side_union(bbs, opp_offset(side), 6));
    material(bbs, own_offset(side), 6) + mobility(
        me,
        them,
        bbs,
        own_offset(side),
        last,
        castle[turn_index(side)],
        6,
    )
}

/// The score of a position for the side `mp`: its material and mobility minus the other
/// side's; higher is better for `mp`.
#[verifier::opaque]
pub open spec fn evaluation(
    bbs: Seq<Bitboard>,
    mp: bool,
    last: Option<(usize, usize)>,
    castle: Seq<bool>,
) -> int {
    side_worth(bbs, mp, last, castle) - side_worth(bbs, !mp, last, castle)
}

/// Upper bound of the mobility of one piece.
pub const PIECE_MOBILITY_MAX: isize = 46080;

fn kind_mobility(
    me: Bitboard,
    them: Bitboard,
    board: Bitboard,
    piece: Piece,
    last_opponent_move: &Option<(usize, usize)>,
    castle: bool,
) -> (r: isize)
    requires
        last_ok(*last_opponent_move),
    ensures
        r == square_mobility(
            me.bits,
            them.bits,
            piece,
            indices_from(board.bits, 0),
            *last_opponent_move,
            castle,
        ),
        0 <= r <= 64 * PIECE_MOBILITY_MAX,
{
    let idxs = board.get_indices();
    proof {
        lemma_indices_from(board.bits, 0);
    }
    let value = piece.value();
    let mut acc: isize = 0;
    let mut j: usize = 0;
    while j < idxs.len()
        invariant
            j <= idxs@.len(),
            idxs@.len() <= 64,
            idxs@ == indices_from(board.bits, 0),
            forall|k: int| 0 <= k < idxs@.len() ==> #[trigger] idxs@[k] < 64,
            last_ok(*last_opponent_move),
            value == piece_value(piece),
            acc == square_mobility(
                me.bits,
                them.bits,
                piece,
                idxs@.take(j as int),
                *last_opponent_move,
                castle,
            ),
            0 <= acc <= j * PIECE_MOBILITY_MAX,
        decreases idxs.len() - j,
    {
        let index = idxs[j];
        let ms = me.moves(index, them, piece, last_opponent_move, castle);
        proof {
            lemma_targets_bounded(
                me.bits,
                index as int,
                them.bits,
                piece,
                *last_opponent_move,
                castle,
            );
        }
        let len = ms.len() as isize;
        assert(0 <= len * value <= 512 * 900) by (nonlinear_arith)
            requires
                0 <= len <= 512,
                0 <= value <= 900,
        ;
        let term = len * value / 10;
        assert(idxs@.take(j as int + 1).drop_last() =~= idxs@.take(j as int));
        acc = acc + term;
        j += 1;
    }
    assert(idxs@.take(j as int) =~= idxs@);
    acc
}

fn side_material(bitboards: &[Bitboard; BOARD_COUNT], off: usize) -> (r: isize)
    requires
        off == 0 || off == 6,
    ensures
        r == material(bitboards@, off as int, 6),
        0 <= r <= 6 * 64 * 900,
{
    let mut acc: isize = 0;
    let mut i: usize = 0;
    while i < 6
        invariant
            i <= 6,
            off == 0 || off == 6,
            acc == material(bitboards@, off as int, i as int),
            0 <= acc <= i * 64 * 900,
        decreases 6 - i,
    {
        let piece = Piece::usize_to_piece(i);
        let count = bitboards[i + off].count_bits() as isize;
        proof {
            lemma_count_from(bitboards@[i + off].bits, 0);
        }
        let value = piece.value();
        assert(0 <= count * value <= 64 * 900) by (nonlinear_arith)
            requires
                0 <= count <= 64,
                0 <= value <= 900,
        ;
        acc = acc + count * value;
        i += 1;
    }
    acc
}

/// Material and mobility of one side; see `side_worth`.
fn side_total(
    bitboards: &[Bitboard; BOARD_COUNT],
    side: bool,
    last_opponent_move: &Option<(usize, usize)>,
    castle: [bool; 2],
) -> (r: isize)
    requires
        last_ok(*last_opponent_move),
    ensures
        r == side_worth(bitboards@, side, *last_opponent_move, castle@),
        0 <= r <= 6 * 64 * 900 + 6 * 64 * PIECE_MOBILITY_MAX,
{
    let (me, them) = get_player_and_opponent_bitboards(bitboards, side);
    let them = them.mirror();
    let own: usize = if side {
        6
    } else {
        0
    };
    let right = if side {
        castle[1]
    } else {
        castle[0]
    };
    let mut score = side_material(bitboards, own);
    let ghost base = score as int;
    let mut i: usize = 0;
    while i < 6
        invariant
            i <= 6,
            own == own_offset(side),
            right == castle@[turn_index(side)],
            last_ok(*last_opponent_move),
            0 <= base <= 6 * 64 * 900,
            score == base + mobility(
                me.bits,
                them.bits,
                bitboards@,
                own as int,
                *last_opponent_move,
                right,
                i as int,
            ),
            base <= score <= base + i * 64 * PIECE_MOBILITY_MAX,
        decreases 6 - i,
    {
        let piece = Piece::usize_to_piece(i);
        let m = kind_mobility(me, them, bitboards[i + own], piece, last_opponent_move, right);
        score = score + m;
        i += 1;
    }
    score
}

/// Scores the position for the side `maximizing_player`; see `evaluation`.
pub fn evaluate_board(
    bitboards: &[Bitboard; BOARD_COUNT],
    maximizing_player: bool,
    last_opponent_move: Option<(usize, usize)>,
    castle: [bool; 2],
) -> (r: isize)
    requires
        last_ok(last_opponent_move),
    ensures
        r == evaluation(bitboards@, maximizing_player, last_opponent_move, castle@),
        -SCORE_MAX <= r <= SCORE_MAX,
{
    let own = side_total(bitboards, maximizing_player, &last_opponent_move, castle);
    let other = side_total(bitboards, !maximizing_player, &last_opponent_move, castle);
    proof {
        reveal(evaluation);
    }
    own - other
}

/// Bound on the magnitude of any evaluation.
pub const SCORE_MAX: isize = 20000000;

/// The occupancy of the side not to move, seen from the side to move.
pub open spec fn opponent_view(bbs: Seq<Bitboard>, turn: bool) -> u64 {
    mirror_bits(side_union(bbs, opp_offset(turn), 6))
}

/// The boards after the side to move plays `m`.
#[verifier::opaque]
pub open spec fn child_boards(
    bbs: Seq<Bitboard>,
    last: Option<(usize, usize)>,
    castle: Seq<bool>,
    turn: bool,
    m: Move,
) -> Seq<Bitboard> {
    apply_boards(
        bbs,
        opponent_view(bbs, turn),
        last,
        castle[turn_index(turn)],
        turn,
        m.0 as int,
        m.1 as int,
        m.2 as int,
    )
}

/// The minimax value of a position searched `depth` plies deep: the evaluation at the
/// horizon, else the best value among the moves for the side to move (highest when
/// maximizing, lowest otherwise; the extreme integer when there is no move).
pub open spec fn minimax_value(
    bbs: Seq<Bitboard>,
    last: Option<(usize, usize)>,
    castle: Seq<bool>,
    mp: bool,
    turn: bool,
    depth: int,
) -> int
    decreases depth, 1int, 0int,
{
    if depth <= 0 {
        evaluation(bbs, !(mp ^ turn), last, castle)
    } else {
        let ms = all_moves(bbs, turn, last, castle[turn_index(turn)]);
        minimax_best(bbs, last, castle, mp, turn, depth, ms, ms.len() as int)
    }
}

/// The best minimax value among the first `k` moves of `ms`.
pub open spec fn minimax_best(
    bbs: Seq<Bitboard>,
    last: Option<(usize, usize)>,
    castle: Seq<bool>,
    mp: bool,
    turn: bool,
    depth: int,
    ms: Seq<Move>,
    k: int,
) -> int
    decreases depth, 0int, k,
{
    if k <= 0 || depth <= 0 || k > ms.len() {
        if mp {
            isize::MIN as int
        } else {
            isize::MAX as int
        }
    } else {
        let prev = minimax_best(bbs, last, castle, mp, turn, depth, ms, k - 1);
        let m = ms[k - 1];
        let v = minimax_value(
            child_boards(bbs, last, castle, turn, m),
            apply_last(m.0 as int, m.1 as int, m.2 as int),
            castle,
            !mp,
            !turn,
            depth - 1,
        );
        if mp {
            if v > prev {
                v
            } else {
                prev
            }
        } else {
            if v < prev {
                v
            } else {
                prev
            }
        }
    }
}

/// Minimax search without pruning; the boards are left as they are.
pub fn minimax(
    bitboards: &mut [Bitboard; BOARD_COUNT],
    last_opponent_move: Option<(usize, usize)>,
    castle: [bool; 2],
    maximizing_player: bool,
    turn: bool,
    depth: usize,
) -> (r: isize)
    requires
        last_ok(last_opponent_move),
    ensures
        r == minimax_value(
            old(bitboards)@,
            last_opponent_move,
            castle@,
            maximizing_player,
            turn,
            depth as int,
        ),
        *final(bitboards) == *old(bitboards),
    decreases depth,
{
    if depth == 0 {
        return evaluate_board(
            bitboards,
            !(maximizing_player ^ turn),
            last_opponent_move,
            castle,
        );
    }
    let (_, opponent) = get_player_and_opponent_bitboards(bitboards, turn);
    let opponent = opponent.mirror();
    let right = if turn {
        castle[1]
    } else {
        castle[0]
    };
    let ms = candidate_moves(bitboards, turn, &last_opponent_move, right);
    let ghost bbs = bitboards@;
    let mut best: isize = if maximizing_player {
        isize::MIN
    } else {
        isize::MAX
    };
    let mut k: usize = 0;
    while k < ms.len()
        invariant
            k <= ms@.len(),
            depth > 0,
            bbs == bitboards@,
            last_ok(last_opponent_move),
            opponent.bits == opponent_view(bbs, turn),
            ms@ == all_moves(bbs, turn, last_opponent_move, castle@[turn_index(turn)]),
            moves_ok(ms@),
            best == minimax_best(
                bbs,
                last_opponent_move,
                castle@,
                maximizing_player,
                turn,
                depth as int,
                ms@,
                k as int,
            ),
        decreases ms.len() - k,
    {
        let m = ms[k];
        assert(ms@[k as int].0 < 6 && ms@[k as int].1 < 64 && ms@[k as int].2 < 64);
        let (mut cloned, cloned_last) = play_child(
            bitboards,
            opponent,
            last_opponent_move,
            castle,
            turn,
            m,
        );
        let eval = minimax(
            &mut cloned,
            cloned_last,
            castle,
            !maximizing_player,
            !turn,
            depth - 1,
        );
        if maximizing_player {
            if eval > best {
                best = eval;
            }
        } else {
            if eval < best {
                best = eval;
            }
        }
        k += 1;
    }
    best
}

/// The choice at the root among the first `k` moves of `ms`: the first move whose minimax
/// value is strictly higher than every earlier one, with that value; the first move when
/// every value is the lowest.
pub open spec fn root_choice(
    bbs: Seq<Bitboard>,
    last: Option<(usize, usize)>,
    castle: Seq<bool>,
    turn: bool,
    depth: int,
    ms: Seq<Move>,
    k: int,
) -> (int, Option<Move>)
    decreases k,
{
    if k <= 0 || k > ms.len() {
        (isize::MIN as int, None)
    } else {
        let prev = root_choice(bbs, last, castle, turn, depth, ms, k - 1);
        let m = ms[k - 1];
        let v = minimax_value(
            child_boards(bbs, last, castle, turn, m),
            apply_last(m.0 as int, m.1 as int, m.2 as int),
            castle,
            false,
            !turn,
            depth - 1,
        );
        if prev.1 is None || v > prev.0 {
            (v, Some(m))
        } else {
            prev
        }
    }
}

/// The move that minimax search of `depth` plies chooses for the side `turn`.
pub open spec fn minimax_choice(
    bbs: Seq<Bitboard>,
    last: Option<(usize, usize)>,
    castle: Seq<bool>,
    turn: bool,
    depth: int,
) -> Option<Move> {
    let ms = all_moves(bbs, turn, last, castle[turn_index(turn)]);
    root_choice(bbs, last, castle, turn, depth, ms, ms.len() as int).1
}

/// Some move is chosen whenever there is one.
proof fn lemma_root_choice_some(
    bbs: Seq<Bitboard>,
    last: Option<(usize, usize)>,
    castle: Seq<bool>,
    turn: bool,
    depth: int,
    ms: Seq<Move>,
    k: int,
)
    requires
        0 < k <= ms.len(),
    ensures
        root_choice(bbs, last, castle, turn, depth, ms, k).1 is Some,
    decreases k,
{
    if k > 1 {
        lemma_root_choice_some(bbs, last, castle, turn, depth, ms, k - 1);
    }
}

/// Once a move has been kept, or while moves remain, some move is chosen.
proof fn lemma_root_ab_choice_some(
    bbs: Seq<Bitboard>,
    last: Option<(usize, usize)>,
    castle: Seq<bool>,
    turn: bool,
    depth: int,
    sorted: Seq<Scored>,
    k: int,
    alpha: int,
    best: Option<Move>,
)
    requires
        0 <= k,
        best is Some || k < sorted.len(),
    ensures
        root_ab_choice(bbs, last, castle, turn, depth, sorted, k, alpha, best) is Some,
    decreases sorted.len() - k,
{
    if k < sorted.len() {
        let e = sorted[k];
        let m = (e.0, e.1, e.2);
        let v = ab_value(
            child_boards(bbs, last, castle, turn, m),
            apply_last(m.0 as int, m.1 as int, m.2 as int),
            castle,
            false,
            !turn,
            depth - 1,
            2,
            alpha,
            isize::MAX as int,
        );
        let a2 = if v > alpha {
            v
        } else {
            alpha
        };
        let b2 = if best is None || v > alpha {
            Some(m)
        } else {
            best
        };
        if isize::MAX > a2 {
            lemma_root_ab_choice_some(bbs, last, castle, turn, depth, sorted, k + 1, a2, b2);
        }
    }
}

/// Whether the position after a search's choice is the one the rules give for that choice:
/// the chosen move played, or nothing changed when there is none.
pub open spec fn committed(
    bbs: Seq<Bitboard>,
    last: Option<(usize, usize)>,
    castle: Seq<bool>,
    turn: bool,
    choice: Option<Move>,
    new_bbs: Seq<Bitboard>,
    new_last: Option<(usize, usize)>,
) -> bool {
    match choice {
        Some(m) => new_bbs == child_boards(bbs, last, castle, turn, m) && new_last == apply_last(
            m.0 as int,
            m.1 as int,
            m.2 as int,
        ),
        None => new_bbs == bbs && new_last == last,
    }
}

/// Plays, for the side `turn`, the first move with the best minimax value at `depth`
/// plies; plays nothing when there is no move.
pub fn play_minimax(
    bitboards: &mut [Bitboard; BOARD_COUNT],
    turn: bool,
    last_opponent_move: &mut Option<(usize, usize)>,
    castle: &mut [bool; 2],
    depth: usize,
)
    requires
        depth >= 1,
        last_ok(*old(last_opponent_move)),
    ensures
        committed(
            old(bitboards)@,
            *old(last_opponent_move),
            old(castle)@,
            turn,
            minimax_choice(
                old(bitboards)@,
                *old(last_opponent_move),
                old(castle)@,
                turn,
                depth as int,
            ),
            final(bitboards)@,
            *final(last_opponent_move),
        ),
        last_ok(*final(last_opponent_move)),
        *final(castle) == *old(castle),
        all_moves(
            old(bitboards)@,
            turn,
            *old(last_opponent_move),
            old(castle)@[turn_index(turn)],
        ).len() > 0 ==> minimax_choice(
            old(bitboards)@,
            *old(last_opponent_move),
            old(castle)@,
            turn,
            depth as int,
        ) is Some,
{
    proof {
        let ms0 = all_moves(
            old(bitboards)@,
            turn,
            *old(last_opponent_move),
            old(castle)@[turn_index(turn)],
        );
        if ms0.len() > 0 {
            lemma_root_choice_some(
                old(bitboards)@,
                *old(last_opponent_move),
                old(castle)@,
                turn,
                depth as int,
                ms0,
                ms0.len() as int,
            );
        }
    }
    let (_, opponent) = get_player_and_opponent_bitboards(bitboards, turn);
    let opponent = opponent.mirror();
    let right = if turn {
        castle[1]
    } else {
        castle[0]
    };
    let ms = candidate_moves(bitboards, turn, last_opponent_move, right);
    let ghost bbs = bitboards@;
    let ghost last = *last_opponent_move;
    let mut best_score: isize = isize::MIN;
    let mut best_move: Option<Move> = None;
    let mut k: usize = 0;
    while k < ms.len()
        invariant
            k <= ms@.len(),
            depth >= 1,
            bbs == bitboards@,
            last == *last_opponent_move,
            last_ok(last),
            opponent.bits == opponent_view(bbs, turn),
            ms@ == all_moves(bbs, turn, last, castle@[turn_index(turn)]),
            moves_ok(ms@),
            (best_score as int, best_move) == root_choice(
                bbs,
                last,
                castle@,
                turn,
                depth as int,
                ms@,
                k as int,
            ),
            best_move matches Some(m) ==> m.0 < 6 && m.1 < 64 && m.2 < 64,
        decreases ms.len() - k,
    {
        let m = ms[k];
        assert(ms@[k as int].0 < 6 && ms@[k as int].1 < 64 && ms@[k as int].2 < 64);
        let (mut cloned, cloned_last) = play_child(
            bitboards,
            opponent,
            *last_opponent_move,
            *castle,
            turn,
            m,
        );
        let score = minimax(&mut cloned, cloned_last, *castle, false, !turn, depth - 1);
        if best_move.is_none() || score > best_score {
            best_score = score;
            best_move = Some(m);
        }
        k += 1;
    }
    if let Some((i, index, to)) = best_move {
        update_game_state(bitboards, opponent, last_opponent_move, castle, turn, i, index, to);
    }
    proof {
        reveal(child_boards);
    }
}

/// A candidate move with the score it is ordered by.
pub type Scored = (usize, usize, usize, isize);

/// `a` may stand before `b`: descending order keeps a higher or equal score first, ascending
/// order a lower or equal one.
pub open spec fn precedes(a: Scored, b: Scored, desc: bool) -> bool {
    if desc {
        a.3 >= b.3
    } else {
        a.3 <= b.3
    }
}

/// `x` inserted into the ordered `s` after every element that may precede it.
pub open spec fn insert_stable(s: Seq<Scored>, x: Scored, desc: bool) -> Seq<Scored>
    decreases s.len(),
{
    if s.len() == 0 {
        seq![x]
    } else if precedes(s.last(), x, desc) {
        s.push(x)
    } else {
        insert_stable(s.drop_last(), x, desc).push(s.last())
    }
}

/// The stable sort of `s` by score, descending or ascending: equal scores keep their order.
pub open spec fn sort_stable(s: Seq<Scored>, desc: bool) -> Seq<Scored>
    decreases s.len(),
{
    if s.len() == 0 {
        s
    } else {
        insert_stable(sort_stable(s.drop_last(), desc), s.last(), desc)
    }
}

proof fn lemma_insert_at(s: Seq<Scored>, x: Scored, desc: bool, j: int)
    requires
        0 <= j <= s.len(),
        j == 0 || precedes(s[j - 1], x, desc),
        forall|t: int| j <= t < s.len() ==> !precedes(#[trigger] s[t], x, desc),
    ensures
        insert_stable(s, x, desc) == s.insert(j, x),
    decreases s.len(),
{
    if s.len() == j {
        assert(s.insert(j, x) =~= s.push(x));
    } else {
        assert(!precedes(s[s.len() - 1], x, desc));
        let d = s.drop_last();
        assert forall|t: int| j <= t < d.len() implies !precedes(#[trigger] d[t], x, desc) by {
            assert(d[t] == s[t]);
        }
        lemma_insert_at(d, x, desc, j);
        assert(d.insert(j, x).push(s.last()) =~= s.insert(j, x));
    }
}

fn precedes_exec(a: Scored, b: Scored, desc: bool) -> (r: bool)
    ensures
        r == precedes(a, b, desc),
{
    if desc {
        a.3 >= b.3
    } else {
        a.3 <= b.3
    }
}

/// Every entry names a piece kind and two squares of the board.
pub open spec fn entries_ok(s: Seq<Scored>) -> bool {
    forall|t: int| 0 <= t < s.len() ==> #[trigger] s[t].0 < 6 && s[t].1 < 64 && s[t].2 < 64
}

#[verifier::rlimit(100)]
#[verifier::spinoff_prover]
fn insert_sorted(v: &mut Vec<Scored>, x: Scored, desc: bool)
    ensures
        final(v)@ == insert_stable(old(v)@, x, desc),
        entries_ok(old(v)@) && x.0 < 6 && x.1 < 64 && x.2 < 64 ==> entries_ok(final(v)@),
{
    let mut j: usize = v.len();
    while j > 0 && !precedes_exec(v[j - 1], x, desc)
        invariant
            j <= v@.len(),
            forall|t: int| j <= t < v@.len() ==> !precedes(#[trigger] v@[t], x, desc),
        decreases j,
    {
        j -= 1;
    }
    proof {
        lemma_insert_at(v@, x, desc, j as int);
    }
    let ghost before = v@;
    v.insert(j, x);
    proof {
        if entries_ok(before) && x.0 < 6 && x.1 < 64 && x.2 < 64 {
            assert forall|t: int| 0 <= t < v@.len() implies #[trigger] v@[t].0 < 6 && v@[t].1
                < 64 && v@[t].2 < 64 by {
                if t < j {
                    assert(v@[t] == before[t]);
                } else if t > j {
                    assert(v@[t] == before[t - 1]);
                }
            }
        }
    }
}

/// The boards and memory after the side to move plays `m`.
fn play_child(
    bitboards: &[Bitboard; BOARD_COUNT],
    opponent: Bitboard,
    last_opponent_move: Option<(usize, usize)>,
    castle: [bool; 2],
    turn: bool,
    m: Move,
) -> (r: ([Bitboard; BOARD_COUNT], Option<(usize, usize)>))
    requires
        last_ok(last_opponent_move),
        opponent.bits == opponent_view(bitboards@, turn),
        m.0 < 6,
        m.1 < 64,
        m.2 < 64,
    ensures
        r.0@ == child_boards(bitboards@, last_opponent_move, castle@, turn, m),
        r.1 == apply_last(m.0 as int, m.1 as int, m.2 as int),
        last_ok(r.1),
{
    let mut cloned: [Bitboard; BOARD_COUNT] = *bitboards;
    let mut cloned_last = last_opponent_move;
    let mut cloned_castle = castle;
    update_game_state(
        &mut cloned,
        opponent,
        &mut cloned_last,
        &mut cloned_castle,
        turn,
        m.0,
        m.1,
        m.2,
    );
    proof {
        reveal(child_boards);
    }
    (cloned, cloned_last)
}

/// Each move with the evaluation, for the side not to move, of the position it leads to.
pub open spec fn scored_moves(
    bbs: Seq<Bitboard>,
    last: Option<(usize, usize)>,
    castle: Seq<bool>,
    turn: bool,
    ms: Seq<Move>,
) -> Seq<Scored> {
    ms.map_values(
        |m: Move|
            (
                m.0,
                m.1,
                m.2,
                evaluation(
                    child_boards(bbs, last, castle, turn, m),
                    !turn,
                    apply_last(m.0 as int, m.1 as int, m.2 as int),
                    castle,
                ) as isize,
            ),
    )
}

/// The score of a won position, `cur` plies below the root: sooner wins score higher.
pub open spec fn win_score(cur: int) -> int {
    100 + 1000int / cur
}

/// The alpha-beta value of a position: the evaluation at the horizon; else the moves,
/// ordered by the evaluation of the position each leads to (best first for the side
/// searched for), are searched in turn, narrowing the window `alpha`..`beta`, and the search
/// stops at a cutoff or at a move that leaves either side without its king.
pub open spec fn ab_value(
    bbs: Seq<Bitboard>,
    last: Option<(usize, usize)>,
    castle: Seq<bool>,
    mp: bool,
    turn: bool,
    depth: int,
    cur: int,
    alpha: int,
    beta: int,
) -> int
    decreases depth, 1int, 0int,
{
    if depth <= 0 {
        evaluation(bbs, !(mp ^ turn), last, castle)
    } else {
        let ms = all_moves(bbs, turn, last, castle[turn_index(turn)]);
        let sorted = sort_stable(scored_moves(bbs, last, castle, turn, ms), mp);
        ab_loop(
            bbs,
            last,
            castle,
            mp,
            turn,
            depth,
            cur,
            sorted,
            0,
            if mp {
                isize::MIN as int
            } else {
                isize::MAX as int
            },
            alpha,
            beta,
        )
    }
}

/// The alpha-beta search of the moves `sorted[k..]`, the best value so far being `best`.
pub open spec fn ab_loop(
    bbs: Seq<Bitboard>,
    last: Option<(usize, usize)>,
    castle: Seq<bool>,
    mp: bool,
    turn: bool,
    depth: int,
    cur: int,
    sorted: Seq<Scored>,
    k: int,
    best: int,
    alpha: int,
    beta: int,
) -> int
    decreases depth, 0int, sorted.len() - k,
{
    if depth <= 0 || k < 0 || k >= sorted.len() {
        best
    } else {
        let e = sorted[k];
        let m = (e.0, e.1, e.2);
        let c = child_boards(bbs, last, castle, turn, m);
        if winners(c).0 || winners(c).1 {
            if mp {
                win_score(cur)
            } else {
                -win_score(cur)
            }
        } else {
            let v = ab_value(
                c,
                apply_last(m.0 as int, m.1 as int, m.2 as int),
                castle,
                !mp,
                !turn,
                depth - 1,
                cur + 1,
                alpha,
                beta,
            );
            if mp {
                let b2 = if v > best {
                    v
                } else {
                    best
                };
                let a2 = if b2 > alpha {
                    b2
                } else {
                    alpha
                };
                if beta <= a2 {
                    b2
                } else {
                    ab_loop(bbs, last, castle, mp, turn, depth, cur, sorted, k + 1, b2, a2, beta)
                }
            } else {
                let b2 = if v < best {
                    v
                } else {
                    best
                };
                let be2 = if b2 < beta {
                    b2
                } else {
                    beta
                };
                if be2 <= alpha {
                    b2
                } else {
                    ab_loop(bbs, last, castle, mp, turn, depth, cur, sorted, k + 1, b2, alpha, be2)
                }
            }
        }
    }
}

proof fn lemma_sort_step(s: Seq<Scored>, k: int, desc: bool)
    requires
        0 <= k < s.len(),
    ensures
        sort_stable(s.take(k + 1), desc) == insert_stable(sort_stable(s.take(k), desc), s[k], desc),
{
    assert(s.take(k + 1).drop_last() =~= s.take(k));
}

/// Alpha-beta search; `cur_depth` is the ply of this node below the root.  The boards and
/// castling rights are left as they are.
#[verifier::rlimit(100)]
#[verifier::spinoff_prover]
pub fn alpha_beta(
    bitboards: &mut [Bitboard; BOARD_COUNT],
    last_opponent_move: Option<(usize, usize)>,
    castle: &mut [bool; 2],
    maximizing_player: bool,
    turn: bool,
    depth: usize,
    cur_depth: isize,
    alpha: isize,
    beta: isize,
) -> (r: isize)
    requires
        last_ok(last_opponent_move),
        1 <= cur_depth,
        cur_depth + depth <= isize::MAX,
    ensures
        r == ab_value(
            old(bitboards)@,
            last_opponent_move,
            old(castle)@,
            maximizing_player,
            turn,
            depth as int,
            cur_depth as int,
            alpha as int,
            beta as int,
        ),
        *final(bitboards) == *old(bitboards),
        *final(castle) == *old(castle),
    decreases depth,
{
    if depth == 0 {
        return evaluate_board(
            bitboards,
            !(maximizing_player ^ turn),
            last_opponent_move,
            *castle,
        );
    }
    let ghost bbs = bitboards@;
    let ghost cs = castle@;
    let (_, opponent) = get_player_and_opponent_bitboards(bitboards, turn);
    let opponent = opponent.mirror();
    let right = if turn {
        castle[1]
    } else {
        castle[0]
    };
    let ms = candidate_moves(bitboards, turn, &last_opponent_move, right);
    let ghost scored = scored_moves(bbs, last_opponent_move, cs, turn, ms@);

    let mut sorted: Vec<Scored> = Vec::new();
    let mut k: usize = 0;
    while k < ms.len()
        invariant
            k <= ms@.len(),
            bbs == bitboards@,
            cs == castle@,
            last_ok(last_opponent_move),
            opponent.bits == opponent_view(bbs, turn),
            moves_ok(ms@),
            scored == scored_moves(bbs, last_opponent_move, cs, turn, ms@),
            sorted@ == sort_stable(scored.take(k as int), maximizing_player),
            entries_ok(sorted@),
        decreases ms.len() - k,
    {
        let m = ms[k];
        assert(ms@[k as int].0 < 6 && ms@[k as int].1 < 64 && ms@[k as int].2 < 64);
        let (child, child_last) = play_child(bitboards, opponent, last_opponent_move, *castle, turn, m);
        let score = evaluate_board(&child, !turn, child_last, *castle);
        proof {
            lemma_sort_step(scored, k as int, maximizing_player);
        }
        insert_sorted(&mut sorted, (m.0, m.1, m.2, score), maximizing_player);
        k += 1;
    }
    assert(scored.take(k as int) =~= scored);

    let mut lower = alpha;
    let mut upper = beta;
    let mut best: isize = if maximizing_player {
        isize::MIN
    } else {
        isize::MAX
    };
    let ghost sorted_all = sorted@;
    let ghost result = ab_loop(
        bbs,
        last_opponent_move,
        cs,
        maximizing_player,
        turn,
        depth as int,
        cur_depth as int,
        sorted_all,
        0,
        best as int,
        lower as int,
        upper as int,
    );
    assert(result == ab_value(
        bbs,
        last_opponent_move,
        cs,
        maximizing_player,
        turn,
        depth as int,
        cur_depth as int,
        alpha as int,
        beta as int,
    ));
    let mut j: usize = 0;
    while j < sorted.len()
        invariant
            j <= sorted@.len(),
            depth > 0,
            1 <= cur_depth,
            cur_depth + depth <= isize::MAX,
            sorted@ == sorted_all,
            bbs == bitboards@,
            cs == castle@,
            last_ok(last_opponent_move),
            opponent.bits == opponent_view(bbs, turn),
            entries_ok(sorted_all),
            bbs == old(bitboards)@,
            cs == old(castle)@,
            result == ab_value(
                bbs,
                last_opponent_move,
                cs,
                maximizing_player,
                turn,
                depth as int,
                cur_depth as int,
                alpha as int,
                beta as int,
            ),
            result == ab_loop(
                bbs,
                last_opponent_move,
                cs,
                maximizing_player,
                turn,
                depth as int,
                cur_depth as int,
                sorted_all,
                j as int,
                best as int,
                lower as int,
                upper as int,
            ),
        decreases sorted.len() - j,
    {
        let e = sorted[j];
        let m: Move = (e.0, e.1, e.2);
        let (mut child, child_last) = play_child(bitboards, opponent, last_opponent_move, *castle, turn, m);
        let mut win = false;
        let _ = check_win_conditions(&child, &mut win);
        let ghost c = child@;
        assert(win == (winners(c).0 || winners(c).1));
        assert(sorted_all[j as int] == e);
        if win {
            if maximizing_player {
                return 100 + 1000 / cur_depth;
            } else {
                return -(100 + 1000 / cur_depth);
            }
        }
        let mut child_castle = *castle;
        let eval = alpha_beta(
            &mut child,
            child_last,
            &mut child_castle,
            !maximizing_player,
            !turn,
            depth - 1,
            cur_depth + 1,
            lower,
            upper,
        );
        if maximizing_player {
            if eval > best {
                best = eval;
            }
            if best > lower {
                lower = best;
            }
        } else {
            if eval < best {
                best = eval;
            }
            if best < upper {
                upper = best;
            }
        }
        if upper <= lower {
            return best;
        }
        j += 1;
    }
    best
}

/// Each move with the score that orders it at the root: a fixed high score when the move
/// leaves either side without its king, else the evaluation for the side not to move.
pub open spec fn root_scored_moves(
    bbs: Seq<Bitboard>,
    last: Option<(usize, usize)>,
    castle: Seq<bool>,
    turn: bool,
    ms: Seq<Move>,
) -> Seq<Scored> {
    ms.map_values(
        |m: Move|
            (
                m.0,
                m.1,
                m.2,
                (if winners(child_boards(bbs, last, castle, turn, m)).0 || winners(
                    child_boards(bbs, last, castle, turn, m),
                ).1 {
                    1100
                } else {
                    evaluation(
                        child_boards(bbs, last, castle, turn, m),
                        !turn,
                        apply_last(m.0 as int, m.1 as int, m.2 as int),
                        castle,
                    )
                }) as isize,
            ),
    )
}

/// The choice at the root among `sorted[k..]`: each move is searched with alpha-beta one
/// ply less deep, and the last one that raised `alpha` strictly is kept (the first move when
/// none has).
pub open spec fn root_ab_choice(
    bbs: Seq<Bitboard>,
    last: Option<(usize, usize)>,
    castle: Seq<bool>,
    turn: bool,
    depth: int,
    sorted: Seq<Scored>,
    k: int,
    alpha: int,
    best: Option<Move>,
) -> Option<Move>
    decreases sorted.len() - k,
{
    if k < 0 || k >= sorted.len() {
        best
    } else {
        let e = sorted[k];
        let m = (e.0, e.1, e.2);
        let v = ab_value(
            child_boards(bbs, last, castle, turn, m),
            apply_last(m.0 as int, m.1 as int, m.2 as int),
            castle,
            false,
            !turn,
            depth - 1,
            2,
            alpha,
            isize::MAX as int,
        );
        let a2 = if v > alpha {
            v
        } else {
            alpha
        };
        let b2 = if best is None || v > alpha {
            Some(m)
        } else {
            best
        };
        if isize::MAX <= a2 {
            b2
        } else {
            root_ab_choice(bbs, last, castle, turn, depth, sorted, k + 1, a2, b2)
        }
    }
}

/// The move that alpha-beta search of `depth` plies chooses for the side `turn`.
pub open spec fn alpha_beta_choice(
    bbs: Seq<Bitboard>,
    last: Option<(usize, usize)>,
    castle: Seq<bool>,
    turn: bool,
    depth: int,
) -> Option<Move> {
    let ms = all_moves(bbs, turn, last, castle[turn_index(turn)]);
    let sorted = sort_stable(root_scored_moves(bbs, last, castle, turn, ms), true);
    root_ab_choice(bbs, last, castle, turn, depth, sorted, 0, isize::MIN as int, None)
}

/// Plays, for the side `turn`, the move that alpha-beta search of `depth` plies chooses;
/// plays nothing when there is no move.
#[verifier::rlimit(100)]
#[verifier::spinoff_prover]
pub fn play_alpha_beta(
    bitboards: &mut [Bitboard; BOARD_COUNT],
    turn: bool,
    last_opponent_move: &mut Option<(usize, usize)>,
    castle: &mut [bool; 2],
    depth: usize,
)
    requires
        1 <= depth < isize::MAX,
        last_ok(*old(last_opponent_move)),
    ensures
        committed(
            old(bitboards)@,
            *old(last_opponent_move),
            old(castle)@,
            turn,
            alpha_beta_choice(
                old(bitboards)@,
                *old(last_opponent_move),
                old(castle)@,
                turn,
                depth as int,
            ),
            final(bitboards)@,
            *final(last_opponent_move),
        ),
        last_ok(*final(last_opponent_move)),
        *final(castle) == *old(castle),
        all_moves(
            old(bitboards)@,
            turn,
            *old(last_opponent_move),
            old(castle)@[turn_index(turn)],
        ).len() > 0 ==> alpha_beta_choice(
            old(bitboards)@,
            *old(last_opponent_move),
            old(castle)@,
            turn,
            depth as int,
        ) is Some,
{
    proof {
        let ms0 = all_moves(
            old(bitboards)@,
            turn,
            *old(last_opponent_move),
            old(castle)@[turn_index(turn)],
        );
        let sc0 = root_scored_moves(
            old(bitboards)@,
            *old(last_opponent_move),
            old(castle)@,
            turn,
            ms0,
        );
        if ms0.len() > 0 {
            lemma_sort_stable_contents(sc0, true, sc0[0]);
            lemma_root_ab_choice_some(
                old(bitboards)@,
                *old(last_opponent_move),
                old(castle)@,
                turn,
                depth as int,
                sort_stable(sc0, true),
                0,
                isize::MIN as int,
                None,
            );
        }
    }
    let ghost bbs = bitboards@;
    let ghost cs = castle@;
    let ghost last = *last_opponent_move;
    let (_, opponent) = get_player_and_opponent_bitboards(bitboards, turn);
    let opponent = opponent.mirror();
    let right = if turn {
        castle[1]
    } else {
        castle[0]
    };
    let ms = candidate_moves(bitboards, turn, last_opponent_move, right);
    let ghost scored = root_scored_moves(bbs, last, cs, turn, ms@);

    let mut sorted: Vec<Scored> = Vec::new();
    let mut k: usize = 0;
    while k < ms.len()
        invariant
            k <= ms@.len(),
            bbs == bitboards@,
            cs == castle@,
            last == *last_opponent_move,
            last_ok(last),
            opponent.bits == opponent_view(bbs, turn),
            moves_ok(ms@),
            scored == root_scored_moves(bbs, last, cs, turn, ms@),
            sorted@ == sort_stable(scored.take(k as int), true),
            entries_ok(sorted@),
        decreases ms.len() - k,
    {
        let m = ms[k];
        assert(ms@[k as int].0 < 6 && ms@[k as int].1 < 64 && ms@[k as int].2 < 64);
        let (child, child_last) = play_child(
            bitboards,
            opponent,
            *last_opponent_move,
            *castle,
            turn,
            m,
        );
        let mut win = false;
        let _ = check_win_conditions(&child, &mut win);
        let score = if win {
            1100
        } else {
            evaluate_board(&child, !turn, child_last, *castle)
        };
        proof {
            lemma_sort_step(scored, k as int, true);
        }
        insert_sorted(&mut sorted, (m.0, m.1, m.2, score), true);
        k += 1;
    }
    assert(scored.take(k as int) =~= scored);

    let mut best_move: Option<Move> = None;
    let mut alpha: isize = isize::MIN;
    let beta: isize = isize::MAX;
    let ghost sorted_all = sorted@;
    let ghost choice = alpha_beta_choice(bbs, last, cs, turn, depth as int);
    let mut j: usize = 0;
    while j < sorted.len()
        invariant_except_break
            j <= sorted@.len(),
            1 <= depth < isize::MAX,
            beta == isize::MAX,
            sorted@ == sorted_all,
            bbs == bitboards@,
            cs == castle@,
            last == *last_opponent_move,
            last_ok(last),
            opponent.bits == opponent_view(bbs, turn),
            entries_ok(sorted_all),
            best_move matches Some(m) ==> m.0 < 6 && m.1 < 64 && m.2 < 64,
            choice == root_ab_choice(
                bbs,
                last,
                cs,
                turn,
                depth as int,
                sorted_all,
                j as int,
                alpha as int,
                best_move,
            ),
        ensures
            bbs == bitboards@,
            cs == castle@,
            last == *last_opponent_move,
            opponent.bits == opponent_view(bbs, turn),
            best_move matches Some(m) ==> m.0 < 6 && m.1 < 64 && m.2 < 64,
            choice == best_move,
        decreases sorted.len() - j,
    {
        let e = sorted[j];
        let m: Move = (e.0, e.1, e.2);
        assert(sorted_all[j as int] == e);
        let (mut child, child_last) = play_child(
            bitboards,
            opponent,
            *last_opponent_move,
            *castle,
            turn,
            m,
        );
        let mut child_castle = *castle;
        let score = alpha_beta(
            &mut child,
            child_last,
            &mut child_castle,
            false,
            !turn,
            depth - 1,
            2,
            alpha,
            beta,
        );
        assert(score == ab_value(
            child_boards(bbs, last, cs, turn, m),
            apply_last(m.0 as int, m.1 as int, m.2 as int),
            cs,
            false,
            !turn,
            depth - 1,
            2,
            alpha as int,
            isize::MAX as int,
        ));
        let ghost alpha_before = alpha;
        let ghost best_before = best_move;
        if best_move.is_none() || score > alpha {
            best_move = Some(m);
        }
        if score > alpha {
            alpha = score;
        }
        assert(root_ab_choice(
            bbs,
            last,
            cs,
            turn,
            depth as int,
            sorted_all,
            j as int,
            alpha_before as int,
            best_before,
        ) == if isize::MAX <= alpha {
            best_move
        } else {
            root_ab_choice(
                bbs,
                last,
                cs,
                turn,
                depth as int,
                sorted_all,
                j + 1,
                alpha as int,
                best_move,
            )
        });
        if beta <= alpha {
            break;
        }
        j += 1;
    }
    if let Some((i, index, to)) = best_move {
        update_game_state(bitboards, opponent, last_opponent_move, castle, turn, i, index, to);
    }
    proof {
        reveal(child_boards);
    }
}

/// Plays one move for the side `turn`, chosen by alpha-beta or by plain minimax search.
pub fn play_ai(
    bitboards: &mut [Bitboard; BOARD_COUNT],
    turn: bool,
    last_opponent_move: &mut Option<(usize, usize)>,
    castle: &mut [bool; 2],
    depth: usize,
    use_alpha_beta: bool,
)
    requires
        1 <= depth < isize::MAX,
        last_ok(*old(last_opponent_move)),
    ensures
        use_alpha_beta ==> committed(
            old(bitboards)@,
            *old(last_opponent_move),
            old(castle)@,
            turn,
            alpha_beta_choice(
                old(bitboards)@,
                *old(last_opponent_move),
                old(castle)@,
                turn,
                depth as int,
            ),
            final(bitboards)@,
            *final(last_opponent_move),
        ),
        !use_alpha_beta ==> committed(
            old(bitboards)@,
            *old(last_opponent_move),
            old(castle)@,
            turn,
            minimax_choice(
                old(bitboards)@,
                *old(last_opponent_move),
                old(castle)@,
                turn,
                depth as int,
            ),
            final(bitboards)@,
            *final(last_opponent_move),
        ),
        last_ok(*final(last_opponent_move)),
        *final(castle) == *old(castle),
        use_alpha_beta && all_moves(
            old(bitboards)@,
            turn,
            *old(last_opponent_move),
            old(castle)@[turn_index(turn)],
        ).len() > 0 ==> alpha_beta_choice(
            old(bitboards)@,
            *old(last_opponent_move),
            old(castle)@,
            turn,
            depth as int,
        ) is Some,
        !use_alpha_beta && all_moves(
            old(bitboards)@,
            turn,
            *old(last_opponent_move),
            old(castle)@[turn_index(turn)],
        ).len() > 0 ==> minimax_choice(
            old(bitboards)@,
            *old(last_opponent_move),
            old(castle)@,
            turn,
            depth as int,
        ) is Some,
{
    if use_alpha_beta {
        play_alpha_beta(bitboards, turn, last_opponent_move, castle, depth);
    } else {
        play_minimax(bitboards, turn, last_opponent_move, castle, depth);
    }
}

} // verus!

verus! {

proof fn lemma_material_bounded(bbs: Seq<Bitboard>, off: int, k: int)
    requires
        0 <= k <= 6,
    ensures
        0 <= material(bbs, off, k) <= k * 64 * 900,
    decreases k,
{
    if k > 0 {
        lemma_material_bounded(bbs, off, k - 1);
        let c = count_from(bbs[off + k - 1].bits, 0);
        lemma_count_from(bbs[off + k - 1].bits, 0);
        let v = piece_value(piece_of(k - 1));
        assert(0 <= c * v <= 64 * 900) by (nonlinear_arith)
            requires
                0 <= c <= 64,
                0 <= v <= 900,
        ;
    }
}

proof fn lemma_square_mobility_bounded(
    me: u64,
    them: u64,
    piece: Piece,
    idxs: Seq<usize>,
    last: Option<(usize, usize)>,
    castle: bool,
)
    requires
        forall|k: int| 0 <= k < idxs.len() ==> #[trigger] idxs[k] < 64,
    ensures
        0 <= square_mobility(me, them, piece, idxs, last, castle) <= idxs.len()
            * PIECE_MOBILITY_MAX,
    decreases idxs.len(),
{
    if idxs.len() > 0 {
        let d = idxs.drop_last();
        assert forall|k: int| 0 <= k < d.len() implies #[trigger] d[k] < 64 by {
            assert(d[k] == idxs[k]);
        }
        lemma_square_mobility_bounded(me, them, piece, d, last, castle);
        let idx = idxs.last();
        assert(idx == idxs[idxs.len() - 1]);
        lemma_targets_bounded(me, idx as int, them, piece, last, castle);
        let len = piece_targets(me, idx as int, them, piece, last, castle).len() as int;
        let v = piece_value(piece);
        assert(0 <= len * v / 10 <= 46080) by (nonlinear_arith)
            requires
                0 <= len <= 512,
                0 <= v <= 900,
        ;
    }
}

proof fn lemma_mobility_bounded(
    me: u64,
    them: u64,
    bbs: Seq<Bitboard>,
    off: int,
    last: Option<(usize, usize)>,
    castle: bool,
    k: int,
)
    requires
        0 <= k <= 6,
    ensures
        0 <= mobility(me, them, bbs, off, last, castle, k) <= k * 64 * PIECE_MOBILITY_MAX,
    decreases k,
{
    if k > 0 {
        lemma_mobility_bounded(me, them, bbs, off, last, castle, k - 1);
        let b = bbs[off + k - 1].bits;
        lemma_indices_from(b, 0);
        lemma_square_mobility_bounded(me, them, piece_of(k - 1), indices_from(b, 0), last, castle);
        let n = indices_from(b, 0).len() as int;
        assert(n * PIECE_MOBILITY_MAX <= 64 * PIECE_MOBILITY_MAX) by (nonlinear_arith)
            requires
                0 <= n <= 64,
        ;
    }
}

/// Every evaluation lies within `-SCORE_MAX..=SCORE_MAX`.
pub proof fn lemma_evaluation_bounded(
    bbs: Seq<Bitboard>,
    mp: bool,
    last: Option<(usize, usize)>,
    castle: Seq<bool>,
)
    ensures
        -SCORE_MAX <= evaluation(bbs, mp, last, castle) <= SCORE_MAX,
{
    reveal(evaluation);
    lemma_side_worth_bounded(bbs, mp, last, castle);
    lemma_side_worth_bounded(bbs, !mp, last, castle);
}

proof fn lemma_side_worth_bounded(
    bbs: Seq<Bitboard>,
    side: bool,
    last: Option<(usize, usize)>,
    castle: Seq<bool>,
)
    ensures
        0 <= side_worth(bbs, side, last, castle) <= 6 * 64 * 900 + 6 * 64 * PIECE_MOBILITY_MAX,
{
    let me = side_union(bbs, own_offset(side), 6);
    let them = mirror_bits(side_union(bbs, opp_offset(side), 6));
    lemma_material_bounded(bbs, own_offset(side), 6);
    lemma_mobility_bounded(me, them, bbs, own_offset(side), last, castle[turn_index(side)], 6);
}


proof fn lemma_push_contains<A>(s: Seq<A>, x: A, y: A)
    ensures
        s.push(x).contains(y) <==> (s.contains(y) || y == x),
{
    if s.contains(y) {
        let i = choose|i: int| 0 <= i < s.len() && s[i] == y;
        assert(s.push(x)[i] == y);
    }
    if y == x {
        assert(s.push(x)[s.len() as int] == y);
    }
    if s.push(x).contains(y) {
        let i = choose|i: int| 0 <= i < s.push(x).len() && s.push(x)[i] == y;
        if i < s.len() {
            assert(s[i] == y);
        }
    }
}

proof fn lemma_insert_stable_contents(s: Seq<Scored>, x: Scored, desc: bool, y: Scored)
    ensures
        insert_stable(s, x, desc).len() == s.len() + 1,
        insert_stable(s, x, desc).contains(y) <==> (s.contains(y) || y == x),
    decreases s.len(),
{
    if s.len() == 0 {
        lemma_push_contains(s, x, y);
        assert(s.push(x) =~= seq![x]);
    } else if precedes(s.last(), x, desc) {
        lemma_push_contains(s, x, y);
    } else {
        let d = s.drop_last();
        lemma_insert_stable_contents(d, x, desc, y);
        lemma_push_contains(insert_stable(d, x, desc), s.last(), y);
        lemma_push_contains(d, s.last(), y);
        assert(d.push(s.last()) =~= s);
    }
}

proof fn lemma_sort_stable_contents(s: Seq<Scored>, desc: bool, y: Scored)
    ensures
        sort_stable(s, desc).len() == s.len(),
        sort_stable(s, desc).contains(y) <==> s.contains(y),
    decreases s.len(),
{
    if s.len() > 0 {
        let d = s.drop_last();
        lemma_sort_stable_contents(d, desc, y);
        lemma_insert_stable_contents(sort_stable(d, desc), s.last(), desc, y);
        lemma_push_contains(d, s.last(), y);
        assert(d.push(s.last()) =~= s);
    }
}

/// The move of a scored entry.
pub open spec fn entry_move(e: Scored) -> Move {
    (e.0, e.1, e.2)
}

/// No move leaves either side without its king.
pub open spec fn no_king_taken(
    bbs: Seq<Bitboard>,
    last: Option<(usize, usize)>,
    castle: Seq<bool>,
    turn: bool,
    m: Move,
) -> bool {
    !winners(child_boards(bbs, last, castle, turn, m)).0 && !winners(
        child_boards(bbs, last, castle, turn, m),
    ).1
}


/// The minimax value of the position that move `m` leads to.
#[verifier::opaque]
pub open spec fn child_value(
    bbs: Seq<Bitboard>,
    last: Option<(usize, usize)>,
    castle: Seq<bool>,
    mp: bool,
    turn: bool,
    depth: int,
    m: Move,
) -> int {
    minimax_value(
        child_boards(bbs, last, castle, turn, m),
        apply_last(m.0 as int, m.1 as int, m.2 as int),
        castle,
        !mp,
        !turn,
        depth - 1,
    )
}

/// No king is taken anywhere in the search tree of `depth` plies.
#[verifier::opaque]
pub open spec fn no_capture_within(
    bbs: Seq<Bitboard>,
    last: Option<(usize, usize)>,
    castle: Seq<bool>,
    mp: bool,
    turn: bool,
    depth: int,
) -> bool
    decreases depth,
{
    if depth <= 0 {
        true
    } else {
        forall|i: int|
            0 <= i < all_moves(bbs, turn, last, castle[turn_index(turn)]).len() ==> {
                let m = #[trigger] all_moves(bbs, turn, last, castle[turn_index(turn)])[i];
                &&& no_king_taken(bbs, last, castle, turn, m)
                &&& no_capture_within(
                    child_boards(bbs, last, castle, turn, m),
                    apply_last(m.0 as int, m.1 as int, m.2 as int),
                    castle,
                    !mp,
                    !turn,
                    depth - 1,
                )
            }
    }
}

#[verifier::rlimit(100)]
#[verifier::spinoff_prover]
proof fn lemma_minimax_in_range(
    bbs: Seq<Bitboard>,
    last: Option<(usize, usize)>,
    castle: Seq<bool>,
    mp: bool,
    turn: bool,
    depth: int,
)
    ensures
        isize::MIN <= minimax_value(bbs, last, castle, mp, turn, depth) <= isize::MAX,
    decreases depth, 1int, 0int,
{
    if depth <= 0 {
        lemma_evaluation_bounded(bbs, !(mp ^ turn), last, castle);
    } else {
        let ms = all_moves(bbs, turn, last, castle[turn_index(turn)]);
        lemma_minimax_best_general(bbs, last, castle, mp, turn, depth, ms, ms.len() as int);
    }
}

/// The fold of `minimax_best` is the extremum of the child values.
#[verifier::rlimit(100)]
#[verifier::spinoff_prover]
proof fn lemma_minimax_best_general(
    bbs: Seq<Bitboard>,
    last: Option<(usize, usize)>,
    castle: Seq<bool>,
    mp: bool,
    turn: bool,
    depth: int,
    ms: Seq<Move>,
    k: int,
)
    requires
        depth >= 1,
        0 <= k <= ms.len(),
    ensures
        ({
            let r = minimax_best(bbs, last, castle, mp, turn, depth, ms, k);
            &&& isize::MIN <= r <= isize::MAX
            &&& k == 0 ==> r == if mp {
                isize::MIN as int
            } else {
                isize::MAX as int
            }
            &&& forall|i: int|
                0 <= i < k ==> if mp {
                    #[trigger] child_value(bbs, last, castle, mp, turn, depth, ms[i]) <= r
                } else {
                    child_value(bbs, last, castle, mp, turn, depth, ms[i]) >= r
                }
            &&& k > 0 ==> exists|i: int|
                0 <= i < k && r == #[trigger] child_value(bbs, last, castle, mp, turn, depth, ms[i])
        }),
    decreases depth, 0int, k,
{
    reveal(child_value);
    if k > 0 {
        lemma_minimax_best_general(bbs, last, castle, mp, turn, depth, ms, k - 1);
        let m = ms[k - 1];
        lemma_minimax_in_range(
            child_boards(bbs, last, castle, turn, m),
            apply_last(m.0 as int, m.1 as int, m.2 as int),
            castle,
            !mp,
            !turn,
            depth - 1,
        );
        let r = minimax_best(bbs, last, castle, mp, turn, depth, ms, k);
        let p = minimax_best(bbs, last, castle, mp, turn, depth, ms, k - 1);
        if r == p && k > 1 {
            let w = choose|i: int| 0 <= i < k - 1 && p == #[trigger] child_value(
                bbs,
                last,
                castle,
                mp,
                turn,
                depth,
                ms[i],
            );
            assert(0 <= w < k && r == child_value(bbs, last, castle, mp, turn, depth, ms[w]));
        } else {
            assert(r == child_value(bbs, last, castle, mp, turn, depth, ms[k - 1]));
        }
    }
}

/// The moves of the entries of `sorted` are exactly the moves of `ms`.
pub open spec fn same_moves(sorted: Seq<Scored>, ms: Seq<Move>) -> bool {
    &&& forall|t: int|
        0 <= t < sorted.len() ==> exists|i: int|
            0 <= i < ms.len() && #[trigger] entry_move(sorted[t]) == ms[i]
    &&& forall|i: int|
        0 <= i < ms.len() ==> exists|t: int|
            0 <= t < sorted.len() && entry_move(sorted[t]) == #[trigger] ms[i]
}

#[verifier::rlimit(100)]
#[verifier::spinoff_prover]
proof fn lemma_sorted_same_moves(
    bbs: Seq<Bitboard>,
    last: Option<(usize, usize)>,
    castle: Seq<bool>,
    turn: bool,
    ms: Seq<Move>,
    desc: bool,
)
    ensures
        same_moves(sort_stable(scored_moves(bbs, last, castle, turn, ms), desc), ms),
{
    let scored = scored_moves(bbs, last, castle, turn, ms);
    let sorted = sort_stable(scored, desc);
    assert forall|t: int| 0 <= t < sorted.len() implies exists|i: int|
        0 <= i < ms.len() && #[trigger] entry_move(sorted[t]) == ms[i] by {
        lemma_sort_stable_contents(scored, desc, sorted[t]);
        assert(sorted.contains(sorted[t]));
        let i = choose|i: int| 0 <= i < scored.len() && scored[i] == sorted[t];
        assert(entry_move(scored[i]) == ms[i]);
    }
    assert forall|i: int| 0 <= i < ms.len() implies exists|t: int|
        0 <= t < sorted.len() && entry_move(sorted[t]) == #[trigger] ms[i] by {
        lemma_sort_stable_contents(scored, desc, scored[i]);
        assert(scored.contains(scored[i]));
        let t = choose|t: int| 0 <= t < sorted.len() && sorted[t] == scored[i];
        assert(entry_move(scored[i]) == ms[i]);
        assert(entry_move(sorted[t]) == ms[i]);
    }
}

/// The search of the moves `sorted[j..]` at a node: what holds of a fail-soft result
/// against the extremum `big` of the child minimax values over all the moves.
#[verifier::rlimit(100)]
#[verifier::spinoff_prover]
proof fn lemma_ab_loop_bounds(
    bbs: Seq<Bitboard>,
    last: Option<(usize, usize)>,
    castle: Seq<bool>,
    mp: bool,
    turn: bool,
    depth: int,
    cur: int,
    ms: Seq<Move>,
    sorted: Seq<Scored>,
    j: int,
    best: int,
    alpha: int,
    beta: int,
    alpha0: int,
    beta0: int,
)
    requires
        depth >= 1,
        0 <= j <= sorted.len(),
        same_moves(sorted, ms),
        no_capture_within(bbs, last, castle, mp, turn, depth),
        ms == all_moves(bbs, turn, last, castle[turn_index(turn)]),
        isize::MIN <= best <= isize::MAX,
        alpha < beta,
        isize::MIN <= alpha0 < beta0 <= isize::MAX,
        mp ==> beta == beta0 && alpha == (if best > alpha0 {
            best
        } else {
            alpha0
        }),
        !mp ==> alpha == alpha0 && beta == (if best < beta0 {
            best
        } else {
            beta0
        }),
        forall|t: int|
            0 <= t < j ==> if mp {
                #[trigger] child_value(bbs, last, castle, mp, turn, depth, entry_move(sorted[t]))
                    <= best
            } else {
                child_value(bbs, last, castle, mp, turn, depth, entry_move(sorted[t])) >= best
            },
        (if mp {
            best <= alpha0
        } else {
            best >= beta0
        }) || exists|i: int|
            0 <= i < ms.len() && best == #[trigger] child_value(
                bbs,
                last,
                castle,
                mp,
                turn,
                depth,
                ms[i],
            ),
    ensures
        ({
            let r = ab_loop(bbs, last, castle, mp, turn, depth, cur, sorted, j, best, alpha, beta);
            let big = minimax_best(bbs, last, castle, mp, turn, depth, ms, ms.len() as int);
            &&& r <= alpha0 ==> big <= r
            &&& r >= beta0 ==> big >= r
            &&& alpha0 < r < beta0 ==> big == r
        }),
    decreases depth, 0int, sorted.len() - j, 1int,
{
    lemma_minimax_best_general(bbs, last, castle, mp, turn, depth, ms, ms.len() as int);
    if j < sorted.len() {
        if mp {
            lemma_ab_step_max(bbs, last, castle, mp, turn, depth, cur, ms, sorted, j, best, alpha, beta, alpha0, beta0);
        } else {
            lemma_ab_step_min(bbs, last, castle, mp, turn, depth, cur, ms, sorted, j, best, alpha, beta, alpha0, beta0);
        }
    } else {
        lemma_ab_loop_end(bbs, last, castle, mp, turn, depth, cur, ms, sorted, j, best, alpha, beta, alpha0, beta0);
    }
}

#[verifier::rlimit(100)]
#[verifier::spinoff_prover]
proof fn lemma_ab_loop_end(
    bbs: Seq<Bitboard>,
    last: Option<(usize, usize)>,
    castle: Seq<bool>,
    mp: bool,
    turn: bool,
    depth: int,
    cur: int,
    ms: Seq<Move>,
    sorted: Seq<Scored>,
    j: int,
    best: int,
    alpha: int,
    beta: int,
    alpha0: int,
    beta0: int,
)
    requires
        depth >= 1,
        j == sorted.len(),
        same_moves(sorted, ms),
        no_capture_within(bbs, last, castle, mp, turn, depth),
        ms == all_moves(bbs, turn, last, castle[turn_index(turn)]),
        isize::MIN <= best <= isize::MAX,
        alpha < beta,
        isize::MIN <= alpha0 < beta0 <= isize::MAX,
        mp ==> beta == beta0 && alpha == (if best > alpha0 {
            best
        } else {
            alpha0
        }),
        !mp ==> alpha == alpha0 && beta == (if best < beta0 {
            best
        } else {
            beta0
        }),
        forall|t: int|
            0 <= t < j ==> if mp {
                #[trigger] child_value(bbs, last, castle, mp, turn, depth, entry_move(sorted[t]))
                    <= best
            } else {
                child_value(bbs, last, castle, mp, turn, depth, entry_move(sorted[t])) >= best
            },
        (if mp {
            best <= alpha0
        } else {
            best >= beta0
        }) || exists|i: int|
            0 <= i < ms.len() && best == #[trigger] child_value(
                bbs,
                last,
                castle,
                mp,
                turn,
                depth,
                ms[i],
            ),
    ensures
        ({
            let r = ab_loop(bbs, last, castle, mp, turn, depth, cur, sorted, j, best, alpha, beta);
            let big = minimax_best(bbs, last, castle, mp, turn, depth, ms, ms.len() as int);
            &&& r <= alpha0 ==> big <= r
            &&& r >= beta0 ==> big >= r
            &&& alpha0 < r < beta0 ==> big == r
        }),
{
    let big = minimax_best(bbs, last, castle, mp, turn, depth, ms, ms.len() as int);
    lemma_minimax_best_general(bbs, last, castle, mp, turn, depth, ms, ms.len() as int);
    if ms.len() > 0 {
        let w = choose|i: int| 0 <= i < ms.len() && big == #[trigger] child_value(
            bbs,
            last,
            castle,
            mp,
            turn,
            depth,
            ms[i],
        );
        let t = choose|t: int| 0 <= t < sorted.len() && entry_move(sorted[t]) == #[trigger] ms[w];
        assert(child_value(bbs, last, castle, mp, turn, depth, entry_move(sorted[t])) == big);
    }
}

#[verifier::rlimit(100)]
#[verifier::spinoff_prover]
proof fn lemma_ab_step_max(
    bbs: Seq<Bitboard>,
    last: Option<(usize, usize)>,
    castle: Seq<bool>,
    mp: bool,
    turn: bool,
    depth: int,
    cur: int,
    ms: Seq<Move>,
    sorted: Seq<Scored>,
    j: int,
    best: int,
    alpha: int,
    beta: int,
    alpha0: int,
    beta0: int,
)
    requires
        depth >= 1,
        0 <= j < sorted.len(),
        mp,
        same_moves(sorted, ms),
        no_capture_within(bbs, last, castle, mp, turn, depth),
        ms == all_moves(bbs, turn, last, castle[turn_index(turn)]),
        isize::MIN <= best <= isize::MAX,
        alpha < beta,
        isize::MIN <= alpha0 < beta0 <= isize::MAX,
        mp ==> beta == beta0 && alpha == (if best > alpha0 {
            best
        } else {
            alpha0
        }),
        !mp ==> alpha == alpha0 && beta == (if best < beta0 {
            best
        } else {
            beta0
        }),
        forall|t: int|
            0 <= t < j ==> if mp {
                #[trigger] child_value(bbs, last, castle, mp, turn, depth, entry_move(sorted[t]))
                    <= best
            } else {
                child_value(bbs, last, castle, mp, turn, depth, entry_move(sorted[t])) >= best
            },
        (if mp {
            best <= alpha0
        } else {
            best >= beta0
        }) || exists|i: int|
            0 <= i < ms.len() && best == #[trigger] child_value(
                bbs,
                last,
                castle,
                mp,
                turn,
                depth,
                ms[i],
            ),
    ensures
        ({
            let r = ab_loop(bbs, last, castle, mp, turn, depth, cur, sorted, j, best, alpha, beta);
            let big = minimax_best(bbs, last, castle, mp, turn, depth, ms, ms.len() as int);
            &&& r <= alpha0 ==> big <= r
            &&& r >= beta0 ==> big >= r
            &&& alpha0 < r < beta0 ==> big == r
        }),
    decreases depth, 0int, sorted.len() - j, 0int,
{
    let big = minimax_best(bbs, last, castle, mp, turn, depth, ms, ms.len() as int);
    lemma_minimax_best_general(bbs, last, castle, mp, turn, depth, ms, ms.len() as int);
    let e = sorted[j];
    let m = entry_move(sorted[j]);
    assert(exists|i: int| 0 <= i < ms.len() && #[trigger] entry_move(sorted[j]) == ms[i]);
    let i = choose|i: int| 0 <= i < ms.len() && #[trigger] entry_move(sorted[j]) == ms[i];
    assert(ms[i] == m);
    let c = child_boards(bbs, last, castle, turn, m);
    let cl = apply_last(m.0 as int, m.1 as int, m.2 as int);
    assert(no_king_taken(bbs, last, castle, turn, ms[i]) && no_capture_within(
        c,
        cl,
        castle,
        !mp,
        !turn,
        depth - 1,
    )) by {
        reveal(no_capture_within);
    }
    let v = ab_value(c, cl, castle, !mp, !turn, depth - 1, cur + 1, alpha, beta);
    let vv = child_value(bbs, last, castle, mp, turn, depth, m);
    lemma_ab_bounds(c, cl, castle, !mp, !turn, depth - 1, cur + 1, alpha, beta);
    lemma_minimax_in_range(c, cl, castle, !mp, !turn, depth - 1);
    assert(vv == minimax_value(c, cl, castle, !mp, !turn, depth - 1)) by {
        reveal(child_value);
    }
    assert(vv == child_value(bbs, last, castle, mp, turn, depth, ms[i]));
    assert(vv <= big);
    let b2 = if v > best {
        v
    } else {
        best
    };
    let a2 = if b2 > alpha {
        b2
    } else {
        alpha
    };
    assert(ab_loop(bbs, last, castle, mp, turn, depth, cur, sorted, j, best, alpha, beta) == if beta
        <= a2 {
        b2
    } else {
        ab_loop(bbs, last, castle, mp, turn, depth, cur, sorted, j + 1, b2, a2, beta)
    });
    if beta > a2 {
        if b2 != best {
            if v <= alpha {
                assert(b2 <= alpha0);
            } else {
                assert(b2 == child_value(bbs, last, castle, mp, turn, depth, ms[i]));
            }
        }
        lemma_ab_loop_bounds(
            bbs,
            last,
            castle,
            mp,
            turn,
            depth,
            cur,
            ms,
            sorted,
            j + 1,
            b2,
            a2,
            beta,
            alpha0,
            beta0,
        );
    }
}

#[verifier::rlimit(100)]
#[verifier::spinoff_prover]
proof fn lemma_ab_step_min(
    bbs: Seq<Bitboard>,
    last: Option<(usize, usize)>,
    castle: Seq<bool>,
    mp: bool,
    turn: bool,
    depth: int,
    cur: int,
    ms: Seq<Move>,
    sorted: Seq<Scored>,
    j: int,
    best: int,
    alpha: int,
    beta: int,
    alpha0: int,
    beta0: int,
)
    requires
        depth >= 1,
        0 <= j < sorted.len(),
        !mp,
        same_moves(sorted, ms),
        no_capture_within(bbs, last, castle, mp, turn, depth),
        ms == all_moves(bbs, turn, last, castle[turn_index(turn)]),
        isize::MIN <= best <= isize::MAX,
        alpha < beta,
        isize::MIN <= alpha0 < beta0 <= isize::MAX,
        mp ==> beta == beta0 && alpha == (if best > alpha0 {
            best
        } else {
            alpha0
        }),
        !mp ==> alpha == alpha0 && beta == (if best < beta0 {
            best
        } else {
            beta0
        }),
        forall|t: int|
            0 <= t < j ==> if mp {
                #[trigger] child_value(bbs, last, castle, mp, turn, depth, entry_move(sorted[t]))
                    <= best
            } else {
                child_value(bbs, last, castle, mp, turn, depth, entry_move(sorted[t])) >= best
            },
        (if mp {
            best <= alpha0
        } else {
            best >= beta0
        }) || exists|i: int|
            0 <= i < ms.len() && best == #[trigger] child_value(
                bbs,
                last,
                castle,
                mp,
                turn,
                depth,
                ms[i],
            ),
    ensures
        ({
            let r = ab_loop(bbs, last, castle, mp, turn, depth, cur, sorted, j, best, alpha, beta);
            let big = minimax_best(bbs, last, castle, mp, turn, depth, ms, ms.len() as int);
            &&& r <= alpha0 ==> big <= r
            &&& r >= beta0 ==> big >= r
            &&& alpha0 < r < beta0 ==> big == r
        }),
    decreases depth, 0int, sorted.len() - j, 0int,
{
    let big = minimax_best(bbs, last, castle, mp, turn, depth, ms, ms.len() as int);
    lemma_minimax_best_general(bbs, last, castle, mp, turn, depth, ms, ms.len() as int);
    let e = sorted[j];
    let m = entry_move(sorted[j]);
    assert(exists|i: int| 0 <= i < ms.len() && #[trigger] entry_move(sorted[j]) == ms[i]);
    let i = choose|i: int| 0 <= i < ms.len() && #[trigger] entry_move(sorted[j]) == ms[i];
    assert(ms[i] == m);
    let c = child_boards(bbs, last, castle, turn, m);
    let cl = apply_last(m.0 as int, m.1 as int, m.2 as int);
    assert(no_king_taken(bbs, last, castle, turn, ms[i]) && no_capture_within(
        c,
        cl,
        castle,
        !mp,
        !turn,
        depth - 1,
    )) by {
        reveal(no_capture_within);
    }
    let v = ab_value(c, cl, castle, !mp, !turn, depth - 1, cur + 1, alpha, beta);
    let vv = child_value(bbs, last, castle, mp, turn, depth, m);
    lemma_ab_bounds(c, cl, castle, !mp, !turn, depth - 1, cur + 1, alpha, beta);
    lemma_minimax_in_range(c, cl, castle, !mp, !turn, depth - 1);
    assert(vv == minimax_value(c, cl, castle, !mp, !turn, depth - 1)) by {
        reveal(child_value);
    }
    assert(vv == child_value(bbs, last, castle, mp, turn, depth, ms[i]));
    assert(vv >= big);
    let b2 = if v < best {
        v
    } else {
        best
    };
    let be2 = if b2 < beta {
        b2
    } else {
        beta
    };
    assert(ab_loop(bbs, last, castle, mp, turn, depth, cur, sorted, j, best, alpha, beta) == if be2
        <= alpha {
        b2
    } else {
        ab_loop(bbs, last, castle, mp, turn, depth, cur, sorted, j + 1, b2, alpha, be2)
    });
    if be2 > alpha {
        if b2 != best {
            if v >= beta {
                assert(b2 >= beta0);
            } else {
                assert(b2 == child_value(bbs, last, castle, mp, turn, depth, ms[i]));
            }
        }
        lemma_ab_loop_bounds(
            bbs,
            last,
            castle,
            mp,
            turn,
            depth,
            cur,
            ms,
            sorted,
            j + 1,
            b2,
            alpha,
            be2,
            alpha0,
            beta0,
        );
    }
}

/// Fail-soft alpha-beta bounds: a result at or below `alpha` bounds the minimax value from
/// above, one at or above `beta` bounds it from below, and one strictly inside the window is
/// the minimax value.
#[verifier::rlimit(100)]
#[verifier::spinoff_prover]
proof fn lemma_ab_bounds(
    bbs: Seq<Bitboard>,
    last: Option<(usize, usize)>,
    castle: Seq<bool>,
    mp: bool,
    turn: bool,
    depth: int,
    cur: int,
    alpha: int,
    beta: int,
)
    requires
        isize::MIN <= alpha < beta <= isize::MAX,
        no_capture_within(bbs, last, castle, mp, turn, depth),
    ensures
        ({
            let r = ab_value(bbs, last, castle, mp, turn, depth, cur, alpha, beta);
            let v = minimax_value(bbs, last, castle, mp, turn, depth);
            &&& r <= alpha ==> v <= r
            &&& r >= beta ==> v >= r
            &&& alpha < r < beta ==> v == r
        }),
    decreases depth, 1int, 0int, 0int,
{
    if depth > 0 {
        let ms = all_moves(bbs, turn, last, castle[turn_index(turn)]);
        let sorted = sort_stable(scored_moves(bbs, last, castle, turn, ms), mp);
        lemma_sorted_same_moves(bbs, last, castle, turn, ms, mp);
        let init = if mp {
            isize::MIN as int
        } else {
            isize::MAX as int
        };
        lemma_ab_loop_bounds(
            bbs,
            last,
            castle,
            mp,
            turn,
            depth,
            cur,
            ms,
            sorted,
            0,
            init,
            alpha,
            beta,
            alpha,
            beta,
        );
    }
}

/// Alpha-beta search with the full window gives the minimax value at every depth,
/// provided no king is taken anywhere in the search tree.
pub proof fn lemma_alpha_beta_matches_minimax(
    bbs: Seq<Bitboard>,
    last: Option<(usize, usize)>,
    castle: Seq<bool>,
    mp: bool,
    turn: bool,
    depth: int,
    cur: int,
)
    requires
        no_capture_within(bbs, last, castle, mp, turn, depth),
    ensures
        ab_value(bbs, last, castle, mp, turn, depth, cur, isize::MIN as int, isize::MAX as int)
            == minimax_value(bbs, last, castle, mp, turn, depth),
{
    lemma_ab_bounds(bbs, last, castle, mp, turn, depth, cur, isize::MIN as int, isize::MAX as int);
    lemma_minimax_in_range(bbs, last, castle, mp, turn, depth);
}

} // verus!
