use vstd::prelude::*;
use crate::bitboard::{Bitboard, is_set, lemma_or_and};
use crate::pieces::Piece;

verus! {

/// The square a pawn on `index` may take en passant, given the opponent's last move
/// (mirrored into the mover's frame): after a two-square advance that lands beside the pawn
/// on its rank, the square behind the landing square, when that square is empty.
pub open spec fn en_passant_targets(p: u64, o: u64, index: int, last: Option<(usize, usize)>) -> Seq<
    usize,
> {
    match last {
        Some((from, to)) => {
            if (to - from == 16 || from - to == 16) && to / 8 == index / 8 && (index - to == 1
                || to - index == 1) && to + 8 < 64 && !is_set(p | o, to + 8) {
                seq![(to + 8) as usize]
            } else {
                Seq::empty()
            }
        },
        None => Seq::empty(),
    }
}

/// Pawn destinations: en passant, one step, two steps from the second rank, then the
/// captures to the left and to the right; never a square off the board.
pub open spec fn pawn_targets(p: u64, index: int, o: u64, last: Option<(usize, usize)>) -> Seq<
    usize,
> {
    let one = index + 8;
    let two = index + 16;
    let forward = if one < 64 && !is_set(p, one) && !is_set(o, one) {
        if index < 16 && !is_set(p, two) && !is_set(o, two) {
            seq![one as usize, two as usize]
        } else {
            seq![one as usize]
        }
    } else {
        Seq::empty()
    };
    let left = if index % 8 != 0 && index + 7 < 64 && is_set(o, index + 7) {
        seq![(index + 7) as usize]
    } else {
        Seq::empty()
    };
    let right = if index % 8 != 7 && index + 9 < 64 && is_set(o, index + 9) {
        seq![(index + 9) as usize]
    } else {
        Seq::empty()
    };
    en_passant_targets(p, o, index, last) + forward + left + right
}

pub open spec fn knight_offsets() -> Seq<isize> {
    seq![-17isize, -15isize, -10isize, -6isize, 6isize, 10isize, 15isize, 17isize]
}

pub open spec fn king_offsets() -> Seq<isize> {
    seq![-9isize, -8isize, -7isize, -1isize, 1isize, 7isize, 8isize, 9isize]
}

/// A jump from `index` to `dest` stays on the board, moves at most `reach` files and does
/// not land on an own piece.
pub open spec fn jump_ok(p: u64, index: int, dest: int, reach: int) -> bool {
    &&& 0 <= dest < 64
    &&& -reach <= index % 8 - dest % 8 <= reach
    &&& !is_set(p, dest)
}

/// The valid jumps from `index` by the first `k` offsets, in offset order.
pub open spec fn jump_targets(p: u64, index: int, offsets: Seq<isize>, reach: int, k: int) -> Seq<
    usize,
>
    decreases k,
{
    if k <= 0 {
        Seq::empty()
    } else {
        let prev = jump_targets(p, index, offsets, reach, k - 1);
        let dest = index + offsets[k - 1];
        if jump_ok(p, index, dest, reach) {
            prev.push(dest as usize)
        } else {
            prev
        }
    }
}

/// A ray step in direction `dir` that reaches `dest` has not wrapped around an edge of the
/// board: a diagonal step moves to a neighbouring file, a sideways step stays on its rank.
pub open spec fn ray_ok(dir: int, dest: int, diagonal: bool) -> bool {
    let prev = dest - dir;
    if diagonal {
        dest % 8 - prev % 8 == 1 || prev % 8 - dest % 8 == 1
    } else if dir == 1 || dir == -1 {
        dest / 8 == prev / 8
    } else {
        true
    }
}

pub open spec fn ray_measure(dir: int, dest: int) -> int {
    if dest < 0 || dest >= 64 {
        0
    } else if dir > 0 {
        64 - dest
    } else {
        dest + 1
    }
}

/// The squares of the ray from `index` in direction `dir`, from `dest` on: it stops before
/// an own piece and after an opponent piece.
pub open spec fn ray(p: u64, o: u64, index: int, dir: int, dest: int, diagonal: bool) -> Seq<
    usize,
>
    decreases ray_measure(dir, dest),
{
    if dir == 0 || dest < 0 || dest >= 64 || !ray_ok(dir, dest, diagonal) || is_set(p, dest) {
        Seq::empty()
    } else if is_set(o, dest) {
        seq![dest as usize]
    } else {
        seq![dest as usize] + ray(p, o, index, dir, dest + dir, diagonal)
    }
}

pub open spec fn bishop_targets(p: u64, index: int, o: u64) -> Seq<usize> {
    ray(p, o, index, -9, index - 9, true) + ray(p, o, index, -7, index - 7, true) + ray(
        p,
        o,
        index,
        7,
        index + 7,
        true,
    ) + ray(p, o, index, 9, index + 9, true)
}

pub open spec fn rook_targets(p: u64, index: int, o: u64) -> Seq<usize> {
    ray(p, o, index, -8, index - 8, false) + ray(p, o, index, -1, index - 1, false) + ray(
        p,
        o,
        index,
        1,
        index + 1,
        false,
    ) + ray(p, o, index, 8, index + 8, false)
}

pub open spec fn queen_targets(p: u64, index: int, o: u64) -> Seq<usize> {
    bishop_targets(p, index, o) + rook_targets(p, index, o)
}

/// Squares that must be empty to castle on the king's side.
pub const CASTLE_RIGHT: u64 = 0x60;

/// Squares that must be empty to castle on the queen's side.
pub const CASTLE_LEFT: u64 = 0x0e;

/// Castling squares: offered only to a king on its home square, with the right intact and
/// the squares between king and rook empty.
pub open spec fn castle_targets(p: u64, o: u64, index: int, castle: bool) -> Seq<usize> {
    (if castle && index == 4 && (p | o) & CASTLE_RIGHT == 0 {
        seq![6usize]
    } else {
        Seq::empty()
    }) + (if castle && index == 4 && (p | o) & CASTLE_LEFT == 0 {
        seq![2usize]
    } else {
        Seq::empty()
    })
}

pub open spec fn king_targets(p: u64, index: int, o: u64, castle: bool) -> Seq<usize> {
    castle_targets(p, o, index, castle) + jump_targets(p, index, king_offsets(), 1, 8)
}

/// Pseudo-legal destinations of `piece` on `index`, in generation order.
pub open spec fn piece_targets(
    p: u64,
    index: int,
    o: u64,
    piece: Piece,
    last: Option<(usize, usize)>,
    castle: bool,
) -> Seq<usize> {
    match piece {
        Piece::Pawn => pawn_targets(p, index, o, last),
        Piece::Knight => jump_targets(p, index, knight_offsets(), 2, 8),
        Piece::Bishop => bishop_targets(p, index, o),
        Piece::Rook => rook_targets(p, index, o),
        Piece::Queen => queen_targets(p, index, o),
        Piece::King => king_targets(p, index, o, castle),
    }
}

/// Well-formed opponent memory: both squares on the board.
pub open spec fn last_ok(last: Option<(usize, usize)>) -> bool {
    match last {
        Some((from, to)) => from < 64 && to < 64,
        None => true,
    }
}

/// Every square of `s` lies on the board.
pub open spec fn on_board(s: Seq<usize>) -> bool {
    forall|k: int| 0 <= k < s.len() ==> #[trigger] s[k] < 64
}

proof fn lemma_ray_bounded(p: u64, o: u64, index: int, dir: int, dest: int, diagonal: bool)
    ensures
        on_board(ray(p, o, index, dir, dest, diagonal)),
        ray(p, o, index, dir, dest, diagonal).len() <= ray_measure(dir, dest),
        ray_measure(dir, dest) <= 64,
    decreases ray_measure(dir, dest),
{
    let r = ray(p, o, index, dir, dest, diagonal);
    if dir == 0 || dest < 0 || dest >= 64 || !ray_ok(dir, dest, diagonal) || is_set(
        p,
        dest,
    ) || is_set(o, dest) {
    } else {
        lemma_ray_bounded(p, o, index, dir, dest + dir, diagonal);
        let rest = ray(p, o, index, dir, dest + dir, diagonal);
        assert(r == seq![dest as usize] + rest);
        assert forall|k: int| 0 <= k < r.len() implies #[trigger] r[k] < 64 by {
            if k > 0 {
                assert(r[k] == rest[k - 1]);
            }
        }
    }
}

proof fn lemma_jump_bounded(p: u64, index: int, offsets: Seq<isize>, reach: int, k: int)
    ensures
        on_board(jump_targets(p, index, offsets, reach, k)),
        jump_targets(p, index, offsets, reach, k).len() <= if k < 0 {
            0
        } else {
            k
        },
    decreases k,
{
    if k > 0 {
        lemma_jump_bounded(p, index, offsets, reach, k - 1);
    }
}

proof fn lemma_concat_on_board(a: Seq<usize>, b: Seq<usize>)
    requires
        on_board(a),
        on_board(b),
    ensures
        on_board(a + b),
{
    assert forall|k: int| 0 <= k < (a + b).len() implies #[trigger] (a + b)[k] < 64 by {
        if k >= a.len() {
            assert((a + b)[k] == b[k - a.len()]);
        }
    }
}

proof fn lemma_rays_bounded(p: u64, index: int, o: u64, dirs: Seq<int>, diagonal: bool)
    requires
        dirs.len() == 4,
    ensures
        on_board(
            ray(p, o, index, dirs[0], index + dirs[0], diagonal) + ray(
                p,
                o,
                index,
                dirs[1],
                index + dirs[1],
                diagonal,
            ) + ray(p, o, index, dirs[2], index + dirs[2], diagonal) + ray(
                p,
                o,
                index,
                dirs[3],
                index + dirs[3],
                diagonal,
            ),
        ),
        (ray(p, o, index, dirs[0], index + dirs[0], diagonal) + ray(
            p,
            o,
            index,
            dirs[1],
            index + dirs[1],
            diagonal,
        ) + ray(p, o, index, dirs[2], index + dirs[2], diagonal) + ray(
            p,
            o,
            index,
            dirs[3],
            index + dirs[3],
            diagonal,
        )).len() <= 256,
{
    let r0 = ray(p, o, index, dirs[0], index + dirs[0], diagonal);
    let r1 = ray(p, o, index, dirs[1], index + dirs[1], diagonal);
    let r2 = ray(p, o, index, dirs[2], index + dirs[2], diagonal);
    let r3 = ray(p, o, index, dirs[3], index + dirs[3], diagonal);
    lemma_ray_bounded(p, o, index, dirs[0], index + dirs[0], diagonal);
    lemma_ray_bounded(p, o, index, dirs[1], index + dirs[1], diagonal);
    lemma_ray_bounded(p, o, index, dirs[2], index + dirs[2], diagonal);
    lemma_ray_bounded(p, o, index, dirs[3], index + dirs[3], diagonal);
    lemma_concat_on_board(r0, r1);
    lemma_concat_on_board(r0 + r1, r2);
    lemma_concat_on_board(r0 + r1 + r2, r3);
}

proof fn lemma_pawn_bounded(p: u64, index: int, o: u64, last: Option<(usize, usize)>)
    requires
        0 <= index < 64,
    ensures
        on_board(pawn_targets(p, index, o, last)),
        pawn_targets(p, index, o, last).len() <= 5,
{
    let e = en_passant_targets(p, o, index, last);
    let one = index + 8;
    let two = index + 16;
    let forward = if one < 64 && !is_set(p, one) && !is_set(o, one) {
        if index < 16 && !is_set(p, two) && !is_set(o, two) {
            seq![one as usize, two as usize]
        } else {
            seq![one as usize]
        }
    } else {
        Seq::empty()
    };
    let left = if index % 8 != 0 && index + 7 < 64 && is_set(o, index + 7) {
        seq![(index + 7) as usize]
    } else {
        Seq::empty()
    };
    let right = if index % 8 != 7 && index + 9 < 64 && is_set(o, index + 9) {
        seq![(index + 9) as usize]
    } else {
        Seq::empty()
    };
    assert(on_board(e));
    assert(on_board(forward));
    assert(on_board(left));
    assert(on_board(right));
    lemma_concat_on_board(e, forward);
    lemma_concat_on_board(e + forward, left);
    lemma_concat_on_board(e + forward + left, right);
    assert(pawn_targets(p, index, o, last) == e + forward + left + right);
}

/// Move generation yields squares on the board only, and at most 512 of them.
pub proof fn lemma_targets_bounded(
    p: u64,
    index: int,
    o: u64,
    piece: Piece,
    last: Option<(usize, usize)>,
    castle: bool,
)
    requires
        0 <= index < 64,
    ensures
        on_board(piece_targets(p, index, o, piece, last, castle)),
        piece_targets(p, index, o, piece, last, castle).len() <= 512,
{
    match piece {
        Piece::Pawn => {
            lemma_pawn_bounded(p, index, o, last);
        },
        Piece::Knight => {
            lemma_jump_bounded(p, index, knight_offsets(), 2, 8);
        },
        Piece::Bishop => {
            lemma_rays_bounded(p, index, o, seq![-9int, -7int, 7int, 9int], true);
        },
        Piece::Rook => {
            lemma_rays_bounded(p, index, o, seq![-8int, -1int, 1int, 8int], false);
        },
        Piece::Queen => {
            lemma_rays_bounded(p, index, o, seq![-9int, -7int, 7int, 9int], true);
            lemma_rays_bounded(p, index, o, seq![-8int, -1int, 1int, 8int], false);
            lemma_concat_on_board(bishop_targets(p, index, o), rook_targets(p, index, o));
        },
        Piece::King => {
            lemma_jump_bounded(p, index, king_offsets(), 1, 8);
            let c = castle_targets(p, o, index, castle);
            assert(on_board(c));
            lemma_concat_on_board(c, jump_targets(p, index, king_offsets(), 1, 8));
        },
    }
}

/// No square of `s` holds a piece of the mask `p`.
pub open spec fn avoids(p: u64, s: Seq<usize>) -> bool {
    forall|k: int| 0 <= k < s.len() ==> !is_set(p, #[trigger] s[k] as int)
}

proof fn lemma_concat_avoids(p: u64, a: Seq<usize>, b: Seq<usize>)
    requires
        avoids(p, a),
        avoids(p, b),
    ensures
        avoids(p, a + b),
{
    assert forall|k: int| 0 <= k < (a + b).len() implies !is_set(p, #[trigger] (a + b)[k] as int) by {
        if k >= a.len() {
            assert((a + b)[k] == b[k - a.len()]);
        } else {
            assert((a + b)[k] == a[k]);
        }
    }
}

proof fn lemma_ray_avoids(p: u64, o: u64, index: int, dir: int, dest: int, diagonal: bool)
    ensures
        avoids(p, ray(p, o, index, dir, dest, diagonal)),
    decreases ray_measure(dir, dest),
{
    if dir == 0 || dest < 0 || dest >= 64 || !ray_ok(dir, dest, diagonal) || is_set(
        p,
        dest,
    ) || is_set(o, dest) {
    } else {
        lemma_ray_avoids(p, o, index, dir, dest + dir, diagonal);
        lemma_concat_avoids(p, seq![dest as usize], ray(p, o, index, dir, dest + dir, diagonal));
    }
}

proof fn lemma_jump_avoids(p: u64, index: int, offsets: Seq<isize>, reach: int, k: int)
    ensures
        avoids(p, jump_targets(p, index, offsets, reach, k)),
    decreases k,
{
    if k > 0 {
        lemma_jump_avoids(p, index, offsets, reach, k - 1);
        let prev = jump_targets(p, index, offsets, reach, k - 1);
        let dest = index + offsets[k - 1];
        if jump_ok(p, index, dest, reach) {
            lemma_concat_avoids(p, prev, seq![dest as usize]);
            assert(prev.push(dest as usize) == prev + seq![dest as usize]);
        }
    }
}

proof fn lemma_rays_avoid(p: u64, index: int, o: u64, dirs: Seq<int>, diagonal: bool)
    requires
        dirs.len() == 4,
    ensures
        avoids(
            p,
            ray(p, o, index, dirs[0], index + dirs[0], diagonal) + ray(
                p,
                o,
                index,
                dirs[1],
                index + dirs[1],
                diagonal,
            ) + ray(p, o, index, dirs[2], index + dirs[2], diagonal) + ray(
                p,
                o,
                index,
                dirs[3],
                index + dirs[3],
                diagonal,
            ),
        ),
{
    let r0 = ray(p, o, index, dirs[0], index + dirs[0], diagonal);
    let r1 = ray(p, o, index, dirs[1], index + dirs[1], diagonal);
    let r2 = ray(p, o, index, dirs[2], index + dirs[2], diagonal);
    let r3 = ray(p, o, index, dirs[3], index + dirs[3], diagonal);
    lemma_ray_avoids(p, o, index, dirs[0], index + dirs[0], diagonal);
    lemma_ray_avoids(p, o, index, dirs[1], index + dirs[1], diagonal);
    lemma_ray_avoids(p, o, index, dirs[2], index + dirs[2], diagonal);
    lemma_ray_avoids(p, o, index, dirs[3], index + dirs[3], diagonal);
    lemma_concat_avoids(p, r0, r1);
    lemma_concat_avoids(p, r0 + r1, r2);
    lemma_concat_avoids(p, r0 + r1 + r2, r3);
}

/// Move generation never offers a square that already holds one of the mover's own pieces,
/// provided the two sides share no square.
pub proof fn lemma_no_self_capture(
    p: u64,
    index: int,
    o: u64,
    piece: Piece,
    last: Option<(usize, usize)>,
    castle: bool,
)
    requires
        0 <= index < 64,
        p & o == 0,
    ensures
        avoids(p, piece_targets(p, index, o, piece, last, castle)),
{
    match piece {
        Piece::Pawn => {
            let e = en_passant_targets(p, o, index, last);
            let one = index + 8;
            let two = index + 16;
            let forward = if one < 64 && !is_set(p, one) && !is_set(o, one) {
                if index < 16 && !is_set(p, two) && !is_set(o, two) {
                    seq![one as usize, two as usize]
                } else {
                    seq![one as usize]
                }
            } else {
                Seq::empty()
            };
            let left = if index % 8 != 0 && index + 7 < 64 && is_set(o, index + 7) {
                seq![(index + 7) as usize]
            } else {
                Seq::empty()
            };
            let right = if index % 8 != 7 && index + 9 < 64 && is_set(o, index + 9) {
                seq![(index + 9) as usize]
            } else {
                Seq::empty()
            };
            if index + 7 < 64 {
                lemma_or_and(p, o, 0, index + 7);
            }
            if let Some((_, t)) = last {
                if t + 8 < 64 {
                    lemma_or_and(p, o, 0, t + 8);
                }
            }
            if index + 9 < 64 {
                lemma_or_and(p, o, 0, index + 9);
            }
            assert(avoids(p, e));
            assert(avoids(p, forward));
            assert(avoids(p, left));
            assert(avoids(p, right));
            lemma_concat_avoids(p, e, forward);
            lemma_concat_avoids(p, e + forward, left);
            lemma_concat_avoids(p, e + forward + left, right);
            assert(pawn_targets(p, index, o, last) == e + forward + left + right);
        },
        Piece::Knight => {
            lemma_jump_avoids(p, index, knight_offsets(), 2, 8);
        },
        Piece::Bishop => {
            lemma_rays_avoid(p, index, o, seq![-9int, -7int, 7int, 9int], true);
        },
        Piece::Rook => {
            lemma_rays_avoid(p, index, o, seq![-8int, -1int, 1int, 8int], false);
        },
        Piece::Queen => {
            lemma_rays_avoid(p, index, o, seq![-9int, -7int, 7int, 9int], true);
            lemma_rays_avoid(p, index, o, seq![-8int, -1int, 1int, 8int], false);
            lemma_concat_avoids(p, bishop_targets(p, index, o), rook_targets(p, index, o));
        },
        Piece::King => {
            lemma_jump_avoids(p, index, king_offsets(), 1, 8);
            assert(is_set(CASTLE_RIGHT, 6) && is_set(CASTLE_LEFT, 2)) by {
                assert((0x60u64 >> 6u64) & 1u64 == 1u64) by (bit_vector);
                assert((0x0eu64 >> 2u64) & 1u64 == 1u64) by (bit_vector);
            }
            lemma_or_and(p, o, CASTLE_RIGHT, 6);
            lemma_or_and(p, o, CASTLE_LEFT, 2);
            let c = castle_targets(p, o, index, castle);
            assert(avoids(p, c));
            lemma_concat_avoids(p, c, jump_targets(p, index, king_offsets(), 1, 8));
        },
    }
}

impl Bitboard {
    pub fn moves(
        &self,
        index: usize,
        opponent: Bitboard,
        piece: Piece,
        last_opponent_move: &Option<(usize, usize)>,
        castle: bool,
    ) -> (r: Vec<usize>)
        requires
            index < 64,
            last_ok(*last_opponent_move),
        ensures
            r@ == piece_targets(
                self.bits,
                index as int,
                opponent.bits,
                piece,
                *last_opponent_move,
                castle,
            ),
    {
        match piece {
            Piece::Pawn => self.pawn_moves(index, opponent, last_opponent_move),
            Piece::Knight => self.knight_moves(index),
            Piece::Bishop => self.bishop_moves(index, opponent),
            Piece::Rook => self.rook_moves(index, opponent),
            Piece::Queen => self.queen_moves(index, opponent),
            Piece::King => self.king_moves(index, opponent, castle),
        }
    }

    pub fn pawn_moves(
        &self,
        index: usize,
        opponent: Bitboard,
        last_opponent_move: &Option<(usize, usize)>,
    ) -> (r: Vec<usize>)
        requires
            index < 64,
            last_ok(*last_opponent_move),
        ensures
            r@ == pawn_targets(self.bits, index as int, opponent.bits, *last_opponent_move),
    {
        let mut moves: Vec<usize> = Vec::new();
        let forward_one = index + 8;
        let forward_two = index + 16;
        let capture_left = index + 7;
        let capture_right = index + 9;

        if let Some((from, to)) = *last_opponent_move {
            if (to >= from && to - from == 16) || (to < from && from - to == 16) {
                if to / 8 == index / 8 && (index == to + 1 || to == index + 1) && to + 8 < 64 {
                    let occupied = Bitboard { bits: self.bits | opponent.bits };
                    if occupied.get_bit(to + 8) == 0 {
                        moves.push(to + 8);
                    }
                }
            }
        }
        assert(moves@ == en_passant_targets(
            self.bits,
            opponent.bits,
            index as int,
            *last_opponent_move,
        ));
        let ghost ep = moves@;

        if forward_one < 64 && self.get_bit(forward_one) == 0 && opponent.get_bit(forward_one)
            == 0 {
            moves.push(forward_one);
            if index < 16 && self.get_bit(forward_two) == 0 && opponent.get_bit(forward_two)
                == 0 {
                moves.push(forward_two);
            }
        }
        let ghost fw = moves@;

        if index % 8 != 0 && capture_left < 64 && opponent.get_bit(capture_left) == 1 {
            moves.push(capture_left);
        }
        let ghost lf = moves@;

        if index % 8 != 7 && capture_right < 64 && opponent.get_bit(capture_right) == 1 {
            moves.push(capture_right);
        }
        assert(moves@ =~= pawn_targets(
            self.bits,
            index as int,
            opponent.bits,
            *last_opponent_move,
        ));
        moves
    }

    fn jump_moves(&self, index: usize, offsets: &[isize; 8], reach: isize) -> (r: Vec<usize>)
        requires
            index < 64,
            0 <= reach <= 2,
            forall|k: int| 0 <= k < 8 ==> -17 <= #[trigger] offsets@[k] <= 17,
        ensures
            r@ == jump_targets(self.bits, index as int, offsets@, reach as int, 8),
    {
        let mut moves: Vec<usize> = Vec::new();
        let mut k: usize = 0;
        while k < 8
            invariant
                k <= 8,
                index < 64,
                0 <= reach <= 2,
                forall|j: int| 0 <= j < 8 ==> -17 <= #[trigger] offsets@[j] <= 17,
                moves@ == jump_targets(self.bits, index as int, offsets@, reach as int, k as int),
            decreases 8 - k,
        {
            let offset = offsets[k];
            let dest = index as isize + offset;
            if dest >= 0 && dest < 64 {
                let dx = (index % 8) as isize - (dest as usize % 8) as isize;
                if -reach <= dx && dx <= reach && self.get_bit(dest as usize) == 0 {
                    moves.push(dest as usize);
                }
            }
            k += 1;
        }
        moves
    }

    pub fn knight_moves(&self, index: usize) -> (r: Vec<usize>)
        requires
            index < 64,
        ensures
            r@ == jump_targets(self.bits, index as int, knight_offsets(), 2, 8),
    {
        let offsets: [isize; 8] = [-17, -15, -10, -6, 6, 10, 15, 17];
        assert(offsets@ =~= knight_offsets());
        self.jump_moves(index, &offsets, 2)
    }

    /// Appends the ray from `index` in direction `dir` to `moves`.
    fn ray_moves(
        &self,
        index: usize,
        opponent: Bitboard,
        dir: isize,
        diagonal: bool,
        moves: &mut Vec<usize>,
    )
        requires
            index < 64,
            -9 <= dir <= 9,
            dir != 0,
        ensures
            final(moves)@ == old(moves)@ + ray(
                self.bits,
                opponent.bits,
                index as int,
                dir as int,
                index + dir,
                diagonal,
            ),
    {
        let ghost start = old(moves)@;
        let ghost p = self.bits;
        let ghost o = opponent.bits;
        let mut dest: isize = index as isize + dir;
        while dest >= 0 && dest < 64
            invariant_except_break
                -9 <= dir <= 9,
                dir != 0,
                index < 64,
                -9 <= dest <= 72,
                0 <= dest - dir < 64,
                p == self.bits,
                o == opponent.bits,
                start + ray(p, o, index as int, dir as int, index + dir, diagonal) == moves@
                    + ray(p, o, index as int, dir as int, dest as int, diagonal),
            ensures
                start + ray(p, o, index as int, dir as int, index + dir, diagonal) == moves@,
            decreases ray_measure(dir as int, dest as int),
        {
            let prev = (dest - dir) as usize;
            let dest_u = dest as usize;
            let ok = if diagonal {
                dest_u % 8 == prev % 8 + 1 || prev % 8 == dest_u % 8 + 1
            } else if dir == 1 || dir == -1 {
                dest_u / 8 == prev / 8
            } else {
                true
            };
            assert(ok == ray_ok(dir as int, dest as int, diagonal));
            if !ok {
                assert(ray(p, o, index as int, dir as int, dest as int, diagonal) == Seq::<
                    usize,
                >::empty());
                assert(moves@ + Seq::<usize>::empty() =~= moves@);
                break;
            }
            if self.get_bit(dest as usize) == 1 {
                assert(ray(p, o, index as int, dir as int, dest as int, diagonal) == Seq::<
                    usize,
                >::empty());
                assert(moves@ + Seq::<usize>::empty() =~= moves@);
                break;
            }
            let ghost before = moves@;
            moves.push(dest as usize);
            if opponent.get_bit(dest as usize) == 1 {
                assert(ray(p, o, index as int, dir as int, dest as int, diagonal) == seq![
                    dest as usize,
                ]);
                assert(before + seq![dest as usize] =~= moves@);
                break;
            }
            assert(seq![dest as usize] + ray(p, o, index as int, dir as int, dest + dir, diagonal)
                == ray(p, o, index as int, dir as int, dest as int, diagonal));
            assert(before + ray(p, o, index as int, dir as int, dest as int, diagonal) =~= moves@
                + ray(p, o, index as int, dir as int, dest + dir, diagonal));
            dest += dir;
        }
    }

    pub fn bishop_moves(&self, index: usize, opponent: Bitboard) -> (r: Vec<usize>)
        requires
            index < 64,
        ensures
            r@ == bishop_targets(self.bits, index as int, opponent.bits),
    {
        let mut moves: Vec<usize> = Vec::new();
        self.ray_moves(index, opponent, -9, true, &mut moves);
        self.ray_moves(index, opponent, -7, true, &mut moves);
        self.ray_moves(index, opponent, 7, true, &mut moves);
        self.ray_moves(index, opponent, 9, true, &mut moves);
        assert(moves@ =~= bishop_targets(self.bits, index as int, opponent.bits));
        moves
    }

    pub fn rook_moves(&self, index: usize, opponent: Bitboard) -> (r: Vec<usize>)
        requires
            index < 64,
        ensures
            r@ == rook_targets(self.bits, index as int, opponent.bits),
    {
        let mut moves: Vec<usize> = Vec::new();
        self.ray_moves(index, opponent, -8, false, &mut moves);
        self.ray_moves(index, opponent, -1, false, &mut moves);
        self.ray_moves(index, opponent, 1, false, &mut moves);
        self.ray_moves(index, opponent, 8, false, &mut moves);
        assert(moves@ =~= rook_targets(self.bits, index as int, opponent.bits));
        moves
    }

    pub fn queen_moves(&self, index: usize, opponent: Bitboard) -> (r: Vec<usize>)
        requires
            index < 64,
        ensures
            r@ == queen_targets(self.bits, index as int, opponent.bits),
    {
        let mut moves = self.bishop_moves(index, opponent);
        let rook = self.rook_moves(index, opponent);
        let mut i: usize = 0;
        let ghost b = moves@;
        while i < rook.len()
            invariant
                i <= rook@.len(),
                moves@ == b + rook@.subrange(0, i as int),
            decreases rook.len() - i,
        {
            moves.push(rook[i]);
            i += 1;
            assert(moves@ =~= b + rook@.subrange(0, i as int));
        }
        assert(rook@.subrange(0, i as int) =~= rook@);
        moves
    }

    pub fn king_moves(&self, index: usize, opponent: Bitboard, castle: bool) -> (r: Vec<usize>)
        requires
            index < 64,
        ensures
            r@ == king_targets(self.bits, index as int, opponent.bits, castle),
    {
        let mut moves: Vec<usize> = Vec::new();
        let occupied = self.bits | opponent.bits;
        if castle && index == 4 && occupied & CASTLE_RIGHT == 0 {
            moves.push(6);
        }
        if castle && index == 4 && occupied & CASTLE_LEFT == 0 {
            moves.push(2);
        }
        let offsets: [isize; 8] = [-9, -8, -7, -1, 1, 7, 8, 9];
        assert(offsets@ =~= king_offsets());
        let steps = self.jump_moves(index, &offsets, 1);
        let mut i: usize = 0;
        let ghost b = moves@;
        assert(b =~= castle_targets(self.bits, opponent.bits, index as int, castle));
        while i < steps.len()
            invariant
                i <= steps@.len(),
                moves@ == b + steps@.subrange(0, i as int),
            decreases steps.len() - i,
        {
            moves.push(steps[i]);
            i += 1;
            assert(moves@ =~= b + steps@.subrange(0, i as int));
        }
        assert(steps@.subrange(0, i as int) =~= steps@);
        moves
    }
}

} // verus!
