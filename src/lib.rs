//! A two-player chess engine on bitboards: move generation per piece (castling, en passant
//! and promotion included), the state transition that plays a move, a material and
//! mobility evaluation, and minimax and alpha-beta search, each stated by a specification
//! over plain values and proved against it.
//!
//! Each side keeps its six boards in its own frame: square `rank * 8 + file`, its first rank
//! being rank 0. The other side's occupancy is mirrored (ranks reversed) before it is used.
use vstd::prelude::*;

pub mod pieces;
pub mod bitboard;
pub mod movegen;
pub mod game;
pub mod search;
pub mod pawns;

verus! {

} // verus!
