use vstd::prelude::*;

verus! {

/// Number of piece kinds; each side stores one bitboard per kind.
pub const PIECE_COUNT: usize = 6;

/// Display letters of the piece kinds, by index.
pub const MAP: [char; 6] = ['P', 'H', 'B', 'R', 'Q', 'K'];

#[derive(Debug, PartialEq, Eq, Structural, Copy, Clone)]
pub enum Piece {
    Pawn,
    Knight,
    Bishop,
    Rook,
    Queen,
    King,
}

/// The stable integer index of a piece kind.
pub open spec fn piece_index(p: Piece) -> nat {
    match p {
        Piece::Pawn => 0,
        Piece::Knight => 1,
        Piece::Bishop => 2,
        Piece::Rook => 3,
        Piece::Queen => 4,
        Piece::King => 5,
    }
}

/// The piece kind of an index; indices past the last kind read as the king.
pub open spec fn piece_of(us: int) -> Piece {
    if us == 0 {
        Piece::Pawn
    } else if us == 1 {
        Piece::Knight
    } else if us == 2 {
        Piece::Bishop
    } else if us == 3 {
        Piece::Rook
    } else if us == 4 {
        Piece::Queen
    } else {
        Piece::King
    }
}

/// Material value of a piece kind.
pub open spec fn piece_value(p: Piece) -> int {
    match p {
        Piece::Pawn => 100,
        Piece::Knight => 320,
        Piece::Bishop => 330,
        Piece::Rook => 500,
        Piece::Queen => 900,
        Piece::King => 100,
    }
}

impl Piece {
    pub fn usize_to_piece(us: usize) -> (r: Piece)
        ensures
            r == piece_of(us as int),
    {
        match us {
            0 => Piece::Pawn,
            1 => Piece::Knight,
            2 => Piece::Bishop,
            3 => Piece::Rook,
            4 => Piece::Queen,
            _ => Piece::King,
        }
    }

    pub fn index(&self) -> (r: usize)
        ensures
            r as nat == piece_index(*self),
            r < PIECE_COUNT,
    {
        match self {
            Piece::Pawn => 0,
            Piece::Knight => 1,
            Piece::Bishop => 2,
            Piece::Rook => 3,
            Piece::Queen => 4,
            Piece::King => 5,
        }
    }

    pub fn value(&self) -> (r: isize)
        ensures
            r as int == piece_value(*self),
    {
        match self {
            Piece::Pawn => 100,
            Piece::Knight => 320,
            Piece::Bishop => 330,
            Piece::Rook => 500,
            Piece::Queen => 900,
            Piece::King => 100,
        }
    }
}

} // verus!
