//! The closed enumeration of the twelve piece kinds (six per colour), used
//! both as a semantic tag and as an index into the per-piece bitboard array.

use vstd::prelude::*;

verus! {

#[derive(Copy, Clone, PartialEq, Eq, Structural, Debug)]
pub enum PieceType {
    WhiteKing,
    WhiteQueen,
    WhiteBishop,
    WhiteKnight,
    WhiteRook,
    WhitePawn,
    BlackKing,
    BlackQueen,
    BlackBishop,
    BlackKnight,
    BlackRook,
    BlackPawn,
}

/// The fixed position of each piece kind in the bitboard array.
pub open spec fn piece_index(p: PieceType) -> int {
    match p {
        PieceType::WhiteKing => 0,
        PieceType::WhiteQueen => 1,
        PieceType::WhiteBishop => 2,
        PieceType::WhiteKnight => 3,
        PieceType::WhiteRook => 4,
        PieceType::WhitePawn => 5,
        PieceType::BlackKing => 6,
        PieceType::BlackQueen => 7,
        PieceType::BlackBishop => 8,
        PieceType::BlackKnight => 9,
        PieceType::BlackRook => 10,
        PieceType::BlackPawn => 11,
    }
}

/// The piece kind stored at a given position of the bitboard array.
pub open spec fn piece_of_index(i: int) -> PieceType {
    if i == 0 {
        PieceType::WhiteKing
    } else if i == 1 {
        PieceType::WhiteQueen
    } else if i == 2 {
        PieceType::WhiteBishop
    } else if i == 3 {
        PieceType::WhiteKnight
    } else if i == 4 {
        PieceType::WhiteRook
    } else if i == 5 {
        PieceType::WhitePawn
    } else if i == 6 {
        PieceType::BlackKing
    } else if i == 7 {
        PieceType::BlackQueen
    } else if i == 8 {
        PieceType::BlackBishop
    } else if i == 9 {
        PieceType::BlackKnight
    } else if i == 10 {
        PieceType::BlackRook
    } else {
        PieceType::BlackPawn
    }
}

pub open spec fn is_white_piece(p: PieceType) -> bool {
    piece_index(p) < 6
}

pub open spec fn is_king(p: PieceType) -> bool {
    p == PieceType::WhiteKing || p == PieceType::BlackKing
}

pub open spec fn is_pawn(p: PieceType) -> bool {
    p == PieceType::WhitePawn || p == PieceType::BlackPawn
}

impl PieceType {
    /// The position of this piece kind in the bitboard array.
    pub fn index(self) -> (r: usize)
        ensures
            r == piece_index(self),
            r < 12,
    {
        match self {
            PieceType::WhiteKing => 0,
            PieceType::WhiteQueen => 1,
            PieceType::WhiteBishop => 2,
            PieceType::WhiteKnight => 3,
            PieceType::WhiteRook => 4,
            PieceType::WhitePawn => 5,
            PieceType::BlackKing => 6,
            PieceType::BlackQueen => 7,
            PieceType::BlackBishop => 8,
            PieceType::BlackKnight => 9,
            PieceType::BlackRook => 10,
            PieceType::BlackPawn => 11,
        }
    }

    /// Is this a piece of the white army?
    pub fn is_white(self) -> (r: bool)
        ensures
            r == is_white_piece(self),
    {
        match self {
            PieceType::WhiteKing => true,
            PieceType::WhiteQueen => true,
            PieceType::WhiteBishop => true,
            PieceType::WhiteKnight => true,
            PieceType::WhiteRook => true,
            PieceType::WhitePawn => true,
            _ => false,
        }
    }

    /// All twelve piece kinds, in bitboard-array order.
    pub fn iter() -> (r: Vec<PieceType>)
        ensures
            r@.len() == 12,
            forall|k: int| 0 <= k < 12 ==> #[trigger] r@[k] == piece_of_index(k),
    {
        let mut r: Vec<PieceType> = Vec::new();
        r.push(PieceType::WhiteKing);
        r.push(PieceType::WhiteQueen);
        r.push(PieceType::WhiteBishop);
        r.push(PieceType::WhiteKnight);
        r.push(PieceType::WhiteRook);
        r.push(PieceType::WhitePawn);
        r.push(PieceType::BlackKing);
        r.push(PieceType::BlackQueen);
        r.push(PieceType::BlackBishop);
        r.push(PieceType::BlackKnight);
        r.push(PieceType::BlackRook);
        r.push(PieceType::BlackPawn);
        r
    }

    /// The six piece kinds of one army, in bitboard-array order.
    pub fn get_colour_types(is_white: bool) -> (r: Vec<PieceType>)
        ensures
            r@.len() == 6,
            forall|k: int|
                0 <= k < 6 ==> #[trigger] r@[k] == piece_of_index(
                    if is_white {
                        k
                    } else {
                        k + 6
                    },
                ),
    {
        let mut r: Vec<PieceType> = Vec::new();
        if is_white {
            r.push(PieceType::WhiteKing);
            r.push(PieceType::WhiteQueen);
            r.push(PieceType::WhiteBishop);
            r.push(PieceType::WhiteKnight);
            r.push(PieceType::WhiteRook);
            r.push(PieceType::WhitePawn);
        } else {
            r.push(PieceType::BlackKing);
            r.push(PieceType::BlackQueen);
            r.push(PieceType::BlackBishop);
            r.push(PieceType::BlackKnight);
            r.push(PieceType::BlackRook);
            r.push(PieceType::BlackPawn);
        }
        r
    }
}

pub proof fn lemma_piece_index_inverse()
    ensures
        forall|p: PieceType| piece_of_index(#[trigger] piece_index(p)) == p,
        forall|i: int| 0 <= i < 12 ==> piece_index(#[trigger] piece_of_index(i)) == i,
{
}

} // verus!
