//! The core position value: one bitboard per piece kind, side to move,
//! en-passant target and castling bookkeeping, together with the move value
//! type and the pure transition function that applies a move.

use vstd::prelude::*;
use crate::bits::bit64;
use crate::pieces::{piece_index, piece_of_index, is_white_piece, PieceType};

verus! {

/// Derived castling availability of both sides, recomputed whenever the
/// position changes.
#[derive(Copy, Clone, PartialEq, Eq, Structural, Debug)]
pub struct CastlingRights {
    pub white_kingside: bool,
    pub white_queenside: bool,
    pub black_kingside: bool,
    pub black_queenside: bool,
}

impl CastlingRights {
    /// Rights before any derivation has run.
    pub fn new() -> (r: CastlingRights)
        ensures
            r.white_kingside && r.white_queenside && r.black_kingside && r.black_queenside,
    {
        CastlingRights {
            white_kingside: true,
            white_queenside: true,
            black_kingside: true,
            black_queenside: true,
        }
    }
}

/// Permanent "has ever moved" bookkeeping for one side's king and rooks.
#[derive(Copy, Clone, PartialEq, Eq, Structural, Debug)]
pub struct CastlingFlags {
    pub king_moved: bool,
    pub rook_kingside_moved: bool,
    pub rook_queenside_moved: bool,
}

impl CastlingFlags {
    /// Flags for a side whose king and rooks have not moved.
    pub fn new() -> (r: CastlingFlags)
        ensures
            !r.king_moved && !r.rook_kingside_moved && !r.rook_queenside_moved,
    {
        CastlingFlags { king_moved: false, rook_kingside_moved: false, rook_queenside_moved: false }
    }
}

#[derive(Copy, Clone, PartialEq, Eq, Structural, Debug)]
pub enum CastleSide {
    Kingside,
    Queenside,
}

/// Per-move flags: whether this move captures en passant, the square that
/// becomes the opponent's en-passant target after a double push, and which
/// castle rook move accompanies a castling king move.
#[derive(Copy, Clone, PartialEq, Eq, Structural, Debug)]
pub struct MoveFlags {
    pub en_passent_capture: bool,
    pub double_push_target: Option<u8>,
    pub castle_rook_move: Option<CastleSide>,
}

impl MoveFlags {
    /// Flags of an ordinary move.
    pub fn new() -> (r: MoveFlags)
        ensures
            !r.en_passent_capture,
            r.double_push_target is None,
            r.castle_rook_move is None,
    {
        MoveFlags { en_passent_capture: false, double_push_target: None, castle_rook_move: None }
    }
}

/// A candidate move: origin, destination, the piece moved, the piece it
/// captures (the occupant of the destination square, if any), its flags and
/// an optional promotion piece.
#[derive(Copy, Clone, Debug)]
pub struct Move {
    pub start_square: i32,
    pub end_square: i32,
    pub moved_piece_type: PieceType,
    pub captured_piece_type: Option<PieceType>,
    pub flags: MoveFlags,
    pub promotion_piece: Option<PieceType>,
}

impl Move {
    /// A plain move of `piece` with no capture and no promotion.
    pub fn new(move_start_square: i32, move_end_square: i32, piece: PieceType, move_flags: MoveFlags) -> (r:
        Move)
        ensures
            r.start_square == move_start_square,
            r.end_square == move_end_square,
            r.moved_piece_type == piece,
            r.captured_piece_type is None,
            r.flags == move_flags,
            r.promotion_piece is None,
    {
        Move {
            start_square: move_start_square,
            end_square: move_end_square,
            moved_piece_type: piece,
            captured_piece_type: None,
            flags: move_flags,
            promotion_piece: None,
        }
    }
}

impl Move {
    /// The destination square.
    pub fn get_end_square(&self) -> (r: i32)
        ensures
            r == self.end_square,
    {
        self.end_square
    }
}

/// Two moves are the same iff origin, destination and promotion piece match.
impl PartialEq for Move {
    fn eq(&self, other: &Self) -> (r: bool) {
        self.start_square == other.start_square && self.end_square == other.end_square
            && self.promotion_piece == other.promotion_piece
    }
}

impl vstd::std_specs::cmp::PartialEqSpecImpl for Move {
    open spec fn obeys_eq_spec() -> bool {
        true
    }

    open spec fn eq_spec(&self, other: &Move) -> bool {
        self.start_square == other.start_square && self.end_square == other.end_square
            && self.promotion_piece == other.promotion_piece
    }
}

/// The position proper: the state a move acts on.  The twelve occupancy
/// bitboards are listed in the fixed bitboard-array order.
#[derive(Copy, Clone, PartialEq, Eq, Structural, Debug)]
pub struct Position {
    pub white_king: u64,
    pub white_queen: u64,
    pub white_bishop: u64,
    pub white_knight: u64,
    pub white_rook: u64,
    pub white_pawn: u64,
    pub black_king: u64,
    pub black_queen: u64,
    pub black_bishop: u64,
    pub black_knight: u64,
    pub black_rook: u64,
    pub black_pawn: u64,
    pub white_to_move: bool,
    /// Index of the square a pawn may capture onto en passant.
    pub en_passent_square: Option<u8>,
    pub white_castling_flags: CastlingFlags,
    pub black_castling_flags: CastlingFlags,
    pub halfmove_clock: u32,
    pub fullmove_num: u32,
}

/// The bitboard of the piece kind at position `i` of the bitboard array.
pub open spec fn bb_at(pos: Position, i: int) -> u64 {
    if i == 0 {
        pos.white_king
    } else if i == 1 {
        pos.white_queen
    } else if i == 2 {
        pos.white_bishop
    } else if i == 3 {
        pos.white_knight
    } else if i == 4 {
        pos.white_rook
    } else if i == 5 {
        pos.white_pawn
    } else if i == 6 {
        pos.black_king
    } else if i == 7 {
        pos.black_queen
    } else if i == 8 {
        pos.black_bishop
    } else if i == 9 {
        pos.black_knight
    } else if i == 10 {
        pos.black_rook
    } else {
        pos.black_pawn
    }
}

/// `pos` with bitboard `i` replaced by `v`.
pub open spec fn with_bb(pos: Position, i: int, v: u64) -> Position {
    if i == 0 {
        Position { white_king: v, ..pos }
    } else if i == 1 {
        Position { white_queen: v, ..pos }
    } else if i == 2 {
        Position { white_bishop: v, ..pos }
    } else if i == 3 {
        Position { white_knight: v, ..pos }
    } else if i == 4 {
        Position { white_rook: v, ..pos }
    } else if i == 5 {
        Position { white_pawn: v, ..pos }
    } else if i == 6 {
        Position { black_king: v, ..pos }
    } else if i == 7 {
        Position { black_queen: v, ..pos }
    } else if i == 8 {
        Position { black_bishop: v, ..pos }
    } else if i == 9 {
        Position { black_knight: v, ..pos }
    } else if i == 10 {
        Position { black_rook: v, ..pos }
    } else {
        Position { black_pawn: v, ..pos }
    }
}


/// Reading around a single-bitboard update.
pub proof fn lemma_with_bb(pos: Position, i: int, v: u64)
    requires
        0 <= i < 12,
    ensures
        forall|n: int| 0 <= n < 12 && n != i ==> bb_at(with_bb(pos, i, v), n) == bb_at(pos, n),
        bb_at(with_bb(pos, i, v), i) == v,
        with_bb(pos, i, v).white_to_move == pos.white_to_move,
        with_bb(pos, i, v).en_passent_square == pos.en_passent_square,
        with_bb(pos, i, v).white_castling_flags == pos.white_castling_flags,
        with_bb(pos, i, v).black_castling_flags == pos.black_castling_flags,
        with_bb(pos, i, v).halfmove_clock == pos.halfmove_clock,
        with_bb(pos, i, v).fullmove_num == pos.fullmove_num,
{
}

/// Union of the six white bitboards.
pub open spec fn occ_white(pos: Position) -> u64 {
    pos.white_king | pos.white_queen | pos.white_bishop | pos.white_knight | pos.white_rook
        | pos.white_pawn
}

/// Union of the six black bitboards.
pub open spec fn occ_black(pos: Position) -> u64 {
    pos.black_king | pos.black_queen | pos.black_bishop | pos.black_knight | pos.black_rook
        | pos.black_pawn
}

/// Union of all twelve bitboards.
pub open spec fn occ_all(pos: Position) -> u64 {
    occ_white(pos) | occ_black(pos)
}

/// The piece kind occupying square `sq`, scanning the bitboard array in
/// order (unique when the bitboards are disjoint).
pub open spec fn piece_at(pos: Position, sq: int) -> Option<PieceType>
    decreases 12int,
{
    piece_at_from(pos, sq, 0)
}

pub open spec fn piece_at_from(pos: Position, sq: int, i: int) -> Option<PieceType>
    decreases 12 - i,
{
    if i < 0 || i >= 12 {
        None
    } else if bit64(bb_at(pos, i), sq) {
        Some(piece_of_index(i))
    } else {
        piece_at_from(pos, sq, i + 1)
    }
}

/// No square is claimed by two different bitboards.
pub open spec fn disjoint_bitboards(pos: Position) -> bool {
    forall|i: int, j: int, t: int|
        0 <= i < j < 12 ==> !(#[trigger] bit64(bb_at(pos, i), t) && #[trigger] bit64(
            bb_at(pos, j),
            t,
        ))
}

/// The board with no pieces, white to move, counters at zero.
pub open spec fn empty_pos() -> Position {
    Position {
        white_king: 0,
        white_queen: 0,
        white_bishop: 0,
        white_knight: 0,
        white_rook: 0,
        white_pawn: 0,
        black_king: 0,
        black_queen: 0,
        black_bishop: 0,
        black_knight: 0,
        black_rook: 0,
        black_pawn: 0,
        white_to_move: true,
        en_passent_square: None,
        white_castling_flags: CastlingFlags {
            king_moved: false,
            rook_kingside_moved: false,
            rook_queenside_moved: false,
        },
        black_castling_flags: CastlingFlags {
            king_moved: false,
            rook_kingside_moved: false,
            rook_queenside_moved: false,
        },
        halfmove_clock: 0,
        fullmove_num: 0,
    }
}

impl Position {
    /// An empty board, white to move, nothing moved yet.
    pub fn empty() -> (r: Position)
        ensures
            r == empty_pos(),
    {
        Position {
            white_king: 0,
            white_queen: 0,
            white_bishop: 0,
            white_knight: 0,
            white_rook: 0,
            white_pawn: 0,
            black_king: 0,
            black_queen: 0,
            black_bishop: 0,
            black_knight: 0,
            black_rook: 0,
            black_pawn: 0,
            white_to_move: true,
            en_passent_square: None,
            white_castling_flags: CastlingFlags::new(),
            black_castling_flags: CastlingFlags::new(),
            halfmove_clock: 0,
            fullmove_num: 0,
        }
    }

    /// Reads bitboard `i` of the array.
    pub fn get_bb(&self, i: usize) -> (r: u64)
        requires
            i < 12,
        ensures
            r == bb_at(*self, i as int),
    {
        match i {
            0 => self.white_king,
            1 => self.white_queen,
            2 => self.white_bishop,
            3 => self.white_knight,
            4 => self.white_rook,
            5 => self.white_pawn,
            6 => self.black_king,
            7 => self.black_queen,
            8 => self.black_bishop,
            9 => self.black_knight,
            10 => self.black_rook,
            _ => self.black_pawn,
        }
    }

    /// Replaces bitboard `i` of the array.
    pub fn set_bb(&mut self, i: usize, v: u64)
        requires
            i < 12,
        ensures
            *final(self) == with_bb(*old(self), i as int, v),
    {
        match i {
            0 => self.white_king = v,
            1 => self.white_queen = v,
            2 => self.white_bishop = v,
            3 => self.white_knight = v,
            4 => self.white_rook = v,
            5 => self.white_pawn = v,
            6 => self.black_king = v,
            7 => self.black_queen = v,
            8 => self.black_bishop = v,
            9 => self.black_knight = v,
            10 => self.black_rook = v,
            _ => self.black_pawn = v,
        }
    }

    /// Union of one side's bitboards.
    pub fn all_pieces(&self, white: bool) -> (r: u64)
        ensures
            r == if white {
                occ_white(*self)
            } else {
                occ_black(*self)
            },
    {
        if white {
            self.white_king | self.white_queen | self.white_bishop | self.white_knight
                | self.white_rook | self.white_pawn
        } else {
            self.black_king | self.black_queen | self.black_bishop | self.black_knight
                | self.black_rook | self.black_pawn
        }
    }

    /// Union of all twelve bitboards.
    pub fn occupancy(&self) -> (r: u64)
        ensures
            r == occ_all(*self),
    {
        self.all_pieces(true) | self.all_pieces(false)
    }

    /// The piece kind occupying `sq`, if any.
    pub fn piece_on(&self, sq: usize) -> (r: Option<PieceType>)
        requires
            sq < 64,
        ensures
            r == piece_at(*self, sq as int),
    {
        let types = PieceType::iter();
        let mut i: usize = 0;
        while i < 12
            invariant
                i <= 12,
                sq < 64,
                types@.len() == 12,
                forall|k: int| 0 <= k < 12 ==> #[trigger] types@[k] == piece_of_index(k),
                piece_at(*self, sq as int) == piece_at_from(*self, sq as int, i as int),
            decreases 12 - i,
        {
            let bbv = self.get_bb(i);
            if crate::bits::bb_test(bbv, sq) {
                return Some(types[i]);
            }
            i += 1;
        }
        None
    }
}

/// The square of the captured pawn in an en-passant capture ending on `t`.
pub open spec fn ep_victim_sq(t: int, white_mover: bool) -> int {
    if white_mover {
        t - 8
    } else {
        t + 8
    }
}

/// The board index of the piece that arrives on the destination square
/// (the promotion piece when promoting, else the mover).
pub open spec fn arrival_index(m: Move) -> int {
    if m.promotion_piece is Some {
        piece_index(m.promotion_piece->0)
    } else {
        piece_index(m.moved_piece_type)
    }
}

/// The home and target squares of the rook accompanying a castling king.
pub open spec fn rook_from_sq(m: Move) -> int {
    if is_white_piece(m.moved_piece_type) {
        if m.flags.castle_rook_move->0 is Kingside {
            7int
        } else {
            0int
        }
    } else {
        if m.flags.castle_rook_move->0 is Kingside {
            63int
        } else {
            56int
        }
    }
}

pub open spec fn rook_to_sq(m: Move) -> int {
    if is_white_piece(m.moved_piece_type) {
        if m.flags.castle_rook_move->0 is Kingside {
            5int
        } else {
            3int
        }
    } else {
        if m.flags.castle_rook_move->0 is Kingside {
            61int
        } else {
            59int
        }
    }
}

/// The move's effect on bitboard `n`: clear the mover's origin bit, set the
/// arriving piece's destination bit, clear the captured piece's destination
/// bit, remove the en-passant victim, and relocate the rook on castling.
/// Every step touches a distinct bitboard except origin-clear and
/// destination-set of a non-promoting mover.
pub open spec fn apply_bb_one(pos: Position, m: Move, n: int) -> u64 {
    let s = m.start_square as int;
    let t = m.end_square as int;
    let white = is_white_piece(m.moved_piece_type);
    let b0 = bb_at(pos, n);
    let b1 = if n == piece_index(m.moved_piece_type) {
        b0 & !(1u64 << (s as u64))
    } else {
        b0
    };
    let b2 = if n == arrival_index(m) {
        b1 | (1u64 << (t as u64))
    } else {
        b1
    };
    let b3 = if m.captured_piece_type is Some && n == piece_index(m.captured_piece_type->0) {
        b2 & !(1u64 << (t as u64))
    } else {
        b2
    };
    let b4 = if m.flags.en_passent_capture && n == (if white {
        piece_index(PieceType::BlackPawn)
    } else {
        piece_index(PieceType::WhitePawn)
    }) {
        b3 & !(1u64 << (ep_victim_sq(t, white) as u64))
    } else {
        b3
    };
    if m.flags.castle_rook_move is Some && n == (if white {
        piece_index(PieceType::WhiteRook)
    } else {
        piece_index(PieceType::BlackRook)
    }) {
        (b4 & !(1u64 << (rook_from_sq(m) as u64))) | (1u64 << (rook_to_sq(m) as u64))
    } else {
        b4
    }
}

/// The move's effect on all twelve bitboards.
pub open spec fn apply_bitboards(pos: Position, m: Move) -> Position {
    Position {
        white_king: apply_bb_one(pos, m, 0),
        white_queen: apply_bb_one(pos, m, 1),
        white_bishop: apply_bb_one(pos, m, 2),
        white_knight: apply_bb_one(pos, m, 3),
        white_rook: apply_bb_one(pos, m, 4),
        white_pawn: apply_bb_one(pos, m, 5),
        black_king: apply_bb_one(pos, m, 6),
        black_queen: apply_bb_one(pos, m, 7),
        black_bishop: apply_bb_one(pos, m, 8),
        black_knight: apply_bb_one(pos, m, 9),
        black_rook: apply_bb_one(pos, m, 10),
        black_pawn: apply_bb_one(pos, m, 11),
        ..pos
    }
}

/// Reading a bitboard of the applied position.
pub proof fn lemma_apply_bb_at(pos: Position, m: Move)
    ensures
        forall|n: int| 0 <= n < 12 ==> bb_at(#[trigger] apply_bitboards(pos, m), n)
            == apply_bb_one(pos, m, n),
{
}

/// The castling bookkeeping after `m`: a king move marks the king moved, a
/// rook leaving its home square or being captured there marks that rook
/// moved.
pub open spec fn apply_flags(flags: CastlingFlags, m: Move, white: bool) -> CastlingFlags {
    let s = m.start_square as int;
    let t = m.end_square as int;
    let king = if white {
        PieceType::WhiteKing
    } else {
        PieceType::BlackKing
    };
    let rook = if white {
        PieceType::WhiteRook
    } else {
        PieceType::BlackRook
    };
    let kingside_home: int = if white {
        7
    } else {
        63
    };
    let queenside_home: int = if white {
        0
    } else {
        56
    };
    CastlingFlags {
        king_moved: flags.king_moved || m.moved_piece_type == king,
        rook_kingside_moved: flags.rook_kingside_moved || (m.moved_piece_type == rook && s
            == kingside_home) || (m.captured_piece_type == Some(rook) && t == kingside_home),
        rook_queenside_moved: flags.rook_queenside_moved || (m.moved_piece_type == rook && s
            == queenside_home) || (m.captured_piece_type == Some(rook) && t == queenside_home),
    }
}

/// The full transition: new bitboards, new en-passant target (set only by a
/// double push), updated castling bookkeeping, and the side to move flipped.
/// The halfmove and fullmove counters are carried for fidelity only and stay
/// untouched.
pub open spec fn apply_move(pos: Position, m: Move) -> Position {
    let p = apply_bitboards(pos, m);
    Position {
        en_passent_square: m.flags.double_push_target,
        white_castling_flags: apply_flags(pos.white_castling_flags, m, true),
        black_castling_flags: apply_flags(pos.black_castling_flags, m, false),
        white_to_move: !pos.white_to_move,
        ..p
    }
}

} // verus!
