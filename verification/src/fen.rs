//! Forsyth–Edwards Notation parsing: six space-separated fields (piece
//! placement, side to move, castling availability, en-passant target,
//! halfmove clock, fullmove number).  Malformed input is a structured
//! `FenError`, never a silent fallback.  The castling-availability field is
//! accepted for fidelity but the engine re-derives its own flags from
//! home-square occupancy.

use vstd::prelude::*;
use crate::bits::bit64;
use crate::pieces::{piece_index, PieceType};
use crate::position::{bb_at, empty_pos, with_bb, CastlingFlags, Position};

verus! {

/// Why a FEN string was rejected.
#[derive(Copy, Clone, PartialEq, Eq, Structural, Debug)]
pub enum FenError {
    /// Fewer than six space-separated fields.
    MissingFields,
    /// A rank of the placement field does not span exactly eight files, or
    /// the ranks do not count eight.
    RankWidth,
    /// A character that belongs to no piece, digit or rank separator.
    UnexpectedChar,
    /// The side-to-move field is not exactly `w` or `b`.
    SideToMove,
    /// A numeric field (or the en-passant square) cannot be read.
    Number,
}

/// Splitting a character sequence at every space, empty pieces kept.
pub open spec fn split_rec(s: Seq<char>, i: int, cur: Seq<char>, acc: Seq<Seq<char>>) -> Seq<
    Seq<char>,
>
    decreases s.len() - i,
{
    if i < 0 || i >= s.len() {
        acc.push(cur)
    } else if s[i] == ' ' {
        split_rec(s, i + 1, Seq::empty(), acc.push(cur))
    } else {
        split_rec(s, i + 1, cur.push(s[i]), acc)
    }
}

pub open spec fn split_spaces(s: Seq<char>) -> Seq<Seq<char>> {
    split_rec(s, 0, Seq::empty(), Seq::empty())
}

/// The piece kind a placement character denotes.
pub open spec fn char_piece(c: char) -> Option<PieceType> {
    if c == 'K' {
        Some(PieceType::WhiteKing)
    } else if c == 'Q' {
        Some(PieceType::WhiteQueen)
    } else if c == 'B' {
        Some(PieceType::WhiteBishop)
    } else if c == 'N' {
        Some(PieceType::WhiteKnight)
    } else if c == 'R' {
        Some(PieceType::WhiteRook)
    } else if c == 'P' {
        Some(PieceType::WhitePawn)
    } else if c == 'k' {
        Some(PieceType::BlackKing)
    } else if c == 'q' {
        Some(PieceType::BlackQueen)
    } else if c == 'b' {
        Some(PieceType::BlackBishop)
    } else if c == 'n' {
        Some(PieceType::BlackKnight)
    } else if c == 'r' {
        Some(PieceType::BlackRook)
    } else if c == 'p' {
        Some(PieceType::BlackPawn)
    } else {
        None
    }
}

/// How many files a skip digit advances; 0 for any other character.
pub open spec fn skip_count(c: char) -> int {
    if c == '1' {
        1
    } else if c == '2' {
        2
    } else if c == '3' {
        3
    } else if c == '4' {
        4
    } else if c == '5' {
        5
    } else if c == '6' {
        6
    } else if c == '7' {
        7
    } else if c == '8' {
        8
    } else {
        0
    }
}

/// Numeric value of a decimal digit; 10 for any other character.
pub open spec fn digit_value(c: char) -> int {
    if c == '0' {
        0
    } else {
        let k = skip_count(c);
        if k > 0 {
            k
        } else if c == '9' {
            9
        } else {
            10
        }
    }
}

/// File index of an algebraic file letter; 8 for any other character.
pub open spec fn file_of_char(c: char) -> int {
    if c == 'a' {
        0
    } else if c == 'b' {
        1
    } else if c == 'c' {
        2
    } else if c == 'd' {
        3
    } else if c == 'e' {
        4
    } else if c == 'f' {
        5
    } else if c == 'g' {
        6
    } else if c == 'h' {
        7
    } else {
        8
    }
}

/// Reading the placement field rank 8 down to rank 1, file a to file h:
/// digits skip empty files, `/` closes a rank that must span exactly eight
/// files, a piece letter drops that piece on the current square.
pub open spec fn parse_placement_rec(f: Seq<char>, i: int, x: int, y: int, acc: Position) -> Result<
    Position,
    FenError,
>
    decreases f.len() - i,
{
    if i < 0 || i >= f.len() {
        if x == 8 && y == 0 {
            Ok(acc)
        } else {
            Err(FenError::RankWidth)
        }
    } else {
        let c = f[i];
        if c == '/' {
            if x != 8 || y <= 0 {
                Err(FenError::RankWidth)
            } else {
                parse_placement_rec(f, i + 1, 0, y - 1, acc)
            }
        } else if skip_count(c) > 0 {
            if x + skip_count(c) > 8 {
                Err(FenError::RankWidth)
            } else {
                parse_placement_rec(f, i + 1, x + skip_count(c), y, acc)
            }
        } else if char_piece(c) is Some {
            if x >= 8 {
                Err(FenError::RankWidth)
            } else {
                let pi = piece_index(char_piece(c)->0);
                let sq = y * 8 + x;
                parse_placement_rec(
                    f,
                    i + 1,
                    x + 1,
                    y,
                    with_bb(acc, pi, bb_at(acc, pi) | (1u64 << (sq as u64))),
                )
            }
        } else {
            Err(FenError::UnexpectedChar)
        }
    }
}

/// The side-to-move field must be exactly `w` or `b`.
pub open spec fn parse_side(f: Seq<char>) -> Result<bool, FenError> {
    if f.len() == 1 && f[0] == 'w' {
        Ok(true)
    } else if f.len() == 1 && f[0] == 'b' {
        Ok(false)
    } else {
        Err(FenError::SideToMove)
    }
}

/// The en-passant field: `-` for none, else a file letter and a rank digit.
pub open spec fn parse_ep(f: Seq<char>) -> Result<Option<u8>, FenError> {
    if f.len() == 1 && f[0] == '-' {
        Ok(None)
    } else if f.len() == 2 && file_of_char(f[0]) < 8 && 1 <= skip_count(f[1]) <= 8 {
        Ok(Some((((skip_count(f[1]) - 1) * 8 + file_of_char(f[0])) as u8)))
    } else {
        Err(FenError::Number)
    }
}

/// A non-empty decimal number that fits a `u32`.
pub open spec fn parse_u32_rec(f: Seq<char>, i: int, acc: int) -> Result<u32, FenError>
    decreases f.len() - i,
{
    if i < 0 || i >= f.len() {
        Ok(acc as u32)
    } else if digit_value(f[i]) > 9 {
        Err(FenError::Number)
    } else if acc * 10 + digit_value(f[i]) > u32::MAX {
        Err(FenError::Number)
    } else {
        parse_u32_rec(f, i + 1, acc * 10 + digit_value(f[i]))
    }
}

pub open spec fn parse_u32(f: Seq<char>) -> Result<u32, FenError> {
    if f.len() == 0 {
        Err(FenError::Number)
    } else {
        parse_u32_rec(f, 0, 0)
    }
}

/// Initial castling bookkeeping: conservative home-square occupancy checks.
/// A king or rook not on its home square counts as having moved.
pub open spec fn initial_flags(pos: Position, white: bool) -> CastlingFlags {
    if white {
        CastlingFlags {
            king_moved: !bit64(pos.white_king, 4),
            rook_kingside_moved: !bit64(pos.white_rook, 7),
            rook_queenside_moved: !bit64(pos.white_rook, 0),
        }
    } else {
        CastlingFlags {
            king_moved: !bit64(pos.black_king, 60),
            rook_kingside_moved: !bit64(pos.black_rook, 63),
            rook_queenside_moved: !bit64(pos.black_rook, 56),
        }
    }
}

/// The whole parse: split into fields, read each in turn, and assemble the
/// position.  Fields beyond the sixth are ignored.
pub open spec fn fen_parse(s: Seq<char>) -> Result<Position, FenError> {
    let fs = split_spaces(s);
    if fs.len() < 6 {
        Err(FenError::MissingFields)
    } else {
        match parse_placement_rec(fs[0], 0, 0, 7, empty_pos()) {
            Err(e) => Err(e),
            Ok(p0) => match parse_side(fs[1]) {
                Err(e) => Err(e),
                Ok(w) => match parse_ep(fs[3]) {
                    Err(e) => Err(e),
                    Ok(ep) => match parse_u32(fs[4]) {
                        Err(e) => Err(e),
                        Ok(h) => match parse_u32(fs[5]) {
                            Err(e) => Err(e),
                            Ok(fm) => Ok(
                                Position {
                                    white_to_move: w,
                                    en_passent_square: ep,
                                    halfmove_clock: h,
                                    fullmove_num: fm,
                                    white_castling_flags: initial_flags(p0, true),
                                    black_castling_flags: initial_flags(p0, false),
                                    ..p0
                                },
                            ),
                        },
                    },
                },
            },
        }
    }
}

/// The views of a vector of character vectors.
pub open spec fn views_of(vv: Seq<Vec<char>>) -> Seq<Seq<char>> {
    vv.map_values(|x: Vec<char>| x@)
}

/// Collects the characters of a string slice.
fn str_chars(s: &str) -> (r: Vec<char>)
    ensures
        r@ == s@,
{
    let n = s.unicode_len();
    let mut r: Vec<char> = Vec::new();
    let mut i: usize = 0;
    while i < n
        invariant
            i <= n,
            n == s@.len(),
            r@ == s@.subrange(0, i as int),
        decreases n - i,
    {
        r.push(s.get_char(i));
        assert(r@ =~= s@.subrange(0, i + 1));
        i += 1;
    }
    assert(r@ =~= s@);
    r
}

/// Splits at spaces, keeping empty fields.
fn split_fields(v: &Vec<char>) -> (r: Vec<Vec<char>>)
    ensures
        views_of(r@) == split_spaces(v@),
{
    let mut acc: Vec<Vec<char>> = Vec::new();
    let mut cur: Vec<char> = Vec::new();
    let mut i: usize = 0;
    proof {
        assert(cur@ =~= Seq::<char>::empty());
        assert(views_of(acc@) =~~= Seq::<Seq<char>>::empty());
    }
    while i < v.len()
        invariant
            i <= v@.len(),
            split_rec(v@, i as int, cur@, views_of(acc@)) == split_spaces(v@),
        decreases v@.len() - i,
    {
        let c = v[i];
        if c == ' ' {
            let ghost acc0 = acc@;
            let ghost cur0 = cur@;
            acc.push(cur);
            cur = Vec::new();
            proof {
                assert(views_of(acc@) =~~= views_of(acc0).push(cur0));
            }
        } else {
            cur.push(c);
        }
        i += 1;
    }
    let ghost acc0 = acc@;
    let ghost cur0 = cur@;
    acc.push(cur);
    proof {
        assert(views_of(acc@) =~~= views_of(acc0).push(cur0));
    }
    acc
}

fn char_to_piece(c: char) -> (r: Option<PieceType>)
    ensures
        r == char_piece(c),
{
    if c == 'K' {
        Some(PieceType::WhiteKing)
    } else if c == 'Q' {
        Some(PieceType::WhiteQueen)
    } else if c == 'B' {
        Some(PieceType::WhiteBishop)
    } else if c == 'N' {
        Some(PieceType::WhiteKnight)
    } else if c == 'R' {
        Some(PieceType::WhiteRook)
    } else if c == 'P' {
        Some(PieceType::WhitePawn)
    } else if c == 'k' {
        Some(PieceType::BlackKing)
    } else if c == 'q' {
        Some(PieceType::BlackQueen)
    } else if c == 'b' {
        Some(PieceType::BlackBishop)
    } else if c == 'n' {
        Some(PieceType::BlackKnight)
    } else if c == 'r' {
        Some(PieceType::BlackRook)
    } else if c == 'p' {
        Some(PieceType::BlackPawn)
    } else {
        None
    }
}

fn char_skip(c: char) -> (r: usize)
    ensures
        r == skip_count(c),
{
    if c == '1' {
        1
    } else if c == '2' {
        2
    } else if c == '3' {
        3
    } else if c == '4' {
        4
    } else if c == '5' {
        5
    } else if c == '6' {
        6
    } else if c == '7' {
        7
    } else if c == '8' {
        8
    } else {
        0
    }
}

fn char_digit(c: char) -> (r: usize)
    ensures
        r == digit_value(c),
{
    if c == '0' {
        0
    } else if c == '9' {
        9
    } else {
        let k = char_skip(c);
        if k > 0 {
            k
        } else {
            10
        }
    }
}

fn char_file(c: char) -> (r: usize)
    ensures
        r == file_of_char(c),
{
    if c == 'a' {
        0
    } else if c == 'b' {
        1
    } else if c == 'c' {
        2
    } else if c == 'd' {
        3
    } else if c == 'e' {
        4
    } else if c == 'f' {
        5
    } else if c == 'g' {
        6
    } else if c == 'h' {
        7
    } else {
        8
    }
}

fn parse_placement_field(f: &Vec<char>) -> (r: Result<Position, FenError>)
    ensures
        r == parse_placement_rec(f@, 0, 0, 7, empty_pos()),
{
    let mut pos = Position::empty();
    let mut x: usize = 0;
    let mut y: usize = 7;
    let mut i: usize = 0;
    assert(pos == empty_pos());
    while i < f.len()
        invariant
            i <= f@.len(),
            x <= 8,
            y <= 7,
            parse_placement_rec(f@, 0, 0, 7, empty_pos()) == parse_placement_rec(
                f@,
                i as int,
                x as int,
                y as int,
                pos,
            ),
        decreases f@.len() - i,
    {
        let c = f[i];
        let ghost x0 = x as int;
        let ghost y0 = y as int;
        let ghost pos0 = pos;
        let ghost i0 = i as int;
        if c == '/' {
            if x != 8 || y == 0 {
                return Err(FenError::RankWidth);
            }
            x = 0;
            y = y - 1;
            proof {
                assert(parse_placement_rec(f@, i0, x0, y0, pos0) == parse_placement_rec(
                    f@,
                    i0 + 1,
                    0,
                    y0 - 1,
                    pos0,
                ));
                assert(parse_placement_rec(f@, 0, 0, 7, empty_pos()) == parse_placement_rec(
                    f@,
                    i0 + 1,
                    x as int,
                    y as int,
                    pos,
                ));
            }
        } else {
            let k = char_skip(c);
            if k > 0 {
                if x + k > 8 {
                    return Err(FenError::RankWidth);
                }
                x = x + k;
                proof {
                    assert(parse_placement_rec(f@, i0, x0, y0, pos0) == parse_placement_rec(
                        f@,
                        i0 + 1,
                        x0 + skip_count(f@[i0]),
                        y0,
                        pos0,
                    ));
                    assert(x as int == x0 + skip_count(f@[i0]));
                    assert(parse_placement_rec(f@, 0, 0, 7, empty_pos()) == parse_placement_rec(
                        f@,
                        i0 + 1,
                        x as int,
                        y as int,
                        pos,
                    ));
                }
            } else {
                match char_to_piece(c) {
                    Some(p) => {
                        if x >= 8 {
                            return Err(FenError::RankWidth);
                        }
                        proof {
                            assert(c == f@[i0]);
                        }
                        let pi = p.index();
                        let sq = y * 8 + x;
                        let cur = pos.get_bb(pi);
                        pos.set_bb(pi, cur | (1u64 << (sq as u64)));
                        x = x + 1;
                        proof {
                            assert(pos == with_bb(
                                pos0,
                                piece_index(char_piece(f@[i0])->0),
                                bb_at(pos0, piece_index(char_piece(f@[i0])->0)) | (1u64 << ((y0 * 8
                                    + x0) as u64)),
                            ));
                            assert(parse_placement_rec(f@, i0, x0, y0, pos0)
                                == parse_placement_rec(f@, i0 + 1, x0 + 1, y0, pos));
                            assert(parse_placement_rec(f@, 0, 0, 7, empty_pos())
                                == parse_placement_rec(f@, i0 + 1, x as int, y as int, pos));
                        }
                    },
                    None => {
                        return Err(FenError::UnexpectedChar);
                    },
                }
            }
        }
        i += 1;
    }
    if x == 8 && y == 0 {
        Ok(pos)
    } else {
        Err(FenError::RankWidth)
    }
}

fn parse_side_field(f: &Vec<char>) -> (r: Result<bool, FenError>)
    ensures
        r == parse_side(f@),
{
    if f.len() == 1 {
        let c = f[0];
        if c == 'w' {
            return Ok(true);
        }
        if c == 'b' {
            return Ok(false);
        }
    }
    Err(FenError::SideToMove)
}

fn parse_ep_field(f: &Vec<char>) -> (r: Result<Option<u8>, FenError>)
    ensures
        r == parse_ep(f@),
{
    if f.len() == 1 {
        let c = f[0];
        if c == '-' {
            return Ok(None);
        }
    }
    if f.len() == 2 {
        let file = char_file(f[0]);
        let rank = char_skip(f[1]);
        if file < 8 && 1 <= rank && rank <= 8 {
            return Ok(Some((((rank - 1) * 8 + file) as u8)));
        }
    }
    Err(FenError::Number)
}

fn parse_number_field(f: &Vec<char>) -> (r: Result<u32, FenError>)
    ensures
        r == parse_u32(f@),
{
    if f.len() == 0 {
        return Err(FenError::Number);
    }
    let mut acc: u32 = 0;
    let mut i: usize = 0;
    while i < f.len()
        invariant
            i <= f@.len(),
            f@.len() > 0,
            parse_u32(f@) == parse_u32_rec(f@, i as int, acc as int),
        decreases f@.len() - i,
    {
        let d = char_digit(f[i]);
        if d > 9 {
            return Err(FenError::Number);
        }
        if acc > (u32::MAX - (d as u32)) / 10 {
            assert(acc * 10 + d > u32::MAX) by (nonlinear_arith)
                requires
                    acc > (u32::MAX - (d as u32)) / 10,
                    d <= 9,
            ;
            return Err(FenError::Number);
        }
        assert(acc * 10 + d <= u32::MAX) by (nonlinear_arith)
            requires
                acc <= (u32::MAX - (d as u32)) / 10,
                d <= 9,
        ;
        acc = acc * 10 + (d as u32);
        i += 1;
    }
    Ok(acc)
}

/// Parses a six-field FEN string into a position, or says exactly why not.
pub fn parse_fen(fen: &str) -> (r: Result<Position, FenError>)
    ensures
        r == fen_parse(fen@),
{
    let chars = str_chars(fen);
    let fields = split_fields(&chars);
    proof {
        assert(views_of(fields@).len() == fields@.len());
    }
    if fields.len() < 6 {
        return Err(FenError::MissingFields);
    }
    proof {
        assert(split_spaces(fen@)[0] == fields@[0]@);
        assert(split_spaces(fen@)[1] == fields@[1]@);
        assert(split_spaces(fen@)[3] == fields@[3]@);
        assert(split_spaces(fen@)[4] == fields@[4]@);
        assert(split_spaces(fen@)[5] == fields@[5]@);
    }
    let p0 = match parse_placement_field(&fields[0]) {
        Ok(p) => p,
        Err(e) => {
            return Err(e);
        },
    };
    let w = match parse_side_field(&fields[1]) {
        Ok(w) => w,
        Err(e) => {
            return Err(e);
        },
    };
    let ep = match parse_ep_field(&fields[3]) {
        Ok(ep) => ep,
        Err(e) => {
            return Err(e);
        },
    };
    let h = match parse_number_field(&fields[4]) {
        Ok(h) => h,
        Err(e) => {
            return Err(e);
        },
    };
    let fm = match parse_number_field(&fields[5]) {
        Ok(fm) => fm,
        Err(e) => {
            return Err(e);
        },
    };
    let wk = p0.white_king;
    let wr = p0.white_rook;
    let bk = p0.black_king;
    let br = p0.black_rook;
    let wflags = CastlingFlags {
        king_moved: !crate::bits::bb_test(wk, 4),
        rook_kingside_moved: !crate::bits::bb_test(wr, 7),
        rook_queenside_moved: !crate::bits::bb_test(wr, 0),
    };
    let bflags = CastlingFlags {
        king_moved: !crate::bits::bb_test(bk, 60),
        rook_kingside_moved: !crate::bits::bb_test(br, 63),
        rook_queenside_moved: !crate::bits::bb_test(br, 56),
    };
    Ok(
        Position {
            white_to_move: w,
            en_passent_square: ep,
            halfmove_clock: h,
            fullmove_num: fm,
            white_castling_flags: wflags,
            black_castling_flags: bflags,
            ..p0
        },
    )
}

} // verus!
