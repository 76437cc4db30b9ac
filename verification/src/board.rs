//! The aggregate board: the position plus every derived quantity the rules
//! engine maintains (attack map, checks, pins, castling rights and the legal
//! move list), tied together by the well-formedness predicate `wf`.

use vstd::prelude::*;
use crate::bits::{bit64, lemma_bit_andnot, lemma_bit_or, lemma_bit_single, lemma_bit_zero};
use crate::fen::{fen_parse, parse_fen, parse_placement_rec, FenError};
use crate::magic::Tables;
use crate::attacks::pawn_attack;
use crate::pieces::{is_king, is_pawn, is_white_piece, piece_index, piece_of_index, PieceType};
use crate::position::{
    apply_bb_one,
    apply_bitboards,
    apply_flags,
    apply_move,
    arrival_index,
    bb_at,
    disjoint_bitboards,
    occ_all,
    lemma_apply_bb_at,
    piece_at,
    piece_at_from,
    rook_to_sq,
    with_bb,
    CastleSide,
    CastlingFlags,
    CastlingRights,
    Move,
    Position,
};
use crate::rules::{
    all_checks_cover,
    attacks_map,
    attacks_sq,
    base_move,
    castle_checks,
    castle_right_spec,
    castling_rights_spec,
    detect_checks,
    dest_moves,
    find_pinned,
    friendly_piece_at,
    generate_all_moves,
    in_check,
    king_home,
    legal_dest,
    move_pattern,
    moves_from,
    moves_upto,
    pinned,
    promo_kind,
    resolves_all_checks,
};

verus! {

/// What every move drawn from the legal move list satisfies; the facts the
/// move executor relies on.
pub open spec fn move_wf(pos: Position, m: Move) -> bool {
    let s = m.start_square as int;
    let t = m.end_square as int;
    let p = m.moved_piece_type;
    let white = is_white_piece(p);
    &&& 0 <= s < 64
    &&& 0 <= t < 64
    &&& white == pos.white_to_move
    &&& bit64(bb_at(pos, piece_index(p)), s)
    &&& legal_dest(pos, p, s, t)
    &&& m.captured_piece_type == piece_at(pos, t)
    &&& m.flags == base_move(pos, p, s, t).flags
    &&& (m.promotion_piece is Some ==> is_pawn(p) && is_white_piece(m.promotion_piece->0) == white
        && !is_pawn(m.promotion_piece->0) && !is_king(m.promotion_piece->0))
}

/// Where the piece named by `piece_at` actually stands, and that nothing
/// else does.
pub proof fn lemma_piece_at_from(pos: Position, sq: int, i: int)
    requires
        0 <= i <= 12,
    ensures
        piece_at_from(pos, sq, i) matches Some(p) ==> i <= piece_index(p) < 12 && bit64(
            bb_at(pos, piece_index(p)),
            sq,
        ),
        piece_at_from(pos, sq, i) is None ==> forall|j: int| i <= j < 12 ==> !bit64(
            #[trigger] bb_at(pos, j),
            sq,
        ),
        (disjoint_bitboards(pos) && piece_at_from(pos, sq, i) is Some) ==> forall|j: int|
            i <= j < 12 && j != piece_index(piece_at_from(pos, sq, i)->0) ==> !bit64(
                #[trigger] bb_at(pos, j),
                sq,
            ),
    decreases 12 - i,
{
    if i < 12 {
        lemma_piece_at_from(pos, sq, i + 1);
        crate::pieces::lemma_piece_index_inverse();
        if bit64(bb_at(pos, i), sq) && disjoint_bitboards(pos) {
            assert forall|j: int| i <= j < 12 && j != i implies !bit64(
                #[trigger] bb_at(pos, j),
                sq,
            ) by {
                assert(!(bit64(bb_at(pos, i), sq) && bit64(bb_at(pos, j), sq)));
            }
        }
    }
}

/// A move from the legal move list of square `s` satisfies `move_wf`.
pub proof fn lemma_moves_member(pos: Position, p: PieceType, s: int, tmax: int, m: Move)
    requires
        0 <= s < 64,
        0 <= tmax <= 64,
        friendly_piece_at(pos, s) == Some(p),
        disjoint_bitboards(pos),
        moves_upto(pos, p, s, tmax).contains(m),
    ensures
        move_wf(pos, m),
    decreases tmax,
{
    if tmax > 0 {
        let prefix = moves_upto(pos, p, s, tmax - 1);
        let tail = dest_moves(pos, p, s, tmax - 1);
        let k = choose|k: int| 0 <= k < moves_upto(pos, p, s, tmax).len() && moves_upto(pos, p, s, tmax)[k] == m;
        if k < prefix.len() {
            assert(prefix[k] == m);
            assert(prefix.contains(m));
            lemma_moves_member(pos, p, s, tmax - 1, m);
        } else {
            let t = tmax - 1;
            assert(tail[k - prefix.len()] == m);
            assert(legal_dest(pos, p, s, t));
            lemma_piece_at_from(pos, s, 0);
            lemma_piece_at_from(pos, t, 0);
            let bm = base_move(pos, p, s, t);
            let white = is_white_piece(p);
            if is_pawn(p) && crate::attacks::pawn_promote_rank(s, white) {
                assert(m == Move { promotion_piece: Some(promo_kind(white, 0)), ..bm } || m
                    == Move { promotion_piece: Some(promo_kind(white, 1)), ..bm } || m == Move {
                    promotion_piece: Some(promo_kind(white, 2)),
                    ..bm
                } || m == Move { promotion_piece: Some(promo_kind(white, 3)), ..bm });
            } else {
                assert(m == bm);
            }
        }
    }
}

/// Nothing stands on a square outside the overall occupancy.
pub proof fn lemma_not_occupied(pos: Position, q: int)
    requires
        !bit64(occ_all(pos), q),
    ensures
        forall|n: int| 0 <= n < 12 ==> !bit64(#[trigger] bb_at(pos, n), q),
{
    assert forall|n: int| 0 <= n < 12 implies !bit64(#[trigger] bb_at(pos, n), q) by {
        if bit64(bb_at(pos, n), q) {
            crate::rules::lemma_occ_contains(pos, n, q);
        }
    }
}

/// Bit lemmas for every single-square mask `apply_bb_one` uses.
proof fn broadcast_bit_ops()
    ensures
        forall|b: u64, k: u64, i: u64|
            k < 64 && i < 64 ==> (#[trigger] crate::bits::bit_u(b & !(1u64 << k), i) == (
            crate::bits::bit_u(b, i) && i != k)),
        forall|b: u64, k: u64, i: u64|
            k < 64 && i < 64 ==> (#[trigger] crate::bits::bit_u(b | (1u64 << k), i) == (
            crate::bits::bit_u(b, i) || i == k)),
        forall|b: u64, x: u64, i: u64|
            i < 64 ==> ((#[trigger] crate::bits::bit_u(b & x, i)) ==> crate::bits::bit_u(b, i)),
{
    assert forall|b: u64, k: u64, i: u64|
        k < 64 && i < 64 implies (#[trigger] crate::bits::bit_u(b & !(1u64 << k), i) == (
        crate::bits::bit_u(b, i) && i != k)) by {
        lemma_bit_andnot(b, 1u64 << k);
        lemma_bit_single(k);
    }
    assert forall|b: u64, k: u64, i: u64|
        k < 64 && i < 64 implies (#[trigger] crate::bits::bit_u(b | (1u64 << k), i) == (
        crate::bits::bit_u(b, i) || i == k)) by {
        lemma_bit_or(b, 1u64 << k);
        lemma_bit_single(k);
    }
    assert forall|b: u64, x: u64, i: u64|
        i < 64 implies ((#[trigger] crate::bits::bit_u(b & x, i)) ==> crate::bits::bit_u(b, i)) by {
        crate::bits::lemma_bit_and(b, x);
    }
}

/// A set bit of the applied position is an old bit, the arrival square, or
/// the castling rook's target square.
proof fn lemma_stage_bits(pos: Position, m: Move, n: int, q: int)
    requires
        0 <= n < 12,
        move_wf(pos, m),
    ensures
        bit64(apply_bb_one(pos, m, n), q) ==> (bit64(bb_at(pos, n), q) || (q
            == m.end_square as int && n == arrival_index(m)) || (m.flags.castle_rook_move is Some
            && q == rook_to_sq(m) && n == (if is_white_piece(m.moved_piece_type) {
            4int
        } else {
            10int
        }))),
{
    broadcast_bit_ops();
}

/// A castling rook lands on a square the castle right guarantees empty, and
/// that square is not the king's destination.
proof fn lemma_castle_target_empty(pos: Position, m: Move)
    requires
        move_wf(pos, m),
        m.flags.castle_rook_move is Some,
    ensures
        forall|n: int| 0 <= n < 12 ==> !bit64(#[trigger] bb_at(pos, n), rook_to_sq(m)),
        rook_to_sq(m) != m.end_square as int,
{
    let s = m.start_square as int;
    let t = m.end_square as int;
    let p = m.moved_piece_type;
    let white = is_white_piece(p);
    assert(m.flags == base_move(pos, p, s, t).flags);
    assert(is_king(p) && (t == s + 2 || t == s - 2));
    assert(legal_dest(pos, p, s, t));
    assert(move_pattern(pos, p, s, t));
    assert(!crate::attacks::king_step(s, t));
    assert(s == king_home(white));
    if t == s + 2 {
        assert(castle_right_spec(pos, white, true));
    } else {
        assert(castle_right_spec(pos, white, false));
    }
    assert(!bit64(occ_all(pos), rook_to_sq(m)));
    lemma_not_occupied(pos, rook_to_sq(m));
}

/// No friendly board holds the destination square before the move.
proof fn lemma_dest_not_friendly(pos: Position, m: Move)
    requires
        move_wf(pos, m),
    ensures
        forall|j: int|
            0 <= j < 12 && (j < 6) == is_white_piece(m.moved_piece_type) ==> !bit64(
                #[trigger] bb_at(pos, j),
                m.end_square as int,
            ),
{
    let t = m.end_square as int;
    let white = is_white_piece(m.moved_piece_type);
    assert(legal_dest(pos, m.moved_piece_type, m.start_square as int, t));
    assert forall|j: int| 0 <= j < 12 && (j < 6) == white implies !bit64(
        #[trigger] bb_at(pos, j),
        t,
    ) by {
        if bit64(bb_at(pos, j), t) {
            crate::rules::lemma_occ_contains_side(pos, j, t);
        }
    }
}

/// Only the arriving piece's board holds the destination bit afterwards.
proof fn lemma_stage_bits_t(pos: Position, m: Move, n: int)
    requires
        0 <= n < 12,
        move_wf(pos, m),
        disjoint_bitboards(pos),
        n != arrival_index(m),
    ensures
        !bit64(apply_bb_one(pos, m, n), m.end_square as int),
{
    let t = m.end_square as int;
    let white = is_white_piece(m.moved_piece_type);
    broadcast_bit_ops();
    lemma_piece_at_from(pos, t, 0);
    lemma_dest_not_friendly(pos, m);
    crate::pieces::lemma_piece_index_inverse();
    if m.flags.castle_rook_move is Some {
        lemma_castle_target_empty(pos, m);
    }
    if m.captured_piece_type is Some && n == piece_index(m.captured_piece_type->0) {
        assert(!bit64(apply_bb_one(pos, m, n), t));
    } else {
        if bit64(apply_bb_one(pos, m, n), t) {
            assert(bit64(bb_at(pos, n), t));
            if (n < 6) == white {
                assert(false);
            } else {
                assert(piece_at(pos, t) == piece_at_from(pos, t, 0));
                assert(false);
            }
        }
    }
}

/// Applying a legal move keeps the twelve bitboards pairwise disjoint.
#[verifier::rlimit(100)]
pub proof fn lemma_apply_disjoint(pos: Position, m: Move)
    requires
        disjoint_bitboards(pos),
        move_wf(pos, m),
    ensures
        disjoint_bitboards(apply_bitboards(pos, m)),
{
    let t = m.end_square as int;
    let pp = apply_bitboards(pos, m);
    lemma_apply_bb_at(pos, m);
    assert forall|i: int, j: int, q: int|
        0 <= i < j < 12 implies !(#[trigger] bit64(bb_at(pp, i), q) && #[trigger] bit64(
        bb_at(pp, j),
        q,
    )) by {
        if bit64(bb_at(pp, i), q) && bit64(bb_at(pp, j), q) {
            lemma_stage_bits(pos, m, i, q);
            lemma_stage_bits(pos, m, j, q);
            if q == t {
                if i != arrival_index(m) {
                    lemma_stage_bits_t(pos, m, i);
                }
                if j != arrival_index(m) {
                    lemma_stage_bits_t(pos, m, j);
                }
            } else if m.flags.castle_rook_move is Some && q == rook_to_sq(m) {
                lemma_castle_target_empty(pos, m);
            } else {
                assert(bit64(bb_at(pos, i), q) && bit64(bb_at(pos, j), q));
            }
        }
    }
}

/// A successful placement parse puts every piece on a distinct square.
pub proof fn lemma_placement_disjoint(f: Seq<char>, i: int, x: int, y: int, acc: Position)
    requires
        0 <= x <= 8,
        0 <= y <= 7,
        disjoint_bitboards(acc),
        forall|j: int, q: int|
            0 <= j < 12 && #[trigger] bit64(bb_at(acc, j), q) ==> 0 <= q < 64 && (q / 8 > y || (q
                / 8 == y && q % 8 < x)),
    ensures
        parse_placement_rec(f, i, x, y, acc) matches Ok(p) ==> disjoint_bitboards(p),
    decreases f.len() - i,
{
    if i < 0 || i >= f.len() {
    } else {
        let c = f[i];
        if c == '/' {
            if !(x != 8 || y <= 0) {
                lemma_placement_disjoint(f, i + 1, 0, y - 1, acc);
            }
        } else if crate::fen::skip_count(c) > 0 {
            if !(x + crate::fen::skip_count(c) > 8) {
                lemma_placement_disjoint(f, i + 1, x + crate::fen::skip_count(c), y, acc);
            }
        } else if crate::fen::char_piece(c) is Some {
            if !(x >= 8) {
                let pi = piece_index(crate::fen::char_piece(c)->0);
                let sq = y * 8 + x;
                let v = bb_at(acc, pi) | (1u64 << (sq as u64));
                let acc2 = with_bb(acc, pi, v);
                lemma_bit_or(bb_at(acc, pi), 1u64 << (sq as u64));
                lemma_bit_single(sq as u64);
                assert(sq / 8 == y && sq % 8 == x);
                assert forall|j: int, q: int|
                    0 <= j < 12 && #[trigger] bit64(bb_at(acc2, j), q) implies 0 <= q < 64 && (q
                    / 8 > y || (q / 8 == y && q % 8 < x + 1)) by {
                    if j != pi {
                        assert(bb_at(acc2, j) == bb_at(acc, j));
                    } else {
                        assert(bit64(v, q) == (bit64(bb_at(acc, pi), q) || q == sq));
                    }
                }
                assert(disjoint_bitboards(acc2)) by {
                    assert forall|a: int, b: int, q: int|
                        0 <= a < b < 12 implies !(#[trigger] bit64(bb_at(acc2, a), q)
                        && #[trigger] bit64(bb_at(acc2, b), q)) by {
                        if bit64(bb_at(acc2, a), q) && bit64(bb_at(acc2, b), q) {
                            if a != pi && b != pi {
                                assert(bit64(bb_at(acc, a), q) && bit64(bb_at(acc, b), q));
                            } else {
                                let other = if a == pi {
                                    b
                                } else {
                                    a
                                };
                                assert(bit64(bb_at(acc2, other), q));
                                assert(bit64(bb_at(acc, other), q));
                                if q == sq {
                                    assert(false);
                                } else {
                                    assert(bit64(bb_at(acc, pi), q));
                                }
                            }
                        }
                    }
                }
                lemma_placement_disjoint(f, i + 1, x + 1, y, acc2);
            }
        }
    }
}

/// Mirrors `apply_bb_one` on the machine.
fn apply_bb_one_exec(pos: &Position, m: &Move, n: usize) -> (r: u64)
    requires
        move_wf(*pos, *m),
        n < 12,
    ensures
        r == apply_bb_one(*pos, *m, n as int),
{
    let s = m.start_square as u64;
    let t = m.end_square as u64;
    let mi = m.moved_piece_type.index();
    let white = m.moved_piece_type.is_white();
    let b0 = pos.get_bb(n);
    let b1 = if n == mi {
        b0 & !(1u64 << s)
    } else {
        b0
    };
    let arr = match m.promotion_piece {
        Some(pp) => pp.index(),
        None => mi,
    };
    proof {
        assert(arr == arrival_index(*m));
    }
    let b2 = if n == arr {
        b1 | (1u64 << t)
    } else {
        b1
    };
    let b3 = match m.captured_piece_type {
        Some(cp) => if n == cp.index() {
            b2 & !(1u64 << t)
        } else {
            b2
        },
        None => b2,
    };
    let b4 = if m.flags.en_passent_capture {
        let vi: usize = if white {
            11
        } else {
            5
        };
        if n == vi {
            proof {
                assert(m.flags == base_move(
                    *pos,
                    m.moved_piece_type,
                    m.start_square as int,
                    m.end_square as int,
                ).flags);
                assert(pawn_attack(m.start_square as int, white, m.end_square as int));
                if white {
                    assert(m.end_square as int >= 8);
                } else {
                    assert(m.end_square as int <= 55);
                }
            }
            let victim = if white {
                t - 8
            } else {
                t + 8
            };
            b3 & !(1u64 << victim)
        } else {
            b3
        }
    } else {
        b3
    };
    match m.flags.castle_rook_move {
        Some(side) => {
            let ri: usize = if white {
                4
            } else {
                10
            };
            if n == ri {
                let from: u64 = match side {
                    CastleSide::Kingside => if white {
                        7
                    } else {
                        63
                    },
                    CastleSide::Queenside => if white {
                        0
                    } else {
                        56
                    },
                };
                let to: u64 = match side {
                    CastleSide::Kingside => if white {
                        5
                    } else {
                        61
                    },
                    CastleSide::Queenside => if white {
                        3
                    } else {
                        59
                    },
                };
                (b4 & !(1u64 << from)) | (1u64 << to)
            } else {
                b4
            }
        },
        None => b4,
    }
}

/// Mirrors `apply_flags` on the machine.
fn apply_flags_exec(flags: &CastlingFlags, m: &Move, white: bool) -> (r: CastlingFlags)
    ensures
        r == apply_flags(*flags, *m, white),
{
    let king = if white {
        PieceType::WhiteKing
    } else {
        PieceType::BlackKing
    };
    let rook = if white {
        PieceType::WhiteRook
    } else {
        PieceType::BlackRook
    };
    let kingside_home: i32 = if white {
        7
    } else {
        63
    };
    let queenside_home: i32 = if white {
        0
    } else {
        56
    };
    let captured_rook = match m.captured_piece_type {
        Some(cp) => cp == rook,
        None => false,
    };
    proof {
        assert(captured_rook == (m.captured_piece_type == Some(rook)));
    }
    CastlingFlags {
        king_moved: flags.king_moved || m.moved_piece_type == king,
        rook_kingside_moved: flags.rook_kingside_moved || (m.moved_piece_type == rook
            && m.start_square == kingside_home) || (captured_rook && m.end_square
            == kingside_home),
        rook_queenside_moved: flags.rook_queenside_moved || (m.moved_piece_type == rook
            && m.start_square == queenside_home) || (captured_rook && m.end_square
            == queenside_home),
    }
}

/// Applies a legal move to a position: the pure transition, on the machine.
pub fn apply_move_exec(pos: &Position, m: &Move) -> (r: Position)
    requires
        move_wf(*pos, *m),
    ensures
        r == apply_move(*pos, *m),
{
    let mut p = *pos;
    let mut n: usize = 0;
    while n < 12
        invariant
            n <= 12,
            move_wf(*pos, *m),
            forall|j: int| 0 <= j < n ==> bb_at(p, j) == apply_bb_one(*pos, *m, j),
            forall|j: int| n <= j < 12 ==> bb_at(p, j) == bb_at(*pos, j),
            p.white_to_move == pos.white_to_move,
            p.en_passent_square == pos.en_passent_square,
            p.white_castling_flags == pos.white_castling_flags,
            p.black_castling_flags == pos.black_castling_flags,
            p.halfmove_clock == pos.halfmove_clock,
            p.fullmove_num == pos.fullmove_num,
        decreases 12 - n,
    {
        let v = apply_bb_one_exec(pos, m, n);
        let ghost p0 = p;
        p.set_bb(n, v);
        proof {
            crate::position::lemma_with_bb(p0, n as int, v);
            assert forall|j: int| 0 <= j < n + 1 implies bb_at(p, j) == apply_bb_one(
                *pos,
                *m,
                j,
            ) by {
                if j < n {
                    assert(bb_at(p, j) == bb_at(p0, j));
                } else {
                    assert(bb_at(p, j) == v);
                }
            }
            assert forall|j: int| n + 1 <= j < 12 implies bb_at(p, j) == bb_at(*pos, j) by {
                assert(bb_at(p, j) == bb_at(p0, j));
            }
        }
        n += 1;
    }
    let ghost pexit = p;
    p.en_passent_square = m.flags.double_push_target;
    let white_flags = apply_flags_exec(&pos.white_castling_flags, m, true);
    let black_flags = apply_flags_exec(&pos.black_castling_flags, m, false);
    p.white_castling_flags = white_flags;
    p.black_castling_flags = black_flags;
    p.white_to_move = !pos.white_to_move;
    proof {
        lemma_apply_bb_at(*pos, *m);
        let q = apply_move(*pos, *m);
        let qb = apply_bitboards(*pos, *m);
        assert forall|j: int| 0 <= j < 12 implies bb_at(p, j) == bb_at(q, j) by {
            assert(bb_at(p, j) == bb_at(pexit, j));
            assert(bb_at(pexit, j) == apply_bb_one(*pos, *m, j));
            assert(bb_at(q, j) == bb_at(qb, j));
            assert(bb_at(qb, j) == apply_bb_one(*pos, *m, j));
        }
        assert(bb_at(p, 0) == bb_at(q, 0) && bb_at(p, 1) == bb_at(q, 1) && bb_at(p, 2) == bb_at(
            q,
            2,
        ) && bb_at(p, 3) == bb_at(q, 3) && bb_at(p, 4) == bb_at(q, 4) && bb_at(p, 5) == bb_at(
            q,
            5,
        ) && bb_at(p, 6) == bb_at(q, 6) && bb_at(p, 7) == bb_at(q, 7) && bb_at(p, 8) == bb_at(
            q,
            8,
        ) && bb_at(p, 9) == bb_at(q, 9) && bb_at(p, 10) == bb_at(q, 10) && bb_at(p, 11) == bb_at(
            q,
            11,
        ));
        assert(p == q);
    }
    p
}

/// The legal moves of every origin square, flattened in square order.
pub open spec fn all_moves_upto(pos: Position, n: int) -> Seq<Move>
    decreases n,
{
    if n <= 0 {
        Seq::empty()
    } else {
        all_moves_upto(pos, n - 1) + moves_from(pos, n - 1)
    }
}

pub open spec fn all_moves_spec(pos: Position) -> Seq<Move> {
    all_moves_upto(pos, 64)
}

/// The position is checkmate: no legal move and the king in check.
pub open spec fn is_checkmate_spec(pos: Position) -> bool {
    all_moves_spec(pos).len() == 0 && in_check(pos)
}

/// A move of the flattened list comes from some square's list.
pub proof fn lemma_all_moves_member(pos: Position, n: int, m: Move)
    requires
        0 <= n <= 64,
        all_moves_upto(pos, n).contains(m),
    ensures
        exists|s: int| 0 <= s < 64 && #[trigger] moves_from(pos, s).contains(m),
    decreases n,
{
    if n > 0 {
        let prefix = all_moves_upto(pos, n - 1);
        let tail = moves_from(pos, n - 1);
        let k = choose|k: int|
            0 <= k < all_moves_upto(pos, n).len() && all_moves_upto(pos, n)[k] == m;
        if k < prefix.len() {
            assert(prefix[k] == m);
            assert(prefix.contains(m));
            lemma_all_moves_member(pos, n - 1, m);
        } else {
            assert(tail[k - prefix.len()] == m);
            assert(tail.contains(m));
        }
    }
}

/// The flattened list is empty exactly when every square's list is.
pub proof fn lemma_all_moves_empty(pos: Position, n: int)
    requires
        0 <= n <= 64,
    ensures
        (all_moves_upto(pos, n).len() == 0) == (forall|j: int|
            0 <= j < n ==> (#[trigger] moves_from(pos, j)).len() == 0),
    decreases n,
{
    if n > 0 {
        lemma_all_moves_empty(pos, n - 1);
    }
}

/// The aggregate: the position and every quantity the rules engine derives
/// from it, recomputed whenever the position changes.
pub struct Board {
    pos: Position,
    moves: Vec<Vec<Move>>,
    enemy_attacks: u64,
    checks: Vec<u64>,
    pinned_pieces: u64,
    castling_rights: CastlingRights,
}

impl Board {
    /// The underlying position value.
    pub closed spec fn position(&self) -> Position {
        self.pos
    }

    /// The derived state agrees with the rules engine's specification of the
    /// position, and the occupancy bitmaps are pairwise disjoint.
    pub closed spec fn wf(&self) -> bool {
        &&& disjoint_bitboards(self.pos)
        &&& self.moves@.len() == 64
        &&& forall|s: int|
            0 <= s < 64 ==> (#[trigger] self.moves@[s])@ == moves_from(self.pos, s)
        &&& forall|t: int| #[trigger]
            bit64(self.enemy_attacks, t) == attacks_sq(self.pos, !self.pos.white_to_move, t)
        &&& forall|q: int| #[trigger] bit64(self.pinned_pieces, q) == pinned(self.pos, q)
        &&& (self.checks@.len() == 0) == !in_check(self.pos)
        &&& forall|mm: int| #[trigger]
            all_checks_cover(self.checks@, mm) == resolves_all_checks(self.pos, mm)
        &&& self.castling_rights == castling_rights_spec(self.pos)
    }

    /// A board with disjoint bitmaps (the disjointness testable property, as
    /// an invariant every reachable board carries).
    pub proof fn lemma_wf_disjoint(&self)
        requires
            self.wf(),
        ensures
            disjoint_bitboards(self.position()),
    {
    }

    /// Runs the whole rules engine on a position.
    fn derive(pos: Position, tables: &Tables) -> (b: Board)
        requires
            tables.wf(),
            disjoint_bitboards(pos),
        ensures
            b.wf(),
            b.position() == pos,
    {
        let att_white = attacks_map(&pos, tables, true);
        let att_black = attacks_map(&pos, tables, false);
        let enemy_attacks = if pos.white_to_move {
            att_black
        } else {
            att_white
        };
        let castling_rights = castle_checks(&pos, att_white, att_black);
        let checks = detect_checks(&pos, tables);
        let pinned_pieces = find_pinned(&pos);
        let moves = generate_all_moves(
            tables,
            &pos,
            &castling_rights,
            enemy_attacks,
            pinned_pieces,
            &checks,
        );
        Board { pos, moves, enemy_attacks, checks, pinned_pieces, castling_rights }
    }

    /// Loads a position from a FEN string and derives the rules-engine
    /// state; reports exactly why a malformed string is rejected.
    pub fn new(fen: &str, tables: &Tables) -> (r: Result<Board, FenError>)
        requires
            tables.wf(),
        ensures
            match fen_parse(fen@) {
                Ok(p) => r matches Ok(b) && b.wf() && b.position() == p,
                Err(e) => r matches Err(e2) && e2 == e,
            },
    {
        match parse_fen(fen) {
            Err(e) => Err(e),
            Ok(p) => {
                proof {
                    let fs = crate::fen::split_spaces(fen@);
                    let e = crate::position::empty_pos();
                    assert forall|j: int, q: int|
                        0 <= j < 12 && #[trigger] bit64(bb_at(e, j), q) implies 0 <= q < 64 && (q
                        / 8 > 7 || (q / 8 == 7 && q % 8 < 0)) by {
                        crate::bits::lemma_bit_zero();
                        assert(bb_at(e, j) == 0u64);
                        assert(!bit64(0u64, q));
                    }
                    lemma_placement_disjoint(fs[0], 0, 0, 7, e);
                    let p0 = parse_placement_rec(fs[0], 0, 0, 7, e)->Ok_0;
                    assert(disjoint_bitboards(p0));
                    assert forall|j: int| 0 <= j < 12 implies bb_at(p, j) == bb_at(p0, j) by {}
                    assert forall|a: int, b: int, q: int|
                        0 <= a < b < 12 implies !(#[trigger] bit64(bb_at(p, a), q)
                        && #[trigger] bit64(bb_at(p, b), q)) by {
                        assert(!(bit64(bb_at(p0, a), q) && bit64(bb_at(p0, b), q)));
                    }
                }
                Ok(Board::derive(p, tables))
            },
        }
    }

    /// The board after a move drawn from the current legal move list, the
    /// rules-engine state re-derived; this board is left untouched.
    pub fn after_move(&self, move_to_make: Move, tables: &Tables) -> (b: Board)
        requires
            self.wf(),
            tables.wf(),
            all_moves_spec(self.position()).contains(move_to_make),
        ensures
            b.wf(),
            b.position() == apply_move(self.position(), move_to_make),
    {
        proof {
            lemma_all_moves_member(self.pos, 64, move_to_make);
            let s = choose|s: int|
                0 <= s < 64 && #[trigger] moves_from(self.pos, s).contains(move_to_make);
            assert(friendly_piece_at(self.pos, s) is Some) by {
                if friendly_piece_at(self.pos, s) is None {
                    assert(moves_from(self.pos, s).len() == 0);
                }
            }
            lemma_moves_member(
                self.pos,
                friendly_piece_at(self.pos, s)->0,
                s,
                64,
                move_to_make,
            );
            lemma_apply_disjoint(self.pos, move_to_make);
            lemma_apply_bb_at(self.pos, move_to_make);
            let q = apply_move(self.pos, move_to_make);
            let qb = apply_bitboards(self.pos, move_to_make);
            assert forall|a: int, b: int, t: int|
                0 <= a < b < 12 implies !(#[trigger] bit64(bb_at(q, a), t) && #[trigger] bit64(
                bb_at(q, b),
                t,
            )) by {
                assert(bb_at(q, a) == bb_at(qb, a) && bb_at(q, b) == bb_at(qb, b));
            }
        }
        let newpos = apply_move_exec(&self.pos, &move_to_make);
        Board::derive(newpos, tables)
    }

    /// Applies a move drawn from the current legal move list and re-derives
    /// the rules-engine state for the new position.
    pub fn make_move(&mut self, move_to_make: Move, tables: &Tables)
        requires
            old(self).wf(),
            tables.wf(),
            all_moves_spec(old(self).position()).contains(move_to_make),
        ensures
            final(self).wf(),
            final(self).position() == apply_move(old(self).position(), move_to_make),
    {
        let nb = self.after_move(move_to_make, tables);
        *self = nb;
    }

    /// A snapshot of the twelve occupancy bitmaps, in bitboard-array order.
    pub fn get_bitboards(&self) -> (r: [u64; 12])
        ensures
            forall|i: int| 0 <= i < 12 ==> r@[i] == bb_at(self.position(), i),
    {
        let r: [u64; 12] = [
            self.pos.white_king,
            self.pos.white_queen,
            self.pos.white_bishop,
            self.pos.white_knight,
            self.pos.white_rook,
            self.pos.white_pawn,
            self.pos.black_king,
            self.pos.black_queen,
            self.pos.black_bishop,
            self.pos.black_knight,
            self.pos.black_rook,
            self.pos.black_pawn,
        ];
        r
    }

    /// Whose turn it is.
    pub fn get_if_white_to_move(&self) -> (r: bool)
        ensures
            r == self.position().white_to_move,
    {
        self.pos.white_to_move
    }

    /// The legal moves originating from one square.
    pub fn get_moves(&self, index: i32) -> (r: &Vec<Move>)
        requires
            self.wf(),
            0 <= index < 64,
        ensures
            r@ == moves_from(self.position(), index as int),
    {
        &self.moves[index as usize]
    }

    /// Every legal move of the side to move, in origin-square order.
    pub fn get_all_moves(&self) -> (r: Vec<Move>)
        requires
            self.wf(),
        ensures
            r@ == all_moves_spec(self.position()),
    {
        let mut r: Vec<Move> = Vec::new();
        let mut s: usize = 0;
        while s < 64
            invariant
                s <= 64,
                self.wf(),
                r@ == all_moves_upto(self.position(), s as int),
            decreases 64 - s,
        {
            let ms = &self.moves[s];
            let mut i: usize = 0;
            while i < ms.len()
                invariant
                    s < 64,
                    i <= ms@.len(),
                    self.wf(),
                    ms == &self.moves@[s as int],
                    r@ == all_moves_upto(self.position(), s as int) + ms@.subrange(0, i as int),
                decreases ms@.len() - i,
            {
                r.push(ms[i]);
                proof {
                    assert(r@ =~= all_moves_upto(self.position(), s as int) + ms@.subrange(
                        0,
                        i + 1,
                    ));
                }
                i += 1;
            }
            proof {
                assert(ms@.subrange(0, ms@.len() as int) =~= ms@);
                assert(r@ =~= all_moves_upto(self.position(), s as int + 1));
            }
            s += 1;
        }
        r
    }

    /// The side to move has no legal move while standing in check.
    pub fn is_checkmate(&self) -> (r: bool)
        requires
            self.wf(),
        ensures
            r == is_checkmate_spec(self.position()),
    {
        let mut s: usize = 0;
        let mut empty = true;
        while s < 64
            invariant
                s <= 64,
                self.wf(),
                empty == (forall|j: int|
                    0 <= j < s ==> (#[trigger] moves_from(self.position(), j)).len() == 0),
            decreases 64 - s,
        {
            if self.moves[s].len() > 0 {
                empty = false;
            }
            s += 1;
        }
        proof {
            lemma_all_moves_empty(self.pos, 64);
        }
        empty && self.checks.len() > 0
    }
}

/// A square whose destinations are all illegal generates no moves.
proof fn lemma_moves_upto_empty(pos: Position, p: PieceType, s: int, tmax: int)
    requires
        forall|t: int| !legal_dest(pos, p, s, t),
    ensures
        moves_upto(pos, p, s, tmax).len() == 0,
    decreases tmax,
{
    if tmax > 0 {
        lemma_moves_upto_empty(pos, p, s, tmax - 1);
    }
}

/// A pinned piece (other than a king, which cannot be pinned into this
/// position) contributes no legal moves at all.
pub proof fn lemma_pinned_piece_has_no_moves(pos: Position, s: int)
    requires
        0 <= s < 64,
        pinned(pos, s),
        !is_king(square_owner(pos, s)),
    ensures
        moves_from(pos, s).len() == 0,
{
    match friendly_piece_at(pos, s) {
        Some(p) => {
            assert(forall|t: int| !legal_dest(pos, p, s, t));
            lemma_moves_upto_empty(pos, p, s, 64);
        },
        None => {
        },
    }
}

/// The piece the move list of square `s` belongs to (an arbitrary piece
/// kind when the square is empty).
pub open spec fn square_owner(pos: Position, s: int) -> PieceType {
    match friendly_piece_at(pos, s) {
        Some(p) => p,
        None => PieceType::WhitePawn,
    }
}

/// Check resolution: while in check, every legal move either is a king move
/// onto a square outside the opponent attack map, or lands on the resolving
/// set of every standing check (for a single contact checker: captures it).
pub proof fn lemma_check_resolution(pos: Position, s: int, m: Move)
    requires
        0 <= s < 64,
        disjoint_bitboards(pos),
        moves_from(pos, s).contains(m),
    ensures
        is_king(m.moved_piece_type) ==> !attacks_sq(
            pos,
            !pos.white_to_move,
            m.end_square as int,
        ),
        !is_king(m.moved_piece_type) ==> resolves_all_checks(pos, m.end_square as int),
{
    assert(friendly_piece_at(pos, s) is Some) by {
        if friendly_piece_at(pos, s) is None {
            assert(moves_from(pos, s).len() == 0);
        }
    }
    lemma_moves_member(pos, friendly_piece_at(pos, s)->0, s, 64, m);
    assert(legal_dest(pos, m.moved_piece_type, m.start_square as int, m.end_square as int));
}

} // verus!
