//! The rules engine: the opponent attack map, check detection with
//! resolving sets, pin detection, castling legality and the assembly of the
//! authoritative legal move list, all derived afresh from a position.

use vstd::prelude::*;
use crate::bits::{
    bb_set,
    bb_test,
    bit64,
    lemma_bit_and,
    lemma_bit_andnot,
    lemma_bit_or,
    lemma_bit_single,
    lemma_bit_zero,
    lemma_onehot,
};
use crate::attacks::{
    king_moves,
    king_move_ext,
    king_step,
    knight_move,
    knight_moves,
    on_board,
    pawn_attack,
    pawn_attacks,
    pawn_moves,
    pawn_promote_rank,
    pawn_push,
    pawn_skip_sq,
};
use crate::magic::{
    bishop_attack,
    get_bishop_moves,
    get_rook_moves,
    ray_reaches,
    rook_attack,
    slider_dir,
    Tables,
};
use crate::pieces::{is_king, is_pawn, is_white_piece, piece_index, piece_of_index, PieceType};
use crate::position::{
    bb_at,
    occ_all,
    occ_black,
    occ_white,
    piece_at,
    CastlingRights,
    Move,
    MoveFlags,
    CastleSide,
    Position,
};

verus! {

/// The `k`-th piece kind of one army (0 king .. 5 pawn).
pub open spec fn colour_piece(white: bool, k: int) -> PieceType {
    piece_of_index(
        if white {
            k
        } else {
            k + 6
        },
    )
}

/// The squares a given piece on `s` attacks under occupancy `occ` (diagonal
/// pawn captures only, no pushes; king steps without castling).
pub open spec fn piece_attacks(occ: u64, p: PieceType, s: int, t: int) -> bool {
    match p {
        PieceType::WhiteKing => king_step(s, t),
        PieceType::BlackKing => king_step(s, t),
        PieceType::WhiteQueen => rook_attack(occ, s, t) || bishop_attack(occ, s, t),
        PieceType::BlackQueen => rook_attack(occ, s, t) || bishop_attack(occ, s, t),
        PieceType::WhiteBishop => bishop_attack(occ, s, t),
        PieceType::BlackBishop => bishop_attack(occ, s, t),
        PieceType::WhiteKnight => knight_move(s, t),
        PieceType::BlackKnight => knight_move(s, t),
        PieceType::WhiteRook => rook_attack(occ, s, t),
        PieceType::BlackRook => rook_attack(occ, s, t),
        PieceType::WhitePawn => pawn_attack(s, true, t),
        PieceType::BlackPawn => pawn_attack(s, false, t),
    }
}

/// The `k`-th piece kind of the `white` army stands on `s` and attacks `t`.
pub open spec fn attacker_hit(pos: Position, white: bool, k: int, s: int, t: int) -> bool {
    0 <= k < 6 && 0 <= s < 64 && bit64(
        bb_at(
            pos,
            if white {
                k
            } else {
                k + 6
            },
        ),
        s,
    ) && piece_attacks(occ_all(pos), colour_piece(white, k), s, t)
}

/// Square `t` is attacked by some piece of the `white` army.  Slider
/// attacks are read under the full current occupancy; a defended piece's
/// square counts as attacked, since the map serves king-safety tests.
pub open spec fn attacks_sq(pos: Position, white: bool, t: int) -> bool {
    exists|k: int, s: int| #[trigger] attacker_hit(pos, white, k, s, t)
}

/// The lowest set bit at or above `i`, or 64 when there is none.
pub open spec fn lowest_bit_from(b: u64, i: int) -> int
    decreases 64 - i,
{
    if i < 0 || i >= 64 {
        64
    } else if bit64(b, i) {
        i
    } else {
        lowest_bit_from(b, i + 1)
    }
}

/// The square of the `white` king: the lowest set bit of its bitboard, or
/// 64 on a board without that king.
pub open spec fn king_sq(pos: Position, white: bool) -> int {
    lowest_bit_from(
        if white {
            pos.white_king
        } else {
            pos.black_king
        },
        0,
    )
}

/// Finds the lowest set bit, or 64.
pub fn lowest_square(b: u64) -> (r: usize)
    ensures
        r == lowest_bit_from(b, 0),
        r <= 64,
{
    let mut i: usize = 0;
    while i < 64
        invariant
            i <= 64,
            lowest_bit_from(b, 0) == lowest_bit_from(b, i as int),
        decreases 64 - i,
    {
        if bb_test(b, i) {
            return i;
        }
        i += 1;
    }
    64
}

/// Attack bitboard of one piece on `s`: its pseudo-legal attack pattern,
/// friendly squares included (a defended piece still covers its square).
pub fn piece_attack_bb(tables: &Tables, occ: u64, p: PieceType, s: usize) -> (bb: u64)
    requires
        tables.wf(),
        s < 64,
    ensures
        forall|t: int| #[trigger] bit64(bb, t) == piece_attacks(occ, p, s as int, t),
{
    let onehot: u64 = 1u64 << (s as u64);
    proof {
        lemma_onehot(s as u64);
    }
    match p {
        PieceType::WhiteKing | PieceType::BlackKing => {
            let r = king_moves(&onehot, false, false);
            r.0
        },
        PieceType::WhiteQueen | PieceType::BlackQueen => {
            let a = get_rook_moves(tables, s as i32, &occ);
            let b = get_bishop_moves(tables, s as i32, &occ);
            let ab = a | b;
            proof {
                lemma_bit_or(a, b);
                assert forall|t: int| #[trigger]
                    bit64(ab, t) == piece_attacks(occ, p, s as int, t) by {
                    assert(bit64(ab, t) == (bit64(a, t) || bit64(b, t)));
                }
            }
            ab
        },
        PieceType::WhiteBishop | PieceType::BlackBishop => get_bishop_moves(tables, s as i32, &occ),
        PieceType::WhiteKnight | PieceType::BlackKnight => knight_moves(&onehot),
        PieceType::WhiteRook | PieceType::BlackRook => get_rook_moves(tables, s as i32, &occ),
        PieceType::WhitePawn => {
            let r = pawn_attacks(&onehot, true, None);
            r.0
        },
        PieceType::BlackPawn => {
            let r = pawn_attacks(&onehot, false, None);
            r.0
        },
    }
}

/// Some piece of the `white` army with kind index below `k`, or with kind
/// index `k` and square below `s`, attacks `t`.
pub open spec fn attacks_before(pos: Position, white: bool, k: int, s: int, t: int) -> bool {
    exists|k2: int, s2: int|
        (k2 < k || (k2 == k && s2 < s)) && #[trigger] attacker_hit(pos, white, k2, s2, t)
}

/// The union of the attack bitboards of every piece of the `white` army.
pub fn attacks_map(pos: &Position, tables: &Tables, white: bool) -> (att: u64)
    requires
        tables.wf(),
    ensures
        forall|t: int| #[trigger] bit64(att, t) == attacks_sq(*pos, white, t),
{
    let occ = pos.occupancy();
    let types = PieceType::get_colour_types(white);
    let mut att: u64 = 0;
    proof {
        lemma_bit_zero();
    }
    let mut k: usize = 0;
    while k < 6
        invariant
            k <= 6,
            occ == occ_all(*pos),
            tables.wf(),
            types@.len() == 6,
            forall|j: int|
                0 <= j < 6 ==> #[trigger] types@[j] == piece_of_index(
                    if white {
                        j
                    } else {
                        j + 6
                    },
                ),
            forall|t: int| #[trigger] bit64(att, t) == attacks_before(*pos, white, k as int, 0, t),
        decreases 6 - k,
    {
        let p = types[k];
        let pbb = pos.get_bb(if white {
            k
        } else {
            k + 6
        });
        let mut s: usize = 0;
        while s < 64
            invariant
                k < 6,
                s <= 64,
                occ == occ_all(*pos),
                tables.wf(),
                p == colour_piece(white, k as int),
                pbb == bb_at(
                    *pos,
                    if white {
                        k as int
                    } else {
                        k as int + 6
                    },
                ),
                forall|t: int| #[trigger]
                    bit64(att, t) == attacks_before(*pos, white, k as int, s as int, t),
            decreases 64 - s,
        {
            if bb_test(pbb, s) {
                let abb = piece_attack_bb(tables, occ, p, s);
                let ghost att0 = att;
                att = att | abb;
                proof {
                    lemma_bit_or(att0, abb);
                    assert forall|t: int| #[trigger]
                        bit64(att, t) == attacks_before(
                            *pos,
                            white,
                            k as int,
                            s as int + 1,
                            t,
                        ) by {
                        assert(bit64(att, t) == (bit64(att0, t) || bit64(abb, t)));
                        if bit64(att, t) {
                            if bit64(att0, t) {
                                let (k2, s2) = choose|k2: int, s2: int|
                                    (k2 < k as int || (k2 == k as int && s2 < s as int))
                                        && #[trigger] attacker_hit(*pos, white, k2, s2, t);
                                assert(attacker_hit(*pos, white, k2, s2, t));
                            } else {
                                assert(attacker_hit(*pos, white, k as int, s as int, t));
                            }
                        }
                        if attacks_before(*pos, white, k as int, s as int + 1, t) {
                            let (k2, s2) = choose|k2: int, s2: int|
                                (k2 < k as int || (k2 == k as int && s2 < s as int + 1))
                                    && #[trigger] attacker_hit(*pos, white, k2, s2, t);
                            if k2 == k as int && s2 == s as int {
                                assert(bit64(abb, t));
                            } else {
                                assert(attacks_before(*pos, white, k as int, s as int, t));
                            }
                        }
                    }
                }
            } else {
                proof {
                    assert forall|t: int| #[trigger]
                        bit64(att, t) == attacks_before(
                            *pos,
                            white,
                            k as int,
                            s as int + 1,
                            t,
                        ) by {
                        if attacks_before(*pos, white, k as int, s as int + 1, t) {
                            let (k2, s2) = choose|k2: int, s2: int|
                                (k2 < k as int || (k2 == k as int && s2 < s as int + 1))
                                    && #[trigger] attacker_hit(*pos, white, k2, s2, t);
                            assert(!(k2 == k as int && s2 == s as int));
                            assert(attacks_before(*pos, white, k as int, s as int, t));
                        }
                        if bit64(att, t) {
                            let (k2, s2) = choose|k2: int, s2: int|
                                (k2 < k as int || (k2 == k as int && s2 < s as int))
                                    && #[trigger] attacker_hit(*pos, white, k2, s2, t);
                            assert(attacker_hit(*pos, white, k2, s2, t));
                        }
                    }
                }
            }
            s += 1;
        }
        proof {
            assert forall|t: int| #[trigger]
                bit64(att, t) == attacks_before(*pos, white, k as int + 1, 0, t) by {
                if bit64(att, t) {
                    let (k2, s2) = choose|k2: int, s2: int|
                        (k2 < k as int || (k2 == k as int && s2 < 64)) && #[trigger] attacker_hit(
                            *pos,
                            white,
                            k2,
                            s2,
                            t,
                        );
                    assert(attacker_hit(*pos, white, k2, s2, t));
                }
                if attacks_before(*pos, white, k as int + 1, 0, t) {
                    let (k2, s2) = choose|k2: int, s2: int|
                        (k2 < k as int + 1 || (k2 == k as int + 1 && s2 < 0))
                            && #[trigger] attacker_hit(*pos, white, k2, s2, t);
                    assert(s2 < 64);
                    assert(attacks_before(*pos, white, k as int, 64, t));
                }
            }
        }
        k += 1;
    }
    proof {
        assert forall|t: int| #[trigger] bit64(att, t) == attacks_sq(*pos, white, t) by {
            if bit64(att, t) {
                let (k2, s2) = choose|k2: int, s2: int|
                    (k2 < 6 || (k2 == 6 && s2 < 0)) && #[trigger] attacker_hit(
                        *pos,
                        white,
                        k2,
                        s2,
                        t,
                    );
                assert(attacker_hit(*pos, white, k2, s2, t));
            }
            if attacks_sq(*pos, white, t) {
                let (k2, s2) = choose|k2: int, s2: int| #[trigger] attacker_hit(
                    *pos,
                    white,
                    k2,
                    s2,
                    t,
                );
                assert(attacks_before(*pos, white, 6, 0, t));
            }
        }
    }
    att
}

/// The squares a ray from `(f, r)` crosses strictly before reaching `stop`.
pub open spec fn seg_reaches(f: int, r: int, df: int, dr: int, stop: int, m: int, fuel: nat) -> bool
    decreases fuel,
{
    fuel > 0 && 0 <= f + df < 8 && 0 <= r + dr < 8 && {
        let n = (r + dr) * 8 + (f + df);
        n != stop && (n == m || seg_reaches(f + df, r + dr, df, dr, stop, m, (fuel - 1) as nat))
    }
}

/// The `k`-th piece kind of the opponent army stands on `s` and checks the
/// king of the side to move.  A king cannot give check, so kind 0 is out.
pub open spec fn checker(pos: Position, k: int, s: int) -> bool {
    let by_white = !pos.white_to_move;
    1 <= k < 6 && 0 <= s < 64 && bit64(
        bb_at(
            pos,
            if by_white {
                k
            } else {
                k + 6
            },
        ),
        s,
    ) && piece_attacks(
        occ_all(pos),
        colour_piece(by_white, k),
        s,
        king_sq(pos, pos.white_to_move),
    )
}

/// The side to move stands in check.
pub open spec fn in_check(pos: Position) -> bool {
    exists|k: int, s: int| #[trigger] checker(pos, k, s)
}

/// The directions along which the `k`-th piece kind can give a ray check.
pub open spec fn check_dir_ok(k: int, df: int, dr: int) -> bool {
    (k == 1 && (slider_dir(false, df, dr) || slider_dir(true, df, dr))) || (k == 2 && slider_dir(
        true,
        df,
        dr,
    )) || (k == 4 && slider_dir(false, df, dr))
}

/// The resolving set of one check: a move onto one of these squares
/// captures the checker or blocks its ray.  Contact checks (knight, pawn)
/// admit only the checker's square; ray checks add the squares strictly
/// between checker and king.
pub open spec fn check_resolve(pos: Position, k: int, s: int, m: int) -> bool {
    if k == 3 || k == 5 {
        m == s
    } else {
        let ksq = king_sq(pos, pos.white_to_move);
        m == s || exists|df: int, dr: int|
            #[trigger] check_dir_ok(k, df, dr) && ray_reaches(
                occ_all(pos),
                s % 8,
                s / 8,
                df,
                dr,
                ksq,
                7,
            ) && seg_reaches(s % 8, s / 8, df, dr, ksq, m, 7)
    }
}

/// A move onto `m` resolves every check at once.
pub open spec fn resolves_all_checks(pos: Position, m: int) -> bool {
    forall|k: int, s: int| #[trigger] checker(pos, k, s) ==> check_resolve(pos, k, s, m)
}

/// Walks one ray toward the king: reports whether the walk reaches `ksq`,
/// and if so the squares strictly between (the blocking squares).
fn resolve_ray(occ: u64, s: usize, ksq: usize, df: i32, dr: i32) -> (r: (bool, u64))
    requires
        s < 64,
        ksq < 64,
        -1 <= df <= 1,
        -1 <= dr <= 1,
        df != 0 || dr != 0,
    ensures
        r.0 == ray_reaches(occ, (s as int) % 8, (s as int) / 8, df as int, dr as int, ksq as int, 7),
        forall|m: int| #[trigger]
            bit64(r.1, m) == (r.0 && seg_reaches(
                (s as int) % 8,
                (s as int) / 8,
                df as int,
                dr as int,
                ksq as int,
                m,
                7,
            )),
{
    let f0 = (s % 8) as i32;
    let r0 = (s / 8) as i32;
    let ghost fi = (s as int) % 8;
    let ghost ri = (s as int) / 8;
    let mut seg: u64 = 0;
    let mut f = f0 + df;
    let mut r = r0 + dr;
    let ghost mut steps: int = 0;
    proof {
        lemma_bit_zero();
    }
    loop
        invariant
            s < 64,
            ksq < 64,
            fi == (s as int) % 8,
            ri == (s as int) / 8,
            f0 == fi,
            r0 == ri,
            -1 <= df <= 1,
            -1 <= dr <= 1,
            df != 0 || dr != 0,
            0 <= steps <= 7,
            (df == 1 ==> f == f0 + steps + 1),
            (df == -1 ==> f == f0 - steps - 1),
            (df == 0 ==> f == f0),
            (dr == 1 ==> r == r0 + steps + 1),
            (dr == -1 ==> r == r0 - steps - 1),
            (dr == 0 ==> r == r0),
            ray_reaches(occ, fi, ri, df as int, dr as int, ksq as int, 7) == ray_reaches(
                occ,
                f - df,
                r - dr,
                df as int,
                dr as int,
                ksq as int,
                (7 - steps) as nat,
            ),
            forall|m: int|
                seg_reaches(fi, ri, df as int, dr as int, ksq as int, m, 7) == (#[trigger] bit64(
                    seg,
                    m,
                ) || seg_reaches(
                    f - df,
                    r - dr,
                    df as int,
                    dr as int,
                    ksq as int,
                    m,
                    (7 - steps) as nat,
                )),
        decreases 8 - steps,
    {
        if 0 <= f && f < 8 && 0 <= r && r < 8 {
            assert(steps <= 6);
            let n = (r * 8 + f) as usize;
            assert(n < 64 && n as int == r * 8 + f);
            if n == ksq {
                proof {
                    assert(ray_reaches(
                        occ,
                        f - df,
                        r - dr,
                        df as int,
                        dr as int,
                        ksq as int,
                        (7 - steps) as nat,
                    ));
                    assert forall|m: int|
                        seg_reaches(fi, ri, df as int, dr as int, ksq as int, m, 7)
                            == #[trigger] bit64(seg, m) by {
                        assert(!seg_reaches(
                            f - df,
                            r - dr,
                            df as int,
                            dr as int,
                            ksq as int,
                            m,
                            (7 - steps) as nat,
                        ));
                    }
                }
                return (true, seg);
            }
            if bb_test(occ, n) {
                proof {
                    lemma_bit_zero();
                    assert(!ray_reaches(
                        occ,
                        f - df,
                        r - dr,
                        df as int,
                        dr as int,
                        ksq as int,
                        (7 - steps) as nat,
                    ));
                }
                return (false, 0);
            }
            let ghost seg0 = seg;
            let ghost fo = f as int;
            let ghost ro = r as int;
            let ghost so = steps;
            seg = bb_set(seg, n);
            f = f + df;
            r = r + dr;
            proof {
                steps = steps + 1;
                assert(ray_reaches(occ, fo - df, ro - dr, df as int, dr as int, ksq as int, (7
                    - so) as nat) == ray_reaches(
                    occ,
                    fo,
                    ro,
                    df as int,
                    dr as int,
                    ksq as int,
                    (7 - so - 1) as nat,
                ));
                assert forall|m: int|
                    seg_reaches(fi, ri, df as int, dr as int, ksq as int, m, 7) == (#[trigger] bit64(
                        seg,
                        m,
                    ) || seg_reaches(
                        f - df,
                        r - dr,
                        df as int,
                        dr as int,
                        ksq as int,
                        m,
                        (7 - steps) as nat,
                    )) by {
                    assert(f - df == fo && r - dr == ro && steps == so + 1);
                    assert(seg_reaches(fi, ri, df as int, dr as int, ksq as int, m, 7) == (bit64(
                        seg0,
                        m,
                    ) || seg_reaches(
                        fo - df,
                        ro - dr,
                        df as int,
                        dr as int,
                        ksq as int,
                        m,
                        (7 - so) as nat,
                    )));
                    assert(seg_reaches(fo - df, ro - dr, df as int, dr as int, ksq as int, m, (7
                        - so) as nat) == (n as int == m || seg_reaches(
                        fo,
                        ro,
                        df as int,
                        dr as int,
                        ksq as int,
                        m,
                        (7 - so - 1) as nat,
                    )));
                    assert(bit64(seg, m) == (bit64(seg0, m) || m == n as int));
                }
            }
        } else {
            proof {
                lemma_bit_zero();
                assert(!ray_reaches(
                    occ,
                    f - df,
                    r - dr,
                    df as int,
                    dr as int,
                    ksq as int,
                    (7 - steps) as nat,
                ));
            }
            return (false, 0);
        }
    }
}

/// Unions into `bb` the blocking squares of one direction, when that
/// direction's ray reaches the king.
fn add_resolve_dir(bb: u64, occ: u64, s: usize, ksq: usize, df: i32, dr: i32) -> (r: u64)
    requires
        s < 64,
        ksq < 64,
        -1 <= df <= 1,
        -1 <= dr <= 1,
        df != 0 || dr != 0,
    ensures
        forall|m: int| #[trigger]
            bit64(r, m) == (bit64(bb, m) || (ray_reaches(
                occ,
                (s as int) % 8,
                (s as int) / 8,
                df as int,
                dr as int,
                ksq as int,
                7,
            ) && seg_reaches(
                (s as int) % 8,
                (s as int) / 8,
                df as int,
                dr as int,
                ksq as int,
                m,
                7,
            ))),
{
    let rr = resolve_ray(occ, s, ksq, df, dr);
    if rr.0 {
        let out = bb | rr.1;
        proof {
            lemma_bit_or(bb, rr.1);
            assert forall|m: int| #[trigger]
                bit64(out, m) == (bit64(bb, m) || (ray_reaches(
                    occ,
                    (s as int) % 8,
                    (s as int) / 8,
                    df as int,
                    dr as int,
                    ksq as int,
                    7,
                ) && seg_reaches(
                    (s as int) % 8,
                    (s as int) / 8,
                    df as int,
                    dr as int,
                    ksq as int,
                    m,
                    7,
                ))) by {
                assert(bit64(out, m) == (bit64(bb, m) || bit64(rr.1, m)));
            }
        }
        out
    } else {
        bb
    }
}

/// The resolving bitboard of a ray checker on `s`: its own square plus the
/// blocking squares of every direction of its kind that reaches the king.
fn slider_resolve(occ: u64, s: usize, ksq: usize, ortho: bool, diag: bool) -> (bb: u64)
    requires
        s < 64,
        ksq < 64,
    ensures
        forall|m: int| #[trigger]
            bit64(bb, m) == (m == s as int || exists|df: int, dr: int|
                #![trigger ray_reaches(occ, (s as int) % 8, (s as int) / 8, df, dr, ksq as int, 7)]
                ((ortho && slider_dir(false, df, dr)) || (diag && slider_dir(true, df, dr)))
                    && ray_reaches(occ, (s as int) % 8, (s as int) / 8, df, dr, ksq as int, 7)
                    && seg_reaches((s as int) % 8, (s as int) / 8, df, dr, ksq as int, m, 7)),
{
    let ghost fi = (s as int) % 8;
    let ghost ri = (s as int) / 8;
    let b0: u64 = 1u64 << (s as u64);
    proof {
        lemma_bit_single(s as u64);
    }
    let mut bb = b0;
    if ortho {
        bb = add_resolve_dir(bb, occ, s, ksq, 1, 0);
        bb = add_resolve_dir(bb, occ, s, ksq, -1, 0);
        bb = add_resolve_dir(bb, occ, s, ksq, 0, 1);
        bb = add_resolve_dir(bb, occ, s, ksq, 0, -1);
    }
    if diag {
        bb = add_resolve_dir(bb, occ, s, ksq, 1, 1);
        bb = add_resolve_dir(bb, occ, s, ksq, 1, -1);
        bb = add_resolve_dir(bb, occ, s, ksq, -1, 1);
        bb = add_resolve_dir(bb, occ, s, ksq, -1, -1);
    }
    proof {
        assert(slider_dir(false, 1, 0) && slider_dir(false, -1, 0) && slider_dir(false, 0, 1)
            && slider_dir(false, 0, -1));
        assert(slider_dir(true, 1, 1) && slider_dir(true, 1, -1) && slider_dir(true, -1, 1)
            && slider_dir(true, -1, -1));
        assert forall|m: int| #[trigger]
            bit64(bb, m) == (m == s as int || exists|df: int, dr: int|
                #![trigger ray_reaches(occ, fi, ri, df, dr, ksq as int, 7)]
                ((ortho && slider_dir(false, df, dr)) || (diag && slider_dir(true, df, dr)))
                    && ray_reaches(occ, fi, ri, df, dr, ksq as int, 7) && seg_reaches(
                    fi,
                    ri,
                    df,
                    dr,
                    ksq as int,
                    m,
                    7,
                )) by {
            assert(bit64(b0, m) == (m == s as int));
            if !bit64(bb, m) && m != s as int {
                if exists|df: int, dr: int|
                    #![trigger ray_reaches(occ, fi, ri, df, dr, ksq as int, 7)]
                    ((ortho && slider_dir(false, df, dr)) || (diag && slider_dir(true, df, dr)))
                        && ray_reaches(occ, fi, ri, df, dr, ksq as int, 7) && seg_reaches(
                        fi,
                        ri,
                        df,
                        dr,
                        ksq as int,
                        m,
                        7,
                    ) {
                    let (df, dr) = choose|df: int, dr: int|
                        #![trigger ray_reaches(occ, fi, ri, df, dr, ksq as int, 7)]
                        ((ortho && slider_dir(false, df, dr)) || (diag && slider_dir(
                            true,
                            df,
                            dr,
                        ))) && ray_reaches(occ, fi, ri, df, dr, ksq as int, 7) && seg_reaches(
                            fi,
                            ri,
                            df,
                            dr,
                            ksq as int,
                            m,
                            7,
                        );
                    assert(false);
                }
            }
        }
    }
    bb
}

/// Every bitboard in `cs` has bit `m` set: a move onto `m` passes every
/// recorded check filter.
pub open spec fn all_checks_cover(cs: Seq<u64>, m: int) -> bool {
    forall|i: int| 0 <= i < cs.len() ==> bit64(#[trigger] cs[i], m)
}

/// `m` resolves every check from a piece enumerated before kind `k`,
/// square `s`.
pub open spec fn resolves_checks_before(pos: Position, k: int, s: int, m: int) -> bool {
    forall|k2: int, s2: int|
        #[trigger] checker(pos, k2, s2) && (k2 < k || (k2 == k && s2 < s)) ==> check_resolve(
            pos,
            k2,
            s2,
            m,
        )
}

/// No checking piece is enumerated before kind `k`, square `s`.
pub open spec fn no_checker_before(pos: Position, k: int, s: int) -> bool {
    forall|k2: int, s2: int| #[trigger] checker(pos, k2, s2) ==> !(k2 < k || (k2 == k && s2 < s))
}

/// Detects every check against the side to move and returns one resolving
/// bitboard per checking piece: the whole vector, intersected, is the filter
/// a non-king move must pass.
pub fn detect_checks(pos: &Position, tables: &Tables) -> (checks: Vec<u64>)
    requires
        tables.wf(),
    ensures
        (checks@.len() == 0) == !in_check(*pos),
        forall|m: int| #[trigger] all_checks_cover(checks@, m) == resolves_all_checks(*pos, m),
{
    let wtm = pos.white_to_move;
    let by = !wtm;
    let kbb = if wtm {
        pos.white_king
    } else {
        pos.black_king
    };
    let ksq = lowest_square(kbb);
    let occ = pos.occupancy();
    let mut checks: Vec<u64> = Vec::new();
    if ksq >= 64 {
        proof {
            assert forall|k2: int, s2: int| !checker(*pos, k2, s2) by {
                if checker(*pos, k2, s2) {
                    let f = s2 % 8;
                    let r = s2 / 8;
                    crate::magic::lemma_ray_on_board(occ_all(*pos), f, r, 1, 0, 64, 7);
                    crate::magic::lemma_ray_on_board(occ_all(*pos), f, r, -1, 0, 64, 7);
                    crate::magic::lemma_ray_on_board(occ_all(*pos), f, r, 0, 1, 64, 7);
                    crate::magic::lemma_ray_on_board(occ_all(*pos), f, r, 0, -1, 64, 7);
                    crate::magic::lemma_ray_on_board(occ_all(*pos), f, r, 1, 1, 64, 7);
                    crate::magic::lemma_ray_on_board(occ_all(*pos), f, r, 1, -1, 64, 7);
                    crate::magic::lemma_ray_on_board(occ_all(*pos), f, r, -1, 1, 64, 7);
                    crate::magic::lemma_ray_on_board(occ_all(*pos), f, r, -1, -1, 64, 7);
                }
            }
        }
        return checks;
    }
    let types = PieceType::get_colour_types(by);
    let mut k: usize = 1;
    while k < 6
        invariant
            1 <= k <= 6,
            ksq < 64,
            ksq == king_sq(*pos, pos.white_to_move),
            by == !pos.white_to_move,
            occ == occ_all(*pos),
            tables.wf(),
            types@.len() == 6,
            forall|j: int|
                0 <= j < 6 ==> #[trigger] types@[j] == piece_of_index(
                    if by {
                        j
                    } else {
                        j + 6
                    },
                ),
            (checks@.len() == 0) == no_checker_before(*pos, k as int, 0),
            forall|m: int| #[trigger]
                all_checks_cover(checks@, m) == resolves_checks_before(*pos, k as int, 0, m),
        decreases 6 - k,
    {
        let p = types[k];
        let pbb = pos.get_bb(if by {
            k
        } else {
            k + 6
        });
        let mut s: usize = 0;
        while s < 64
            invariant
                1 <= k < 6,
                s <= 64,
                ksq < 64,
                ksq == king_sq(*pos, pos.white_to_move),
                by == !pos.white_to_move,
                occ == occ_all(*pos),
                tables.wf(),
                p == colour_piece(by, k as int),
                pbb == bb_at(
                    *pos,
                    if by {
                        k as int
                    } else {
                        k as int + 6
                    },
                ),
                (checks@.len() == 0) == no_checker_before(*pos, k as int, s as int),
                forall|m: int| #[trigger]
                    all_checks_cover(checks@, m) == resolves_checks_before(
                        *pos,
                        k as int,
                        s as int,
                        m,
                    ),
            decreases 64 - s,
        {
            let mut is_checker_here = false;
            if bb_test(pbb, s) {
                let abb = piece_attack_bb(tables, occ, p, s);
                if bb_test(abb, ksq) {
                    is_checker_here = true;
                }
            }
            if is_checker_here {
                proof {
                    assert(checker(*pos, k as int, s as int));
                }
                let rbb: u64;
                if k == 3 || k == 5 {
                    rbb = 1u64 << (s as u64);
                    proof {
                        lemma_bit_single(s as u64);
                        assert forall|m: int| #[trigger]
                            bit64(rbb, m) == check_resolve(*pos, k as int, s as int, m) by {}
                    }
                } else {
                    rbb = slider_resolve(occ, s, ksq, k == 1 || k == 4, k == 1 || k == 2);
                    proof {
                        let fi = (s as int) % 8;
                        let ri = (s as int) / 8;
                        let ortho = k == 1 || k == 4;
                        let diag = k == 1 || k == 2;
                        assert forall|m: int| #[trigger]
                            bit64(rbb, m) == check_resolve(*pos, k as int, s as int, m) by {
                            if bit64(rbb, m) && m != s as int {
                                let (df, dr) = choose|df: int, dr: int|
                                    #![trigger ray_reaches(occ, fi, ri, df, dr, ksq as int, 7)]
                                    ((ortho && slider_dir(false, df, dr)) || (diag && slider_dir(
                                        true,
                                        df,
                                        dr,
                                    ))) && ray_reaches(occ, fi, ri, df, dr, ksq as int, 7)
                                        && seg_reaches(fi, ri, df, dr, ksq as int, m, 7);
                                assert(check_dir_ok(k as int, df, dr));
                            }
                            if check_resolve(*pos, k as int, s as int, m) && m != s as int {
                                let (df, dr) = choose|df: int, dr: int|
                                    #[trigger] check_dir_ok(k as int, df, dr) && ray_reaches(
                                        occ_all(*pos),
                                        s as int % 8,
                                        s as int / 8,
                                        df,
                                        dr,
                                        king_sq(*pos, pos.white_to_move),
                                        7,
                                    ) && seg_reaches(
                                        s as int % 8,
                                        s as int / 8,
                                        df,
                                        dr,
                                        king_sq(*pos, pos.white_to_move),
                                        m,
                                        7,
                                    );
                                assert((ortho && slider_dir(false, df, dr)) || (diag && slider_dir(
                                    true,
                                    df,
                                    dr,
                                )));
                                assert(ray_reaches(occ, fi, ri, df, dr, ksq as int, 7));
                            }
                        }
                    }
                }
                let ghost checks0 = checks@;
                checks.push(rbb);
                proof {
                    assert forall|m: int| #[trigger]
                        all_checks_cover(checks@, m) == resolves_checks_before(
                            *pos,
                            k as int,
                            s as int + 1,
                            m,
                        ) by {
                        assert(checks@ =~= checks0.push(rbb));
                        assert(all_checks_cover(checks@, m) == (all_checks_cover(checks0, m)
                            && bit64(rbb, m))) by {
                            if all_checks_cover(checks0, m) && bit64(rbb, m) {
                                assert forall|i: int|
                                    0 <= i < checks@.len() implies bit64(
                                    #[trigger] checks@[i],
                                    m,
                                ) by {
                                    if i < checks0.len() {
                                        assert(checks@[i] == checks0[i]);
                                    } else {
                                        assert(checks@[i] == rbb);
                                    }
                                }
                            }
                            if all_checks_cover(checks@, m) {
                                assert forall|i: int|
                                    0 <= i < checks0.len() implies bit64(
                                    #[trigger] checks0[i],
                                    m,
                                ) by {
                                    assert(checks0[i] == checks@[i]);
                                }
                                assert(bit64(checks@[checks0.len() as int], m));
                            }
                        }
                        if resolves_checks_before(*pos, k as int, s as int + 1, m) {
                            assert(check_resolve(*pos, k as int, s as int, m));
                        }
                        if all_checks_cover(checks@, m) {
                            assert forall|k2: int, s2: int|
                                #[trigger] checker(*pos, k2, s2) && (k2 < k as int || (k2
                                    == k as int && s2 < s as int + 1)) implies check_resolve(
                                *pos,
                                k2,
                                s2,
                                m,
                            ) by {
                                if k2 == k as int && s2 == s as int {
                                } else {
                                    assert(resolves_checks_before(*pos, k as int, s as int, m));
                                }
                            }
                        }
                    }
                    assert(checks@.len() > 0);
                    assert(!no_checker_before(*pos, k as int, s as int + 1));
                }
            } else {
                proof {
                    assert(!checker(*pos, k as int, s as int));
                    assert forall|m: int| #[trigger]
                        all_checks_cover(checks@, m) == resolves_checks_before(
                            *pos,
                            k as int,
                            s as int + 1,
                            m,
                        ) by {
                        if all_checks_cover(checks@, m) {
                            assert forall|k2: int, s2: int|
                                #[trigger] checker(*pos, k2, s2) && (k2 < k as int || (k2
                                    == k as int && s2 < s as int + 1)) implies check_resolve(
                                *pos,
                                k2,
                                s2,
                                m,
                            ) by {
                                assert(!(k2 == k as int && s2 == s as int));
                                assert(resolves_checks_before(*pos, k as int, s as int, m));
                            }
                        }
                        if resolves_checks_before(*pos, k as int, s as int + 1, m) {
                            assert(resolves_checks_before(*pos, k as int, s as int, m));
                        }
                    }
                    assert((checks@.len() == 0) == no_checker_before(
                        *pos,
                        k as int,
                        s as int + 1,
                    )) by {
                        if no_checker_before(*pos, k as int, s as int) {
                            assert forall|k2: int, s2: int| #[trigger]
                                checker(*pos, k2, s2) implies !(k2 < k as int || (k2 == k as int
                                && s2 < s as int + 1)) by {
                                assert(!(k2 == k as int && s2 == s as int));
                            }
                        }
                    }
                }
            }
            s += 1;
        }
        proof {
            assert forall|m: int| #[trigger]
                all_checks_cover(checks@, m) == resolves_checks_before(
                    *pos,
                    k as int + 1,
                    0,
                    m,
                ) by {
                assert forall|k2: int, s2: int|
                    #[trigger] checker(*pos, k2, s2) && (k2 < k as int + 1 || (k2 == k as int + 1
                        && s2 < 0)) implies (k2 < k as int || (k2 == k as int && s2 < 64)) by {}
                assert forall|k2: int, s2: int|
                    #[trigger] checker(*pos, k2, s2) && (k2 < k as int || (k2 == k as int && s2
                        < 64)) implies (k2 < k as int + 1 || (k2 == k as int + 1 && s2 < 0)) by {}
            }
            assert((checks@.len() == 0) == no_checker_before(*pos, k as int + 1, 0)) by {
                if no_checker_before(*pos, k as int, 64) {
                    assert forall|k2: int, s2: int| #[trigger]
                        checker(*pos, k2, s2) implies !(k2 < k as int + 1 || (k2 == k as int + 1
                        && s2 < 0)) by {}
                }
            }
        }
        k += 1;
    }
    proof {
        assert forall|m: int| #[trigger]
            all_checks_cover(checks@, m) == resolves_all_checks(*pos, m) by {
            if all_checks_cover(checks@, m) {
                assert forall|k2: int, s2: int| #[trigger]
                    checker(*pos, k2, s2) implies check_resolve(*pos, k2, s2, m) by {
                    assert(k2 < 6 || (k2 == 6 && s2 < 0));
                    assert(resolves_checks_before(*pos, 6, 0, m));
                }
            }
            if resolves_all_checks(*pos, m) {
                assert forall|k2: int, s2: int|
                    #[trigger] checker(*pos, k2, s2) && (k2 < 6 || (k2 == 6 && s2 < 0))
                        implies check_resolve(*pos, k2, s2, m) by {}
            }
        }
        assert((checks@.len() == 0) == !in_check(*pos)) by {
            if no_checker_before(*pos, 6, 0) {
                assert forall|k2: int, s2: int| !checker(*pos, k2, s2) by {
                    if checker(*pos, k2, s2) {
                        assert(k2 < 6);
                    }
                }
            }
            if !in_check(*pos) {
                assert forall|k2: int, s2: int| #[trigger]
                    checker(*pos, k2, s2) implies !(k2 < 6 || (k2 == 6 && s2 < 0)) by {
                    assert(in_check(*pos));
                }
            }
        }
    }
    checks
}

/// Every bitboard of the position is contained in the overall occupancy.
pub proof fn lemma_occ_contains(pos: Position, i: int, t: int)
    requires
        0 <= i < 12,
        bit64(bb_at(pos, i), t),
    ensures
        bit64(occ_all(pos), t),
{
    lemma_bit_or(pos.white_king, pos.white_queen);
    lemma_bit_or(pos.white_king | pos.white_queen, pos.white_bishop);
    lemma_bit_or(pos.white_king | pos.white_queen | pos.white_bishop, pos.white_knight);
    lemma_bit_or(
        pos.white_king | pos.white_queen | pos.white_bishop | pos.white_knight,
        pos.white_rook,
    );
    lemma_bit_or(
        pos.white_king | pos.white_queen | pos.white_bishop | pos.white_knight | pos.white_rook,
        pos.white_pawn,
    );
    lemma_bit_or(pos.black_king, pos.black_queen);
    lemma_bit_or(pos.black_king | pos.black_queen, pos.black_bishop);
    lemma_bit_or(pos.black_king | pos.black_queen | pos.black_bishop, pos.black_knight);
    lemma_bit_or(
        pos.black_king | pos.black_queen | pos.black_bishop | pos.black_knight,
        pos.black_rook,
    );
    lemma_bit_or(
        pos.black_king | pos.black_queen | pos.black_bishop | pos.black_knight | pos.black_rook,
        pos.black_pawn,
    );
    lemma_bit_or(occ_white(pos), occ_black(pos));
}

/// A bitboard of one army is contained in that army's occupancy.
pub proof fn lemma_occ_contains_side(pos: Position, j: int, t: int)
    requires
        0 <= j < 12,
        bit64(bb_at(pos, j), t),
    ensures
        j < 6 ==> bit64(occ_white(pos), t),
        j >= 6 ==> bit64(occ_black(pos), t),
{
    lemma_bit_or(pos.white_king, pos.white_queen);
    lemma_bit_or(pos.white_king | pos.white_queen, pos.white_bishop);
    lemma_bit_or(pos.white_king | pos.white_queen | pos.white_bishop, pos.white_knight);
    lemma_bit_or(
        pos.white_king | pos.white_queen | pos.white_bishop | pos.white_knight,
        pos.white_rook,
    );
    lemma_bit_or(
        pos.white_king | pos.white_queen | pos.white_bishop | pos.white_knight | pos.white_rook,
        pos.white_pawn,
    );
    lemma_bit_or(pos.black_king, pos.black_queen);
    lemma_bit_or(pos.black_king | pos.black_queen, pos.black_bishop);
    lemma_bit_or(pos.black_king | pos.black_queen | pos.black_bishop, pos.black_knight);
    lemma_bit_or(
        pos.black_king | pos.black_queen | pos.black_bishop | pos.black_knight,
        pos.black_rook,
    );
    lemma_bit_or(
        pos.black_king | pos.black_queen | pos.black_bishop | pos.black_knight | pos.black_rook,
        pos.black_pawn,
    );
}

/// Characterizes the lowest set bit.
pub proof fn lemma_lowest_bit_from(b: u64, i: int)
    requires
        0 <= i <= 64,
    ensures
        lowest_bit_from(b, i) == 64 ==> (forall|j: int| i <= j < 64 ==> !bit64(b, j)),
        lowest_bit_from(b, i) < 64 ==> i <= lowest_bit_from(b, i) < 64 && bit64(
            b,
            lowest_bit_from(b, i),
        ),
    decreases 64 - i,
{
    if i < 64 {
        lemma_lowest_bit_from(b, i + 1);
    }
}

/// An enemy slider able to attack along `(df, dr)` stands on `s2`.
pub open spec fn pin_slider_at(pos: Position, by_white: bool, s2: int, df: int, dr: int) -> bool {
    let q = if by_white {
        pos.white_queen
    } else {
        pos.black_queen
    };
    let b = if by_white {
        pos.white_bishop
    } else {
        pos.black_bishop
    };
    let r = if by_white {
        pos.white_rook
    } else {
        pos.black_rook
    };
    if slider_dir(true, df, dr) {
        bit64(q, s2) || bit64(b, s2)
    } else {
        bit64(q, s2) || bit64(r, s2)
    }
}

/// Walking the ray from the friendly king in `(df, dr)`: the first piece met
/// is the friendly piece on `p`, and the next piece met is an enemy slider
/// that moves along this ray.  Such a `p` is pinned.
pub open spec fn pinned_in_dir(pos: Position, df: int, dr: int, p: int) -> bool {
    let white = pos.white_to_move;
    let ksq = king_sq(pos, white);
    let occ = occ_all(pos);
    let friendly = if white {
        occ_white(pos)
    } else {
        occ_black(pos)
    };
    on_board(ksq) && ray_reaches(occ, ksq % 8, ksq / 8, df, dr, p, 7) && bit64(friendly, p)
        && exists|s2: int|
        #[trigger] ray_reaches(occ, p % 8, p / 8, df, dr, s2, 7) && bit64(occ, s2)
            && pin_slider_at(pos, !white, s2, df, dr)
}

/// The piece on `p` is pinned to its own king along some ray.
pub open spec fn pinned(pos: Position, p: int) -> bool {
    pinned_in_dir(pos, 1, 0, p) || pinned_in_dir(pos, -1, 0, p) || pinned_in_dir(pos, 0, 1, p)
        || pinned_in_dir(pos, 0, -1, p) || pinned_in_dir(pos, 1, 1, p) || pinned_in_dir(
        pos,
        1,
        -1,
        p,
    ) || pinned_in_dir(pos, -1, 1, p) || pinned_in_dir(pos, -1, -1, p)
}

/// The first occupied square along a ray, if any.
fn first_blocker(occ: u64, from: usize, df: i32, dr: i32) -> (r: Option<usize>)
    requires
        from < 64,
        -1 <= df <= 1,
        -1 <= dr <= 1,
        df != 0 || dr != 0,
    ensures
        match r {
            Some(b) => b < 64 && ray_reaches(
                occ,
                (from as int) % 8,
                (from as int) / 8,
                df as int,
                dr as int,
                b as int,
                7,
            ) && bit64(occ, b as int),
            None => forall|m: int|
                ray_reaches(occ, (from as int) % 8, (from as int) / 8, df as int, dr as int, m, 7)
                    ==> !bit64(occ, m),
        },
{
    let reach = crate::magic::ray_walk(occ, from, df, dr);
    let blockers = reach & occ;
    proof {
        lemma_bit_and(reach, occ);
        lemma_lowest_bit_from(blockers, 0);
    }
    let b = lowest_square(blockers);
    if b < 64 {
        proof {
            assert(bit64(blockers, b as int));
            assert(bit64(reach, b as int) && bit64(occ, b as int));
        }
        Some(b)
    } else {
        proof {
            assert forall|m: int|
                ray_reaches(
                    occ,
                    (from as int) % 8,
                    (from as int) / 8,
                    df as int,
                    dr as int,
                    m,
                    7,
                ) implies !bit64(occ, m) by {
                crate::magic::lemma_ray_on_board(
                    occ,
                    (from as int) % 8,
                    (from as int) / 8,
                    df as int,
                    dr as int,
                    m,
                    7,
                );
                assert(bit64(reach, m));
                assert(!bit64(blockers, m));
            }
        }
        None
    }
}

/// Finds the pinned piece, if any, along one ray from the king.
fn pin_in_direction(pos: &Position, ksq: usize, df: i32, dr: i32) -> (r: Option<usize>)
    requires
        ksq < 64,
        ksq == king_sq(*pos, pos.white_to_move),
        -1 <= df <= 1,
        -1 <= dr <= 1,
        df != 0 || dr != 0,
    ensures
        match r {
            Some(p) => p < 64 && pinned_in_dir(*pos, df as int, dr as int, p as int) && (forall|
                q: int,
            |
                pinned_in_dir(*pos, df as int, dr as int, q) ==> q == p as int),
            None => forall|q: int| !pinned_in_dir(*pos, df as int, dr as int, q),
        },
{
    let white = pos.white_to_move;
    let occ = pos.occupancy();
    let friendly = pos.all_pieces(white);
    proof {
        lemma_bit_or(occ_white(*pos), occ_black(*pos));
    }
    let b1_opt = first_blocker(occ, ksq, df, dr);
    match b1_opt {
        None => {
            proof {
                assert forall|q: int| !pinned_in_dir(*pos, df as int, dr as int, q) by {
                    if pinned_in_dir(*pos, df as int, dr as int, q) {
                        assert(bit64(occ, q));
                    }
                }
            }
            None
        },
        Some(b1) => {
            if !bb_test(friendly, b1) {
                proof {
                    assert forall|q: int| !pinned_in_dir(*pos, df as int, dr as int, q) by {
                        if pinned_in_dir(*pos, df as int, dr as int, q) {
                            assert(bit64(occ, q));
                            crate::magic::lemma_ray_unique_blocker(
                                occ,
                                (ksq as int) % 8,
                                (ksq as int) / 8,
                                df as int,
                                dr as int,
                                q,
                                b1 as int,
                                7,
                            );
                        }
                    }
                }
                return None;
            }
            let b2_opt = first_blocker(occ, b1, df, dr);
            match b2_opt {
                None => {
                    proof {
                        assert forall|q: int| !pinned_in_dir(*pos, df as int, dr as int, q) by {
                            if pinned_in_dir(*pos, df as int, dr as int, q) {
                                assert(bit64(occ, q));
                                crate::magic::lemma_ray_unique_blocker(
                                    occ,
                                    (ksq as int) % 8,
                                    (ksq as int) / 8,
                                    df as int,
                                    dr as int,
                                    q,
                                    b1 as int,
                                    7,
                                );
                                let s2 = choose|s2: int|
                                    #[trigger] ray_reaches(
                                        occ,
                                        q % 8,
                                        q / 8,
                                        df as int,
                                        dr as int,
                                        s2,
                                        7,
                                    ) && bit64(occ, s2) && pin_slider_at(
                                        *pos,
                                        !pos.white_to_move,
                                        s2,
                                        df as int,
                                        dr as int,
                                    );
                                assert(!bit64(occ, s2));
                            }
                        }
                    }
                    None
                },
                Some(b2) => {
                    let diag = df != 0 && dr != 0;
                    proof {
                        assert(diag == slider_dir(true, df as int, dr as int));
                    }
                    let q_bb = if white {
                        pos.black_queen
                    } else {
                        pos.white_queen
                    };
                    let other_bb = if diag {
                        if white {
                            pos.black_bishop
                        } else {
                            pos.white_bishop
                        }
                    } else {
                        if white {
                            pos.black_rook
                        } else {
                            pos.white_rook
                        }
                    };
                    let is_slider = bb_test(q_bb, b2) || bb_test(other_bb, b2);
                    proof {
                        assert(is_slider == pin_slider_at(
                            *pos,
                            !pos.white_to_move,
                            b2 as int,
                            df as int,
                            dr as int,
                        ));
                    }
                    if is_slider {
                        proof {
                            assert(pinned_in_dir(*pos, df as int, dr as int, b1 as int));
                            assert forall|q: int|
                                pinned_in_dir(*pos, df as int, dr as int, q) implies q
                                == b1 as int by {
                                assert(bit64(occ, q));
                                crate::magic::lemma_ray_unique_blocker(
                                    occ,
                                    (ksq as int) % 8,
                                    (ksq as int) / 8,
                                    df as int,
                                    dr as int,
                                    q,
                                    b1 as int,
                                    7,
                                );
                            }
                        }
                        Some(b1)
                    } else {
                        proof {
                            assert forall|q: int| !pinned_in_dir(*pos, df as int, dr as int, q) by {
                                if pinned_in_dir(*pos, df as int, dr as int, q) {
                                    assert(bit64(occ, q));
                                    crate::magic::lemma_ray_unique_blocker(
                                        occ,
                                        (ksq as int) % 8,
                                        (ksq as int) / 8,
                                        df as int,
                                        dr as int,
                                        q,
                                        b1 as int,
                                        7,
                                    );
                                    let s2 = choose|s2: int|
                                        #[trigger] ray_reaches(
                                            occ,
                                            q % 8,
                                            q / 8,
                                            df as int,
                                            dr as int,
                                            s2,
                                            7,
                                        ) && bit64(occ, s2) && pin_slider_at(
                                            *pos,
                                            !pos.white_to_move,
                                            s2,
                                            df as int,
                                            dr as int,
                                        );
                                    crate::magic::lemma_ray_unique_blocker(
                                        occ,
                                        q % 8,
                                        q / 8,
                                        df as int,
                                        dr as int,
                                        s2,
                                        b2 as int,
                                        7,
                                    );
                                }
                            }
                        }
                        None
                    }
                },
            }
        },
    }
}

/// Unions the pinned piece of one direction, if any, into `acc`.
fn add_pin_dir(acc: u64, pos: &Position, ksq: usize, df: i32, dr: i32) -> (r: u64)
    requires
        ksq < 64,
        ksq == king_sq(*pos, pos.white_to_move),
        -1 <= df <= 1,
        -1 <= dr <= 1,
        df != 0 || dr != 0,
    ensures
        forall|p: int| #[trigger]
            bit64(r, p) == (bit64(acc, p) || pinned_in_dir(*pos, df as int, dr as int, p)),
{
    match pin_in_direction(pos, ksq, df, dr) {
        Some(p) => bb_set(acc, p),
        None => acc,
    }
}

/// The bitboard of every pinned friendly piece.
pub fn find_pinned(pos: &Position) -> (pbb: u64)
    ensures
        forall|p: int| #[trigger] bit64(pbb, p) == pinned(*pos, p),
{
    let white = pos.white_to_move;
    let kbb = if white {
        pos.white_king
    } else {
        pos.black_king
    };
    let ksq = lowest_square(kbb);
    if ksq >= 64 {
        proof {
            lemma_bit_zero();
        }
        return 0;
    }
    let mut acc: u64 = 0;
    proof {
        lemma_bit_zero();
    }
    acc = add_pin_dir(acc, pos, ksq, 1, 0);
    acc = add_pin_dir(acc, pos, ksq, -1, 0);
    acc = add_pin_dir(acc, pos, ksq, 0, 1);
    acc = add_pin_dir(acc, pos, ksq, 0, -1);
    acc = add_pin_dir(acc, pos, ksq, 1, 1);
    acc = add_pin_dir(acc, pos, ksq, 1, -1);
    acc = add_pin_dir(acc, pos, ksq, -1, 1);
    acc = add_pin_dir(acc, pos, ksq, -1, -1);
    acc
}

/// Castling legality of one wing: the king and that rook have never moved
/// and stand at home, the squares between are empty, and no square the king
/// stands on, passes through or lands on is attacked by the opponent.
pub open spec fn castle_right_spec(pos: Position, white: bool, kingside: bool) -> bool {
    let flags = if white {
        pos.white_castling_flags
    } else {
        pos.black_castling_flags
    };
    let kbb = if white {
        pos.white_king
    } else {
        pos.black_king
    };
    let rbb = if white {
        pos.white_rook
    } else {
        pos.black_rook
    };
    let home: int = if white {
        4
    } else {
        60
    };
    let occ = occ_all(pos);
    let enemy = !white;
    !flags.king_moved && bit64(kbb, home) && if kingside {
        !flags.rook_kingside_moved && bit64(rbb, home + 3) && !bit64(occ, home + 1) && !bit64(
            occ,
            home + 2,
        ) && !attacks_sq(pos, enemy, home) && !attacks_sq(pos, enemy, home + 1) && !attacks_sq(
            pos,
            enemy,
            home + 2,
        )
    } else {
        !flags.rook_queenside_moved && bit64(rbb, home - 4) && !bit64(occ, home - 1) && !bit64(
            occ,
            home - 2,
        ) && !bit64(occ, home - 3) && !attacks_sq(pos, enemy, home) && !attacks_sq(
            pos,
            enemy,
            home - 1,
        ) && !attacks_sq(pos, enemy, home - 2)
    }
}

/// The derived castling availability of both sides.
pub open spec fn castling_rights_spec(pos: Position) -> CastlingRights {
    CastlingRights {
        white_kingside: castle_right_spec(pos, true, true),
        white_queenside: castle_right_spec(pos, true, false),
        black_kingside: castle_right_spec(pos, false, true),
        black_queenside: castle_right_spec(pos, false, false),
    }
}

/// Recomputes both sides' castling rights from the attack maps.
pub fn castle_checks(pos: &Position, att_white: u64, att_black: u64) -> (r: CastlingRights)
    requires
        forall|t: int| #[trigger] bit64(att_white, t) == attacks_sq(*pos, true, t),
        forall|t: int| #[trigger] bit64(att_black, t) == attacks_sq(*pos, false, t),
    ensures
        r == castling_rights_spec(*pos),
{
    let occ = pos.occupancy();
    let wf = pos.white_castling_flags;
    let bf = pos.black_castling_flags;
    let white_kingside = !wf.king_moved && bb_test(pos.white_king, 4) && !wf.rook_kingside_moved
        && bb_test(pos.white_rook, 7) && !bb_test(occ, 5) && !bb_test(occ, 6) && !bb_test(
        att_black,
        4,
    ) && !bb_test(att_black, 5) && !bb_test(att_black, 6);
    let white_queenside = !wf.king_moved && bb_test(pos.white_king, 4) && !wf.rook_queenside_moved
        && bb_test(pos.white_rook, 0) && !bb_test(occ, 3) && !bb_test(occ, 2) && !bb_test(occ, 1)
        && !bb_test(att_black, 4) && !bb_test(att_black, 3) && !bb_test(att_black, 2);
    let black_kingside = !bf.king_moved && bb_test(pos.black_king, 60) && !bf.rook_kingside_moved
        && bb_test(pos.black_rook, 63) && !bb_test(occ, 61) && !bb_test(occ, 62) && !bb_test(
        att_white,
        60,
    ) && !bb_test(att_white, 61) && !bb_test(att_white, 62);
    let black_queenside = !bf.king_moved && bb_test(pos.black_king, 60) && !bf.rook_queenside_moved
        && bb_test(pos.black_rook, 56) && !bb_test(occ, 59) && !bb_test(occ, 58) && !bb_test(
        occ,
        57,
    ) && !bb_test(att_white, 60) && !bb_test(att_white, 59) && !bb_test(att_white, 58);
    CastlingRights { white_kingside, white_queenside, black_kingside, black_queenside }
}

/// The friendly piece on `s`, if the side to move has one there.
pub open spec fn friendly_piece_at(pos: Position, s: int) -> Option<PieceType> {
    match piece_at(pos, s) {
        Some(p) => if is_white_piece(p) == pos.white_to_move {
            Some(p)
        } else {
            None
        },
        None => None,
    }
}

/// The home square of one side's king.
pub open spec fn king_home(white: bool) -> int {
    if white {
        4
    } else {
        60
    }
}

/// The raw movement pattern of a piece on `s` toward `t`: piece-shape
/// attacks, pawn pushes and captures (including en passant), and the castle
/// extension of a king standing at home with the right available.
pub open spec fn move_pattern(pos: Position, p: PieceType, s: int, t: int) -> bool {
    let white = is_white_piece(p);
    let occ = occ_all(pos);
    let enemy_occ = if white {
        occ_black(pos)
    } else {
        occ_white(pos)
    };
    match p {
        PieceType::WhiteKing | PieceType::BlackKing => king_step(s, t) || (castle_right_spec(
            pos,
            white,
            true,
        ) && s == king_home(white) && t == s + 2) || (castle_right_spec(pos, white, false) && s
            == king_home(white) && t == s - 2),
        PieceType::WhiteQueen | PieceType::BlackQueen => rook_attack(occ, s, t) || bishop_attack(
            occ,
            s,
            t,
        ),
        PieceType::WhiteBishop | PieceType::BlackBishop => bishop_attack(occ, s, t),
        PieceType::WhiteKnight | PieceType::BlackKnight => knight_move(s, t),
        PieceType::WhiteRook | PieceType::BlackRook => rook_attack(occ, s, t),
        PieceType::WhitePawn | PieceType::BlackPawn => pawn_push(s, white, occ, t) || (pawn_attack(
            s,
            white,
            t,
        ) && (bit64(enemy_occ, t) || (pos.en_passent_square is Some && t
            == pos.en_passent_square->0 as int))),
    }
}

/// `t` is a legal destination for the piece `p` on `s`: the movement pattern
/// reaches it, it is not friendly-occupied, a king must not step into the
/// opponent attack map, and any other piece must not be pinned and must
/// resolve every standing check.
pub open spec fn legal_dest(pos: Position, p: PieceType, s: int, t: int) -> bool {
    let white = is_white_piece(p);
    let friendly = if white {
        occ_white(pos)
    } else {
        occ_black(pos)
    };
    on_board(t) && move_pattern(pos, p, s, t) && !bit64(friendly, t) && (if is_king(p) {
        !attacks_sq(pos, !white, t)
    } else {
        !pinned(pos, s) && resolves_all_checks(pos, t)
    })
}

/// The promotion choices, in generation order.
pub open spec fn promo_kind(white: bool, j: int) -> PieceType {
    if white {
        if j == 0 {
            PieceType::WhiteQueen
        } else if j == 1 {
            PieceType::WhiteKnight
        } else if j == 2 {
            PieceType::WhiteBishop
        } else {
            PieceType::WhiteRook
        }
    } else {
        if j == 0 {
            PieceType::BlackQueen
        } else if j == 1 {
            PieceType::BlackKnight
        } else if j == 2 {
            PieceType::BlackBishop
        } else {
            PieceType::BlackRook
        }
    }
}

/// The move value generated for piece `p` from `s` to `t` (before any
/// promotion expansion).
pub open spec fn base_move(pos: Position, p: PieceType, s: int, t: int) -> Move {
    let white = is_white_piece(p);
    Move {
        start_square: s as i32,
        end_square: t as i32,
        moved_piece_type: p,
        captured_piece_type: piece_at(pos, t),
        flags: MoveFlags {
            en_passent_capture: is_pawn(p) && pos.en_passent_square is Some && t
                == pos.en_passent_square->0 as int && pawn_attack(s, white, t),
            double_push_target: if is_pawn(p) && (if white {
                t == s + 16
            } else {
                t == s - 16
            }) {
                Some(pawn_skip_sq(s, white) as u8)
            } else {
                None
            },
            castle_rook_move: if is_king(p) && t == s + 2 {
                Some(CastleSide::Kingside)
            } else if is_king(p) && t == s - 2 {
                Some(CastleSide::Queenside)
            } else {
                None
            },
        },
        promotion_piece: None,
    }
}

/// The moves generated for destination `t`: none if it is not legal, four
/// promotion copies for a pawn reaching the farthest rank, one move
/// otherwise.
pub open spec fn dest_moves(pos: Position, p: PieceType, s: int, t: int) -> Seq<Move> {
    if !legal_dest(pos, p, s, t) {
        Seq::empty()
    } else {
        let white = is_white_piece(p);
        let bm = base_move(pos, p, s, t);
        if is_pawn(p) && pawn_promote_rank(s, white) {
            seq![
                Move { promotion_piece: Some(promo_kind(white, 0)), ..bm },
                Move { promotion_piece: Some(promo_kind(white, 1)), ..bm },
                Move { promotion_piece: Some(promo_kind(white, 2)), ..bm },
                Move { promotion_piece: Some(promo_kind(white, 3)), ..bm },
            ]
        } else {
            seq![bm]
        }
    }
}

/// The legal moves of piece `p` on `s` with destinations below `tmax`, in
/// ascending destination order.
pub open spec fn moves_upto(pos: Position, p: PieceType, s: int, tmax: int) -> Seq<Move>
    decreases tmax,
{
    if tmax <= 0 {
        Seq::empty()
    } else {
        moves_upto(pos, p, s, tmax - 1) + dest_moves(pos, p, s, tmax - 1)
    }
}

/// The authoritative legal move list of origin square `s`.
pub open spec fn moves_from(pos: Position, s: int) -> Seq<Move> {
    match friendly_piece_at(pos, s) {
        Some(p) => moves_upto(pos, p, s, 64),
        None => Seq::empty(),
    }
}

/// Do all recorded check filters admit destination `t`?
fn checks_pass(checks: &Vec<u64>, t: usize) -> (r: bool)
    requires
        t < 64,
    ensures
        r == all_checks_cover(checks@, t as int),
{
    let mut i: usize = 0;
    while i < checks.len()
        invariant
            i <= checks@.len(),
            t < 64,
            forall|j: int| 0 <= j < i ==> bit64(#[trigger] checks@[j], t as int),
        decreases checks@.len() - i,
    {
        if !bb_test(checks[i], t) {
            return false;
        }
        i += 1;
    }
    true
}

/// The legal moves of the friendly piece on `s`, if any.
#[verifier::rlimit(30)]
pub fn moves_for_square(
    tables: &Tables,
    pos: &Position,
    rights: &CastlingRights,
    enemy_att: u64,
    pinned_bb: u64,
    checks: &Vec<u64>,
    s: usize,
) -> (r: Vec<Move>)
    requires
        tables.wf(),
        s < 64,
        *rights == castling_rights_spec(*pos),
        forall|t: int| #[trigger] bit64(enemy_att, t) == attacks_sq(*pos, !pos.white_to_move, t),
        forall|q: int| #[trigger] bit64(pinned_bb, q) == pinned(*pos, q),
        forall|m: int| #[trigger] all_checks_cover(checks@, m) == resolves_all_checks(*pos, m),
    ensures
        r@ == moves_from(*pos, s as int),
{
    let mut r: Vec<Move> = Vec::new();
    let p = match pos.piece_on(s) {
        Some(p) => p,
        None => {
            return r;
        },
    };
    let white = p.is_white();
    if white != pos.white_to_move {
        return r;
    }
    let occ = pos.occupancy();
    let friendly = pos.all_pieces(white);
    let enemy_occ = pos.all_pieces(!white);
    let onehot: u64 = 1u64 << (s as u64);
    proof {
        lemma_onehot(s as u64);
    }
    let is_k = p.index() == 0 || p.index() == 6;
    let is_p = p.index() == 5 || p.index() == 11;
    proof {
        assert(is_k == is_king(p));
        assert(is_p == is_pawn(p));
    }
    // the raw movement pattern of this piece
    let mut pawn_attack_bb: u64 = 0;
    let pattern: u64;
    if is_k {
        let ck = if white {
            rights.white_kingside
        } else {
            rights.black_kingside
        };
        let cq = if white {
            rights.white_queenside
        } else {
            rights.black_queenside
        };
        let home: usize = if white {
            4
        } else {
            60
        };
        let ck_use = ck && s == home;
        let cq_use = cq && s == home;
        let km = king_moves(&onehot, ck_use, cq_use);
        pattern = km.0;
        proof {
            assert forall|t: int|
                0 <= t < 64 implies #[trigger] bit64(pattern, t) == move_pattern(
                *pos,
                p,
                s as int,
                t,
            ) by {
                assert(bit64(pattern, t) == king_move_ext(s as int, ck_use, cq_use, t));
            }
        }
    } else if is_p {
        let pm = pawn_moves(&onehot, &occ, white);
        let pa = pawn_attacks(&onehot, white, None);
        pawn_attack_bb = pa.0;
        let ep_bb: u64 = match pos.en_passent_square {
            Some(e) => {
                if e < 64 {
                    1u64 << (e as u64)
                } else {
                    0
                }
            },
            None => 0,
        };
        let cap_mask = enemy_occ | ep_bb;
        let caps = pawn_attack_bb & cap_mask;
        pattern = pm.0 | caps;
        proof {
            lemma_bit_or(enemy_occ, ep_bb);
            lemma_bit_and(pawn_attack_bb, cap_mask);
            lemma_bit_or(pm.0, caps);
            if pos.en_passent_square is Some {
                if pos.en_passent_square->0 < 64 {
                    lemma_bit_single(pos.en_passent_square->0 as u64);
                } else {
                    lemma_bit_zero();
                }
            } else {
                lemma_bit_zero();
            }
            assert forall|t: int|
                0 <= t < 64 implies #[trigger] bit64(pattern, t) == move_pattern(
                *pos,
                p,
                s as int,
                t,
            ) by {
                assert(bit64(pattern, t) == (bit64(pm.0, t) || bit64(caps, t)));
                assert(bit64(caps, t) == (bit64(pawn_attack_bb, t) && bit64(cap_mask, t)));
                assert(bit64(cap_mask, t) == (bit64(enemy_occ, t) || bit64(ep_bb, t)));
                assert(bit64(ep_bb, t) == (pos.en_passent_square is Some && t
                    == pos.en_passent_square->0 as int));
            }
        }
    } else {
        pattern = piece_attack_bb(tables, occ, p, s);
        proof {
            assert forall|t: int|
                0 <= t < 64 implies #[trigger] bit64(pattern, t) == move_pattern(
                *pos,
                p,
                s as int,
                t,
            ) by {
                assert(bit64(pattern, t) == piece_attacks(occ, p, s as int, t));
            }
        }
    }
    // filter friendly destinations, and attacked squares for the king
    let dest: u64;
    if is_k {
        let d1 = pattern & !friendly;
        dest = d1 & !enemy_att;
        proof {
            lemma_bit_andnot(pattern, friendly);
            lemma_bit_andnot(d1, enemy_att);
            assert forall|tt: int|
                0 <= tt < 64 implies #[trigger] bit64(dest, tt) == (move_pattern(
                *pos,
                p,
                s as int,
                tt,
            ) && !bit64(friendly, tt) && (is_king(p) ==> !attacks_sq(
                *pos,
                !pos.white_to_move,
                tt,
            ))) by {
                assert(bit64(dest, tt) == (bit64(d1, tt) && !bit64(enemy_att, tt)));
                assert(bit64(d1, tt) == (bit64(pattern, tt) && !bit64(friendly, tt)));
            }
        }
    } else {
        dest = pattern & !friendly;
        proof {
            lemma_bit_andnot(pattern, friendly);
            assert forall|tt: int|
                0 <= tt < 64 implies #[trigger] bit64(dest, tt) == (move_pattern(
                *pos,
                p,
                s as int,
                tt,
            ) && !bit64(friendly, tt) && (is_king(p) ==> !attacks_sq(
                *pos,
                !pos.white_to_move,
                tt,
            ))) by {
                assert(bit64(dest, tt) == (bit64(pattern, tt) && !bit64(friendly, tt)));
            }
        }
    }
    let pinned_here = bb_test(pinned_bb, s);
    let promo = is_p && (if white {
        s / 8 == 6
    } else {
        s / 8 == 1
    });
    proof {
        assert(promo == (is_pawn(p) && pawn_promote_rank(s as int, is_white_piece(p))));
        assert(friendly_piece_at(*pos, s as int) == Some(p));
    }
    let mut t: usize = 0;
    while t < 64
        invariant
            t <= 64,
            s < 64,
            white == is_white_piece(p),
            white == pos.white_to_move,
            is_k == is_king(p),
            is_p == is_pawn(p),
            promo == (is_pawn(p) && pawn_promote_rank(s as int, is_white_piece(p))),
            pinned_here == pinned(*pos, s as int),
            is_p ==> (forall|tt: int| #[trigger]
                bit64(pawn_attack_bb, tt) == pawn_attack(s as int, white, tt)),
            occ == occ_all(*pos),
            friendly == (if white {
                occ_white(*pos)
            } else {
                occ_black(*pos)
            }),
            forall|m: int| #[trigger] all_checks_cover(checks@, m) == resolves_all_checks(*pos, m),
            forall|tt: int|
                0 <= tt < 64 ==> #[trigger] bit64(dest, tt) == (move_pattern(*pos, p, s as int, tt)
                    && !bit64(friendly, tt) && (is_king(p) ==> !attacks_sq(
                    *pos,
                    !pos.white_to_move,
                    tt,
                ))),
            r@ == moves_upto(*pos, p, s as int, t as int),
        decreases 64 - t,
    {
        let mut legal = bb_test(dest, t);
        if legal && !is_k {
            legal = !pinned_here && checks_pass(checks, t);
        }
        proof {
            assert(legal == legal_dest(*pos, p, s as int, t as int));
        }
        if legal {
            let captured = pos.piece_on(t);
            let ep_cap = is_p && (match pos.en_passent_square {
                Some(e) => t as u64 == e as u64 && bb_test(pawn_attack_bb, t),
                None => false,
            });
            let dbl = is_p && (if white {
                t == s + 16
            } else {
                t + 16 == s
            });
            let dpt: Option<u8> = if dbl {
                Some(
                    (if white {
                        s + 8
                    } else {
                        s - 8
                    }) as u8,
                )
            } else {
                None
            };
            let crm: Option<CastleSide> = if is_k && t == s + 2 {
                Some(CastleSide::Kingside)
            } else if is_k && t + 2 == s {
                Some(CastleSide::Queenside)
            } else {
                None
            };
            let bm = Move {
                start_square: s as i32,
                end_square: t as i32,
                moved_piece_type: p,
                captured_piece_type: captured,
                flags: MoveFlags {
                    en_passent_capture: ep_cap,
                    double_push_target: dpt,
                    castle_rook_move: crm,
                },
                promotion_piece: None,
            };
            proof {
                assert(ep_cap == (is_pawn(p) && pos.en_passent_square is Some && t as int
                    == pos.en_passent_square->0 as int && pawn_attack(
                    s as int,
                    white,
                    t as int,
                ))) by {
                    if is_p && pos.en_passent_square is Some && t as int
                        == pos.en_passent_square->0 as int {
                        assert(bit64(pawn_attack_bb, t as int) == pawn_attack(
                            s as int,
                            white,
                            t as int,
                        ));
                    }
                }
                assert(bm == base_move(*pos, p, s as int, t as int));
            }
            let ghost r0 = r@;
            if promo {
                let q = if white {
                    PieceType::WhiteQueen
                } else {
                    PieceType::BlackQueen
                };
                let n = if white {
                    PieceType::WhiteKnight
                } else {
                    PieceType::BlackKnight
                };
                let b = if white {
                    PieceType::WhiteBishop
                } else {
                    PieceType::BlackBishop
                };
                let rk = if white {
                    PieceType::WhiteRook
                } else {
                    PieceType::BlackRook
                };
                let mut m1 = bm;
                m1.promotion_piece = Some(q);
                r.push(m1);
                let mut m2 = bm;
                m2.promotion_piece = Some(n);
                r.push(m2);
                let mut m3 = bm;
                m3.promotion_piece = Some(b);
                r.push(m3);
                let mut m4 = bm;
                m4.promotion_piece = Some(rk);
                r.push(m4);
                proof {
                    assert(r@ =~= r0 + dest_moves(*pos, p, s as int, t as int));
                }
            } else {
                r.push(bm);
                proof {
                    assert(r@ =~= r0 + dest_moves(*pos, p, s as int, t as int));
                }
            }
        } else {
            proof {
                assert(r@ =~= r@ + dest_moves(*pos, p, s as int, t as int));
            }
        }
        t += 1;
    }
    r
}

/// Legal moves of every origin square, the authoritative set.
pub fn generate_all_moves(
    tables: &Tables,
    pos: &Position,
    rights: &CastlingRights,
    enemy_att: u64,
    pinned_bb: u64,
    checks: &Vec<u64>,
) -> (r: Vec<Vec<Move>>)
    requires
        tables.wf(),
        *rights == castling_rights_spec(*pos),
        forall|t: int| #[trigger] bit64(enemy_att, t) == attacks_sq(*pos, !pos.white_to_move, t),
        forall|q: int| #[trigger] bit64(pinned_bb, q) == pinned(*pos, q),
        forall|m: int| #[trigger] all_checks_cover(checks@, m) == resolves_all_checks(*pos, m),
    ensures
        r@.len() == 64,
        forall|s: int| 0 <= s < 64 ==> (#[trigger] r@[s])@ == moves_from(*pos, s),
{
    let mut r: Vec<Vec<Move>> = Vec::new();
    let mut s: usize = 0;
    while s < 64
        invariant
            s <= 64,
            tables.wf(),
            *rights == castling_rights_spec(*pos),
            forall|t: int| #[trigger] bit64(enemy_att, t) == attacks_sq(*pos, !pos.white_to_move, t),
            forall|q: int| #[trigger] bit64(pinned_bb, q) == pinned(*pos, q),
            forall|m: int| #[trigger] all_checks_cover(checks@, m) == resolves_all_checks(*pos, m),
            r@.len() == s,
            forall|j: int| 0 <= j < s ==> (#[trigger] r@[j])@ == moves_from(*pos, j),
        decreases 64 - s,
    {
        let ms = moves_for_square(tables, pos, rights, enemy_att, pinned_bb, checks, s);
        r.push(ms);
        s += 1;
    }
    r
}

} // verus!
