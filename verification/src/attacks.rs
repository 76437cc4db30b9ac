//! Board geometry and the closed-form attack generators: pawn captures and
//! pushes, knight and king moves.  Each generator returns the pseudo-legal
//! destination bitboard of a single piece; king-safety filtering is layered
//! on top by the rules engine.

use vstd::prelude::*;
use crate::bits::{bb_set, bb_test, bit64, is_onehot, lemma_bit_zero, onehot_sq, onehot_square};

verus! {

pub open spec fn on_board(sq: int) -> bool {
    0 <= sq < 64
}

/// File (column) of a square, 0 = the a-file; square = rank * 8 + file.
pub open spec fn sq_file(sq: int) -> int {
    sq % 8
}

/// Rank (row) of a square, 0 = White's home rank.
pub open spec fn sq_rank(sq: int) -> int {
    sq / 8
}

pub open spec fn dist(a: int, b: int) -> int {
    if a >= b {
        a - b
    } else {
        b - a
    }
}

/// A knight on `a` attacks `t`.
pub open spec fn knight_move(a: int, t: int) -> bool {
    on_board(a) && on_board(t) && {
        let df = dist(sq_file(a), sq_file(t));
        let dr = dist(sq_rank(a), sq_rank(t));
        (df == 1 && dr == 2) || (df == 2 && dr == 1)
    }
}

/// A king on `a` attacks `t` (one step in any direction).
pub open spec fn king_step(a: int, t: int) -> bool {
    on_board(a) && on_board(t) && a != t && dist(sq_file(a), sq_file(t)) <= 1 && dist(
        sq_rank(a),
        sq_rank(t),
    ) <= 1
}

/// A pawn of the given colour on `a` attacks `t` diagonally.
pub open spec fn pawn_attack(a: int, white: bool, t: int) -> bool {
    on_board(a) && on_board(t) && dist(sq_file(a), sq_file(t)) == 1 && sq_rank(t) == sq_rank(a) + (
    if white {
        1int
    } else {
        -1int
    })
}

/// The pawn stands on the rank from which any advance or capture promotes.
pub open spec fn pawn_promote_rank(a: int, white: bool) -> bool {
    if white {
        sq_rank(a) == 6
    } else {
        sq_rank(a) == 1
    }
}

/// The square a double push skips over (the en-passant target square).
pub open spec fn pawn_skip_sq(a: int, white: bool) -> int {
    if white {
        a + 8
    } else {
        a - 8
    }
}

/// Both squares ahead of the pawn on its starting rank are empty.
pub open spec fn pawn_double_push_ok(a: int, white: bool, occ: u64) -> bool {
    if white {
        sq_rank(a) == 1 && !bit64(occ, a + 8) && !bit64(occ, a + 16)
    } else {
        sq_rank(a) == 6 && !bit64(occ, a - 8) && !bit64(occ, a - 16)
    }
}

/// A pawn of the given colour on `a` can push (not capture) to `t` given the
/// overall occupancy `occ`.
pub open spec fn pawn_push(a: int, white: bool, occ: u64, t: int) -> bool {
    on_board(a) && on_board(t) && if white {
        (t == a + 8 && !bit64(occ, t)) || (t == a + 16 && pawn_double_push_ok(a, white, occ))
    } else {
        (t == a - 8 && !bit64(occ, t)) || (t == a - 16 && pawn_double_push_ok(a, white, occ))
    }
}

/// A king on `a` moves to `t`, counting the two-square castle destinations
/// when the corresponding right is available.
pub open spec fn king_move_ext(a: int, ck: bool, cq: bool, t: int) -> bool {
    king_step(a, t) || (ck && on_board(t) && t == a + 2) || (cq && on_board(t) && t == a - 2)
}

/// Diagonal capture squares of a single pawn (no forward pushes), plus
/// whether the en-passant target square is among them and whether any
/// capture would land on the farthest rank.
pub fn pawn_attacks(bitboard: &u64, is_white: bool, en_passent_square: Option<u64>) -> (r: (
    u64,
    bool,
    bool,
))
    requires
        is_onehot(*bitboard),
        en_passent_square is Some ==> is_onehot(en_passent_square->0),
    ensures
        forall|t: int| #[trigger]
            bit64(r.0, t) == pawn_attack(onehot_sq(*bitboard), is_white, t),
        r.1 == match en_passent_square {
            Some(e) => pawn_attack(onehot_sq(*bitboard), is_white, onehot_sq(e)),
            None => false,
        },
        r.2 == pawn_promote_rank(onehot_sq(*bitboard), is_white),
{
    let sq = onehot_square(*bitboard);
    let mut attacks: u64 = 0;
    proof {
        lemma_bit_zero();
    }
    let mut t: usize = 0;
    while t < 64
        invariant
            t <= 64,
            sq == onehot_sq(*bitboard),
            sq < 64,
            forall|j: int| 0 <= j < t ==> #[trigger] bit64(attacks, j) == pawn_attack(sq as int, is_white, j),
            forall|j: int| t <= j < 64 ==> !bit64(attacks, j),
        decreases 64 - t,
    {
        let fa = sq % 8;
        let ft = t % 8;
        let df = if fa >= ft {
            fa - ft
        } else {
            ft - fa
        };
        let hit = if is_white {
            t / 8 == sq / 8 + 1 && df == 1
        } else {
            t / 8 + 1 == sq / 8 && df == 1
        };
        assert(hit == pawn_attack(sq as int, is_white, t as int));
        if hit {
            attacks = bb_set(attacks, t);
        }
        t += 1;
    }
    let can_be_en_passent = match en_passent_square {
        Some(e) => {
            let es = onehot_square(e);
            bb_test(attacks, es)
        },
        None => false,
    };
    let is_promotion = if is_white {
        sq / 8 == 6
    } else {
        sq / 8 == 1
    };
    (attacks, can_be_en_passent, is_promotion)
}

/// Forward pushes of a single pawn: one square ahead when empty, two from
/// the starting rank when both are empty.  Also reports the skipped square
/// that would become the opponent's en-passant target, and whether a push
/// would land on the farthest rank.
pub fn pawn_moves(bitboard: &u64, occupancy: &u64, is_white: bool) -> (r: (u64, Option<u64>, bool))
    requires
        is_onehot(*bitboard),
    ensures
        forall|t: int| #[trigger]
            bit64(r.0, t) == pawn_push(onehot_sq(*bitboard), is_white, *occupancy, t),
        (r.1 is Some) == pawn_double_push_ok(onehot_sq(*bitboard), is_white, *occupancy),
        r.1 is Some ==> r.1->0 == 1u64 << (pawn_skip_sq(onehot_sq(*bitboard), is_white) as u64),
        r.2 == pawn_promote_rank(onehot_sq(*bitboard), is_white),
{
    let sq = onehot_square(*bitboard);
    let mut moves: u64 = 0;
    let mut can_be_passented_square: Option<u64> = None;
    proof {
        lemma_bit_zero();
    }
    if is_white {
        if sq + 8 < 64 && !bb_test(*occupancy, sq + 8) {
            moves = bb_set(moves, sq + 8);
        }
        if sq / 8 == 1 && !bb_test(*occupancy, sq + 8) && !bb_test(*occupancy, sq + 16) {
            moves = bb_set(moves, sq + 16);
            can_be_passented_square = Some(1u64 << ((sq + 8) as u64));
        }
    } else {
        if sq >= 8 && !bb_test(*occupancy, sq - 8) {
            moves = bb_set(moves, sq - 8);
        }
        if sq / 8 == 6 && !bb_test(*occupancy, sq - 8) && !bb_test(*occupancy, sq - 16) {
            moves = bb_set(moves, sq - 16);
            can_be_passented_square = Some(1u64 << ((sq - 8) as u64));
        }
    }
    let is_promotion = if is_white {
        sq / 8 == 6
    } else {
        sq / 8 == 1
    };
    (moves, can_be_passented_square, is_promotion)
}

/// Destination bitboard of a single knight.
pub fn knight_moves(bitboard: &u64) -> (moves: u64)
    requires
        is_onehot(*bitboard),
    ensures
        forall|t: int| #[trigger] bit64(moves, t) == knight_move(onehot_sq(*bitboard), t),
{
    let sq = onehot_square(*bitboard);
    let mut moves: u64 = 0;
    proof {
        lemma_bit_zero();
    }
    let mut t: usize = 0;
    while t < 64
        invariant
            t <= 64,
            sq == onehot_sq(*bitboard),
            sq < 64,
            forall|j: int| 0 <= j < t ==> #[trigger] bit64(moves, j) == knight_move(sq as int, j),
            forall|j: int| t <= j < 64 ==> !bit64(moves, j),
        decreases 64 - t,
    {
        let fa = sq % 8;
        let ft = t % 8;
        let ra = sq / 8;
        let rt = t / 8;
        let df = if fa >= ft {
            fa - ft
        } else {
            ft - fa
        };
        let dr = if ra >= rt {
            ra - rt
        } else {
            rt - ra
        };
        let hit = (df == 1 && dr == 2) || (df == 2 && dr == 1);
        assert(hit == knight_move(sq as int, t as int));
        if hit {
            moves = bb_set(moves, t);
        }
        t += 1;
    }
    moves
}

/// Destination bitboard of a single king: the eight adjacent squares, plus
/// the two-square castle destination for each still-available right.  Also
/// returns the kingside and queenside castle destination squares.
pub fn king_moves(bitboard: &u64, castle_kingside: bool, castle_queenside: bool) -> (r: (
    u64,
    Option<u64>,
    Option<u64>,
))
    requires
        is_onehot(*bitboard),
        castle_kingside ==> onehot_sq(*bitboard) + 2 < 64,
        castle_queenside ==> onehot_sq(*bitboard) >= 2,
    ensures
        forall|t: int| #[trigger]
            bit64(r.0, t) == king_move_ext(
                onehot_sq(*bitboard),
                castle_kingside,
                castle_queenside,
                t,
            ),
        r.1 == if castle_kingside {
            Some(1u64 << ((onehot_sq(*bitboard) + 2) as u64))
        } else {
            None::<u64>
        },
        r.2 == if castle_queenside {
            Some(1u64 << ((onehot_sq(*bitboard) - 2) as u64))
        } else {
            None::<u64>
        },
{
    let sq = onehot_square(*bitboard);
    let mut moves: u64 = 0;
    proof {
        lemma_bit_zero();
    }
    let mut t: usize = 0;
    while t < 64
        invariant
            t <= 64,
            sq == onehot_sq(*bitboard),
            sq < 64,
            forall|j: int| 0 <= j < t ==> #[trigger] bit64(moves, j) == king_step(sq as int, j),
            forall|j: int| t <= j < 64 ==> !bit64(moves, j),
        decreases 64 - t,
    {
        let fa = sq % 8;
        let ft = t % 8;
        let ra = sq / 8;
        let rt = t / 8;
        let df = if fa >= ft {
            fa - ft
        } else {
            ft - fa
        };
        let dr = if ra >= rt {
            ra - rt
        } else {
            rt - ra
        };
        let hit = t != sq && df <= 1 && dr <= 1;
        assert(hit == king_step(sq as int, t as int));
        if hit {
            moves = bb_set(moves, t);
        }
        t += 1;
    }
    let mut is_castles_kingside: Option<u64> = None;
    let mut is_castles_queenside: Option<u64> = None;
    if castle_kingside {
        moves = bb_set(moves, sq + 2);
        is_castles_kingside = Some(1u64 << ((sq + 2) as u64));
    }
    if castle_queenside {
        moves = bb_set(moves, sq - 2);
        is_castles_queenside = Some(1u64 << ((sq - 2) as u64));
    }
    (moves, is_castles_kingside, is_castles_queenside)
}

} // verus!
