//! The static evaluator: material and piece-square values summed over the
//! twelve bitboards (positive favours White), a bishop-pair bonus, and
//! large-magnitude checkmate scores biased by the remaining search depth so
//! that faster mates score strictly better.

use vstd::prelude::*;
use crate::bits::{bit64, bit_indices, bb_test, popcount};
use crate::board::Board;
use crate::pieces::{piece_index, piece_of_index, PieceType};
use crate::position::{bb_at, Position};

verus! {

pub const INFINITY: i64 = i64::MAX;

pub const NEGATIVE_INFINITY: i64 = i64::MIN;

pub const BISHOP_PAIR_VALUE: i64 = 50;

pub const MATE_SCORE: i64 = 1_000_000;

pub const MATE_DEPTH_STEP: i64 = 5;

/// Per-square value table (white pawn), file a to h within each
/// rank, rank 1 first.
pub open spec fn white_pawn_table() -> Seq<i64> {
    seq![
        0i64, 0i64, 0i64, 0i64, 0i64, 0i64, 0i64, 0i64,
        100i64, 100i64, 100i64, 100i64, 100i64, 100i64, 100i64, 100i64,
        100i64, 100i64, 100i64, 100i64, 100i64, 100i64, 100i64, 100i64,
        100i64, 100i64, 100i64, 125i64, 125i64, 100i64, 100i64, 100i64,
        100i64, 100i64, 125i64, 150i64, 150i64, 125i64, 100i64, 100i64,
        150i64, 125i64, 100i64, 100i64, 100i64, 100i64, 125i64, 150i64,
        150i64, 150i64, 150i64, 100i64, 100i64, 150i64, 150i64, 150i64,
        0i64, 0i64, 0i64, 0i64, 0i64, 0i64, 0i64, 0i64,
    ]
}

/// Per-square value table (black pawn), file a to h within each
/// rank, rank 1 first.
pub open spec fn black_pawn_table() -> Seq<i64> {
    seq![
        0i64, 0i64, 0i64, 0i64, 0i64, 0i64, 0i64, 0i64,
        150i64, 150i64, 150i64, 100i64, 100i64, 150i64, 150i64, 150i64,
        150i64, 125i64, 100i64, 100i64, 100i64, 100i64, 125i64, 150i64,
        100i64, 100i64, 125i64, 150i64, 150i64, 125i64, 100i64, 100i64,
        100i64, 100i64, 100i64, 100i64, 100i64, 100i64, 100i64, 100i64,
        100i64, 100i64, 100i64, 125i64, 125i64, 100i64, 100i64, 100i64,
        100i64, 100i64, 100i64, 100i64, 100i64, 100i64, 100i64, 100i64,
        0i64, 0i64, 0i64, 0i64, 0i64, 0i64, 0i64, 0i64,
    ]
}

/// Per-square value table (knight), file a to h within each
/// rank, rank 1 first.
pub open spec fn knight_table() -> Seq<i64> {
    seq![
        225i64, 250i64, 250i64, 250i64, 250i64, 250i64, 250i64, 225i64,
        250i64, 275i64, 275i64, 275i64, 275i64, 275i64, 275i64, 250i64,
        250i64, 275i64, 300i64, 300i64, 300i64, 300i64, 275i64, 250i64,
        250i64, 275i64, 300i64, 325i64, 325i64, 300i64, 275i64, 250i64,
        250i64, 275i64, 300i64, 325i64, 325i64, 300i64, 275i64, 250i64,
        250i64, 275i64, 300i64, 300i64, 300i64, 300i64, 275i64, 250i64,
        250i64, 275i64, 275i64, 275i64, 275i64, 275i64, 275i64, 250i64,
        225i64, 250i64, 250i64, 250i64, 250i64, 250i64, 250i64, 225i64,
    ]
}

/// Per-square value table (bishop), file a to h within each
/// rank, rank 1 first.
pub open spec fn bishop_table() -> Seq<i64> {
    seq![
        275i64, 275i64, 275i64, 275i64, 275i64, 275i64, 275i64, 275i64,
        300i64, 350i64, 300i64, 325i64, 325i64, 300i64, 350i64, 300i64,
        300i64, 300i64, 300i64, 300i64, 300i64, 300i64, 300i64, 300i64,
        300i64, 325i64, 350i64, 300i64, 300i64, 350i64, 325i64, 300i64,
        300i64, 300i64, 350i64, 300i64, 300i64, 350i64, 300i64, 300i64,
        300i64, 300i64, 300i64, 300i64, 300i64, 300i64, 300i64, 300i64,
        300i64, 350i64, 300i64, 325i64, 325i64, 300i64, 300i64, 300i64,
        275i64, 275i64, 275i64, 275i64, 275i64, 275i64, 275i64, 275i64,
    ]
}

/// Per-square value table (rook), file a to h within each
/// rank, rank 1 first.
pub open spec fn rook_table() -> Seq<i64> {
    seq![
        475i64, 475i64, 500i64, 525i64, 525i64, 500i64, 475i64, 475i64,
        400i64, 500i64, 500i64, 500i64, 500i64, 500i64, 500i64, 400i64,
        400i64, 500i64, 500i64, 500i64, 500i64, 500i64, 500i64, 400i64,
        400i64, 500i64, 500i64, 500i64, 500i64, 500i64, 500i64, 400i64,
        400i64, 500i64, 500i64, 500i64, 500i64, 500i64, 500i64, 400i64,
        400i64, 500i64, 500i64, 500i64, 500i64, 500i64, 500i64, 400i64,
        400i64, 500i64, 500i64, 500i64, 500i64, 500i64, 500i64, 400i64,
        475i64, 475i64, 500i64, 525i64, 525i64, 500i64, 475i64, 475i64,
    ]
}

/// Per-square value table (queen), file a to h within each
/// rank, rank 1 first.
pub open spec fn queen_table() -> Seq<i64> {
    seq![
        900i64, 900i64, 925i64, 950i64, 950i64, 925i64, 900i64, 900i64,
        900i64, 900i64, 900i64, 900i64, 900i64, 900i64, 900i64, 900i64,
        900i64, 900i64, 875i64, 875i64, 875i64, 875i64, 900i64, 900i64,
        900i64, 900i64, 875i64, 800i64, 800i64, 875i64, 900i64, 900i64,
        900i64, 900i64, 875i64, 800i64, 800i64, 875i64, 900i64, 900i64,
        900i64, 900i64, 875i64, 875i64, 900i64, 900i64, 900i64, 900i64,
        900i64, 900i64, 900i64, 900i64, 900i64, 900i64, 900i64, 900i64,
        900i64, 900i64, 925i64, 950i64, 950i64, 925i64, 900i64, 900i64,
    ]
}

/// The signed value of the piece kind at array position `i` standing on
/// `sq`: White positive, Black negative, kings zero.
pub open spec fn piece_value(i: int, sq: int) -> int {
    if i == 1 {
        queen_table()[sq] as int
    } else if i == 7 {
        -(queen_table()[sq] as int)
    } else if i == 2 {
        bishop_table()[sq] as int
    } else if i == 8 {
        -(bishop_table()[sq] as int)
    } else if i == 3 {
        knight_table()[sq] as int
    } else if i == 9 {
        -(knight_table()[sq] as int)
    } else if i == 4 {
        rook_table()[sq] as int
    } else if i == 10 {
        -(rook_table()[sq] as int)
    } else if i == 5 {
        white_pawn_table()[sq] as int
    } else if i == 11 {
        -(black_pawn_table()[sq] as int)
    } else {
        0
    }
}

/// The signed value of one piece on one square.
pub fn get_piece_value(piece_type: PieceType, square_index: usize) -> (v: i64)
    requires
        square_index < 64,
    ensures
        v == piece_value(piece_index(piece_type), square_index as int),
{
    match piece_type {
        PieceType::WhiteQueen => {
            let t: [i64; 64] = [
                900, 900, 925, 950, 950, 925, 900, 900,
                900, 900, 900, 900, 900, 900, 900, 900,
                900, 900, 875, 875, 875, 875, 900, 900,
                900, 900, 875, 800, 800, 875, 900, 900,
                900, 900, 875, 800, 800, 875, 900, 900,
                900, 900, 875, 875, 900, 900, 900, 900,
                900, 900, 900, 900, 900, 900, 900, 900,
                900, 900, 925, 950, 950, 925, 900, 900,
            ];
            proof {
                assert(t@ =~= queen_table());
            }
            t[square_index]
        },
        PieceType::BlackQueen => {
            let t: [i64; 64] = [
                900, 900, 925, 950, 950, 925, 900, 900,
                900, 900, 900, 900, 900, 900, 900, 900,
                900, 900, 875, 875, 875, 875, 900, 900,
                900, 900, 875, 800, 800, 875, 900, 900,
                900, 900, 875, 800, 800, 875, 900, 900,
                900, 900, 875, 875, 900, 900, 900, 900,
                900, 900, 900, 900, 900, 900, 900, 900,
                900, 900, 925, 950, 950, 925, 900, 900,
            ];
            proof {
                assert(t@ =~= queen_table());
            }
            -t[square_index]
        },
        PieceType::WhiteBishop => {
            let t: [i64; 64] = [
                275, 275, 275, 275, 275, 275, 275, 275,
                300, 350, 300, 325, 325, 300, 350, 300,
                300, 300, 300, 300, 300, 300, 300, 300,
                300, 325, 350, 300, 300, 350, 325, 300,
                300, 300, 350, 300, 300, 350, 300, 300,
                300, 300, 300, 300, 300, 300, 300, 300,
                300, 350, 300, 325, 325, 300, 300, 300,
                275, 275, 275, 275, 275, 275, 275, 275,
            ];
            proof {
                assert(t@ =~= bishop_table());
            }
            t[square_index]
        },
        PieceType::BlackBishop => {
            let t: [i64; 64] = [
                275, 275, 275, 275, 275, 275, 275, 275,
                300, 350, 300, 325, 325, 300, 350, 300,
                300, 300, 300, 300, 300, 300, 300, 300,
                300, 325, 350, 300, 300, 350, 325, 300,
                300, 300, 350, 300, 300, 350, 300, 300,
                300, 300, 300, 300, 300, 300, 300, 300,
                300, 350, 300, 325, 325, 300, 300, 300,
                275, 275, 275, 275, 275, 275, 275, 275,
            ];
            proof {
                assert(t@ =~= bishop_table());
            }
            -t[square_index]
        },
        PieceType::WhiteKnight => {
            let t: [i64; 64] = [
                225, 250, 250, 250, 250, 250, 250, 225,
                250, 275, 275, 275, 275, 275, 275, 250,
                250, 275, 300, 300, 300, 300, 275, 250,
                250, 275, 300, 325, 325, 300, 275, 250,
                250, 275, 300, 325, 325, 300, 275, 250,
                250, 275, 300, 300, 300, 300, 275, 250,
                250, 275, 275, 275, 275, 275, 275, 250,
                225, 250, 250, 250, 250, 250, 250, 225,
            ];
            proof {
                assert(t@ =~= knight_table());
            }
            t[square_index]
        },
        PieceType::BlackKnight => {
            let t: [i64; 64] = [
                225, 250, 250, 250, 250, 250, 250, 225,
                250, 275, 275, 275, 275, 275, 275, 250,
                250, 275, 300, 300, 300, 300, 275, 250,
                250, 275, 300, 325, 325, 300, 275, 250,
                250, 275, 300, 325, 325, 300, 275, 250,
                250, 275, 300, 300, 300, 300, 275, 250,
                250, 275, 275, 275, 275, 275, 275, 250,
                225, 250, 250, 250, 250, 250, 250, 225,
            ];
            proof {
                assert(t@ =~= knight_table());
            }
            -t[square_index]
        },
        PieceType::WhiteRook => {
            let t: [i64; 64] = [
                475, 475, 500, 525, 525, 500, 475, 475,
                400, 500, 500, 500, 500, 500, 500, 400,
                400, 500, 500, 500, 500, 500, 500, 400,
                400, 500, 500, 500, 500, 500, 500, 400,
                400, 500, 500, 500, 500, 500, 500, 400,
                400, 500, 500, 500, 500, 500, 500, 400,
                400, 500, 500, 500, 500, 500, 500, 400,
                475, 475, 500, 525, 525, 500, 475, 475,
            ];
            proof {
                assert(t@ =~= rook_table());
            }
            t[square_index]
        },
        PieceType::BlackRook => {
            let t: [i64; 64] = [
                475, 475, 500, 525, 525, 500, 475, 475,
                400, 500, 500, 500, 500, 500, 500, 400,
                400, 500, 500, 500, 500, 500, 500, 400,
                400, 500, 500, 500, 500, 500, 500, 400,
                400, 500, 500, 500, 500, 500, 500, 400,
                400, 500, 500, 500, 500, 500, 500, 400,
                400, 500, 500, 500, 500, 500, 500, 400,
                475, 475, 500, 525, 525, 500, 475, 475,
            ];
            proof {
                assert(t@ =~= rook_table());
            }
            -t[square_index]
        },
        PieceType::WhitePawn => {
            let t: [i64; 64] = [
                0, 0, 0, 0, 0, 0, 0, 0,
                100, 100, 100, 100, 100, 100, 100, 100,
                100, 100, 100, 100, 100, 100, 100, 100,
                100, 100, 100, 125, 125, 100, 100, 100,
                100, 100, 125, 150, 150, 125, 100, 100,
                150, 125, 100, 100, 100, 100, 125, 150,
                150, 150, 150, 100, 100, 150, 150, 150,
                0, 0, 0, 0, 0, 0, 0, 0,
            ];
            proof {
                assert(t@ =~= white_pawn_table());
            }
            t[square_index]
        },
        PieceType::BlackPawn => {
            let t: [i64; 64] = [
                0, 0, 0, 0, 0, 0, 0, 0,
                150, 150, 150, 100, 100, 150, 150, 150,
                150, 125, 100, 100, 100, 100, 125, 150,
                100, 100, 125, 150, 150, 125, 100, 100,
                100, 100, 100, 100, 100, 100, 100, 100,
                100, 100, 100, 125, 125, 100, 100, 100,
                100, 100, 100, 100, 100, 100, 100, 100,
                0, 0, 0, 0, 0, 0, 0, 0,
            ];
            proof {
                assert(t@ =~= black_pawn_table());
            }
            -t[square_index]
        },
        PieceType::WhiteKing => 0,
        PieceType::BlackKing => 0,
    }
}

/// Sum of the piece values of bitboard `i` over squares below `n`.
pub open spec fn mat_sum_sq(pos: Position, i: int, n: int) -> int
    decreases n,
{
    if n <= 0 {
        0
    } else {
        mat_sum_sq(pos, i, n - 1) + if bit64(bb_at(pos, i), n - 1) {
            piece_value(i, n - 1)
        } else {
            0
        }
    }
}

/// Sum of the piece values of the first `k` bitboards.
pub open spec fn mat_sum(pos: Position, k: int) -> int
    decreases k,
{
    if k <= 0 {
        0
    } else {
        mat_sum(pos, k - 1) + mat_sum_sq(pos, k - 1, 64)
    }
}

/// The bishop-pair bonus of both sides.
pub open spec fn pair_bonus(pos: Position) -> int {
    (if bit_indices(pos.white_bishop).len() >= 2 {
        50int
    } else {
        0int
    }) + (if bit_indices(pos.black_bishop).len() >= 2 {
        -50int
    } else {
        0int
    })
}

/// The mate score: sign against the mated side to move, magnitude growing
/// with the remaining depth so that faster mates dominate slower ones.
pub open spec fn mate_score(white_to_move: bool, depth: int) -> int {
    if white_to_move {
        -(1_000_000 + 5 * depth)
    } else {
        1_000_000 + 5 * depth
    }
}

/// The whole static evaluation, a pure function of the position (plus the
/// checkmate verdict and the remaining depth).
pub open spec fn eval_spec(pos: Position, is_mate: bool, depth: int) -> int {
    if is_mate {
        mate_score(pos.white_to_move, depth)
    } else {
        mat_sum(pos, 12) + pair_bonus(pos)
    }
}

/// Evaluation values stay far from the search sentinels.
pub proof fn lemma_eval_bounds(pos: Position, is_mate: bool, depth: int)
    requires
        0 <= depth <= u32::MAX,
    ensures
        NEGATIVE_INFINITY < eval_spec(pos, is_mate, depth) < INFINITY,
{
    lemma_mat_sum_bounds(pos, 12);
}

proof fn lemma_mat_sum_sq_bounds(pos: Position, i: int, n: int)
    requires
        0 <= n <= 64,
    ensures
        -n * 1000 <= mat_sum_sq(pos, i, n) <= n * 1000,
    decreases n,
{
    if n > 0 {
        lemma_mat_sum_sq_bounds(pos, i, n - 1);
        assert(-1000 <= piece_value(i, n - 1) <= 1000);
    }
}

proof fn lemma_mat_sum_bounds(pos: Position, k: int)
    requires
        0 <= k <= 12,
    ensures
        -k * 64000 <= mat_sum(pos, k) <= k * 64000,
    decreases k,
{
    if k > 0 {
        lemma_mat_sum_bounds(pos, k - 1);
        lemma_mat_sum_sq_bounds(pos, k - 1, 64);
    }
}

/// Evaluates a board: checkmate sentinel or material plus positional value.
pub fn evaluate_position(board: &Board, is_mate: bool, depth: u32) -> (r: i64)
    ensures
        r == eval_spec(board.position(), is_mate, depth as int),
        NEGATIVE_INFINITY < r < INFINITY,
{
    proof {
        lemma_eval_bounds(board.position(), is_mate, depth as int);
    }
    if is_mate {
        let base: i64 = 1_000_000 + 5 * (depth as i64);
        if board.get_if_white_to_move() {
            return -base;
        } else {
            return base;
        }
    }
    let bbs = board.get_bitboards();
    let types = PieceType::iter();
    let mut eval: i64 = 0;
    let mut i: usize = 0;
    while i < 12
        invariant
            i <= 12,
            types@.len() == 12,
            forall|k: int| 0 <= k < 12 ==> #[trigger] types@[k] == piece_of_index(k),
            forall|k: int| 0 <= k < 12 ==> bbs@[k] == bb_at(board.position(), k),
            eval == mat_sum(board.position(), i as int),
            -800_000 <= eval <= 800_000,
        decreases 12 - i,
    {
        let bb = bbs[i];
        let pt = types[i];
        let mut sq: usize = 0;
        let mut inner: i64 = 0;
        while sq < 64
            invariant
                i < 12,
                sq <= 64,
                pt == piece_of_index(i as int),
                bb == bb_at(board.position(), i as int),
                inner == mat_sum_sq(board.position(), i as int, sq as int),
                -64_000 <= inner <= 64_000,
            decreases 64 - sq,
        {
            proof {
                lemma_mat_sum_sq_bounds(board.position(), i as int, sq as int);
                assert(-1000 <= piece_value(i as int, sq as int) <= 1000);
            }
            if bb_test(bb, sq) {
                let v = get_piece_value(pt, sq);
                proof {
                    crate::pieces::lemma_piece_index_inverse();
                }
                inner = inner + v;
            }
            sq += 1;
        }
        proof {
            lemma_mat_sum_sq_bounds(board.position(), i as int, 64);
        }
        eval = eval + inner;
        proof {
            lemma_mat_sum_bounds(board.position(), i as int + 1);
        }
        i += 1;
    }
    let wb = bbs[2];
    let bbp = bbs[8];
    if popcount(wb) >= 2 {
        eval = eval + 50;
    }
    if popcount(bbp) >= 2 {
        eval = eval - 50;
    }
    eval
}

} // verus!
