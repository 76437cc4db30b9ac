//! The adversarial search: recursive minimax with alpha-beta pruning over
//! independently derived successor boards, the evaluator at the frontier and
//! the legal move list as the branching set.  The pruned search provably
//! returns, from a full window, the same score and the same move as the
//! exhaustive minimax; an unpruned variant and a perft node counter are
//! provided alongside.

use vstd::prelude::*;
use crate::board::{all_moves_spec, is_checkmate_spec, Board};
use crate::eval::{eval_spec, evaluate_position, INFINITY, NEGATIVE_INFINITY};
use crate::magic::Tables;
use crate::position::{apply_move, Move, Position};

verus! {

pub open spec fn i_min(a: int, b: int) -> int {
    if a <= b {
        a
    } else {
        b
    }
}

pub open spec fn i_max(a: int, b: int) -> int {
    if a >= b {
        a
    } else {
        b
    }
}

/// Exhaustive minimax value and first-best move index over the first `i`
/// legal moves of a maximizing (White) node.  Ties keep the earlier move.
pub open spec fn fold_max_idx(pos: Position, ms: Seq<Move>, i: int, depth: nat) -> (int, int)
    decreases depth, 0int, i,
{
    if i <= 0 || depth == 0 {
        (NEGATIVE_INFINITY as int, -1)
    } else {
        let prev = fold_max_idx(pos, ms, i - 1, depth);
        let c = minimax_spec(apply_move(pos, ms[i - 1]), (depth - 1) as nat);
        if prev.0 >= c {
            prev
        } else {
            (c, i - 1)
        }
    }
}

/// The same for a minimizing (Black) node.
pub open spec fn fold_min_idx(pos: Position, ms: Seq<Move>, i: int, depth: nat) -> (int, int)
    decreases depth, 0int, i,
{
    if i <= 0 || depth == 0 {
        (INFINITY as int, -1)
    } else {
        let prev = fold_min_idx(pos, ms, i - 1, depth);
        let c = minimax_spec(apply_move(pos, ms[i - 1]), (depth - 1) as nat);
        if prev.0 <= c {
            prev
        } else {
            (c, i - 1)
        }
    }
}

/// The exhaustive (unpruned) minimax value of a position.
pub open spec fn minimax_spec(pos: Position, depth: nat) -> int
    decreases depth, 1int, 0int,
{
    if depth == 0 || is_checkmate_spec(pos) {
        eval_spec(pos, is_checkmate_spec(pos), depth as int)
    } else {
        let ms = all_moves_spec(pos);
        if pos.white_to_move {
            fold_max_idx(pos, ms, ms.len() as int, depth).0
        } else {
            fold_min_idx(pos, ms, ms.len() as int, depth).0
        }
    }
}

/// The move the search reports: the first move attaining the minimax value,
/// or nothing at the frontier or when no legal move exists.
pub open spec fn best_of(pos: Position, depth: nat) -> Option<Move> {
    if depth == 0 || is_checkmate_spec(pos) {
        None
    } else {
        let ms = all_moves_spec(pos);
        let f = if pos.white_to_move {
            fold_max_idx(pos, ms, ms.len() as int, depth)
        } else {
            fold_min_idx(pos, ms, ms.len() as int, depth)
        };
        if f.1 >= 0 {
            Some(ms[f.1])
        } else {
            None
        }
    }
}

/// Minimax values stay between the two sentinels.
pub proof fn lemma_minimax_bounds(pos: Position, depth: nat)
    requires
        depth <= u32::MAX,
    ensures
        NEGATIVE_INFINITY as int <= minimax_spec(pos, depth) <= INFINITY as int,
    decreases depth, 1int, 0int,
{
    if depth == 0 || is_checkmate_spec(pos) {
        crate::eval::lemma_eval_bounds(pos, is_checkmate_spec(pos), depth as int);
    } else {
        let ms = all_moves_spec(pos);
        if pos.white_to_move {
            lemma_fold_max_bounds(pos, ms, ms.len() as int, depth);
        } else {
            lemma_fold_min_bounds(pos, ms, ms.len() as int, depth);
        }
    }
}

proof fn lemma_fold_max_bounds(pos: Position, ms: Seq<Move>, i: int, depth: nat)
    requires
        depth <= u32::MAX,
    ensures
        NEGATIVE_INFINITY as int <= fold_max_idx(pos, ms, i, depth).0 <= INFINITY as int,
    decreases depth, 0int, i,
{
    if i > 0 && depth > 0 {
        lemma_fold_max_bounds(pos, ms, i - 1, depth);
        lemma_minimax_bounds(apply_move(pos, ms[i - 1]), (depth - 1) as nat);
    }
}

proof fn lemma_fold_min_bounds(pos: Position, ms: Seq<Move>, i: int, depth: nat)
    requires
        depth <= u32::MAX,
    ensures
        NEGATIVE_INFINITY as int <= fold_min_idx(pos, ms, i, depth).0 <= INFINITY as int,
    decreases depth, 0int, i,
{
    if i > 0 && depth > 0 {
        lemma_fold_min_bounds(pos, ms, i - 1, depth);
        lemma_minimax_bounds(apply_move(pos, ms[i - 1]), (depth - 1) as nat);
    }
}

/// The running maximum over a longer prefix can only grow (and the running
/// minimum only shrink).
proof fn lemma_fold_max_mono(pos: Position, ms: Seq<Move>, i: int, j: int, depth: nat)
    requires
        i <= j,
    ensures
        fold_max_idx(pos, ms, i, depth).0 <= fold_max_idx(pos, ms, j, depth).0,
    decreases j - i,
{
    if i < j {
        lemma_fold_max_mono(pos, ms, i, j - 1, depth);
    }
}

proof fn lemma_fold_min_mono(pos: Position, ms: Seq<Move>, i: int, j: int, depth: nat)
    requires
        i <= j,
    ensures
        fold_min_idx(pos, ms, i, depth).0 >= fold_min_idx(pos, ms, j, depth).0,
    decreases j - i,
{
    if i < j {
        lemma_fold_min_mono(pos, ms, i, j - 1, depth);
    }
}

/// When a longer prefix does not improve the value, it keeps the same
/// first-best index.
proof fn lemma_fold_max_stable(pos: Position, ms: Seq<Move>, i: int, j: int, depth: nat)
    requires
        0 <= i <= j,
        fold_max_idx(pos, ms, j, depth).0 == fold_max_idx(pos, ms, i, depth).0,
    ensures
        fold_max_idx(pos, ms, j, depth).1 == fold_max_idx(pos, ms, i, depth).1,
    decreases j - i,
{
    if i < j {
        lemma_fold_max_mono(pos, ms, i, j - 1, depth);
        lemma_fold_max_stable(pos, ms, i, j - 1, depth);
    }
}

proof fn lemma_fold_min_stable(pos: Position, ms: Seq<Move>, i: int, j: int, depth: nat)
    requires
        0 <= i <= j,
        fold_min_idx(pos, ms, j, depth).0 == fold_min_idx(pos, ms, i, depth).0,
    ensures
        fold_min_idx(pos, ms, j, depth).1 == fold_min_idx(pos, ms, i, depth).1,
    decreases j - i,
{
    if i < j {
        lemma_fold_min_mono(pos, ms, i, j - 1, depth);
        lemma_fold_min_stable(pos, ms, i, j - 1, depth);
    }
}

/// The first-best index is a valid prefix position as soon as one move has
/// been folded.
proof fn lemma_fold_max_idx_range(pos: Position, ms: Seq<Move>, i: int, depth: nat)
    requires
        0 <= i,
    ensures
        -1 <= fold_max_idx(pos, ms, i, depth).1 < i,
    decreases i,
{
    if i > 0 {
        lemma_fold_max_idx_range(pos, ms, i - 1, depth);
    }
}

proof fn lemma_fold_min_idx_range(pos: Position, ms: Seq<Move>, i: int, depth: nat)
    requires
        0 <= i,
    ensures
        -1 <= fold_min_idx(pos, ms, i, depth).1 < i,
    decreases i,
{
    if i > 0 {
        lemma_fold_min_idx_range(pos, ms, i - 1, depth);
    }
}

/// Alpha-beta minimax.  Fail-soft: the score is correct against the window
/// (`i_min(v, beta) <= score <= i_max(v, alpha)`), hence exact from a full
/// window, where it also reports the exhaustive search's move.
pub fn minimax(board: &Board, tables: &Tables, depth: u32, alpha: i64, beta: i64) -> (r: (
    i64,
    Option<Move>,
))
    requires
        board.wf(),
        tables.wf(),
        alpha < beta,
    ensures
        ({
            let v = minimax_spec(board.position(), depth as nat);
            &&& i_min(v, beta as int) <= r.0 as int <= i_max(v, alpha as int)
            &&& (alpha == NEGATIVE_INFINITY && beta == INFINITY) ==> (r.0 == v && r.1 == best_of(
                board.position(),
                depth as nat,
            ))
        }),
    decreases depth,
{
    let is_mate = board.is_checkmate();
    if depth == 0 || is_mate {
        let ev = evaluate_position(board, is_mate, depth);
        return (ev, None);
    }
    let ms = board.get_all_moves();
    let ghost pos = board.position();
    let ghost dn = depth as nat;
    let n = ms.len();
    if board.get_if_white_to_move() {
        let mut max_eval: i64 = NEGATIVE_INFINITY;
        let mut best: Option<Move> = None;
        let mut a = alpha;
        let mut i: usize = 0;
        while i < n
            invariant
                i <= n,
                board.wf(),
                tables.wf(),
                depth >= 1,
                dn == depth as nat,
                pos == board.position(),
                ms@ == all_moves_spec(pos),
                n == ms@.len(),
                pos.white_to_move,
                !is_checkmate_spec(pos),
                alpha < beta,
                a as int == i_max(alpha as int, max_eval as int),
                a < beta,
                i_min(fold_max_idx(pos, ms@, i as int, dn).0, beta as int) <= max_eval as int,
                max_eval as int <= i_max(fold_max_idx(pos, ms@, i as int, dn).0, alpha as int),
                (alpha == NEGATIVE_INFINITY && beta == INFINITY) ==> (max_eval as int
                    == fold_max_idx(pos, ms@, i as int, dn).0 && best == (
                if fold_max_idx(pos, ms@, i as int, dn).1 >= 0 {
                    Some(ms@[fold_max_idx(pos, ms@, i as int, dn).1])
                } else {
                    None::<Move>
                })),
            decreases n - i,
        {
            let m = ms[i];
            proof {
                assert(all_moves_spec(pos)[i as int] == m);
                assert(all_moves_spec(pos).contains(m));
            }
            let child = board.after_move(m, tables);
            let rr = minimax(&child, tables, depth - 1, a, beta);
            let ev = rr.0;
            let ghost cv = minimax_spec(apply_move(pos, m), (depth - 1) as nat);
            let ghost f = fold_max_idx(pos, ms@, i as int, dn);
            let ghost f2 = fold_max_idx(pos, ms@, i as int + 1, dn);
            proof {
                assert(f2 == if f.0 >= cv {
                    f
                } else {
                    (cv, i as int)
                });
                lemma_fold_max_idx_range(pos, ms@, i as int, dn);
            }
            if ev > max_eval {
                max_eval = ev;
                best = Some(m);
            }
            if ev > a {
                a = ev;
            }
            i += 1;
            if beta <= a {
                proof {
                    lemma_fold_max_mono(pos, ms@, i as int, n as int, dn);
                    if alpha == NEGATIVE_INFINITY && beta == INFINITY {
                        lemma_minimax_bounds(apply_move(pos, m), (depth - 1) as nat);
                        lemma_fold_max_bounds(pos, ms@, n as int, dn);
                        lemma_fold_max_stable(pos, ms@, i as int, n as int, dn);
                        lemma_fold_max_idx_range(pos, ms@, i as int, dn);
                    }
                }
                return (max_eval, best);
            }
        }
        (max_eval, best)
    } else {
        let mut min_eval: i64 = INFINITY;
        let mut best: Option<Move> = None;
        let mut b = beta;
        let mut i: usize = 0;
        while i < n
            invariant
                i <= n,
                board.wf(),
                tables.wf(),
                depth >= 1,
                dn == depth as nat,
                pos == board.position(),
                ms@ == all_moves_spec(pos),
                n == ms@.len(),
                !pos.white_to_move,
                !is_checkmate_spec(pos),
                alpha < beta,
                b as int == i_min(beta as int, min_eval as int),
                alpha < b,
                min_eval as int <= i_max(fold_min_idx(pos, ms@, i as int, dn).0, alpha as int),
                i_min(fold_min_idx(pos, ms@, i as int, dn).0, beta as int) <= min_eval as int,
                (alpha == NEGATIVE_INFINITY && beta == INFINITY) ==> (min_eval as int
                    == fold_min_idx(pos, ms@, i as int, dn).0 && best == (
                if fold_min_idx(pos, ms@, i as int, dn).1 >= 0 {
                    Some(ms@[fold_min_idx(pos, ms@, i as int, dn).1])
                } else {
                    None::<Move>
                })),
            decreases n - i,
        {
            let m = ms[i];
            proof {
                assert(all_moves_spec(pos)[i as int] == m);
                assert(all_moves_spec(pos).contains(m));
            }
            let child = board.after_move(m, tables);
            let rr = minimax(&child, tables, depth - 1, alpha, b);
            let ev = rr.0;
            let ghost cv = minimax_spec(apply_move(pos, m), (depth - 1) as nat);
            let ghost f = fold_min_idx(pos, ms@, i as int, dn);
            let ghost f2 = fold_min_idx(pos, ms@, i as int + 1, dn);
            proof {
                assert(f2 == if f.0 <= cv {
                    f
                } else {
                    (cv, i as int)
                });
                lemma_fold_min_idx_range(pos, ms@, i as int, dn);
            }
            if ev < min_eval {
                min_eval = ev;
                best = Some(m);
            }
            if ev < b {
                b = ev;
            }
            i += 1;
            if b <= alpha {
                proof {
                    lemma_fold_min_mono(pos, ms@, i as int, n as int, dn);
                    if alpha == NEGATIVE_INFINITY && beta == INFINITY {
                        lemma_minimax_bounds(apply_move(pos, m), (depth - 1) as nat);
                        lemma_fold_min_bounds(pos, ms@, n as int, dn);
                        lemma_fold_min_stable(pos, ms@, i as int, n as int, dn);
                        lemma_fold_min_idx_range(pos, ms@, i as int, dn);
                    }
                }
                return (min_eval, best);
            }
        }
        (min_eval, best)
    }
}

/// Exhaustive minimax without pruning: exactly the minimax value and the
/// first move attaining it.
pub fn minimax_plain(board: &Board, tables: &Tables, depth: u32) -> (r: (i64, Option<Move>))
    requires
        board.wf(),
        tables.wf(),
    ensures
        r.0 as int == minimax_spec(board.position(), depth as nat),
        r.1 == best_of(board.position(), depth as nat),
    decreases depth,
{
    let is_mate = board.is_checkmate();
    if depth == 0 || is_mate {
        let ev = evaluate_position(board, is_mate, depth);
        return (ev, None);
    }
    let ms = board.get_all_moves();
    let ghost pos = board.position();
    let ghost dn = depth as nat;
    let n = ms.len();
    let white = board.get_if_white_to_move();
    let mut acc: i64 = if white {
        NEGATIVE_INFINITY
    } else {
        INFINITY
    };
    let mut best: Option<Move> = None;
    let mut i: usize = 0;
    while i < n
        invariant
            i <= n,
            board.wf(),
            tables.wf(),
            depth >= 1,
            dn == depth as nat,
            pos == board.position(),
            ms@ == all_moves_spec(pos),
            n == ms@.len(),
            white == pos.white_to_move,
            !is_checkmate_spec(pos),
            acc as int == (if white {
                fold_max_idx(pos, ms@, i as int, dn).0
            } else {
                fold_min_idx(pos, ms@, i as int, dn).0
            }),
            best == ({
                let fi = if white {
                    fold_max_idx(pos, ms@, i as int, dn).1
                } else {
                    fold_min_idx(pos, ms@, i as int, dn).1
                };
                if fi >= 0 {
                    Some(ms@[fi])
                } else {
                    None::<Move>
                }
            }),
        decreases n - i,
    {
        let m = ms[i];
        proof {
            assert(all_moves_spec(pos)[i as int] == m);
            assert(all_moves_spec(pos).contains(m));
            if white {
                lemma_fold_max_idx_range(pos, ms@, i as int, dn);
            } else {
                lemma_fold_min_idx_range(pos, ms@, i as int, dn);
            }
        }
        let child = board.after_move(m, tables);
        let rr = minimax_plain(&child, tables, depth - 1);
        let ev = rr.0;
        if white {
            if ev > acc {
                acc = ev;
                best = Some(m);
            }
        } else {
            if ev < acc {
                acc = ev;
                best = Some(m);
            }
        }
        i += 1;
    }
    (acc, best)
}

/// Saturating addition for perft counts.
pub open spec fn sat_add(a: int, b: int) -> int {
    if a + b > u64::MAX {
        u64::MAX as int
    } else {
        a + b
    }
}

/// The number of leaf nodes of the legal game tree to the given depth
/// (saturating at the counter's capacity).
pub open spec fn perft_spec(pos: Position, depth: nat) -> int
    decreases depth, 1int, 0int,
{
    if depth == 0 {
        1
    } else {
        perft_sum(pos, all_moves_spec(pos), all_moves_spec(pos).len() as int, depth)
    }
}

pub open spec fn perft_sum(pos: Position, ms: Seq<Move>, i: int, depth: nat) -> int
    decreases depth, 0int, i,
{
    if i <= 0 || depth == 0 {
        0
    } else {
        sat_add(perft_sum(pos, ms, i - 1, depth), perft_spec(apply_move(pos, ms[i - 1]), (depth - 1) as nat))
    }
}

proof fn lemma_perft_bounds(pos: Position, depth: nat)
    ensures
        0 <= perft_spec(pos, depth) <= u64::MAX,
    decreases depth, 1int, 0int,
{
    if depth > 0 {
        lemma_perft_sum_bounds(pos, all_moves_spec(pos), all_moves_spec(pos).len() as int, depth);
    }
}

proof fn lemma_perft_sum_bounds(pos: Position, ms: Seq<Move>, i: int, depth: nat)
    ensures
        0 <= perft_sum(pos, ms, i, depth) <= u64::MAX,
    decreases depth, 0int, i,
{
    if i > 0 && depth > 0 {
        lemma_perft_sum_bounds(pos, ms, i - 1, depth);
        lemma_perft_bounds(apply_move(pos, ms[i - 1]), (depth - 1) as nat);
    }
}

/// Counts the leaves of the legal game tree: the standard correctness
/// benchmark for a move generator.
pub fn perft(board: &Board, tables: &Tables, depth: u32) -> (r: u64)
    requires
        board.wf(),
        tables.wf(),
    ensures
        r as int == perft_spec(board.position(), depth as nat),
    decreases depth,
{
    if depth == 0 {
        return 1;
    }
    let ms = board.get_all_moves();
    let ghost pos = board.position();
    let ghost dn = depth as nat;
    let n = ms.len();
    let mut acc: u64 = 0;
    let mut i: usize = 0;
    while i < n
        invariant
            i <= n,
            board.wf(),
            tables.wf(),
            depth >= 1,
            dn == depth as nat,
            pos == board.position(),
            ms@ == all_moves_spec(pos),
            n == ms@.len(),
            acc as int == perft_sum(pos, ms@, i as int, dn),
        decreases n - i,
    {
        let m = ms[i];
        proof {
            assert(all_moves_spec(pos)[i as int] == m);
            assert(all_moves_spec(pos).contains(m));
            lemma_perft_bounds(apply_move(pos, m), (depth - 1) as nat);
        }
        let child = board.after_move(m, tables);
        let c = perft(&child, tables, depth - 1);
        acc = acc.saturating_add(c);
        i += 1;
    }
    acc
}

/// The automated player: holds which side it plays.
pub struct Bot {
    is_white_player: bool,
}

impl Bot {
    /// Which side this player was created for.
    pub closed spec fn plays_white(&self) -> bool {
        self.is_white_player
    }

    pub fn new(is_white: bool) -> (r: Bot)
        ensures
            r.plays_white() == is_white,
    {
        Bot { is_white_player: is_white }
    }

    /// The best move for the side to move: the same move the exhaustive
    /// minimax would pick; `None` exactly at depth zero, on a finished game,
    /// or when no legal move exists.
    pub fn get_best_move(&self, board: &Board, tables: &Tables, depth: u32) -> (r: Option<Move>)
        requires
            board.wf(),
            tables.wf(),
        ensures
            r == best_of(board.position(), depth as nat),
    {
        let rr = minimax(board, tables, depth, NEGATIVE_INFINITY, INFINITY);
        rr.1
    }
}

} // verus!
