//! Sliding-piece attacks.  The reference semantics is a ray walk
//! (`ray_reaches`): from the origin square, step outward in one of the
//! compass directions, collecting squares until a blocker or the board edge.
//! For O(1) lookups, per-square tables hash the occupancy restricted to a
//! relevance mask through a magic multiplier; every table slot remembers the
//! blocker set it was computed from, so a lookup is checked against its key
//! and the result provably equals the brute-force ray walk for every
//! occupancy.

use vstd::prelude::*;
use crate::bits::{
    bb_set,
    bb_test,
    bit64,
    bit_indices,
    bits_to_indices,
    lemma_bit_and,
    lemma_bit_indices_upto_members,
    lemma_bit_zero,
    popcount,
};
use crate::attacks::on_board;

verus! {

/// The ray from file/rank `(f, r)` in direction `(df, dr)` reaches `t`:
/// `t` lies on the ray and every ray square strictly before it is empty.
pub open spec fn ray_reaches(occ: u64, f: int, r: int, df: int, dr: int, t: int, fuel: nat) -> bool
    decreases fuel,
{
    fuel > 0 && 0 <= f + df < 8 && 0 <= r + dr < 8 && {
        let n = (r + dr) * 8 + (f + df);
        n == t || (!bit64(occ, n) && ray_reaches(occ, f + df, r + dr, df, dr, t, (fuel - 1) as nat))
    }
}

/// The ray squares whose occupancy can matter: every ray square that still
/// has a successor on the board in the same direction (board edges excluded).
pub open spec fn mask_reaches(f: int, r: int, df: int, dr: int, t: int, fuel: nat) -> bool
    decreases fuel,
{
    fuel > 0 && 0 <= f + df < 8 && 0 <= r + dr < 8 && 0 <= f + 2 * df < 8 && 0 <= r + 2 * dr < 8
        && {
        let n = (r + dr) * 8 + (f + df);
        n == t || mask_reaches(f + df, r + dr, df, dr, t, (fuel - 1) as nat)
    }
}

/// A rook on `sq` attacks `t` under occupancy `occ`.
pub open spec fn rook_attack(occ: u64, sq: int, t: int) -> bool {
    on_board(sq) && {
        let f = sq % 8;
        let r = sq / 8;
        ray_reaches(occ, f, r, 1, 0, t, 7) || ray_reaches(occ, f, r, -1, 0, t, 7) || ray_reaches(
            occ,
            f,
            r,
            0,
            1,
            t,
            7,
        ) || ray_reaches(occ, f, r, 0, -1, t, 7)
    }
}

/// A bishop on `sq` attacks `t` under occupancy `occ`.
pub open spec fn bishop_attack(occ: u64, sq: int, t: int) -> bool {
    on_board(sq) && {
        let f = sq % 8;
        let r = sq / 8;
        ray_reaches(occ, f, r, 1, 1, t, 7) || ray_reaches(occ, f, r, 1, -1, t, 7) || ray_reaches(
            occ,
            f,
            r,
            -1,
            1,
            t,
            7,
        ) || ray_reaches(occ, f, r, -1, -1, t, 7)
    }
}

pub open spec fn slider_attack(diag: bool, occ: u64, sq: int, t: int) -> bool {
    if diag {
        bishop_attack(occ, sq, t)
    } else {
        rook_attack(occ, sq, t)
    }
}

/// `t` is in the relevance mask of a slider on `sq`.
pub open spec fn slider_relevant(diag: bool, sq: int, t: int) -> bool {
    on_board(sq) && {
        let f = sq % 8;
        let r = sq / 8;
        if diag {
            mask_reaches(f, r, 1, 1, t, 7) || mask_reaches(f, r, 1, -1, t, 7) || mask_reaches(
                f,
                r,
                -1,
                1,
                t,
                7,
            ) || mask_reaches(f, r, -1, -1, t, 7)
        } else {
            mask_reaches(f, r, 1, 0, t, 7) || mask_reaches(f, r, -1, 0, t, 7) || mask_reaches(
                f,
                r,
                0,
                1,
                t,
                7,
            ) || mask_reaches(f, r, 0, -1, t, 7)
        }
    }
}

/// A ray walk only ever consults squares of the relevance mask, so two
/// occupancies that agree there yield the same reach.
pub proof fn lemma_ray_frame(
    occ1: u64,
    occ2: u64,
    f: int,
    r: int,
    df: int,
    dr: int,
    t: int,
    fuel: nat,
)
    requires
        forall|m: int| mask_reaches(f, r, df, dr, m, fuel) ==> (bit64(occ1, m) == bit64(occ2, m)),
    ensures
        ray_reaches(occ1, f, r, df, dr, t, fuel) == ray_reaches(occ2, f, r, df, dr, t, fuel),
    decreases fuel,
{
    if fuel > 0 && 0 <= f + df < 8 && 0 <= r + dr < 8 {
        let n = (r + dr) * 8 + (f + df);
        if 0 <= f + 2 * df < 8 && 0 <= r + 2 * dr < 8 {
            assert(mask_reaches(f, r, df, dr, n, fuel));
            assert forall|m: int| mask_reaches(
                f + df,
                r + dr,
                df,
                dr,
                m,
                (fuel - 1) as nat,
            ) implies mask_reaches(f, r, df, dr, m, fuel) by {}
            lemma_ray_frame(occ1, occ2, f + df, r + dr, df, dr, t, (fuel - 1) as nat);
        } else {
            assert(!ray_reaches(occ1, f + df, r + dr, df, dr, t, (fuel - 1) as nat));
            assert(!ray_reaches(occ2, f + df, r + dr, df, dr, t, (fuel - 1) as nat));
        }
    }
}

/// Any square a mask walk lists is on the board.
pub proof fn lemma_mask_on_board(f: int, r: int, df: int, dr: int, t: int, fuel: nat)
    ensures
        mask_reaches(f, r, df, dr, t, fuel) ==> 0 <= t < 64,
    decreases fuel,
{
    if fuel > 0 {
        lemma_mask_on_board(f + df, r + dr, df, dr, t, (fuel - 1) as nat);
    }
}

/// Any square a ray reaches is on the board.
pub proof fn lemma_ray_on_board(occ: u64, f: int, r: int, df: int, dr: int, t: int, fuel: nat)
    ensures
        ray_reaches(occ, f, r, df, dr, t, fuel) ==> 0 <= t < 64,
    decreases fuel,
{
    if fuel > 0 {
        lemma_ray_on_board(occ, f + df, r + dr, df, dr, t, (fuel - 1) as nat);
    }
}

/// A ray stops at its first blocker, so it reaches at most one occupied
/// square.
pub proof fn lemma_ray_unique_blocker(
    occ: u64,
    f: int,
    r: int,
    df: int,
    dr: int,
    t1: int,
    t2: int,
    fuel: nat,
)
    requires
        ray_reaches(occ, f, r, df, dr, t1, fuel),
        ray_reaches(occ, f, r, df, dr, t2, fuel),
        bit64(occ, t1),
        bit64(occ, t2),
    ensures
        t1 == t2,
    decreases fuel,
{
    let n = (r + dr) * 8 + (f + df);
    if bit64(occ, n) {
        assert(t1 == n);
        assert(t2 == n);
    } else {
        assert(t1 != n && t2 != n);
        lemma_ray_unique_blocker(occ, f + df, r + dr, df, dr, t1, t2, (fuel - 1) as nat);
    }
}

/// The direction `(df, dr)` belongs to the given slider kind.
pub open spec fn slider_dir(diag: bool, df: int, dr: int) -> bool {
    if diag {
        (df == 1 || df == -1) && (dr == 1 || dr == -1)
    } else {
        (df == 0 && (dr == 1 || dr == -1)) || ((df == 1 || df == -1) && dr == 0)
    }
}

proof fn lemma_dir_frame(diag: bool, occ: u64, mask: u64, sq: int, df: int, dr: int, t: int)
    requires
        on_board(sq),
        slider_dir(diag, df, dr),
        forall|m: int| #[trigger] slider_relevant(diag, sq, m) ==> bit64(mask, m),
    ensures
        ray_reaches(occ & mask, sq % 8, sq / 8, df, dr, t, 7) == ray_reaches(
            occ,
            sq % 8,
            sq / 8,
            df,
            dr,
            t,
            7,
        ),
{
    let f = sq % 8;
    let r = sq / 8;
    assert forall|m: int| mask_reaches(f, r, df, dr, m, 7) implies (bit64(occ & mask, m) == bit64(
        occ,
        m,
    )) by {
        lemma_mask_on_board(f, r, df, dr, m, 7);
        assert(slider_relevant(diag, sq, m));
        assert(bit64(mask, m));
        lemma_bit_and(occ, mask);
    }
    lemma_ray_frame(occ & mask, occ, f, r, df, dr, t, 7);
}

/// Restricting an occupancy to a superset of the relevance mask does not
/// change any slider attack.
pub proof fn lemma_slider_mask_frame(diag: bool, occ: u64, mask: u64, sq: int)
    requires
        on_board(sq),
        forall|m: int| #[trigger] slider_relevant(diag, sq, m) ==> bit64(mask, m),
    ensures
        forall|t: int| #[trigger]
            slider_attack(diag, occ & mask, sq, t) == slider_attack(diag, occ, sq, t),
{
    assert forall|t: int| #[trigger]
        slider_attack(diag, occ & mask, sq, t) == slider_attack(diag, occ, sq, t) by {
        if diag {
            lemma_dir_frame(diag, occ, mask, sq, 1, 1, t);
            lemma_dir_frame(diag, occ, mask, sq, 1, -1, t);
            lemma_dir_frame(diag, occ, mask, sq, -1, 1, t);
            lemma_dir_frame(diag, occ, mask, sq, -1, -1, t);
        } else {
            lemma_dir_frame(diag, occ, mask, sq, 1, 0, t);
            lemma_dir_frame(diag, occ, mask, sq, -1, 0, t);
            lemma_dir_frame(diag, occ, mask, sq, 0, 1, t);
            lemma_dir_frame(diag, occ, mask, sq, 0, -1, t);
        }
    }
}

/// Walks one ray, collecting reachable squares until a blocker or the edge.
pub fn ray_walk(occ: u64, sq: usize, df: i32, dr: i32) -> (bb: u64)
    requires
        sq < 64,
        -1 <= df <= 1,
        -1 <= dr <= 1,
        df != 0 || dr != 0,
    ensures
        forall|t: int| #[trigger]
            bit64(bb, t) == ray_reaches(
                occ,
                (sq as int) % 8,
                (sq as int) / 8,
                df as int,
                dr as int,
                t,
                7,
            ),
{
    let f0 = (sq % 8) as i32;
    let r0 = (sq / 8) as i32;
    let ghost fi = (sq as int) % 8;
    let ghost ri = (sq as int) / 8;
    let mut bb: u64 = 0;
    let mut f = f0 + df;
    let mut r = r0 + dr;
    let ghost mut steps: int = 0;
    proof {
        lemma_bit_zero();
    }
    loop
        invariant
            sq < 64,
            fi == (sq as int) % 8,
            ri == (sq as int) / 8,
            f0 == fi,
            r0 == ri,
            0 <= fi < 8,
            0 <= ri < 8,
            -1 <= df <= 1,
            -1 <= dr <= 1,
            df != 0 || dr != 0,
            0 <= steps <= 7,
            (df == 1 ==> f == f0 + steps + 1),
            (df == -1 ==> f == f0 - steps - 1),
            (df == 0 ==> f == f0),
            (dr == 1 ==> r == r0 + steps + 1),
            (dr == -1 ==> r == r0 - steps - 1),
            (dr == 0 ==> r == r0),
            forall|t: int|
                ray_reaches(occ, fi, ri, df as int, dr as int, t, 7) == (#[trigger] bit64(bb, t)
                    || ray_reaches(
                    occ,
                    f - df,
                    r - dr,
                    df as int,
                    dr as int,
                    t,
                    (7 - steps) as nat,
                )),
        decreases 8 - steps,
    {
        if 0 <= f && f < 8 && 0 <= r && r < 8 {
            assert(steps <= 6);
            let n = (r * 8 + f) as usize;
            assert(n < 64 && n as int == r * 8 + f);
            let ghost bb0 = bb;
            bb = bb_set(bb, n);
            if bb_test(occ, n) {
                proof {
                    assert forall|t: int|
                        ray_reaches(occ, fi, ri, df as int, dr as int, t, 7) == #[trigger] bit64(
                            bb,
                            t,
                        ) by {
                        assert(ray_reaches(occ, fi, ri, df as int, dr as int, t, 7) == (bit64(
                            bb0,
                            t,
                        ) || ray_reaches(
                            occ,
                            f - df,
                            r - dr,
                            df as int,
                            dr as int,
                            t,
                            (7 - steps) as nat,
                        )));
                        assert(ray_reaches(
                            occ,
                            f - df,
                            r - dr,
                            df as int,
                            dr as int,
                            t,
                            (7 - steps) as nat,
                        ) == (n as int == t));
                        assert(bit64(bb, t) == (bit64(bb0, t) || t == n as int));
                    }
                }
                return bb;
            }
            let ghost fo = f as int;
            let ghost ro = r as int;
            let ghost so = steps;
            f = f + df;
            r = r + dr;
            proof {
                steps = steps + 1;
                assert forall|t: int|
                    ray_reaches(occ, fi, ri, df as int, dr as int, t, 7) == (#[trigger] bit64(
                        bb,
                        t,
                    ) || ray_reaches(
                        occ,
                        f - df,
                        r - dr,
                        df as int,
                        dr as int,
                        t,
                        (7 - steps) as nat,
                    )) by {
                    assert(f - df == fo && r - dr == ro && steps == so + 1);
                    assert(ray_reaches(occ, fi, ri, df as int, dr as int, t, 7) == (bit64(bb0, t)
                        || ray_reaches(
                        occ,
                        fo - df,
                        ro - dr,
                        df as int,
                        dr as int,
                        t,
                        (7 - so) as nat,
                    )));
                    assert(ray_reaches(occ, fo - df, ro - dr, df as int, dr as int, t, (7
                        - so) as nat) == (n as int == t || ray_reaches(
                        occ,
                        fo,
                        ro,
                        df as int,
                        dr as int,
                        t,
                        (7 - so - 1) as nat,
                    )));
                    assert(bit64(bb, t) == (bit64(bb0, t) || t == n as int));
                }
            }
        } else {
            proof {
                assert forall|t: int|
                    ray_reaches(occ, fi, ri, df as int, dr as int, t, 7) == #[trigger] bit64(
                        bb,
                        t,
                    ) by {
                    assert(!ray_reaches(
                        occ,
                        f - df,
                        r - dr,
                        df as int,
                        dr as int,
                        t,
                        (7 - steps) as nat,
                    ));
                }
            }
            return bb;
        }
    }
}

/// Walks one ray of the relevance mask: the same squares as `ray_walk` on an
/// empty board, except the last square before the edge.
fn mask_walk(sq: usize, df: i32, dr: i32) -> (bb: u64)
    requires
        sq < 64,
        -1 <= df <= 1,
        -1 <= dr <= 1,
        df != 0 || dr != 0,
    ensures
        forall|t: int| #[trigger]
            bit64(bb, t) == mask_reaches(
                (sq as int) % 8,
                (sq as int) / 8,
                df as int,
                dr as int,
                t,
                7,
            ),
{
    let f0 = (sq % 8) as i32;
    let r0 = (sq / 8) as i32;
    let ghost fi = (sq as int) % 8;
    let ghost ri = (sq as int) / 8;
    let mut bb: u64 = 0;
    let mut f = f0 + df;
    let mut r = r0 + dr;
    let ghost mut steps: int = 0;
    proof {
        lemma_bit_zero();
    }
    loop
        invariant
            sq < 64,
            fi == (sq as int) % 8,
            ri == (sq as int) / 8,
            f0 == fi,
            r0 == ri,
            0 <= fi < 8,
            0 <= ri < 8,
            -1 <= df <= 1,
            -1 <= dr <= 1,
            df != 0 || dr != 0,
            0 <= steps <= 7,
            (df == 1 ==> f == f0 + steps + 1),
            (df == -1 ==> f == f0 - steps - 1),
            (df == 0 ==> f == f0),
            (dr == 1 ==> r == r0 + steps + 1),
            (dr == -1 ==> r == r0 - steps - 1),
            (dr == 0 ==> r == r0),
            forall|t: int|
                mask_reaches(fi, ri, df as int, dr as int, t, 7) == (#[trigger] bit64(bb, t)
                    || mask_reaches(f - df, r - dr, df as int, dr as int, t, (7 - steps) as nat)),
        decreases 8 - steps,
    {
        let in_next = 0 <= f + df && f + df < 8 && 0 <= r + dr && r + dr < 8;
        if 0 <= f && f < 8 && 0 <= r && r < 8 && in_next {
            assert(steps <= 6);
            let n = (r * 8 + f) as usize;
            assert(n < 64 && n as int == r * 8 + f);
            let ghost bb0 = bb;
            bb = bb_set(bb, n);
            let ghost fo = f as int;
            let ghost ro = r as int;
            let ghost so = steps;
            f = f + df;
            r = r + dr;
            proof {
                steps = steps + 1;
                assert forall|t: int|
                    mask_reaches(fi, ri, df as int, dr as int, t, 7) == (#[trigger] bit64(bb, t)
                        || mask_reaches(
                        f - df,
                        r - dr,
                        df as int,
                        dr as int,
                        t,
                        (7 - steps) as nat,
                    )) by {
                    assert(f - df == fo && r - dr == ro && steps == so + 1);
                    assert(mask_reaches(fi, ri, df as int, dr as int, t, 7) == (bit64(bb0, t)
                        || mask_reaches(fo - df, ro - dr, df as int, dr as int, t, (7 - so) as nat)));
                    assert(mask_reaches(fo - df, ro - dr, df as int, dr as int, t, (7 - so) as nat)
                        == (n as int == t || mask_reaches(
                        fo,
                        ro,
                        df as int,
                        dr as int,
                        t,
                        (7 - so - 1) as nat,
                    )));
                    assert(bit64(bb, t) == (bit64(bb0, t) || t == n as int));
                }
            }
        } else {
            proof {
                assert forall|t: int|
                    mask_reaches(fi, ri, df as int, dr as int, t, 7) == #[trigger] bit64(bb, t) by {
                    assert(!mask_reaches(
                        f - df,
                        r - dr,
                        df as int,
                        dr as int,
                        t,
                        (7 - steps) as nat,
                    ));
                }
            }
            return bb;
        }
    }
}

/// Brute-force slider attack bitboard: the union of the four ray walks.
pub fn slider_attacks_walk(diag: bool, occ: u64, sq: usize) -> (bb: u64)
    requires
        sq < 64,
    ensures
        forall|t: int| #[trigger] bit64(bb, t) == slider_attack(diag, occ, sq as int, t),
{
    proof {
        crate::bits::lemma_bit_or(0, 0);
    }
    let (a, b, c, d) = if diag {
        (ray_walk(occ, sq, 1, 1), ray_walk(occ, sq, 1, -1), ray_walk(occ, sq, -1, 1), ray_walk(
            occ,
            sq,
            -1,
            -1,
        ))
    } else {
        (ray_walk(occ, sq, 1, 0), ray_walk(occ, sq, -1, 0), ray_walk(occ, sq, 0, 1), ray_walk(
            occ,
            sq,
            0,
            -1,
        ))
    };
    let ab = a | b;
    proof {
        crate::bits::lemma_bit_or(a, b);
    }
    let abc = ab | c;
    proof {
        crate::bits::lemma_bit_or(ab, c);
    }
    let abcd = abc | d;
    proof {
        crate::bits::lemma_bit_or(abc, d);
        assert forall|t: int| #[trigger]
            bit64(abcd, t) == slider_attack(diag, occ, sq as int, t) by {
            assert(bit64(ab, t) == (bit64(a, t) || bit64(b, t)));
            assert(bit64(abc, t) == (bit64(ab, t) || bit64(c, t)));
            assert(bit64(abcd, t) == (bit64(abc, t) || bit64(d, t)));
        }
    }
    abcd
}

/// The full relevance mask of a slider on `sq`: union of the four mask walks.
pub fn slider_mask(diag: bool, sq: usize) -> (bb: u64)
    requires
        sq < 64,
    ensures
        forall|t: int| #[trigger] bit64(bb, t) == slider_relevant(diag, sq as int, t),
{
    let (a, b, c, d) = if diag {
        (mask_walk(sq, 1, 1), mask_walk(sq, 1, -1), mask_walk(sq, -1, 1), mask_walk(sq, -1, -1))
    } else {
        (mask_walk(sq, 1, 0), mask_walk(sq, -1, 0), mask_walk(sq, 0, 1), mask_walk(sq, 0, -1))
    };
    let ab = a | b;
    proof {
        crate::bits::lemma_bit_or(a, b);
    }
    let abc = ab | c;
    proof {
        crate::bits::lemma_bit_or(ab, c);
    }
    let abcd = abc | d;
    proof {
        crate::bits::lemma_bit_or(abc, d);
        assert forall|t: int| #[trigger]
            bit64(abcd, t) == slider_relevant(diag, sq as int, t) by {
            assert(bit64(ab, t) == (bit64(a, t) || bit64(b, t)));
            assert(bit64(abc, t) == (bit64(ab, t) || bit64(c, t)));
            assert(bit64(abcd, t) == (bit64(abc, t) || bit64(d, t)));
        }
    }
    abcd
}

/// The dense table index of a masked occupancy under a magic multiplier.
pub open spec fn magic_index_spec(magic: u64, index_bits: u32, mask: u64, population: u64) -> u64 {
    (population & mask).wrapping_mul(magic) >> (index_bits as u64)
}

/// Hashes the occupancy restricted to `mask` into a dense table index.
pub fn get_magic_index(magic: u64, index_bits: u32, mask: u64, population: &u64) -> (r: usize)
    requires
        index_bits < 64,
    ensures
        r == magic_index_spec(magic, index_bits, mask, *population) as usize,
{
    let blockers = *population & mask;
    #[verifier::truncate]
    let r = (blockers.wrapping_mul(magic) >> index_bits) as usize;
    r
}

/// One half of the magic attack tables (rook or bishop): per square a
/// relevance mask, a magic multiplier and shift, and a dense table whose
/// slots remember both the blocker set (`keys`) they were filled from and
/// the attack bitboard of that blocker set (`atts`).
pub struct SliderTable {
    pub masks: Vec<u64>,
    pub magics: Vec<u64>,
    pub shifts: Vec<u32>,
    pub keys: Vec<Vec<u64>>,
    pub atts: Vec<Vec<u64>>,
}

impl SliderTable {
    /// Every slot's stored attack bitboard is exactly the ray-walk attack of
    /// its stored blocker set, and the masks cover every relevant square.
    pub open spec fn wf(&self, diag: bool) -> bool {
        &&& self.masks@.len() == 64
        &&& self.magics@.len() == 64
        &&& self.shifts@.len() == 64
        &&& self.keys@.len() == 64
        &&& self.atts@.len() == 64
        &&& forall|sq: int|
            0 <= sq < 64 ==> (#[trigger] self.keys@[sq])@.len() == self.atts@[sq]@.len()
        &&& forall|sq: int| 0 <= sq < 64 ==> (#[trigger] self.shifts@[sq]) < 64
        &&& forall|sq: int, m: int|
            0 <= sq < 64 && #[trigger] slider_relevant(diag, sq, m) ==> bit64(self.masks@[sq], m)
        &&& forall|sq: int, i: int, t: int|
            0 <= sq < 64 && 0 <= i < self.atts@[sq]@.len() ==> (#[trigger] bit64(
                self.atts@[sq]@[i],
                t,
            )) == slider_attack(diag, self.keys@[sq]@[i], sq, t)
    }
}

/// The magic attack tables for both sliding piece kinds, built once at
/// initialization and read-only afterwards.
pub struct Tables {
    pub rook: SliderTable,
    pub bishop: SliderTable,
}

impl Tables {
    pub open spec fn wf(&self) -> bool {
        self.rook.wf(false) && self.bishop.wf(true)
    }

    /// Builds both tables.
    pub fn new() -> (t: Tables)
        ensures
            t.wf(),
    {
        Tables { rook: build_slider(false), bishop: build_slider(true) }
    }
}

/// The magic multiplier used for a rook on `sq`.
fn rook_magic(sq: usize) -> u64
    requires
        sq < 64,
{
    let m: [u64; 64] = [
        0x0280005280204004, 0x0440100040082002, 0x0080100020008009, 0x0600060090082040,
        0x1200090200209004, 0x5c80018004000200, 0x0200008312004c08, 0x8200104481040222,
        0x8000802080004000, 0x4000804000802000, 0x0008802000100084, 0x000a004010082202,
        0x0000808008000400, 0x1280800200040080, 0x0642002200012894, 0x0001000080410022,
        0x1680848008204006, 0x0050124020004001, 0x0000828010012003, 0x1008008080100008,
        0x2044008008008004, 0xc001080120044010, 0x001044000801b002, 0x001802001e48810c,
        0x0081400880008564, 0x4910004140002001, 0x7040200100410010, 0x0008100080080082,
        0x0100100500080100, 0x0c04020080040080, 0x4000102400680201, 0x0020004200008401,
        0x0080002000404000, 0x0010004000402010, 0x0000401101002002, 0x2001880184801000,
        0x08a0800800800400, 0x020a008002801400, 0x0100021004000108, 0x000000890200004c,
        0x0040224000858000, 0x0824200450004001, 0x0880200041010018, 0x0001041000090020,
        0x0444008040080800, 0x0001000400490002, 0x0032010002008080, 0x02004440810a0004,
        0x4082008100204200, 0x0800201000400040, 0x0a04802210420200, 0x0040810800500180,
        0x0060440008008280, 0x0042000810040200, 0xc400100182080400, 0x0244008420510200,
        0x0000208000110c41, 0x0001001020804001, 0x0a031d004010a001, 0x4208900061084501,
        0x0442000804112002, 0x08420004013008a2, 0x400202a11002180c, 0x0000088044110022,
    ];
    m[sq]
}

/// The magic multiplier used for a bishop on `sq`.
fn bishop_magic(sq: usize) -> u64
    requires
        sq < 64,
{
    let m: [u64; 64] = [
        0x0240021084090042, 0x0c08418404004600, 0x0004014202040120, 0x10680a0022008404,
        0x8004042000000121, 0x0081042006000000, 0x0000881128a00500, 0x0422005208012804,
        0x00420404102c0130, 0x320010d020808880, 0x0482082840408080, 0x04082c4101204010,
        0x0820040420010000, 0x8100008804410200, 0x01a1010088200821, 0x2000009088882000,
        0x0040a010040810b0, 0x4824c020010c0111, 0x8108082408102008, 0x0000842802004498,
        0x2902201400a00081, 0x0505028080414000, 0x0142200400840400, 0x000021010c010410,
        0x0020620110d42101, 0x4064044082080822, 0x1001064210008600, 0x0021080014004010,
        0x0013011019004001, 0x8208020002412890, 0x300a2c1822108200, 0x0441010020208810,
        0x0441300800d02104, 0x0041082010020400, 0x0808904400281800, 0x3800d10802040040,
        0x1004104010840100, 0x0010108200202209, 0x00640802843220a4, 0x0004040028009480,
        0x80c2100208102000, 0x1418820120001010, 0x0202001048004401, 0x0210020102422400,
        0x4000200820815010, 0xa0400880a3004080, 0x80044c2c00500408, 0x0084a40400480020,
        0x8042080202900010, 0x0006010402024400, 0x100e1a0200922800, 0x2002800884040005,
        0x00020420e0410108, 0x2808a02510008300, 0x0020543006104810, 0x085010018534c000,
        0x2241008800880420, 0x2000450068020800, 0x0800004080480820, 0x2000b84000420203,
        0x8100087010020220, 0x0108003021034904, 0x2008500308610400, 0x102202082a0400c0,
    ];
    m[sq]
}

/// Builds one slider table square by square: enumerate every subset of the
/// relevance mask, compute its ray-walk attack, and file both under the
/// subset's magic index.  Collisions merely overwrite a slot; soundness
/// rests on the key check at lookup time, never on magic quality.
fn build_slider(diag: bool) -> (st: SliderTable)
    ensures
        st.wf(diag),
{
    let mut masks: Vec<u64> = Vec::new();
    let mut magics: Vec<u64> = Vec::new();
    let mut shifts: Vec<u32> = Vec::new();
    let mut keys: Vec<Vec<u64>> = Vec::new();
    let mut atts: Vec<Vec<u64>> = Vec::new();
    let mut sq: usize = 0;
    while sq < 64
        invariant
            sq <= 64,
            masks@.len() == sq,
            magics@.len() == sq,
            shifts@.len() == sq,
            keys@.len() == sq,
            atts@.len() == sq,
            forall|s: int| 0 <= s < sq ==> (#[trigger] keys@[s])@.len() == atts@[s]@.len(),
            forall|s: int| 0 <= s < sq ==> (#[trigger] shifts@[s]) < 64,
            forall|s: int, m: int|
                0 <= s < sq && #[trigger] slider_relevant(diag, s, m) ==> bit64(masks@[s], m),
            forall|s: int, i: int, t: int|
                0 <= s < sq && 0 <= i < atts@[s]@.len() ==> (#[trigger] bit64(atts@[s]@[i], t))
                    == slider_attack(diag, keys@[s]@[i], s, t),
        decreases 64 - sq,
    {
        let mask = slider_mask(diag, sq);
        let k = popcount(mask);
        let kk: usize = if 1 <= k && k <= 16 {
            k
        } else {
            12
        };
        let shift: u32 = (64 - kk) as u32;
        let size: usize = 1usize << kk;
        let magic = if diag {
            bishop_magic(sq)
        } else {
            rook_magic(sq)
        };
        let att0 = slider_attacks_walk(diag, 0, sq);
        let mut keys_sq: Vec<u64> = Vec::new();
        let mut atts_sq: Vec<u64> = Vec::new();
        let mut i: usize = 0;
        while i < size
            invariant
                i <= size,
                keys_sq@.len() == i,
                atts_sq@.len() == i,
                sq < 64,
                forall|j: int| 0 <= j < i ==> #[trigger] keys_sq@[j] == 0u64,
                forall|j: int| 0 <= j < i ==> #[trigger] atts_sq@[j] == att0,
                forall|t: int| #[trigger] bit64(att0, t) == slider_attack(diag, 0, sq as int, t),
            decreases size - i,
        {
            keys_sq.push(0);
            atts_sq.push(att0);
            i += 1;
        }
        let positions = bits_to_indices(&mask);
        proof {
            lemma_bit_indices_upto_members(mask, 64);
        }
        let mut idx: usize = 0;
        while idx < size
            invariant
                idx <= size,
                sq < 64,
                shift < 64,
                keys_sq@.len() == size,
                atts_sq@.len() == size,
                positions@ == bit_indices(mask),
                positions@.len() <= 64,
                forall|j: int| 0 <= j < positions@.len() ==> 0 <= #[trigger] positions@[j] < 64,
                forall|i2: int, t: int|
                    0 <= i2 < size ==> (#[trigger] bit64(atts_sq@[i2], t)) == slider_attack(
                        diag,
                        keys_sq@[i2],
                        sq as int,
                        t,
                    ),
            decreases size - idx,
        {
            let mut blockers: u64 = 0;
            let mut j: usize = 0;
            while j < positions.len()
                invariant
                    j <= positions@.len(),
                    positions@.len() <= 64,
                    forall|j2: int| 0 <= j2 < positions@.len() ==> 0 <= #[trigger] positions@[j2] < 64,
                decreases positions@.len() - j,
            {
                if ((idx as u64) >> (j as u64)) & 1 == 1 {
                    blockers = bb_set(blockers, positions[j] as usize);
                }
                j += 1;
            }
            let att = slider_attacks_walk(diag, blockers, sq);
            let slot = get_magic_index(magic, shift, mask, &blockers);
            if slot < size {
                keys_sq.set(slot, blockers);
                atts_sq.set(slot, att);
            }
            idx += 1;
        }
        masks.push(mask);
        magics.push(magic);
        shifts.push(shift);
        keys.push(keys_sq);
        atts.push(atts_sq);
        sq += 1;
    }
    SliderTable { masks, magics, shifts, keys, atts }
}

/// Looks one slider attack up through the magic tables, checking the slot
/// key; a miss falls back to the ray walk, so the result always equals the
/// brute-force attack computation.
fn slider_lookup(st: &SliderTable, diag: bool, sq: usize, population: u64) -> (bb: u64)
    requires
        st.wf(diag),
        sq < 64,
    ensures
        forall|t: int| #[trigger] bit64(bb, t) == slider_attack(diag, population, sq as int, t),
{
    let mask = st.masks[sq];
    let blockers = population & mask;
    proof {
        lemma_slider_mask_frame(diag, population, mask, sq as int);
    }
    let slot = get_magic_index(st.magics[sq], st.shifts[sq], mask, &population);
    if slot < st.atts[sq].len() && st.keys[sq][slot] == blockers {
        st.atts[sq][slot]
    } else {
        slider_attacks_walk(diag, blockers, sq)
    }
}

/// Attack bitboard of a bishop on `square_index` under occupancy
/// `population`, via the magic tables.
pub fn get_bishop_moves(tables: &Tables, square_index: i32, population: &u64) -> (bb: u64)
    requires
        tables.wf(),
        0 <= square_index < 64,
    ensures
        forall|t: int| #[trigger] bit64(bb, t) == bishop_attack(*population, square_index as int, t),
{
    slider_lookup(&tables.bishop, true, square_index as usize, *population)
}

/// Attack bitboard of a rook on `square_index` under occupancy `population`,
/// via the magic tables.
pub fn get_rook_moves(tables: &Tables, square_index: i32, population: &u64) -> (bb: u64)
    requires
        tables.wf(),
        0 <= square_index < 64,
    ensures
        forall|t: int| #[trigger] bit64(bb, t) == rook_attack(*population, square_index as int, t),
{
    slider_lookup(&tables.rook, false, square_index as usize, *population)
}

} // verus!
