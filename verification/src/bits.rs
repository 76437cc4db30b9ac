//! Bitboard fundamentals: a 64-bit integer where bit `i` records square `i`
//! (square = rank * 8 + file, a1 = 0, h8 = 63), with the bit-level lemmas the
//! rest of the engine builds on.

use vstd::prelude::*;

verus! {

/// Bit `i` of `b` is set, for a shift amount already known to be in range.
pub open spec fn bit_u(b: u64, i: u64) -> bool {
    i < 64 && b & (1u64 << i) != 0
}

/// Bit `i` of bitboard `b` is set; false off the board.
pub open spec fn bit64(b: u64, i: int) -> bool {
    0 <= i < 64 && bit_u(b, i as u64)
}

pub proof fn lemma_bit_or(a: u64, b: u64)
    ensures
        forall|i: u64| i < 64 ==> (#[trigger] bit_u(a | b, i)) == (bit_u(a, i) || bit_u(b, i)),
{
    assert(forall|i: u64|
        i < 64 ==> ((a | b) & (1u64 << i) != 0) == ((a & (1u64 << i) != 0) || (b & (1u64 << i)
            != 0))) by (bit_vector);
}

pub proof fn lemma_bit_and(a: u64, b: u64)
    ensures
        forall|i: u64| i < 64 ==> (#[trigger] bit_u(a & b, i)) == (bit_u(a, i) && bit_u(b, i)),
{
    assert(forall|i: u64|
        i < 64 ==> ((a & b) & (1u64 << i) != 0) == ((a & (1u64 << i) != 0) && (b & (1u64 << i)
            != 0))) by (bit_vector);
}

pub proof fn lemma_bit_andnot(a: u64, b: u64)
    ensures
        forall|i: u64| i < 64 ==> (#[trigger] bit_u(a & !b, i)) == (bit_u(a, i) && !bit_u(b, i)),
{
    assert(forall|i: u64|
        i < 64 ==> ((a & !b) & (1u64 << i) != 0) == ((a & (1u64 << i) != 0) && !(b & (1u64 << i)
            != 0))) by (bit_vector);
}

pub proof fn lemma_bit_single(k: u64)
    requires
        k < 64,
    ensures
        forall|i: u64| i < 64 ==> (#[trigger] bit_u(1u64 << k, i)) == (i == k),
{
    assert(forall|i: u64|
        i < 64 && k < 64 ==> ((1u64 << k) & (1u64 << i) != 0) == (i == k)) by (bit_vector);
}

pub proof fn lemma_bit_zero()
    ensures
        forall|i: u64| i < 64 ==> !(#[trigger] bit_u(0u64, i)),
{
    assert(forall|i: u64| i < 64 ==> (0u64 & (1u64 << i) == 0)) by (bit_vector);
}

/// Does bitboard `b` have the bit for square `i` set?
pub fn bb_test(b: u64, i: usize) -> (r: bool)
    requires
        i < 64,
    ensures
        r == bit64(b, i as int),
{
    b & (1u64 << (i as u64)) != 0
}

/// `b` with the bit for square `i` set.
pub fn bb_set(b: u64, i: usize) -> (r: u64)
    requires
        i < 64,
    ensures
        forall|j: int| 0 <= j < 64 ==> bit64(r, j) == (bit64(b, j) || j == i),
{
    proof {
        lemma_bit_or(b, 1u64 << (i as u64));
        lemma_bit_single(i as u64);
    }
    b | (1u64 << (i as u64))
}

/// The indices of the bits set in the low `n` bits of `b`, in ascending order.
pub open spec fn bit_indices_upto(b: u64, n: int) -> Seq<i32>
    decreases n,
{
    if n <= 0 {
        Seq::empty()
    } else {
        bit_indices_upto(b, n - 1) + if bit64(b, n - 1) {
            seq![(n - 1) as i32]
        } else {
            Seq::empty()
        }
    }
}

/// The indices of all set bits of `b`, in ascending order.
pub open spec fn bit_indices(b: u64) -> Seq<i32> {
    bit_indices_upto(b, 64)
}

/// Every listed index is a set bit in range, and every set bit below `n` is listed.
pub proof fn lemma_bit_indices_upto_members(b: u64, n: int)
    requires
        0 <= n <= 64,
    ensures
        forall|k: int|
            0 <= k < bit_indices_upto(b, n).len() ==> 0 <= #[trigger] bit_indices_upto(b, n)[k]
                < n && bit64(b, bit_indices_upto(b, n)[k] as int),
        forall|i: int| 0 <= i < n && bit64(b, i) ==> bit_indices_upto(b, n).contains(i as i32),
    decreases n,
{
    if n > 0 {
        lemma_bit_indices_upto_members(b, n - 1);
        let s = bit_indices_upto(b, n);
        let prev = bit_indices_upto(b, n - 1);
        assert forall|k: int|
            0 <= k < s.len() implies 0 <= #[trigger] s[k] < n && bit64(b, s[k] as int) by {
            if k < prev.len() {
                assert(s[k] == prev[k]);
            } else {
                assert(s[k] == (n - 1) as i32);
            }
        }
        assert forall|i: int| 0 <= i < n && bit64(b, i) implies bit_indices_upto(b, n).contains(
            i as i32,
        ) by {
            if i < n - 1 {
                let k = choose|k: int|
                    0 <= k < bit_indices_upto(b, n - 1).len() && #[trigger] bit_indices_upto(
                        b,
                        n - 1,
                    )[k] == (i as i32);
                assert(bit_indices_upto(b, n)[k] == (i as i32));
            } else {
                assert(bit_indices_upto(b, n).last() == (i as i32));
            }
        }
    }
}

/// Lists the indices of the set bits of `bitboard`, in ascending order.
pub fn bits_to_indices(bitboard: &u64) -> (r: Vec<i32>)
    ensures
        r@ == bit_indices(*bitboard),
{
    let mut r: Vec<i32> = Vec::new();
    let mut i: usize = 0;
    while i < 64
        invariant
            i <= 64,
            r@ == bit_indices_upto(*bitboard, i as int),
        decreases 64 - i,
    {
        if bb_test(*bitboard, i) {
            r.push(i as i32);
        }
        assert(r@ =~= bit_indices_upto(*bitboard, i + 1));
        i += 1;
    }
    r
}

/// Counts the set bits of `b`.
pub fn popcount(b: u64) -> (n: usize)
    ensures
        n == bit_indices(b).len(),
        n <= 64,
{
    let mut n: usize = 0;
    let mut i: usize = 0;
    while i < 64
        invariant
            i <= 64,
            n == bit_indices_upto(b, i as int).len(),
            n <= i,
        decreases 64 - i,
    {
        if bb_test(b, i) {
            n += 1;
        }
        i += 1;
    }
    n
}

/// Exactly one bit of `b` is set.
pub open spec fn is_onehot(b: u64) -> bool {
    exists|s: u64| s < 64 && b == (#[trigger] (1u64 << s))
}

/// The index of the single set bit of a one-hot bitboard.
pub open spec fn onehot_sq(b: u64) -> int {
    (choose|s: u64| s < 64 && b == (#[trigger] (1u64 << s))) as int
}

pub proof fn lemma_onehot(s: u64)
    requires
        s < 64,
    ensures
        is_onehot(1u64 << s),
        onehot_sq(1u64 << s) == s,
{
    let b = 1u64 << s;
    let w = choose|t: u64| t < 64 && b == (#[trigger] (1u64 << t));
    lemma_bit_single(s);
    lemma_bit_single(w);
    assert(bit_u(b, s));
    assert(bit_u(1u64 << w, s));
}

/// The index of the single set bit of a one-hot bitboard (runs in 64 steps).
pub fn onehot_square(b: u64) -> (sq: usize)
    requires
        is_onehot(b),
    ensures
        sq < 64,
        b == 1u64 << (sq as u64),
        onehot_sq(b) == sq,
{
    let ghost s = choose|s: u64| s < 64 && b == (#[trigger] (1u64 << s));
    proof {
        lemma_bit_single(s);
        lemma_onehot(s);
    }
    let mut i: usize = 0;
    while i < 64
        invariant
            i <= 64,
            b == 1u64 << s,
            s < 64,
            onehot_sq(b) == s,
            forall|j: u64| j < i ==> !bit_u(b, j),
        decreases 64 - i,
    {
        proof {
            lemma_bit_single(s);
        }
        if bb_test(b, i) {
            return i;
        }
        i += 1;
    }
    proof {
        lemma_bit_single(s);
        assert(!bit_u(b, s));
        assert(false);
    }
    0
}

} // verus!
