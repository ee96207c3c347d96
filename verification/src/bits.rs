//! Bit-level vocabulary for 64-bit masks: the predicate `bit(x, i)` and the
//! facts that let the prover read `&`, `|`, `^`, `!` and shifts bit by bit.

use vstd::prelude::*;

verus! {

/// Bit `i` of `x` is set (false for every index outside `0..64`).
pub open spec fn bit(x: u64, i: int) -> bool {
    0 <= i < 64 && (x >> (i as u64)) & 1u64 == 1u64
}

/// Every set bit of `x` is also set in `y`.
pub open spec fn subset_bits(x: u64, y: u64) -> bool {
    x & !y == 0
}

/// Number of set bits of `x`.
pub open spec fn popcount(x: u64) -> nat
    decreases x,
{
    if x == 0 {
        0
    } else {
        proof {
            lemma_shr_one_decreases(x);
        }
        (x & 1) as nat + popcount(x >> 1u64)
    }
}

pub proof fn lemma_shr_one_decreases(x: u64)
    requires
        x != 0,
    ensures
        x >> 1u64 < x,
{
    assert(x != 0 ==> x >> 1u64 < x) by (bit_vector);
}

pub broadcast proof fn lemma_bit_and(a: u64, b: u64, i: int)
    ensures
        #[trigger] bit(a & b, i) == (bit(a, i) && bit(b, i)),
{
    if 0 <= i < 64 {
        let j = i as u64;
        assert(((a & b) >> j) & 1u64 == 1u64 <==> ((a >> j) & 1u64 == 1u64 && (b >> j) & 1u64
            == 1u64)) by (bit_vector);
    }
}

pub broadcast proof fn lemma_bit_or(a: u64, b: u64, i: int)
    ensures
        #[trigger] bit(a | b, i) == (bit(a, i) || bit(b, i)),
{
    if 0 <= i < 64 {
        let j = i as u64;
        assert(((a | b) >> j) & 1u64 == 1u64 <==> ((a >> j) & 1u64 == 1u64 || (b >> j) & 1u64
            == 1u64)) by (bit_vector);
    }
}

pub broadcast proof fn lemma_bit_xor(a: u64, b: u64, i: int)
    ensures
        #[trigger] bit(a ^ b, i) == (bit(a, i) != bit(b, i)),
{
    if 0 <= i < 64 {
        let j = i as u64;
        assert(((a ^ b) >> j) & 1u64 == 1u64 <==> ((a >> j) & 1u64 == 1u64) != ((b >> j) & 1u64
            == 1u64)) by (bit_vector);
    }
}

pub broadcast proof fn lemma_bit_not(a: u64, i: int)
    ensures
        #[trigger] bit(!a, i) == (0 <= i < 64 && !bit(a, i)),
{
    if 0 <= i < 64 {
        let j = i as u64;
        assert(j < 64 ==> (((!a) >> j) & 1u64 == 1u64 <==> !((a >> j) & 1u64 == 1u64)))
            by (bit_vector);
    }
}

pub broadcast proof fn lemma_bit_shr(x: u64, k: u64, i: int)
    requires
        k < 64,
    ensures
        #[trigger] bit(x >> k, i) == (0 <= i && i + k < 64 && bit(x, i + k)),
{
    if 0 <= i < 64 {
        let j = i as u64;
        if i + k < 64 {
            let jk = (i + k) as u64;
            assert(k < 64 && j < 64 && jk == j + k ==> (((x >> k) >> j) & 1u64 == 1u64 <==> (x
                >> jk) & 1u64 == 1u64)) by (bit_vector);
        } else {
            assert(k < 64 && j < 64 && j + k >= 64 ==> ((x >> k) >> j) & 1u64 == 0u64)
                by (bit_vector);
        }
    }
}

pub broadcast proof fn lemma_bit_shl(x: u64, k: u64, i: int)
    requires
        k < 64,
    ensures
        #[trigger] bit(x << k, i) == (k <= i < 64 && bit(x, i - k)),
{
    if 0 <= i < 64 {
        let j = i as u64;
        if k <= i {
            let jk = (i - k) as u64;
            assert(k < 64 && j < 64 && k <= j && jk == j - k ==> (((x << k) >> j) & 1u64 == 1u64
                <==> (x >> jk) & 1u64 == 1u64)) by (bit_vector);
        } else {
            assert(k < 64 && j < k ==> ((x << k) >> j) & 1u64 == 0u64) by (bit_vector);
        }
    }
}

pub broadcast proof fn lemma_bit_one_shl(k: u64, i: int)
    requires
        k < 64,
    ensures
        #[trigger] bit(1u64 << k, i) == (i == k),
{
    if 0 <= i < 64 {
        let j = i as u64;
        assert(k < 64 && j < 64 ==> (((1u64 << k) >> j) & 1u64 == 1u64 <==> j == k))
            by (bit_vector);
    }
}

pub broadcast proof fn lemma_bit_zero(i: int)
    ensures
        !#[trigger] bit(0u64, i),
{
    if 0 <= i < 64 {
        let j = i as u64;
        assert(j < 64 ==> (0u64 >> j) & 1u64 == 0u64) by (bit_vector);
    }
}

/// A set bit makes the whole word non-zero.
pub broadcast proof fn lemma_bit_nonzero(x: u64, i: int)
    ensures
        #[trigger] bit(x, i) ==> x != 0,
{
    if 0 <= i < 64 {
        let j = i as u64;
        assert(j < 64 && (x >> j) & 1u64 == 1u64 ==> x != 0) by (bit_vector);
    }
}

pub broadcast group group_bits {
    lemma_bit_and,
    lemma_bit_or,
    lemma_bit_xor,
    lemma_bit_not,
    lemma_bit_shr,
    lemma_bit_shl,
    lemma_bit_one_shl,
    lemma_bit_zero,
    lemma_bit_nonzero,
}

/// Zero and anything is zero.
pub proof fn lemma_zero_and(x: u64)
    ensures
        0u64 & x == 0,
        x & 0u64 == 0,
{
    assert(0u64 & x == 0 && x & 0u64 == 0) by (bit_vector);
}

/// Facts on the lowest bit and on shifting by zero.
pub proof fn lemma_low_bit(x: u64)
    ensures
        x & 1 <= 1,
        x >> 0u64 == x,
{
    assert(x & 1 <= 1 && x >> 0u64 == x) by (bit_vector);
}

proof fn lemma_nonzero_from(x: u64, n: u64)
    requires
        n < 64,
        x >> n != 0,
    ensures
        exists|i: int| n <= i < 64 && bit(x, i),
    decreases 64 - n,
{
    if (x >> n) & 1u64 == 1u64 {
        assert(bit(x, n as int));
    } else {
        assert(n < 64 && x >> n != 0 && (x >> n) & 1u64 != 1u64 ==> n + 1 < 64 && x >> (n + 1)
            != 0) by (bit_vector);
        lemma_nonzero_from(x, (n + 1) as u64);
    }
}

/// A non-zero word has a set bit.
pub proof fn lemma_nonzero_has_bit(x: u64)
    requires
        x != 0,
    ensures
        exists|i: int| 0 <= i < 64 && bit(x, i),
{
    lemma_low_bit(x);
    lemma_nonzero_from(x, 0);
}

/// Two words with the same bits are equal.
pub proof fn lemma_bits_ext(a: u64, b: u64)
    requires
        forall|i: int| 0 <= i < 64 ==> bit(a, i) == bit(b, i),
    ensures
        a == b,
{
    broadcast use group_bits;

    if a != b {
        assert(a ^ b != 0) by (bit_vector)
            requires
                a != b,
        ;
        lemma_nonzero_has_bit(a ^ b);
        let i = choose|i: int| 0 <= i < 64 && bit(a ^ b, i);
        assert(bit(a, i) == bit(b, i));
    }
}

/// A word is zero exactly when it has no set bit.
pub proof fn lemma_zero_iff_no_bits(x: u64)
    ensures
        x == 0 <==> forall|i: int| 0 <= i < 64 ==> !bit(x, i),
{
    broadcast use group_bits;

    if x != 0 {
        lemma_nonzero_has_bit(x);
    }
}


proof fn lemma_lowest_bit_from(x: u64, n: u64)
    requires
        n < 64,
        x != 0,
        x & (((1u64 << n) - 1) as u64) == 0,
    ensures
        exists|l: int|
            n <= l < 64 && bit(x, l) && x & (((1u64 << (l as u64)) - 1) as u64) == 0,
    decreases 64 - n,
{
    if (x >> n) & 1u64 == 1u64 {
        assert(bit(x, n as int));
    } else {
        assert(n < 64 && x != 0 && x & (((1u64 << n) - 1) as u64) == 0 && (x >> n) & 1u64 != 1u64
            ==> n + 1 < 64 && x & (((1u64 << (n + 1)) - 1) as u64) == 0) by (bit_vector);
        lemma_lowest_bit_from(x, (n + 1) as u64);
    }
}

/// `x & (x - 1)` clears the lowest set bit, so it is non-zero exactly when
/// `x` has two or more set bits.
pub proof fn lemma_two_bits_test(x: u64)
    requires
        x != 0,
    ensures
        (x & ((x - 1) as u64) != 0) == (exists|i: int, j: int|
            i != j && #[trigger] bit(x, i) && #[trigger] bit(x, j)),
{
    broadcast use group_bits;

    assert(x & (((1u64 << 0u64) - 1) as u64) == 0) by (bit_vector);
    lemma_lowest_bit_from(x, 0);
    let l = choose|l: int|
        0 <= l < 64 && bit(x, l) && x & (((1u64 << (l as u64)) - 1) as u64) == 0;
    let y = x & ((x - 1) as u64);
    assert forall|j: int| #[trigger] bit(y, j) == (bit(x, j) && j != l) by {
        if 0 <= j < 64 {
            let jj = j as u64;
            let ll = l as u64;
            assert(ll < 64 && jj < 64 && x != 0 && (x >> ll) & 1u64 == 1u64 && x & (((1u64 << ll)
                - 1) as u64) == 0 ==> (((x & ((x - 1) as u64)) >> jj) & 1u64 == 1u64 <==> ((x
                >> jj) & 1u64 == 1u64 && jj != ll))) by (bit_vector);
        }
    }
    if y != 0 {
        lemma_nonzero_has_bit(y);
        let j = choose|j: int| 0 <= j < 64 && bit(y, j);
        assert(bit(x, l) && bit(x, j) && l != j);
    }
    if exists|i: int, j: int| i != j && #[trigger] bit(x, i) && #[trigger] bit(x, j) {
        let (i, j) = choose|i: int, j: int| i != j && #[trigger] bit(x, i) && #[trigger] bit(x, j);
        if i == l {
            assert(bit(y, j));
        } else {
            assert(bit(y, i));
        }
    }
}


proof fn lemma_popcount_le(x: u64, n: nat)
    requires
        n <= 64,
        n < 64 ==> x >> (n as u64) == 0,
    ensures
        popcount(x) <= n,
    decreases n,
{
    if x != 0 {
        if n == 0 {
            lemma_low_bit(x);
        } else {
            let m = (n - 1) as u64;
            assert(m < 64 && (m + 1 < 64 ==> x >> (m + 1) == 0) ==> m < 64 ==> (x >> 1u64) >> m
                == 0) by (bit_vector);
            lemma_low_bit(x);
            lemma_popcount_le(x >> 1u64, (n - 1) as nat);
        }
    }
}

/// Setting a clear bit adds one to the number of set bits.
pub proof fn lemma_popcount_set_bit(x: u64, k: u64)
    requires
        k < 64,
        !bit(x, k as int),
    ensures
        popcount(x | (1u64 << k)) == popcount(x) + 1,
    decreases k,
{
    let y = x | (1u64 << k);
    assert(y != 0 && (x == 0 ==> x & 1 == 0 && x >> 1u64 == 0) && (k == 0 && (x >> k) & 1 != 1
        ==> y & 1 == 1 && x & 1 == 0 && y >> 1u64 == x >> 1u64) && (k >= 1 && k < 64 ==> y & 1
        == x & 1 && y >> 1u64 == (x >> 1u64) | (1u64 << ((k - 1) as u64)) && ((x >> k) & 1 == 1
        <==> ((x >> 1u64) >> ((k - 1) as u64)) & 1 == 1))) by (bit_vector)
        requires
            k < 64,
            y == x | (1u64 << k),
    ;
    if k > 0 {
        lemma_popcount_set_bit(x >> 1u64, (k - 1) as u64);
    }
}

/// A 64-bit word has at most 64 set bits.
pub proof fn lemma_popcount_bound(x: u64)
    ensures
        popcount(x) <= 64,
{
    lemma_popcount_le(x, 64);
}

/// The number of set bits of `x`.
pub fn count_ones(x: u64) -> (r: u32)
    ensures
        r == popcount(x),
        r <= 64,
{
    let mut count: u32 = 0;
    let mut y = x;
    proof {
        lemma_popcount_bound(x);
    }
    while y != 0
        invariant
            count + popcount(y) == popcount(x),
            popcount(x) <= 64,
        decreases y,
    {
        proof {
            lemma_shr_one_decreases(y);
            lemma_low_bit(y);
        }
        count = count + (y & 1) as u32;
        y = y >> 1u64;
    }
    count
}

} // verus!
