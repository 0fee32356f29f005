//! Bits of a 64-bit word and the distance between two words.

use vstd::prelude::*;
use vstd::set_lib::{lemma_len_subset, lemma_len_union};

verus! {

/// Whether bit `k` of `x` is set.
pub open spec fn bit(x: u64, k: int) -> bool {
    (x >> (k as u64)) & 1 == 1
}

/// How many of the `n` lowest bits of `x` are set.
pub open spec fn ones_below(x: u64, n: nat) -> nat
    decreases n,
{
    if n == 0 {
        0
    } else {
        ones_below(x, (n - 1) as nat) + if bit(x, n - 1) {
            1nat
        } else {
            0nat
        }
    }
}

/// `u64::count_ones` returns the number of set bits of its argument.
pub assume_specification[ u64::count_ones ](x: u64) -> (r: u32)
    ensures
        r == ones_below(x, 64),
;

/// Number of bits in which two words differ.
pub open spec fn hamming(a: u64, b: u64) -> nat {
    ones_below(a ^ b, 64)
}

proof fn lemma_ones_below_at_most(x: u64, n: nat)
    ensures
        ones_below(x, n) <= n,
    decreases n,
{
    if n > 0 {
        lemma_ones_below_at_most(x, (n - 1) as nat);
    }
}

proof fn lemma_ones_below_zero(x: u64, n: nat)
    requires
        n <= 64,
    ensures
        ones_below(x, n) == 0 <==> (forall|k: int| 0 <= k < n ==> !#[trigger] bit(x, k)),
    decreases n,
{
    if n > 0 {
        lemma_ones_below_zero(x, (n - 1) as nat);
        if ones_below(x, (n - 1) as nat) == 0 && !bit(x, n - 1) {
            assert forall|k: int| 0 <= k < n implies !#[trigger] bit(x, k) by {}
        }
        if forall|k: int| 0 <= k < n ==> !#[trigger] bit(x, k) {
            assert(!bit(x, n - 1));
            assert forall|k: int| 0 <= k < n - 1 implies !#[trigger] bit(x, k) by {}
        }
    }
}

/// A word whose `n` lowest bits are clear is a shifted word.
proof fn lemma_low_bits_clear(x: u64, n: u64)
    requires
        n < 64,
        forall|k: int| 0 <= k < n ==> !#[trigger] bit(x, k),
    ensures
        (x >> n) << n == x,
    decreases n,
{
    if n == 0 {
        assert((x >> 0) << 0 == x) by (bit_vector);
    } else {
        let m = (n - 1) as u64;
        lemma_low_bits_clear(x, m);
        assert(!bit(x, m as int));
        assert((x >> n) << n == x) by (bit_vector)
            requires
                0 < n < 64,
                n == m + 1,
                (x >> m) << m == x,
                (x >> m) & 1 != 1,
        ;
    }
}

/// A word without set bits is zero.
proof fn lemma_no_bit_is_zero(x: u64)
    requires
        forall|k: int| 0 <= k < 64 ==> !#[trigger] bit(x, k),
    ensures
        x == 0,
{
    lemma_low_bits_clear(x, 63);
    assert(!bit(x, 63));
    assert(x == 0) by (bit_vector)
        requires
            (x >> 63) << 63 == x,
            (x >> 63) & 1 != 1,
    ;
}

/// A word is at distance zero from itself only, the distance does not depend
/// on the order of the two words, and it is at most 64.
pub proof fn law_hamming(a: u64, b: u64)
    ensures
        hamming(a, b) == 0 <==> a == b,
        hamming(a, b) == hamming(b, a),
        hamming(a, b) <= 64,
{
    lemma_ones_below_at_most(a ^ b, 64);
    assert(a ^ b == b ^ a) by (bit_vector);
    lemma_ones_below_zero(a ^ b, 64);
    if a == b {
        assert forall|k: int| 0 <= k < 64 implies !#[trigger] bit(a ^ b, k) by {
            let j = k as u64;
            assert(((a ^ a) >> j) & 1 != 1) by (bit_vector);
        }
    }
    if hamming(a, b) == 0 {
        lemma_no_bit_is_zero(a ^ b);
        assert(a == b) by (bit_vector)
            requires
                a ^ b == 0,
        ;
    }
}

/// Setting bit `k` of `x` sets that bit and leaves the others.
pub proof fn lemma_set_bit(x: u64, k: int, j: int)
    requires
        0 <= k < 64,
        0 <= j < 64,
    ensures
        bit(x | (1u64 << (k as u64)), j) <==> j == k || bit(x, j),
{
    let a = k as u64;
    let b = j as u64;
    assert(((x | (1u64 << a)) >> b) & 1 == 1 <==> (a == b || (x >> b) & 1 == 1)) by (bit_vector)
        requires
            a < 64,
            b < 64,
    ;
}

/// The number of set bits counts the positions at which a bit is set.
proof fn lemma_ones_below_counts(x: u64, n: nat)
    requires
        n <= 64,
    ensures
        Set::new(|k: int| 0 <= k < n && bit(x, k)).finite(),
        ones_below(x, n) == Set::new(|k: int| 0 <= k < n && bit(x, k)).len(),
    decreases n,
{
    let s = Set::new(|k: int| 0 <= k < n && bit(x, k));
    if n == 0 {
        assert(s =~= Set::empty());
    } else {
        let m = (n - 1) as nat;
        lemma_ones_below_counts(x, m);
        let t = Set::new(|k: int| 0 <= k < m && bit(x, k));
        if bit(x, n - 1) {
            assert(s =~= t.insert(n - 1));
        } else {
            assert(s =~= t);
        }
    }
}

/// The set bits of a word are as many as the positions at which its bit is 1.
pub proof fn law_ones_count_positions(x: u64)
    ensures
        ones_below(x, 64) == Set::new(|k: int| 0 <= k < 64 && (x >> (k as u64)) & 1 == 1).len(),
        Set::new(|k: int| 0 <= k < 64 && (x >> (k as u64)) & 1 == 1).finite(),
{
    lemma_ones_below_counts(x, 64);
    assert(Set::new(|k: int| 0 <= k < 64 && (x >> (k as u64)) & 1 == 1) =~= Set::new(
        |k: int| 0 <= k < 64 && bit(x, k),
    ));
}

/// The distance of two words is the number of positions at which they hold
/// different bits.
pub proof fn law_hamming_counts_differences(a: u64, b: u64)
    ensures
        Set::new(
            |k: int| 0 <= k < 64 && (a >> (k as u64)) & 1 != (b >> (k as u64)) & 1,
        ).finite(),
        hamming(a, b) == Set::new(
            |k: int| 0 <= k < 64 && (a >> (k as u64)) & 1 != (b >> (k as u64)) & 1,
        ).len(),
{
    let x = a ^ b;
    law_ones_count_positions(x);
    let s = Set::new(|k: int| 0 <= k < 64 && (x >> (k as u64)) & 1 == 1);
    let t = Set::new(|k: int| 0 <= k < 64 && (a >> (k as u64)) & 1 != (b >> (k as u64)) & 1);
    assert forall|k: int| s.contains(k) <==> t.contains(k) by {
        let j = k as u64;
        assert(((a ^ b) >> j) & 1 == 1 <==> (a >> j) & 1 != (b >> j) & 1) by (bit_vector);
    }
    assert(s =~= t);
}

/// Flipping one bit of a word changes its distance to any other word by exactly
/// one: down if the words differed there, up if they agreed.
pub proof fn law_hamming_flip(a: u64, b: u64, i: int)
    requires
        0 <= i < 64,
    ensures
        (a >> (i as u64)) & 1 != (b >> (i as u64)) & 1 ==> hamming(a ^ (1u64 << (i as u64)), b) + 1
            == hamming(a, b),
        (a >> (i as u64)) & 1 == (b >> (i as u64)) & 1 ==> hamming(a ^ (1u64 << (i as u64)), b)
            == hamming(a, b) + 1,
{
    let c = a ^ (1u64 << (i as u64));
    law_hamming_counts_differences(a, b);
    law_hamming_counts_differences(c, b);
    let s = Set::new(|k: int| 0 <= k < 64 && (a >> (k as u64)) & 1 != (b >> (k as u64)) & 1);
    let t = Set::new(|k: int| 0 <= k < 64 && (c >> (k as u64)) & 1 != (b >> (k as u64)) & 1);
    assert forall|k: int| 0 <= k < 64 implies (t.contains(k) <==> (s.contains(k) <==> k != i)) by {
        let j = k as u64;
        let e = i as u64;
        assert(j == e || ((a ^ (1u64 << e)) >> j) & 1 == (a >> j) & 1) by (bit_vector)
            requires
                j < 64,
                e < 64,
        ;
        assert(((a ^ (1u64 << e)) >> e) & 1 != (a >> e) & 1) by (bit_vector)
            requires
                e < 64,
        ;
        assert((a >> j) & 1 == 0 || (a >> j) & 1 == 1) by (bit_vector);
        assert((b >> j) & 1 == 0 || (b >> j) & 1 == 1) by (bit_vector);
        assert((c >> j) & 1 == 0 || (c >> j) & 1 == 1) by (bit_vector);
    }
    if s.contains(i) {
        assert(t =~= s.remove(i));
    } else {
        assert(t =~= s.insert(i));
    }
}

/// The distance satisfies the triangle inequality.
pub proof fn law_hamming_triangle(a: u64, b: u64, c: u64)
    ensures
        hamming(a, c) <= hamming(a, b) + hamming(b, c),
{
    law_hamming_counts_differences(a, b);
    law_hamming_counts_differences(b, c);
    law_hamming_counts_differences(a, c);
    let s = Set::new(|k: int| 0 <= k < 64 && (a >> (k as u64)) & 1 != (b >> (k as u64)) & 1);
    let t = Set::new(|k: int| 0 <= k < 64 && (b >> (k as u64)) & 1 != (c >> (k as u64)) & 1);
    let x = Set::new(|k: int| 0 <= k < 64 && (a >> (k as u64)) & 1 != (c >> (k as u64)) & 1);
    assert(x.subset_of(s.union(t)));
    lemma_len_subset(x, s.union(t));
    lemma_len_union(s, t);
}

} // verus!
