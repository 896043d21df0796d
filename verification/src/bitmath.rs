//! Bit-level arithmetic underlying implicant patterns: a population-count
//! function with the lemmas that the combining proofs rely on, and the
//! semantics of an implicant pattern as a predicate on input combinations.

use vstd::prelude::*;
use vstd::arithmetic::power2::{pow2, lemma_pow2_unfold, lemma2_to64};

verus! {

/// Number of set bits in `x`.
pub open spec fn ones(x: u32) -> nat
    decreases x,
{
    if x == 0 {
        0
    } else {
        (x % 2) as nat + ones(x / 2)
    }
}

/// An implicant pattern `(value, mask)` covers an input combination `x`
/// when `x` agrees with `value` on every bit position not in `mask`.
pub open spec fn covers(bits: (u32, u32), x: u32) -> bool {
    x & !bits.1 == bits.0 & !bits.1
}

/// `ones` is bounded by the bit width of any enclosing power of two.
pub proof fn lemma_ones_bound(x: u32, n: nat)
    requires
        (x as nat) < pow2(n),
    ensures
        ones(x) <= n,
    decreases n,
{
    if n == 0 {
        lemma2_to64();
        assert(x == 0);
    } else {
        lemma_pow2_unfold(n);
        if x == 0 {
        } else {
            assert(((x / 2) as nat) < pow2((n - 1) as nat));
            lemma_ones_bound(x / 2, (n - 1) as nat);
        }
    }
}

/// Every `u32` has at most 32 set bits.
pub proof fn lemma_ones_le_32(x: u32)
    ensures
        ones(x) <= 32,
{
    lemma2_to64();
    lemma_ones_bound(x, 32);
}

/// A value with no set bits is zero.
pub proof fn lemma_ones_zero(x: u32)
    requires
        ones(x) == 0,
    ensures
        x == 0,
    decreases x,
{
    if x != 0 {
        if x % 2 == 0 {
            assert(x / 2 != 0) by (bit_vector)
                requires
                    x != 0 && x % 2 == 0,
            ;
            lemma_ones_zero(x / 2);
        }
    }
}

/// If the set bits of `a` are among those of `b` (`a & b == a`), then
/// `a` has at most as many set bits as `b`, and strictly fewer unless
/// the two are equal.
pub proof fn lemma_ones_subset(a: u32, b: u32)
    requires
        a & b == a,
    ensures
        ones(a) <= ones(b),
        a != b ==> ones(a) < ones(b),
    decreases b,
{
    if a == 0 && b == 0 {
    } else {
        assert((a / 2) & (b / 2) == a / 2 && (a % 2 <= b % 2) && (a != b ==> a % 2 != b % 2 || a
            / 2 != b / 2) && (b != 0 ==> b / 2 < b)) by (bit_vector)
            requires
                a & b == a && !(a == 0 && b == 0),
        ;
        if b == 0 {
            assert(a & 0u32 == 0u32) by (bit_vector);
        } else {
            lemma_ones_subset(a / 2, b / 2);
            if a != b {
                if a / 2 == b / 2 {
                    assert(a % 2 < b % 2);
                } else {
                    assert(ones(a / 2) < ones(b / 2));
                }
            }
        }
    }
}

/// The set bits of equally-populated `a` and `b` with `a & b == a` coincide.
pub proof fn lemma_ones_subset_eq(a: u32, b: u32)
    requires
        a & b == a,
        ones(a) == ones(b),
    ensures
        a == b,
{
    lemma_ones_subset(a, b);
}

/// Flipping bit `k` of `x` changes the population count by exactly one,
/// in the direction given by the bit's old value.
pub proof fn lemma_ones_flip(x: u32, k: u32)
    requires
        k < 32,
    ensures
        x & (1u32 << k) == 0 ==> ones(x ^ (1u32 << k)) == ones(x) + 1,
        x & (1u32 << k) != 0 ==> ones(x ^ (1u32 << k)) + 1 == ones(x),
    decreases k,
{
    assert(ones(x) == x % 2 + ones(x / 2));
    assert(ones(x ^ (1u32 << k)) == (x ^ (1u32 << k)) % 2 + ones((x ^ (1u32 << k)) / 2));
    if k == 0 {
        assert((x ^ (1u32 << 0u32)) / 2 == x / 2 && (x & (1u32 << 0u32) == 0 ==> (x ^ (1u32
            << 0u32)) % 2 == x % 2 + 1) && (x & (1u32 << 0u32) != 0 ==> (x ^ (1u32 << 0u32)) % 2
            + 1 == x % 2)) by (bit_vector);
    } else {
        assert((x ^ (1u32 << k)) % 2 == x % 2 && (x ^ (1u32 << k)) / 2 == (x / 2) ^ (1u32 << (
        k - 1) as u32) && ((x & (1u32 << k) == 0) <==> ((x / 2) & (1u32 << (k - 1) as u32) == 0)))
            by (bit_vector)
            requires
                0 < k < 32,
        ;
        lemma_ones_flip(x / 2, (k - 1) as u32);
    }
}

/// A value with exactly one set bit is a power of two.
pub proof fn lemma_ones_single(d: u32)
    requires
        ones(d) == 1,
    ensures
        exists|k: u32| k < 32 && d == 1u32 << k,
    decreases d,
{
    if d % 2 == 1 {
        lemma_ones_zero(d / 2);
        assert(d / 2 == 0 && d % 2 == 1 ==> d == 1u32 << 0u32) by (bit_vector);
    } else {
        assert(d != 0 ==> d / 2 < d) by (bit_vector);
        if d == 0 {
            assert(false);
        }
        lemma_ones_single(d / 2);
        let k0 = choose|k: u32| k < 32 && d / 2 == 1u32 << k;
        assert(d % 2 == 0 && d / 2 == 1u32 << k0 && k0 < 32 && d != 0 ==> k0 < 31 && d == 1u32
            << (k0 + 1) as u32) by (bit_vector);
    }
}

/// Merging two implicants that differ in exactly the care-bit `k` yields
/// the pattern whose mask additionally frees bit `k`: an input is covered
/// by the merged pattern exactly when it is covered by one of the two.
pub proof fn lemma_covers_combine(v: u32, m: u32, k: u32, x: u32)
    requires
        k < 32,
    ensures
        covers((v, m | (1u32 << k)), x) <==> (covers((v, m), x) || covers((v ^ (1u32 << k), m),
        x)),
{
    assert((x & !(m | (1u32 << k)) == v & !(m | (1u32 << k))) <==> ((x & !m == v & !m) || (x & !m
        == (v ^ (1u32 << k)) & !m))) by (bit_vector)
        requires
            k < 32,
    ;
}

/// `v` uses only the low `n` bit positions, vacuous once `n` reaches the
/// width of `u32`.
pub open spec fn fits(v: u32, n: nat) -> bool {
    n >= 32 || (v >> (n as u32)) == 0
}

/// The bit position of the unique set bit of a power of two.
pub open spec fn low_bit(d: u32) -> u32 {
    choose|k: u32| k < 32 && d == 1u32 << k
}

/// A value with exactly one set bit equals `1` shifted by its `low_bit`.
pub proof fn lemma_low_bit(d: u32)
    requires
        ones(d) == 1,
    ensures
        low_bit(d) < 32,
        d == 1u32 << low_bit(d),
        forall|k: u32| k < 32 && d == 1u32 << k ==> k == low_bit(d),
{
    lemma_ones_single(d);
    let k0 = low_bit(d);
    assert(k0 < 32 && d == 1u32 << k0);
    assert forall|k: u32| k < 32 && d == 1u32 << k implies k == k0 by {
        assert(1u32 << k == 1u32 << k0 && k < 32 && k0 < 32 ==> k == k0) by (bit_vector);
    }
}

/// A pattern with an empty mask covers exactly its own value.
pub proof fn lemma_covers_zero_mask(v: u32, x: u32)
    ensures
        covers((v, 0u32), x) <==> x == v,
{
    assert((x & !0u32 == v & !0u32) <==> x == v) by (bit_vector);
}

/// A value confined to the low `n` bits has at most `n` set bits.
pub proof fn lemma_fits_ones(v: u32, n: nat)
    requires
        fits(v, n),
    ensures
        ones(v) <= n,
{
    if n >= 32 {
        lemma_ones_le_32(v);
    } else {
        vstd::bits::lemma_u32_shr_is_div(v, n as u32);
        vstd::arithmetic::power2::lemma_pow2_pos(n);
        vstd::arithmetic::div_mod::lemma_fundamental_div_mod(v as int, pow2(n) as int);
        lemma_ones_bound(v, n);
    }
}

/// Bitwise exclusive-or stays within the bit positions of its operands.
pub proof fn lemma_fits_xor(a: u32, b: u32, n: nat)
    requires
        fits(a, n),
        fits(b, n),
    ensures
        fits(a ^ b, n),
{
    if n < 32 {
        let s = n as u32;
        assert(a >> s == 0 && b >> s == 0 ==> (a ^ b) >> s == 0) by (bit_vector);
    }
}

/// Population count, computed bit by bit.
pub fn popcount(x: u32) -> (r: u32)
    ensures
        r == ones(x),
{
    let mut v: u32 = x;
    let mut r: u32 = 0;
    proof {
        lemma_ones_le_32(x);
    }
    while v != 0
        invariant
            ones(x) == r + ones(v),
            ones(x) <= 32,
        decreases v,
    {
        proof {
            assert(ones(v) == v % 2 + ones(v / 2));
            assert(v != 0 ==> (v / 2 < v && v % 2 == (v & 1u32) && v / 2 == (v >> 1u32)))
                by (bit_vector);
        }
        r = r + (v & 1u32);
        v = v >> 1u32;
    }
    r
}

/// Index of the unique set bit of `d`.
pub fn single_bit_index(d: u32) -> (k: u32)
    requires
        ones(d) == 1,
    ensures
        k < 32,
        d == 1u32 << k,
        k == low_bit(d),
{
    proof {
        lemma_low_bit(d);
    }
    let mut k: u32 = 0;
    while d != 1u32 << k
        invariant
            k < 32,
            exists|j: u32| j < 32 && d == 1u32 << j,
            forall|j: u32| j < k ==> d != 1u32 << j,
        decreases 32 - k,
    {
        proof {
            if k == 31 {
                let j = choose|j: u32| j < 32 && d == 1u32 << j;
                assert(false);
            }
        }
        k = k + 1;
    }
    k
}

} // verus!
