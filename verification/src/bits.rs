//! Subsets of a small index set, encoded as the bits of a `u64` mask.

use vstd::prelude::*;

verus! {

/// Bit `i` of the mask `m` is set.
pub open spec fn bit_spec(m: nat, i: nat) -> bool {
    (m / vstd::arithmetic::power2::pow2(i)) % 2 == 1
}

/// Tests bit `i` of `mask`.
pub fn has_bit(mask: u64, i: u32) -> (r: bool)
    requires
        i < 64,
    ensures
        r == bit_spec(mask as nat, i as nat),
{
    let s: u64 = i as u64;
    proof {
        vstd::bits::lemma_u64_shr_is_div(mask, s);
        assert((mask & (1u64 << s) != 0u64) == ((mask >> s) % 2 == 1)) by (bit_vector)
            requires
                s < 64,
        ;
    }
    mask & (1u64 << s) != 0
}


/// Number of set bits of `a` at positions `lo ≤ j < hi`.
pub open spec fn count_bits(a: nat, lo: nat, hi: nat) -> nat
    decreases hi,
{
    if hi <= lo {
        0
    } else {
        count_bits(a, lo, (hi - 1) as nat) + if bit_spec(a, (hi - 1) as nat) {
            1nat
        } else {
            0nat
        }
    }
}

/// Splitting the lowest position off a bit count.
pub proof fn lemma_count_bits_low(a: nat, lo: nat, hi: nat)
    requires
        lo < hi,
    ensures
        count_bits(a, lo, hi) == (if bit_spec(a, lo) {
            1int
        } else {
            0int
        }) + count_bits(a, lo + 1, hi),
    decreases hi,
{
    if hi > lo + 1 {
        lemma_count_bits_low(a, lo, (hi - 1) as nat);
    } else {
        assert(count_bits(a, lo, lo) == 0);
        assert(count_bits(a, lo + 1, hi) == 0);
    }
}

/// Number of masks `m < upto` with exactly `k` of their first `n` bits set.
pub open spec fn weight_count(n: nat, k: int, upto: nat) -> nat
    decreases upto,
{
    if upto == 0 {
        0
    } else {
        weight_count(n, k, (upto - 1) as nat) + if count_bits((upto - 1) as nat, 0, n) == k {
            1nat
        } else {
            0nat
        }
    }
}

/// A mask below `2ⁿ` has no bit at or above `n`.
pub proof fn lemma_bit_above(m: nat, n: nat, j: nat)
    requires
        m < vstd::arithmetic::power2::pow2(n),
        n <= j,
    ensures
        !bit_spec(m, j),
{
    if n < j {
        vstd::arithmetic::power2::lemma_pow2_strictly_increases(n, j);
    }
    vstd::arithmetic::div_mod::lemma_basic_div(m as int, vstd::arithmetic::power2::pow2(j) as int);
}

/// Adding `2ⁿ` to a mask below `2ⁿ` sets bit `n` and keeps every lower bit.
pub proof fn lemma_bit_high(x: nat, n: nat, j: nat)
    requires
        x < vstd::arithmetic::power2::pow2(n),
        j <= n,
    ensures
        bit_spec(x + vstd::arithmetic::power2::pow2(n), j) == if j == n {
            true
        } else {
            bit_spec(x, j)
        },
{
    let d = vstd::arithmetic::power2::pow2(j);
    let e = vstd::arithmetic::power2::pow2((n - j) as nat);
    vstd::arithmetic::power2::lemma_pow2_pos(j);
    vstd::arithmetic::power2::lemma_pow2_adds((n - j) as nat, j);
    assert(vstd::arithmetic::power2::pow2(n) == e * d);
    vstd::arithmetic::div_mod::lemma_hoist_over_denominator(x as int, e as int, d);
    assert((x + vstd::arithmetic::power2::pow2(n)) as int / (d as int) == x as int / (d as int) + e);
    if j == n {
        vstd::arithmetic::power2::lemma2_to64();
        vstd::arithmetic::div_mod::lemma_basic_div(x as int, d as int);
    } else {
        vstd::arithmetic::power2::lemma_pow2_unfold((n - j) as nat);
        let h = vstd::arithmetic::power2::pow2((n - j - 1) as nat);
        assert(e == 2 * h);
        vstd::arithmetic::div_mod::lemma_mod_multiples_vanish(h as int, x as int / (d as int), 2);
    }
}

/// Bits below the top do not change when `2ⁿ` is added: the low count is unchanged.
proof fn lemma_count_bits_high_prefix(x: nat, n: nat, j: nat)
    requires
        x < vstd::arithmetic::power2::pow2(n),
        j <= n,
    ensures
        count_bits(x + vstd::arithmetic::power2::pow2(n), 0, j) == count_bits(x, 0, j),
    decreases j,
{
    if j > 0 {
        lemma_count_bits_high_prefix(x, n, (j - 1) as nat);
        lemma_bit_high(x, n, (j - 1) as nat);
    }
}

/// Adding `2ⁿ` to a mask below `2ⁿ` adds one set bit among the first `n + 1`.
pub proof fn lemma_count_bits_high(x: nat, n: nat)
    requires
        x < vstd::arithmetic::power2::pow2(n),
    ensures
        count_bits(x + vstd::arithmetic::power2::pow2(n), 0, n + 1) == count_bits(x, 0, n) + 1,
{
    lemma_count_bits_high_prefix(x, n, n);
    lemma_bit_high(x, n, n);
}

/// A mask below `2ⁿ` has as many set bits among its first `j ≥ n` bits as among its first `n`.
pub proof fn lemma_count_bits_above(m: nat, n: nat, j: nat)
    requires
        m < vstd::arithmetic::power2::pow2(n),
        n <= j,
    ensures
        count_bits(m, 0, j) == count_bits(m, 0, n),
    decreases j,
{
    if j > n {
        lemma_count_bits_above(m, n, (j - 1) as nat);
        lemma_bit_above(m, n, (j - 1) as nat);
    }
}

/// Below `2ⁿ`, counting among the first `n + 1` bits is counting among the first `n`.
proof fn lemma_weight_count_below(n: nat, k: int, y: nat)
    requires
        y <= vstd::arithmetic::power2::pow2(n),
    ensures
        weight_count(n + 1, k, y) == weight_count(n, k, y),
    decreases y,
{
    if y > 0 {
        lemma_weight_count_below(n, k, (y - 1) as nat);
        lemma_count_bits_above((y - 1) as nat, n, n + 1);
    }
}

/// The masks `2ⁿ ≤ m < 2ⁿ + y` with `k` set bits are the masks `m - 2ⁿ` with `k - 1`.
proof fn lemma_weight_count_above(n: nat, k: int, y: nat)
    requires
        y <= vstd::arithmetic::power2::pow2(n),
    ensures
        weight_count(n + 1, k, vstd::arithmetic::power2::pow2(n) + y) == weight_count(
            n,
            k,
            vstd::arithmetic::power2::pow2(n),
        ) + weight_count(n, k - 1, y),
    decreases y,
{
    let p = vstd::arithmetic::power2::pow2(n);
    if y == 0 {
        lemma_weight_count_below(n, k, p);
    } else {
        let x = (y - 1) as nat;
        lemma_weight_count_above(n, k, x);
        lemma_count_bits_high(x, n);
        assert(weight_count(n + 1, k, p + y) == weight_count(n + 1, k, p + x) + if count_bits(
            x + p,
            0,
            n + 1,
        ) == k {
            1nat
        } else {
            0nat
        });
    }
}

/// Splitting the masks below `2ⁿ⁺¹` by their top bit: Pascal's rule for weight counts.
pub proof fn lemma_weight_count_split(n: nat, k: int)
    ensures
        weight_count(n + 1, k, vstd::arithmetic::power2::pow2(n + 1)) == weight_count(
            n,
            k,
            vstd::arithmetic::power2::pow2(n),
        ) + weight_count(n, k - 1, vstd::arithmetic::power2::pow2(n)),
{
    vstd::arithmetic::power2::lemma_pow2_unfold(n + 1);
    let p = vstd::arithmetic::power2::pow2(n);
    assert(vstd::arithmetic::power2::pow2(n + 1) == p + p);
    lemma_weight_count_above(n, k, p);
}

/// No mask has a negative number of set bits.
pub proof fn lemma_weight_count_negative(n: nat, k: int, upto: nat)
    requires
        k < 0,
    ensures
        weight_count(n, k, upto) == 0,
    decreases upto,
{
    if upto > 0 {
        lemma_weight_count_negative(n, k, (upto - 1) as nat);
    }
}

} // verus!
