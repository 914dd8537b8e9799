//! Counting the one bits of a non-negative number.
use vstd::prelude::*;

verus! {

use vstd::arithmetic::power2::pow2;

/// The number of one bits in the binary representation of `n`.
pub open spec fn spec_count_bits(n: int) -> int
    decreases n,
{
    if n <= 0 {
        0
    } else {
        n % 2 + spec_count_bits(n / 2)
    }
}

/// Counts the bits equal to one in the binary representation of a
/// non-negative number, by repeated division by two.
pub fn count_bits(n: i64) -> (total: u32)
    requires
        n >= 0,
    ensures
        total == spec_count_bits(n as int),
{
    let mut total: u32 = 0;
    let mut decimal: u64 = n as u64;

    proof {
        lemma_count_bits_nonneg(n as int);
        assert(n < pow2(64)) by {
            vstd::arithmetic::power2::lemma2_to64_rest();
        }
        lemma_count_bits_le_width(n as int, 64);
    }
    while decimal != 0
        invariant
            total + spec_count_bits(decimal as int) == spec_count_bits(n as int),
            0 <= spec_count_bits(decimal as int),
            spec_count_bits(n as int) <= 64,
        decreases decimal,
    {
        let remainder = decimal % 2;
        proof {
            lemma_count_bits_nonneg(decimal as int / 2);
        }
        total = total + remainder as u32;
        decimal = decimal / 2;
    }
    total
}

proof fn lemma_count_bits_nonneg(n: int)
    ensures
        0 <= spec_count_bits(n),
    decreases n,
{
    if n > 0 {
        lemma_count_bits_nonneg(n / 2);
    }
}

/// A number below 2^k has at most k one bits.
proof fn lemma_count_bits_le_width(n: int, k: nat)
    requires
        0 <= n < pow2(k),
    ensures
        spec_count_bits(n) <= k,
    decreases k,
{
    if n > 0 {
        assert(k > 0) by {
            if k == 0 {
                assert(pow2(0) == 1) by {
                    vstd::arithmetic::power2::lemma2_to64();
                }
            }
        }
        assert(pow2(k) == 2 * pow2((k - 1) as nat)) by {
            vstd::arithmetic::power2::lemma_pow2_unfold(k);
        }
        lemma_count_bits_le_width(n / 2, (k - 1) as nat);
    }
}

/// A right shift by one halves the number: `6 >> 1` is `3`.
pub fn test_shift() -> (r: i64)
    ensures
        r == 3,
{
    let r: i64 = 6 >> 1;
    proof {
        assert(6i64 >> 1i64 == 3i64) by (bit_vector);
    }
    r
}

} // verus!
