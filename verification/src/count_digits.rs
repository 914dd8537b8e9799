//! Counting how often a digit appears among the squares of the numbers up
//! to a bound.
use vstd::prelude::*;

verus! {

/// How often digit `d` appears in the decimal form of `m`; zero is written
/// with one digit.
pub open spec fn spec_digit_count(m: nat, d: int) -> int
    decreases m,
{
    if m < 10 {
        if m == d {
            1
        } else {
            0
        }
    } else {
        (if m % 10 == d {
            1int
        } else {
            0int
        }) + spec_digit_count(m / 10, d)
    }
}

/// The counts of digit `d` over the squares of `0..=n`.
pub open spec fn spec_nb_dig(n: int, d: int) -> int
    decreases n,
{
    if n < 0 {
        0
    } else if n == 0 {
        spec_digit_count(0, d)
    } else {
        spec_nb_dig(n - 1, d) + spec_digit_count((n * n) as nat, d)
    }
}

/// Ten raised to `k`.
spec fn pow10(k: nat) -> nat
    decreases k,
{
    if k == 0 {
        1
    } else {
        10 * pow10((k - 1) as nat)
    }
}

/// A number below ten to the `k` has at most `k` digits worth of counts.
proof fn lemma_digit_count_le(m: nat, d: int, k: nat)
    requires
        k >= 1,
        m < pow10(k),
    ensures
        0 <= spec_digit_count(m, d) <= k,
    decreases k,
{
    if m >= 10 {
        assert(pow10(k) == 10 * pow10((k - 1) as nat));
        assert(k >= 2) by {
            if k == 1 {
                assert(pow10(1) == 10);
            }
        }
        assert(m / 10 < pow10((k - 1) as nat)) by (nonlinear_arith)
            requires
                m < 10 * pow10((k - 1) as nat),
                m >= 10,
        ;
        lemma_digit_count_le(m / 10, d, (k - 1) as nat);
    }
}

proof fn lemma_pow10_ten()
    ensures
        pow10(10) == 10000000000,
{
    reveal_with_fuel(pow10, 11);
}

/// Counts the digits equal to `d` over the decimal forms of the squares of
/// `0..=n`.
pub fn nb_dig(n: i32, d: i32) -> (r: i32)
    requires
        0 <= n <= 46340,
    ensures
        r == spec_nb_dig(n as int, d as int),
{
    let mut acc: i32 = 0;
    let mut k: i32 = 0;
    proof {
        lemma_pow10_ten();
    }
    while k <= n
        invariant
            0 <= k <= n + 1,
            n <= 46340,
            acc == spec_nb_dig(k - 1, d as int),
            0 <= acc <= 10 * k,
        decreases n + 1 - k,
    {
        proof {
            lemma_pow10_ten();
            assert(k * k <= 46340 * 46340) by (nonlinear_arith)
                requires
                    0 <= k <= 46340,
            ;
        }
        let kk: i32 = k * k;
        let mut m: u64 = kk as u64;
        let mut cnt: i32 = 0;
        proof {
            lemma_digit_count_le(m as nat, d as int, 10);
        }
        while m >= 10
            invariant
                m < 10000000000,
                cnt + spec_digit_count(m as nat, d as int) == spec_digit_count(
                    (kk as int) as nat,
                    d as int,
                ),
                0 <= spec_digit_count((kk as int) as nat, d as int) <= 10,
                0 <= cnt <= 10,
                0 <= spec_digit_count(m as nat, d as int),
            decreases m,
        {
            proof {
                lemma_pow10_ten();
                lemma_digit_count_le(m as nat, d as int, 10);
                lemma_digit_count_le((m / 10) as nat, d as int, 10);
            }
            if (m % 10) as i32 == d {
                cnt = cnt + 1;
            }
            m = m / 10;
        }
        if (m as i32) == d {
            cnt = cnt + 1;
        }
        proof {
            assert(cnt == spec_digit_count((kk as int) as nat, d as int));
        }
        acc = acc + cnt;
        k = k + 1;
    }
    acc
}

} // verus!
