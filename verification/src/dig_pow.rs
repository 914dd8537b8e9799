//! Digit powers: raising each digit to increasing powers and asking for
//! the multiplier that links the sum back to the number.
use vstd::prelude::*;

verus! {

use vstd::arithmetic::power::pow;
use crate::text::{digit_val, spec_digits_of, u64_digits, all_digits, is_digit_char};

/// The sum of the digits of the number, most significant first, each
/// raised to `p` plus its position.
pub open spec fn spec_dig_pow_sum(digits: Seq<char>, p: int) -> int
    decreases digits.len(),
{
    if digits.len() == 0 {
        0
    } else {
        spec_dig_pow_sum(digits.drop_last(), p) + pow(
            digit_val(digits.last()),
            (p + digits.len() - 1) as nat,
        )
    }
}

/// Ten raised to `k`.
spec fn pow10(k: nat) -> nat
    decreases k,
{
    if k == 0 {
        1
    } else {
        10 * pow10((k - 1) as nat)
    }
}

proof fn lemma_pow10_twenty()
    ensures
        pow10(20) == 0x56bc75e2d63100000,
{
    reveal_with_fuel(pow10, 21);
}

/// A number below ten to the `k` is written with at most `k` digits.
proof fn lemma_digits_len_le(n: nat, k: nat)
    requires
        k >= 1,
        n < pow10(k),
    ensures
        spec_digits_of(n).len() <= k,
    decreases k,
{
    if n >= 10 {
        assert(pow10(k) == 10 * pow10((k - 1) as nat));
        assert(k >= 2) by {
            if k == 1 {
                assert(pow10(1) == 10);
            }
        }
        assert(n / 10 < pow10((k - 1) as nat)) by (nonlinear_arith)
            requires
                n < 10 * pow10((k - 1) as nat),
                n >= 10,
        ;
        lemma_digits_len_le(n / 10, (k - 1) as nat);
    }
}

/// The digit-power sum of `n` with starting power `p`.
pub open spec fn spec_dig_pow_total(n: int, p: int) -> int {
    spec_dig_pow_sum(spec_digits_of(n as nat), p)
}

/// Powers of digits are non-negative, so the partial sums grow.
proof fn lemma_dps_nonneg_prefix(digits: Seq<char>, p: int, k: int)
    requires
        all_digits(digits),
        p >= 1,
        0 <= k <= digits.len(),
    ensures
        0 <= spec_dig_pow_sum(digits.take(k), p) <= spec_dig_pow_sum(digits, p),
    decreases digits.len() - k,
{
    if k == digits.len() {
        assert(digits.take(k) =~= digits);
        lemma_dps_nonneg(digits, p);
    } else {
        lemma_dps_nonneg_prefix(digits, p, k + 1);
        assert(digits.take(k + 1).drop_last() =~= digits.take(k));
        assert(digits.take(k + 1).last() == digits[k]);
        assert(is_digit_char(digits[k]));
        lemma_pow_digit_nonneg(digit_val(digits[k]), (p + k) as nat);
        lemma_dps_nonneg(digits.take(k), p);
    }
}

proof fn lemma_dps_nonneg(digits: Seq<char>, p: int)
    requires
        all_digits(digits),
        p >= 1,
    ensures
        spec_dig_pow_sum(digits, p) >= 0,
    decreases digits.len(),
{
    if digits.len() > 0 {
        assert(all_digits(digits.drop_last()));
        lemma_dps_nonneg(digits.drop_last(), p);
        assert(is_digit_char(digits.last()));
        lemma_pow_digit_nonneg(digit_val(digits.last()), (p + digits.len() - 1) as nat);
    }
}

proof fn lemma_pow_digit_nonneg(d: int, e: nat)
    requires
        0 <= d,
    ensures
        pow(d, e) >= 0,
    decreases e,
{
    reveal(vstd::arithmetic::power::pow);
    if e > 0 {
        lemma_pow_digit_nonneg(d, (e - 1) as nat);
        assert(pow(d, e) == d * pow(d, (e - 1) as nat));
        assert(d * pow(d, (e - 1) as nat) >= 0) by (nonlinear_arith)
            requires
                d >= 0,
                pow(d, (e - 1) as nat) >= 0,
        ;
    }
}

/// Raises `d` to `e`, never letting the value pass `bound`.
fn pow_u64(d: u64, e: u64, bound: u64) -> (r: u64)
    requires
        d <= 9,
        bound >= 1,
        pow(d as int, e as nat) <= bound,
    ensures
        r == pow(d as int, e as nat),
    decreases e,
{
    if e == 0 {
        proof {
            reveal(vstd::arithmetic::power::pow);
        }
        1
    } else {
        proof {
            reveal(vstd::arithmetic::power::pow);
            assert(pow(d as int, e as nat) == d * pow(d as int, (e - 1) as nat));
            lemma_pow_digit_nonneg(d as int, (e - 1) as nat);
            if d >= 1 {
                assert(pow(d as int, (e - 1) as nat) <= d * pow(d as int, (e - 1) as nat))
                    by (nonlinear_arith)
                    requires
                        d >= 1,
                        pow(d as int, (e - 1) as nat) >= 0,
                ;
            } else {
                assert(pow(0int, (e - 1) as nat) <= 1) by {
                    lemma_pow_zero((e - 1) as nat);
                }
            }
        }
        let prev = pow_u64(d, e - 1, bound);
        d * prev
    }
}

proof fn lemma_pow_zero(e: nat)
    ensures
        pow(0int, e) <= 1,
        pow(0int, e) >= 0,
    decreases e,
{
    reveal(vstd::arithmetic::power::pow);
    if e > 0 {
        lemma_pow_zero((e - 1) as nat);
    }
}

/// Sums each digit of `n`, most significant first, raised to `p` plus its
/// position, and returns the `k` with `n * k` equal to that sum, or minus
/// one when the sum is no multiple of `n`.
pub fn dig_pow(n: i64, p: i32) -> (r: i64)
    requires
        1 <= n,
        1 <= p,
        spec_dig_pow_total(n as int, p as int) + n <= i64::MAX,
    ensures
        r == if spec_dig_pow_total(n as int, p as int) % (n as int) == 0 {
            spec_dig_pow_total(n as int, p as int) / (n as int)
        } else {
            -1
        },
{
    let digits = u64_digits(n as u64);
    let ghost ds = spec_digits_of(n as nat);
    proof {
        lemma_digits_all_digits(n as nat);
        lemma_pow10_twenty();
        lemma_digits_len_le(n as nat, 20);
    }
    let mut t: i64 = 0;
    let mut i: usize = 0;
    proof {
        assert(ds.take(0) =~= Seq::<char>::empty());
    }
    while i < digits.len()
        invariant
            i <= digits@.len(),
            digits@ == ds,
            all_digits(ds),
            1 <= p,
            1 <= n,
            t == spec_dig_pow_sum(ds.take(i as int), p as int),
            ds.len() <= 20,
            spec_dig_pow_total(n as int, p as int) + n <= i64::MAX,
            spec_dig_pow_total(n as int, p as int) == spec_dig_pow_sum(ds, p as int),
        decreases digits@.len() - i,
    {
        let c = digits[i];
        proof {
            assert(is_digit_char(ds[i as int]));
            assert(ds.take(i as int + 1).drop_last() =~= ds.take(i as int));
            assert(ds.take(i as int + 1).last() == ds[i as int]);
            assert(ds.take(i as int + 1).len() == i + 1);
            lemma_dps_nonneg_prefix(ds, p as int, i as int + 1);
            lemma_dps_nonneg_prefix(ds, p as int, i as int);
            lemma_pow_digit_nonneg(digit_val(ds[i as int]), (p + i) as nat);
        }
        let d = (c as u64) - 48;
        let e = (p as u64) + (i as u64);
        let term = pow_u64(d, e, i64::MAX as u64);
        t = t + (term as i64);
        i = i + 1;
    }
    proof {
        assert(ds.take(ds.len() as int) =~= ds);
        lemma_dps_nonneg(ds, p as int);
        assert(n * 0 == 0) by (nonlinear_arith);
    }
    let mut k: i64 = 0;
    while n * k <= t && n * k != t
        invariant
            0 <= k,
            k == 0 || n * (k - 1) < t,
            1 <= n,
            t == spec_dig_pow_total(n as int, p as int),
            t + n <= i64::MAX,
            0 <= t,
            n * k <= t + n,
        decreases (if n * k <= t {
            t - n * k
        } else {
            0
        }),
    {
        proof {
            assert(k <= n * k) by (nonlinear_arith)
                requires
                    n >= 1,
                    k >= 0,
            ;
        }
        k = k + 1;
        proof {
            assert(n * k == n * (k - 1) + n) by (nonlinear_arith)
                requires
                    k >= 1,
            ;
        }
    }
    if n * k == t {
        proof {
            vstd::arithmetic::div_mod::lemma_fundamental_div_mod_converse(
                t as int,
                n as int,
                k as int,
                0,
            );
        }
        return k;
    }
    proof {
        // the sum lies strictly between two successive multiples
        assert(n * k > t);
        if (t as int) % (n as int) == 0 {
            let q = t as int / n as int;
            vstd::arithmetic::div_mod::lemma_fundamental_div_mod(t as int, n as int);
            assert(t == n * q);
            assert(k >= 1) by {
                if k == 0 {
                    assert(n * 0 == 0) by (nonlinear_arith);
                }
            }
            assert(false) by (nonlinear_arith)
                requires
                    n * (k - 1) < t,
                    n * k > t,
                    t == n * q,
                    n >= 1,
            ;
        }
    }
    -1
}

/// The decimal digits of a number are digit characters.
proof fn lemma_digits_all_digits(n: nat)
    ensures
        all_digits(spec_digits_of(n)),
    decreases n,
{
    if n >= 10 {
        lemma_digits_all_digits(n / 10);
        let d = spec_digits_of(n);
        let pre = spec_digits_of(n / 10);
        assert(forall|i: int| 0 <= i < pre.len() ==> #[trigger] d[i] == pre[i]);
        assert(d[d.len() - 1] == crate::text::digit_char((n % 10) as int));
    }
}

} // verus!
