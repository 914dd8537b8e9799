//! Primality testing and counting prime factors by trial division.
use vstd::prelude::*;

verus! {

/// Whether `n` is prime: at least two, with no divisor strictly between one
/// and itself.
pub open spec fn spec_prime(n: int) -> bool {
    n >= 2 && forall|d: int| 2 <= d < n ==> #[trigger] (n % d) != 0
}

/// The smallest divisor of `n` that is at least `d`; `n` itself divides `n`,
/// so the search stops there at the latest.
pub open spec fn least_divisor_from(n: int, d: int) -> int
    decreases n - d,
{
    if n <= d || n % d == 0 {
        d
    } else {
        least_divisor_from(n, d + 1)
    }
}

/// The number of prime factors of `n`, counted with multiplicity: repeatedly
/// divide by the smallest divisor above one.
pub open spec fn spec_omega(n: nat) -> nat
    decreases n,
    via spec_omega_decreases
{
    if n <= 1 {
        0
    } else {
        let p = least_divisor_from(n as int, 2);
        if p < 2 || n < p {
            0
        } else {
            (1 + spec_omega((n as int / p) as nat)) as nat
        }
    }
}

#[via_fn]
proof fn spec_omega_decreases(n: nat) {
    if n > 1 {
        let p = least_divisor_from(n as int, 2);
        if !(p < 2 || n < p) {
            assert(0 <= n as int / p < n) by (nonlinear_arith)
                requires
                    2 <= p <= n,
                    n >= 2,
            ;
        }
    }
}

/// The least divisor search returns a divisor, and nothing below it divides.
pub proof fn lemma_least_divisor_from(n: int, d: int)
    requires
        2 <= d <= n,
    ensures
        d <= least_divisor_from(n, d) <= n,
        n % least_divisor_from(n, d) == 0,
        forall|e: int| d <= e < least_divisor_from(n, d) ==> #[trigger] (n % e) != 0,
    decreases n - d,
{
    if n <= d {
        assert(n % n == 0) by (nonlinear_arith)
            requires
                n >= 2,
        ;
    } else if n % d == 0 {
    } else {
        lemma_least_divisor_from(n, d + 1);
    }
}

/// If `p` divides `n` and nothing smaller than `p` (from `d` up) does, the
/// search from `d` finds exactly `p`.
pub proof fn lemma_least_divisor_is(n: int, d: int, p: int)
    requires
        2 <= d <= p <= n,
        n % p == 0,
        forall|e: int| d <= e < p ==> #[trigger] (n % e) != 0,
    ensures
        least_divisor_from(n, d) == p,
    decreases p - d,
{
    if d < p {
        assert(n % d != 0);
        assert(n > d) by {
            if n == d {
                assert(n % d == 0) by (nonlinear_arith)
                    requires
                        n >= 2,
                        n == d,
                ;
            }
        }
        lemma_least_divisor_is(n, d + 1, p);
    } else {
        if n > d {
            assert(least_divisor_from(n, d) == d);
        }
    }
}

/// A divisor of a quotient of `n` is a divisor of `n`.
pub proof fn lemma_divisor_of_quotient(n: int, p: int, d: int)
    requires
        n >= 1,
        2 <= p,
        n % p == 0,
        2 <= d,
        (n / p) % d == 0,
    ensures
        n % d == 0,
{
    let q = n / p;
    assert(n == q * p) by {
        vstd::arithmetic::div_mod::lemma_fundamental_div_mod(n, p);
    }
    let k = q / d;
    assert(q == k * d) by {
        vstd::arithmetic::div_mod::lemma_fundamental_div_mod(q, d);
    }
    assert(n == (k * p) * d) by (nonlinear_arith)
        requires
            n == q * p,
            q == k * d,
    ;
    assert(n % d == 0) by (nonlinear_arith)
        requires
            n == (k * p) * d,
            d >= 2,
    ;
}

/// A number with no divisor up to its square root is one or prime.
pub proof fn lemma_no_small_divisor_prime(n: int, i: int)
    requires
        n >= 2,
        i >= 2,
        i * i > n,
        forall|d: int| 2 <= d < i ==> #[trigger] (n % d) != 0,
    ensures
        spec_prime(n),
{
    assert forall|d: int| 2 <= d < n implies #[trigger] (n % d) != 0 by {
        if n % d == 0 {
            let e = n / d;
            assert(n == e * d) by {
                vstd::arithmetic::div_mod::lemma_fundamental_div_mod(n, d);
            }
            assert(2 <= e < n) by (nonlinear_arith)
                requires
                    n == e * d,
                    2 <= d < n,
                    n >= 2,
            ;
            assert(n % e == 0) by (nonlinear_arith)
                requires
                    n == e * d,
                    e >= 2,
            ;
            if d < i {
                assert(false);
            } else {
                assert(e < i) by (nonlinear_arith)
                    requires
                        n == e * d,
                        d >= i,
                        e >= 1,
                        i * i > n,
                        i >= 2,
                ;
                assert(false);
            }
        }
    }
}

/// A prime has exactly one prime factor.
pub proof fn lemma_omega_of_prime(n: int)
    requires
        spec_prime(n),
    ensures
        spec_omega(n as nat) == 1,
{
    lemma_least_divisor_from(n, 2);
    let p = least_divisor_from(n, 2);
    if p < n {
        assert(n % p != 0);
    }
    assert(p == n);
    lemma_omega_step(n, n);
    assert(n / n == 1) by (nonlinear_arith)
        requires
            n >= 2,
    ;
    assert(spec_omega((n / n) as nat) == 0);
}

/// Dividing out the least divisor removes one counted factor.
pub proof fn lemma_omega_step(n: int, p: int)
    requires
        n >= 2,
        2 <= p <= n,
        n % p == 0,
        forall|e: int| 2 <= e < p ==> #[trigger] (n % e) != 0,
    ensures
        spec_omega(n as nat) == 1 + spec_omega((n / p) as nat),
        1 <= n / p < n,
{
    lemma_least_divisor_is(n, 2, p);
    assert(1 <= n / p < n) by (nonlinear_arith)
        requires
            n >= 2,
            2 <= p <= n,
            n % p == 0,
    ;
}

/// Tests primality: small cases, then divisibility by two and three, then
/// trial division from five upward.
pub fn is_prime(n: u64) -> (r: bool)
    requires
        n < 0x4000000000000000,
    ensures
        r == spec_prime(n as int),
{
    if n <= 3 {
        return n > 1;
    } else if n % 2 == 0 || n % 3 == 0 {
        proof {
            if n % 2 == 0 {
                assert(!spec_prime(n as int));
            } else {
                assert(!spec_prime(n as int));
            }
        }
        return false;
    }
    proof {
        assert forall|d: int| 2 <= d < 5 implies #[trigger] ((n as int) % d) != 0 by {
            if d == 4 && (n as int) % 4 == 0 {
                let q = n as int / 4;
                assert(n as int == 4 * q) by {
                    vstd::arithmetic::div_mod::lemma_fundamental_div_mod(n as int, 4);
                }
                assert(((2 * q) * 2) % 2 == 0) by {
                    vstd::arithmetic::div_mod::lemma_mod_multiples_basic(2 * q, 2);
                }
                assert(n as int == (2 * q) * 2) by (nonlinear_arith)
                    requires
                        n as int == 4 * q,
                ;
            }
        }
    }
    let mut i: u64 = 5;
    while i * i <= n
        invariant
            5 <= i,
            n >= 5,
            n < 0x4000000000000000,
            i < 0x100000000,
            (i as int) * (i as int) <= u64::MAX as int,
            forall|d: int| 2 <= d < i ==> #[trigger] ((n as int) % d) != 0,
        decreases n - i,
    {
        let ghost i0 = i as int;
        if n % i == 0 || n % (i + 2) == 0 {
            proof {
                assert(i < n && i + 2 < n) by (nonlinear_arith)
                    requires
                        i * i <= n,
                        i >= 5,
                        n >= 5,
                ;
            }
            return false;
        }
        i = i + 1;
        proof {
            assert(i < 0x100000000 && (i as int) * (i as int) <= u64::MAX as int && i <= n)
                by (nonlinear_arith)
                requires
                    i0 * i0 <= n,
                    n < 0x4000000000000000,
                    i == i0 + 1,
                    i0 >= 5,
            ;
        }
    }
    proof {
        lemma_no_small_divisor_prime(n as int, i as int);
    }
    true
}

/// Counts the prime factors of `n` with multiplicity: divides out twos, then
/// odd candidates in increasing order; whatever is left above two is prime.
pub fn factor(n: u64) -> (c: u64)
    requires
        1 <= n < 0x4000000000000000,
    ensures
        c == spec_omega(n as nat),
{
    let mut c: u64 = 0;
    let mut num: u64 = n;

    proof {
        lemma_omega_bound(n as nat);
    }
    while num % 2 == 0
        invariant
            1 <= num <= n,
            c + spec_omega(num as nat) == spec_omega(n as nat),
            spec_omega(n as nat) <= n,
        decreases num,
    {
        proof {
            lemma_omega_step(num as int, 2);
        }
        num = num / 2;
        c = c + 1;
    }

    let mut i: u64 = 3;
    while i * i <= num
        invariant
            1 <= num <= n,
            n < 0x4000000000000000,
            num % 2 != 0,
            3 <= i,
            i % 2 == 1,
            i < 0x100000000,
            (i as int) * (i as int) <= u64::MAX as int,
            c + spec_omega(num as nat) == spec_omega(n as nat),
            spec_omega(n as nat) <= n,
            forall|d: int| 2 <= d < i ==> #[trigger] ((num as int) % d) != 0,
        decreases num, num + 4 - i,
    {
        let ghost i0 = i as int;
        let ghost num0 = num as int;
        while num % i == 0
            invariant
                1 <= num <= n,
                num <= num0,
                3 <= i,
                i == i0,
                i % 2 == 1,
                num % 2 != 0,
                (i as int) * (i as int) <= u64::MAX as int,
                c + spec_omega(num as nat) == spec_omega(n as nat),
                spec_omega(n as nat) <= n,
                forall|d: int| 2 <= d < i ==> #[trigger] ((num as int) % d) != 0,
            decreases num,
        {
            proof {
                assert(i <= num) by (nonlinear_arith)
                    requires
                        num % i == 0,
                        num >= 1,
                        i >= 3,
                ;
                lemma_omega_step(num as int, i as int);
                let q = num as int / i as int;
                assert forall|d: int| 2 <= d < i implies #[trigger] (q % d) != 0 by {
                    if q % d == 0 {
                        lemma_divisor_of_quotient(num as int, i as int, d);
                    }
                }
                assert(q % 2 != 0) by {
                    if q >= 2 && q % 2 == 0 {
                        lemma_divisor_of_quotient(num as int, i as int, 2);
                    }
                    if q == 1 {
                    }
                }
            }
            num = num / i;
            c = c + 1;
        }
        i = i + 2;
        proof {
            assert forall|d: int| 2 <= d < i implies #[trigger] ((num as int) % d) != 0 by {
                if d == i - 1 {
                    // an even candidate cannot divide an odd number
                    if (num as int) % d == 0 {
                        let q = (num as int) / d;
                        assert(num as int == q * d) by {
                            vstd::arithmetic::div_mod::lemma_fundamental_div_mod(
                                num as int,
                                d,
                            );
                        }
                        let h = d / 2;
                        assert(d == 2 * h);
                        assert(((q * h) * 2) % 2 == 0) by {
                            vstd::arithmetic::div_mod::lemma_mod_multiples_basic(q * h, 2);
                        }
                        assert(num as int == (q * h) * 2) by (nonlinear_arith)
                            requires
                                num as int == q * d,
                                d == 2 * h,
                        ;
                    }
                }
            }
            assert(i < 0x100000000 && (i as int) * (i as int) <= u64::MAX as int && i <= num0
                + 2) by (nonlinear_arith)
                requires
                    i0 * i0 <= num0,
                    num0 < 0x4000000000000000,
                    i == i0 + 2,
                    i0 >= 3,
            ;
        }
    }
    if num > 2 {
        proof {
            lemma_no_small_divisor_prime(num as int, i as int);
            lemma_omega_of_prime(num as int);
        }
        c = c + 1;
    }
    proof {
        if num <= 2 {
            assert(num == 1);
        }
    }
    c
}

/// A number has at most as many counted prime factors as its own size.
pub proof fn lemma_omega_bound(n: nat)
    ensures
        spec_omega(n) <= n,
    decreases n,
{
    if n >= 2 {
        lemma_least_divisor_from(n as int, 2);
        let p = least_divisor_from(n as int, 2);
        let q = (n as int / p) as nat;
        assert(1 <= q < n) by (nonlinear_arith)
            requires
                n >= 2,
                2 <= p <= n,
                q == n as int / p,
        ;
        lemma_omega_bound(q);
        assert(q <= n as int / 2) by (nonlinear_arith)
            requires
                p >= 2,
                n >= 2,
                q == n as int / p,
        ;
    }
}

} // verus!
