//! Sums of proper divisors, and searching for "buddy" pairs of numbers.
use vstd::prelude::*;

verus! {

/// The sum of the divisors of `n` lying in `[2, k]`.
pub open spec fn spec_sum_divisors(n: int, k: int) -> int
    decreases k,
{
    if k < 2 {
        0
    } else {
        spec_sum_divisors(n, k - 1) + if n % k == 0 {
            k
        } else {
            0
        }
    }
}

/// What `sum_propers` computes: one more than the sum of the divisors of
/// `n` strictly between one and `n`. For a number at least two this is the
/// sum of its proper divisors.
pub open spec fn spec_sum_propers(n: int) -> int {
    1 + spec_sum_divisors(n, n - 1)
}

spec fn min2(a: int, b: int) -> int {
    if a <= b {
        a
    } else {
        b
    }
}

/// The sum of the divisors `e` of `n` in `[2, k]` whose pair minimum
/// `min(e, n/e)` has already been passed by the trial bound `d`.
spec fn sum_div_seen(n: int, k: int, d: int) -> int
    decreases k,
{
    if k < 2 {
        0
    } else {
        sum_div_seen(n, k - 1, d) + if n % k == 0 && min2(k, n / k) < d {
            k
        } else {
            0
        }
    }
}

/// All partial divisor sums are non-negative, and the conditional form never
/// exceeds the unconditional one.
proof fn lemma_sum_div_bounds(n: int, k: int, d: int)
    ensures
        0 <= sum_div_seen(n, k, d) <= spec_sum_divisors(n, k),
    decreases k,
{
    if k >= 2 {
        lemma_sum_div_bounds(n, k - 1, d);
    }
}

/// Before any trials, no divisor is seen: a divisor of `n` below `n` always
/// has a cofactor of at least two.
proof fn lemma_sum_div_seen_init(n: int, k: int)
    requires
        k <= n - 1,
    ensures
        sum_div_seen(n, k, 2) == 0,
    decreases k,
{
    if k >= 2 {
        lemma_sum_div_seen_init(n, k - 1);
        if n % k == 0 {
            assert(n == (n / k) * k) by {
                vstd::arithmetic::div_mod::lemma_fundamental_div_mod(n, k);
            }
            assert(n / k >= 2) by (nonlinear_arith)
                requires
                    n == (n / k) * k,
                    2 <= k <= n - 1,
            ;
        }
    }
}

/// Raising the trial bound past `d` picks up exactly the pair `d`, `n / d`.
proof fn lemma_sum_div_seen_step(n: int, k: int, d: int)
    requires
        2 <= d,
        d * d <= n,
    ensures
        sum_div_seen(n, k, d + 1) == sum_div_seen(n, k, d) + (if n % d == 0 && d <= k {
            d
        } else {
            0
        }) + (if n % d == 0 && n / d != d && n / d <= k {
            n / d
        } else {
            0
        }),
    decreases k,
{
    if k < 2 {
        if n % d == 0 {
            assert(n == (n / d) * d) by {
                vstd::arithmetic::div_mod::lemma_fundamental_div_mod(n, d);
            }
            assert(n / d >= d) by (nonlinear_arith)
                requires
                    n == (n / d) * d,
                    d * d <= n,
                    d >= 2,
            ;
        }
    } else {
        lemma_sum_div_seen_step(n, k - 1, d);
        if n % d == 0 {
            assert(n == (n / d) * d) by {
                vstd::arithmetic::div_mod::lemma_fundamental_div_mod(n, d);
            }
            assert(n / d >= d) by (nonlinear_arith)
                requires
                    n == (n / d) * d,
                    d * d <= n,
                    d >= 2,
            ;
        }
        // How the term at `k` changes: it is newly counted exactly when
        // min(k, n/k) == d, that is when k is d itself or d's cofactor.
        if n % k == 0 {
            assert(n == (n / k) * k) by {
                vstd::arithmetic::div_mod::lemma_fundamental_div_mod(n, k);
            }
            if k == d {
                assert(n / d >= d) by (nonlinear_arith)
                    requires
                        n == (n / d) * d,
                        d * d <= n,
                        d >= 2,
                ;
                assert(min2(k, n / k) == d);
            } else if n / k == d {
                assert(n == k * d) by (nonlinear_arith)
                    requires
                        n == (n / k) * k,
                        n / k == d,
                ;
                assert(n == k * d + 0);
                assert(k == n / d) by {
                    vstd::arithmetic::div_mod::lemma_fundamental_div_mod_converse(
                        n,
                        d,
                        k,
                        0,
                    );
                }
                assert(n % d == 0) by {
                    vstd::arithmetic::div_mod::lemma_mod_multiples_basic(k, d);
                }
                assert(min2(k, n / k) == d) by (nonlinear_arith)
                    requires
                        n == (n / k) * k,
                        n / k == d,
                        d * d <= n,
                        k >= 2,
                        d >= 2,
                ;
            } else {
                // the term at k is counted before the step exactly when it
                // is counted after it, and k cannot be d's cofactor here
                assert(min2(k, n / k) != d);
                if n % d == 0 && n / d == k {
                    assert(n == (n / d) * d) by {
                        vstd::arithmetic::div_mod::lemma_fundamental_div_mod(n, d);
                    }
                    assert(n == d * k + 0) by (nonlinear_arith)
                        requires
                            n == (n / d) * d,
                            n / d == k,
                    ;
                    assert(n / k == d) by {
                        vstd::arithmetic::div_mod::lemma_fundamental_div_mod_converse(
                            n,
                            k,
                            d,
                            0,
                        );
                    }
                    assert(false);
                }
            }
        } else {
            // k is no divisor of n, so it cannot be d's cofactor either
            if n % d == 0 && n / d == k {
                assert(n == (n / d) * d) by {
                    vstd::arithmetic::div_mod::lemma_fundamental_div_mod(n, d);
                }
                assert((d * k) % k == 0) by {
                    vstd::arithmetic::div_mod::lemma_mod_multiples_basic(d, k);
                }
                assert(n == d * k) by (nonlinear_arith)
                    requires
                        n == (n / d) * d,
                        n / d == k,
                ;
                assert(false);
            }
        }
    }
}

/// Once the trial bound passes the square root, every divisor in range has
/// been seen.
proof fn lemma_sum_div_seen_done(n: int, k: int, d: int)
    requires
        n >= 0,
        d >= 1,
        d * d > n,
        k <= n - 1,
    ensures
        sum_div_seen(n, k, d) == spec_sum_divisors(n, k),
    decreases k,
{
    if k >= 2 {
        lemma_sum_div_seen_done(n, k - 1, d);
        if n % k == 0 {
            assert(n == (n / k) * k) by {
                vstd::arithmetic::div_mod::lemma_fundamental_div_mod(n, k);
            }
            let mn = min2(k, n / k);
            assert(mn < d) by (nonlinear_arith)
                requires
                    n == (n / k) * k,
                    2 <= k <= n - 1,
                    mn == min2(k, n / k),
                    d * d > n,
                    d >= 1,
            ;
        }
    }
}

/// Sums the proper divisors of `n` beyond one, by trial division up to the
/// square root, counting each divisor pair once; the final `+ 1` accounts
/// for the divisor one. For `n` below two the loop never runs and the
/// result is one.
pub fn sum_propers(n: i64) -> (r: i64)
    requires
        0 <= n,
        spec_sum_propers(n as int) <= i64::MAX,
    ensures
        r == spec_sum_propers(n as int),
{
    let nu = n as u64;
    let mut r: u64 = 0;
    let mut d: u64 = 2;
    proof {
        lemma_sum_div_seen_init(n as int, n as int - 1);
        lemma_sum_div_bounds(n as int, n as int - 1, 2);
    }
    while d * d <= nu
        invariant
            nu == n,
            2 <= d,
            d == 2 || (d - 1) * (d - 1) <= nu,
            (d as int) * (d as int) <= u64::MAX as int,
            r == sum_div_seen(n as int, n as int - 1, d as int),
            0 <= r,
            spec_sum_propers(n as int) <= i64::MAX,
        decreases nu + 2 - d,
    {
        let ghost d0 = d as int;
        proof {
            lemma_sum_div_seen_step(n as int, n as int - 1, d as int);
            lemma_sum_div_bounds(n as int, n as int - 1, d as int + 1);
            if nu % d == 0 {
                assert(n as int == ((n as int) / d0) * d0) by {
                    vstd::arithmetic::div_mod::lemma_fundamental_div_mod(n as int, d0);
                }
                assert(2 <= (n as int) / d0 && d0 <= n - 1 && (n as int) / d0 <= n - 1)
                    by (nonlinear_arith)
                    requires
                        n as int == ((n as int) / d0) * d0,
                        d0 * d0 <= n,
                        d0 >= 2,
                ;
            }
        }
        if nu % d == 0 {
            if d == nu / d {
                r = r + d;
            } else {
                r = r + d + nu / d;
            }
        }
        proof {
            assert(d < 0x100000001) by (nonlinear_arith)
                requires
                    (d as int) * (d as int) <= nu,
                    nu <= u64::MAX,
                    d >= 2,
            ;
        }
        d = d + 1;
        proof {
            assert((d as int) * (d as int) <= u64::MAX as int && d <= nu + 2)
                by (nonlinear_arith)
                requires
                    (d0) * (d0) <= nu < 0x8000000000000000,
                    d == d0 + 1,
                    d0 >= 2,
            ;
        }
    }
    proof {
        lemma_sum_div_seen_done(n as int, n as int - 1, d as int);
    }
    (r + 1) as i64
}

/// Whether `n` opens a buddy pair: writing `m` for its proper-divisor sum
/// plus one, the proper-divisor sum of `m - 1` is `n + 1`, and `m` exceeds
/// `n`.
pub open spec fn is_buddy(n: int) -> bool {
    &&& spec_sum_propers(spec_sum_propers(n) - 1) - 1 == n
    &&& spec_sum_propers(n) > n
}

/// Scans `[start, limit]` for the first `n` whose proper-divisor sum `s`
/// satisfies the buddy equations, and reports the pair `(n, s)`.
pub fn buddy(start: i64, limit: i64) -> (r: Option<(i64, i64)>)
    requires
        0 <= start,
        limit < i64::MAX,
        forall|x: int|
            start <= x <= limit ==> #[trigger] spec_sum_propers(x) <= i64::MAX && spec_sum_propers(
                spec_sum_propers(x) - 1,
            ) <= i64::MAX,
    ensures
        r matches Some(p) ==> {
            &&& start <= p.0 <= limit
            &&& is_buddy(p.0 as int)
            &&& p.1 == spec_sum_propers(p.0 as int) - 1
            &&& forall|x: int| start <= x < p.0 ==> !is_buddy(x)
        },
        r is None ==> forall|x: int| start <= x <= limit ==> !is_buddy(x),
{
    let mut n = start;
    while n <= limit
        invariant
            0 <= start,
            start <= n,
            n <= limit + 1 || n == start,
            limit < i64::MAX,
            forall|x: int|
                start <= x <= limit ==> #[trigger] spec_sum_propers(x) <= i64::MAX
                    && spec_sum_propers(spec_sum_propers(x) - 1) <= i64::MAX,
            forall|x: int| start <= x < n ==> !is_buddy(x),
        decreases limit + 1 - n,
    {
        proof {
            lemma_sum_div_bounds(n as int, n as int - 1, 2);
        }
        let m = sum_propers(n);
        proof {
            lemma_sum_div_bounds(m as int - 1, m as int - 2, 2);
        }
        let b = sum_propers(m - 1);
        if b - 1 == n && m > n {
            return Some((n, m - 1));
        }
        n = n + 1;
    }
    None
}

} // verus!
