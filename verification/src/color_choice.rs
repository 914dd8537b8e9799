//! Looking for the number of colors to pick: the smallest choice count
//! whose binomial coefficient matches a target.
use vstd::prelude::*;

verus! {

/// The factorial of `n`.
pub open spec fn spec_fact(n: nat) -> nat
    decreases n,
{
    if n < 2 {
        1
    } else {
        n * spec_fact((n - 1) as nat)
    }
}

/// The binomial coefficient written with factorials.
pub open spec fn spec_binom(n: nat, c: nat) -> int {
    spec_fact(n) as int / (spec_fact(c) * spec_fact((n - c) as nat)) as int
}

/// Factorials are positive and grow with their argument.
pub proof fn lemma_fact_pos_mono(n: nat)
    ensures
        spec_fact(n) >= 1,
        forall|m: nat| m <= n ==> #[trigger] spec_fact(m) <= spec_fact(n),
    decreases n,
{
    if n >= 1 {
        lemma_fact_pos_mono((n - 1) as nat);
        if n >= 2 {
            assert(spec_fact(n) == n * spec_fact((n - 1) as nat));
            assert(spec_fact((n - 1) as nat) <= n * spec_fact((n - 1) as nat))
                by (nonlinear_arith)
                requires
                    n >= 2,
                    spec_fact((n - 1) as nat) >= 1,
            ;
        }
    }
}

/// The factorial of twenty, the largest that fits a word.
pub proof fn lemma_fact_20()
    ensures
        spec_fact(20) == 2432902008176640000,
{
    reveal_with_fuel(spec_fact, 21);
}

/// A product of factorials of two parts never exceeds the factorial of the
/// whole.
pub proof fn lemma_fact_split_le(a: nat, b: nat)
    ensures
        spec_fact(a) * spec_fact(b) <= spec_fact(a + b),
    decreases b,
{
    lemma_fact_pos_mono(a);
    lemma_fact_pos_mono(b);
    if b == 0 {
        assert(spec_fact(a) * spec_fact(0) == spec_fact(a)) by (nonlinear_arith)
            requires
                spec_fact(0) == 1,
        ;
    } else {
        lemma_fact_split_le(a, (b - 1) as nat);
        lemma_fact_pos_mono(a + b);
        lemma_fact_pos_mono((a + b - 1) as nat);
        lemma_fact_pos_mono((b - 1) as nat);
        assert(spec_fact(a + b) == (a + b) * spec_fact((a + b - 1) as nat)) by {
            assert(a + b >= 2 || (a == 0 && b == 1));
            if a == 0 && b == 1 {
                assert(spec_fact(1) == 1);
            }
        }
        assert(spec_fact(b) == b * spec_fact((b - 1) as nat) || b == 1);
        if b == 1 {
            assert(spec_fact(a) * spec_fact(1) == spec_fact(a)) by (nonlinear_arith)
                requires
                    spec_fact(1) == 1,
            ;
            assert(spec_fact(a) <= spec_fact(a + 1));
        } else {
            assert(spec_fact(a) * spec_fact(b) == b * (spec_fact(a) * spec_fact(
                (b - 1) as nat,
            ))) by (nonlinear_arith)
                requires
                    spec_fact(b) == b * spec_fact((b - 1) as nat),
            ;
            assert(b * (spec_fact(a) * spec_fact((b - 1) as nat)) <= (a + b) * spec_fact(
                (a + b - 1) as nat,
            )) by (nonlinear_arith)
                requires
                    spec_fact(a) * spec_fact((b - 1) as nat) <= spec_fact((a + b - 1) as nat),
                    1 <= b,
                    0 <= a,
                    spec_fact((a + b - 1) as nat) >= 1,
                    spec_fact(a) * spec_fact((b - 1) as nat) >= 0,
            ;
        }
    }
}

/// The factorial, by recursion; twenty is the largest argument whose
/// factorial fits a word.
pub fn f(n: u64) -> (r: u64)
    requires
        n <= 20,
    ensures
        r == spec_fact(n as nat),
    decreases n,
{
    proof {
        lemma_fact_pos_mono(20);
        lemma_fact_20();
    }
    if n < 2 {
        1
    } else {
        let prev = f(n - 1);
        proof {
            assert(n * spec_fact((n - 1) as nat) == spec_fact(n as nat));
            assert(spec_fact(n as nat) <= spec_fact(20));
        }
        n * prev
    }
}

/// Finds the smallest number of choices `c` between one and `n` for which
/// the binomial coefficient of `n` over `c` equals `m`, or reports minus
/// one when no such count exists.
pub fn check_choose(m: u64, n: u64) -> (r: i64)
    requires
        1 <= n <= 20,
    ensures
        r == -1 || 1 <= r <= n,
        r == -1 ==> forall|c: nat| 1 <= c <= n ==> #[trigger] spec_binom(n as nat, c) != m,
        r >= 0 ==> {
            &&& 1 <= r <= n
            &&& spec_binom(n as nat, r as nat) == m
            &&& forall|c: nat| 1 <= c < r ==> #[trigger] spec_binom(n as nat, c) != m
        },
{
    let mut c: u64 = 1;
    let fn_all = f(n);
    while c <= n
        invariant
            1 <= c <= n + 1,
            1 <= n <= 20,
            fn_all == spec_fact(n as nat),
            forall|k: nat| 1 <= k < c ==> #[trigger] spec_binom(n as nat, k) != m,
        decreases n + 1 - c,
    {
        let fc = f(c);
        let fnc = f(n - c);
        proof {
            lemma_fact_pos_mono(n as nat);
            lemma_fact_split_le(c as nat, (n - c) as nat);
            lemma_fact_pos_mono(c as nat);
            lemma_fact_pos_mono((n - c) as nat);
            assert(spec_fact(c as nat) * spec_fact((n - c) as nat) >= 1) by (nonlinear_arith)
                requires
                    spec_fact(c as nat) >= 1,
                    spec_fact((n - c) as nat) >= 1,
            ;
        }
        let denom = fc * fnc;
        let t = fn_all / denom;
        if t == m {
            return c as i64;
        }
        c = c + 1;
    }
    -1
}

} // verus!
