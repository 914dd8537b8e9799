//! Finding pairs of k-primes (numbers with exactly k prime factors, counted
//! with multiplicity) that lie a fixed step apart.
use vstd::prelude::*;

verus! {

use crate::primes::{factor, spec_omega};

/// Whether `number` opens a reported pair: it is non-zero, has exactly `k`
/// prime factors, and `number + step` stays within the search end and has
/// exactly `k` prime factors as well.
pub open spec fn is_kpair(k: int, step: int, number: int, n: int) -> bool {
    &&& number != 0
    &&& spec_omega(number as nat) == k
    &&& number + step <= n
    &&& spec_omega((number + step) as nat) == k
}

/// The pairs `(x, x + step)` for `x` in `[m, hi)` that `is_kpair` accepts,
/// in increasing order of `x`.
pub open spec fn spec_kpairs(k: int, step: int, m: int, hi: int, n: int) -> Seq<(u64, u64)>
    decreases hi - m,
{
    if hi <= m {
        Seq::empty()
    } else {
        let prev = spec_kpairs(k, step, m, hi - 1, n);
        if is_kpair(k, step, hi - 1, n) {
            prev.push((((hi - 1) as u64), ((hi - 1 + step) as u64)))
        } else {
            prev
        }
    }
}

/// Searches `[m, n)` for numbers with exactly `k` prime factors whose
/// neighbour `step` above (itself at most `n`) also has exactly `k`; always
/// returns the full list of such pairs.
pub fn kprimes_step(k: i32, step: i32, m: u64, n: u64) -> (r: Option<Vec<(u64, u64)>>)
    requires
        k >= 1,
        step >= 1,
        n + step < 0x4000000000000000,
    ensures
        r is Some,
        r->0@ == spec_kpairs(k as int, step as int, m as int, n as int, n as int),
{
    let mut kprimes: Vec<(u64, u64)> = Vec::new();
    let mut number: u64 = m;
    while number < n
        invariant
            m <= number,
            number <= n || number == m,
            k >= 1,
            step >= 1,
            n + step < 0x4000000000000000,
            kprimes@ == spec_kpairs(k as int, step as int, m as int, number as int, n as int),
        decreases n - number,
    {
        let current = number;
        let next = number + (step as u64);
        if number != 0 {
            let current_factor = factor(current);
            if current_factor == (k as u64) {
                if next <= n {
                    let next_factor = factor(next);
                    if next_factor == (k as u64) {
                        kprimes.push((current, next));
                    }
                }
            }
        }
        proof {
            let ki = k as int;
            let si = step as int;
            let prev = spec_kpairs(ki, si, m as int, number as int, n as int);
            if is_kpair(ki, si, number as int, n as int) {
                assert(kprimes@ =~= prev.push((number, (number + si) as u64)));
            } else {
                assert(kprimes@ =~= prev);
            }
        }
        number = number + 1;
    }
    Some(kprimes)
}

} // verus!
