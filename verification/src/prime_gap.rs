//! Finding the first pair of successive primes a given distance apart.
use vstd::prelude::*;

verus! {

use crate::primes::{is_prime, spec_prime};

/// The primes in `[m, hi)`, in increasing order.
pub open spec fn primes_in(m: int, hi: int) -> Seq<u64>
    decreases hi - m,
{
    if hi <= m {
        Seq::empty()
    } else {
        let prev = primes_in(m, hi - 1);
        if spec_prime(hi - 1) {
            prev.push((hi - 1) as u64)
        } else {
            prev
        }
    }
}

/// The first pair of neighbours in `ps` exactly `g` apart, scanning from the
/// front.
pub open spec fn first_gap_pair(ps: Seq<u64>, g: int) -> Option<(u64, u64)>
    decreases ps.len(),
{
    if ps.len() < 2 {
        None
    } else if ps[1] - ps[0] == g {
        Some((ps[0], ps[1]))
    } else {
        first_gap_pair(ps.drop_first(), g)
    }
}

/// Appending one element can only introduce a pair at the very end.
proof fn lemma_first_gap_pair_push(ps: Seq<u64>, p: u64, g: int)
    ensures
        first_gap_pair(ps.push(p), g) == if first_gap_pair(ps, g) is Some {
            first_gap_pair(ps, g)
        } else if ps.len() >= 1 && p - ps.last() == g {
            Some((ps.last(), p))
        } else {
            None::<(u64, u64)>
        },
    decreases ps.len(),
{
    let q = ps.push(p);
    if ps.len() == 0 {
        assert(q.len() == 1);
        assert(first_gap_pair(q, g) is None);
    } else if ps.len() == 1 {
        assert(q[0] == ps[0]);
        assert(q[1] == p);
        assert(ps.last() == ps[0]);
        assert(first_gap_pair(ps, g) is None);
        if p - ps[0] == g {
            assert(first_gap_pair(q, g) == Some((ps[0], p)));
        } else {
            assert(q.drop_first() =~= seq![p]);
            assert(first_gap_pair(q.drop_first(), g) is None);
        }
    } else {
        assert(q[0] == ps[0]);
        assert(q[1] == ps[1]);
        if ps[1] - ps[0] == g {
            assert(first_gap_pair(q, g) == Some((ps[0], ps[1])));
            assert(first_gap_pair(ps, g) == Some((ps[0], ps[1])));
        } else {
            assert(q.drop_first() =~= ps.drop_first().push(p));
            lemma_first_gap_pair_push(ps.drop_first(), p, g);
            assert(ps.drop_first().last() == ps.last());
            assert(first_gap_pair(q, g) == first_gap_pair(q.drop_first(), g));
            assert(first_gap_pair(ps, g) == first_gap_pair(ps.drop_first(), g));
        }
    }
}

/// A scan that found nothing rejects the last pair of neighbours too.
proof fn lemma_first_gap_pair_none_last(ps: Seq<u64>, g: int)
    requires
        ps.len() >= 2,
        first_gap_pair(ps, g) is None,
    ensures
        ps[ps.len() - 1] - ps[ps.len() - 2] != g,
    decreases ps.len(),
{
    if ps.len() > 2 {
        lemma_first_gap_pair_none_last(ps.drop_first(), g);
        assert(ps.drop_first()[ps.len() - 2] == ps[ps.len() - 1]);
        assert(ps.drop_first()[ps.len() - 3] == ps[ps.len() - 2]);
    }
}

/// A found pair is exactly `g` apart.
proof fn lemma_first_gap_pair_some_gap(ps: Seq<u64>, g: int)
    requires
        first_gap_pair(ps, g) is Some,
    ensures
        ({
            let p = first_gap_pair(ps, g)->0;
            p.1 - p.0 == g
        }),
    decreases ps.len(),
{
    if ps.len() >= 2 && ps[1] - ps[0] != g {
        lemma_first_gap_pair_some_gap(ps.drop_first(), g);
    }
}

/// Searches `[m, n]` for the first two successive primes whose distance is
/// exactly `g`. With no primes in the range at all the fold's zero state is
/// compared, so a gap of zero reports the pair of zeros; the search is not
/// meant for a range holding exactly one prime.
pub fn gap(g: i32, m: u64, n: u64) -> (r: Option<(u64, u64)>)
    requires
        n < 0x4000000000000000,
        n <= m || n - m < 0x80000000,
        primes_in(m as int, n as int + 1).len() != 1,
    ensures
        primes_in(m as int, n as int + 1).len() == 0 ==> r == if g == 0 {
            Some((0u64, 0u64))
        } else {
            None::<(u64, u64)>
        },
        primes_in(m as int, n as int + 1).len() >= 2 ==> r == first_gap_pair(
            primes_in(m as int, n as int + 1),
            g as int,
        ),
{
    let mut y: u64 = 0;
    let mut z: u64 = 0;
    let mut x: u64 = m;
    while x <= n
        invariant
            m <= x,
            x <= n + 1 || x == m,
            n < 0x4000000000000000,
            n <= m || n - m < 0x80000000,
            ({
                let ps = primes_in(m as int, x as int);
                &&& (ps.len() == 0 ==> y == 0 && z == 0)
                &&& (ps.len() == 1 ==> y == ps[0] && z == 0 && y >= 2)
                &&& (ps.len() >= 2 ==> {
                    let fg = first_gap_pair(ps, g as int);
                    if fg is Some {
                        (y, z) == fg->0
                    } else {
                        y == ps[ps.len() - 2] && z == ps[ps.len() - 1]
                    }
                })
                &&& (ps.len() >= 2 ==> m <= y < z <= n && y >= 2)
            }),
        decreases n + 1 - x,
    {
        proof {
            lemma_primes_in_bounds(m as int, x as int);
        }
        if is_prime(x) {
            let ghost ps = primes_in(m as int, x as int);
            proof {
                lemma_first_gap_pair_push(ps, x, g as int);
                lemma_primes_in_bounds(m as int, x as int + 1);
                if ps.len() >= 2 {
                    if first_gap_pair(ps, g as int) is Some {
                        lemma_first_gap_pair_some_gap(ps, g as int);
                    } else {
                        lemma_first_gap_pair_none_last(ps, g as int);
                    }
                }
            }
            if y == 0 && z == 0 {
                y = x;
            } else if z == 0 {
                z = x;
            } else {
                proof {
                    assert(z - y < 0x80000000);
                }
                let d = z - y;
                if d as i32 != g {
                    y = z;
                    z = x;
                }
            }
            proof {
                let ps2 = primes_in(m as int, x as int + 1);
                assert(ps2 =~= ps.push(x));
            }
        } else {
            proof {
                assert(primes_in(m as int, x as int + 1) =~= primes_in(m as int, x as int));
            }
        }
        x = x + 1;
    }
    proof {
        lemma_primes_in_bounds(m as int, n as int + 1);
        if x != n + 1 {
            assert(primes_in(m as int, n as int + 1) =~= Seq::<u64>::empty());
        }
        let ps = primes_in(m as int, n as int + 1);
        if ps.len() >= 2 && first_gap_pair(ps, g as int) is None {
            lemma_first_gap_pair_none_last(ps, g as int);
        }
        if ps.len() >= 2 && first_gap_pair(ps, g as int) is Some {
            lemma_first_gap_pair_some_gap(ps, g as int);
        }
    }
    if (z - y) as i32 == g {
        Some((y, z))
    } else {
        None
    }
}

/// Every listed prime lies in the searched range and is at least two; the
/// list is strictly increasing.
proof fn lemma_primes_in_bounds(m: int, hi: int)
    requires
        0 <= m,
        hi <= 0x10000000000000000,
    ensures
        forall|j: int|
            0 <= j < primes_in(m, hi).len() ==> {
                let p = #[trigger] primes_in(m, hi)[j];
                m <= p < hi && p >= 2 && spec_prime(p as int)
            },
        forall|j1: int, j2: int|
            0 <= j1 < j2 < primes_in(m, hi).len() ==> #[trigger] primes_in(m, hi)[j1]
                < #[trigger] primes_in(m, hi)[j2],
    decreases hi - m,
{
    if hi > m {
        lemma_primes_in_bounds(m, hi - 1);
        let prev = primes_in(m, hi - 1);
        if spec_prime(hi - 1) {
            assert(hi - 1 >= 2);
            assert(((hi - 1) as u64) as int == hi - 1);
            assert(forall|j: int|
                0 <= j < prev.len() ==> #[trigger] primes_in(m, hi)[j] == prev[j]);
            assert(primes_in(m, hi)[prev.len() as int] == (hi - 1) as u64);
        }
    }
}

} // verus!
