//! Counting the numbers in a range whose decimal form avoids the digit
//! five.
use vstd::prelude::*;

verus! {

/// Whether the decimal form of `m` holds the digit five; zero has none.
pub open spec fn has_five(m: nat) -> bool
    decreases m,
{
    if m == 0 {
        false
    } else {
        m % 10 == 5 || has_five(m / 10)
    }
}

/// The magnitude of `n`.
pub open spec fn abs_of(n: int) -> nat {
    if n >= 0 {
        n as nat
    } else {
        (-n) as nat
    }
}

/// How many numbers in `[start, end)` avoid the digit five.
pub open spec fn count_no_five(start: int, end: int) -> int
    decreases end - start,
{
    if end <= start {
        0
    } else {
        count_no_five(start, end - 1) + if has_five(abs_of(end - 1)) {
            0int
        } else {
            1int
        }
    }
}

fn no_five_exec(n: isize) -> (r: bool)
    requires
        n > isize::MIN,
    ensures
        r == !has_five(abs_of(n as int)),
{
    let mut m: usize = if n < 0 {
        (-n) as usize
    } else {
        n as usize
    };
    let mut seen = false;
    while m != 0
        invariant
            (seen || has_five(m as nat)) == (false || has_five(abs_of(n as int))),
        decreases m,
    {
        if m % 10 == 5 {
            seen = true;
        }
        m = m / 10;
    }
    !seen
}

/// Counts the numbers of `[start, end)` whose decimal form avoids the
/// digit five, plus one for the inclusive upper bound the description
/// promises.
pub fn dont_give_me_five(start: isize, end: isize) -> (r: isize)
    requires
        start > isize::MIN,
        end - start < isize::MAX,
    ensures
        r == 1 + count_no_five(start as int, end as int),
{
    let mut d: isize = 0;
    let mut n = start;
    proof {
        lemma_count_no_five_bounds(start as int, start as int);
    }
    while n < end
        invariant
            start <= n,
            n <= end || n == start,
            start > isize::MIN,
            end - start < isize::MAX,
            d == count_no_five(start as int, n as int),
            0 <= d <= n - start,
        decreases end - n,
    {
        if no_five_exec(n) {
            d = d + 1;
        }
        n = n + 1;
    }
    return d + 1;
}

proof fn lemma_count_no_five_bounds(start: int, end: int)
    ensures
        0 <= count_no_five(start, end) <= (if end >= start {
            end - start
        } else {
            0
        }),
    decreases end - start,
{
    if end > start {
        lemma_count_no_five_bounds(start, end - 1);
    }
}

} // verus!
