//! Counting the ordered rolls of a handful of six-sided dice that total a
//! target sum: the numerator and denominator of the dice-sum probability.
use vstd::prelude::*;

verus! {

/// Six to the `e`.
pub open spec fn pow6(e: nat) -> int
    decreases e,
{
    if e == 0 {
        1
    } else {
        6 * pow6((e - 1) as nat)
    }
}

/// The number of ordered tuples of `k` values, each between one and six,
/// whose entries add up to `sum`: the ways to roll `sum` with `k` fair
/// six-sided dice.
pub open spec fn spec_ways(sum: int, k: nat) -> int
    decreases k,
{
    if k == 0 {
        if sum == 0 {
            1
        } else {
            0
        }
    } else {
        spec_ways(sum - 1, (k - 1) as nat) + spec_ways(sum - 2, (k - 1) as nat) + spec_ways(
            sum - 3,
            (k - 1) as nat,
        ) + spec_ways(sum - 4, (k - 1) as nat) + spec_ways(sum - 5, (k - 1) as nat) + spec_ways(
            sum - 6,
            (k - 1) as nat,
        )
    }
}

proof fn lemma_pow6_pos(e: nat)
    ensures
        pow6(e) >= 1,
    decreases e,
{
    if e > 0 {
        lemma_pow6_pos((e - 1) as nat);
    }
}

proof fn lemma_pow6_twelve()
    ensures
        pow6(12) == 2176782336,
{
    reveal_with_fuel(pow6, 13);
}

proof fn lemma_pow6_mono(a: nat, b: nat)
    requires
        a <= b,
    ensures
        pow6(a) <= pow6(b),
    decreases b,
{
    lemma_pow6_pos(a);
    if a < b {
        lemma_pow6_mono(a, (b - 1) as nat);
        lemma_pow6_pos((b - 1) as nat);
    }
}

/// There are never more ways than rolls, and never a negative number.
proof fn lemma_ways_bounds(sum: int, k: nat)
    ensures
        0 <= spec_ways(sum, k) <= pow6(k),
    decreases k,
{
    if k > 0 {
        lemma_ways_bounds(sum - 1, (k - 1) as nat);
        lemma_ways_bounds(sum - 2, (k - 1) as nat);
        lemma_ways_bounds(sum - 3, (k - 1) as nat);
        lemma_ways_bounds(sum - 4, (k - 1) as nat);
        lemma_ways_bounds(sum - 5, (k - 1) as nat);
        lemma_ways_bounds(sum - 6, (k - 1) as nat);
    }
}

/// A sum below zero or beyond six per die is unreachable.
proof fn lemma_ways_zero(sum: int, k: nat)
    requires
        sum < 0 || sum > 6 * k,
    ensures
        spec_ways(sum, k) == 0,
    decreases k,
{
    if k > 0 {
        lemma_ways_zero(sum - 1, (k - 1) as nat);
        lemma_ways_zero(sum - 2, (k - 1) as nat);
        lemma_ways_zero(sum - 3, (k - 1) as nat);
        lemma_ways_zero(sum - 4, (k - 1) as nat);
        lemma_ways_zero(sum - 5, (k - 1) as nat);
        lemma_ways_zero(sum - 6, (k - 1) as nat);
    }
}

fn pow6_exec(e: u32) -> (r: u32)
    requires
        e <= 12,
    ensures
        r == pow6(e as nat),
{
    proof {
        lemma_pow6_twelve();
    }
    let mut r: u32 = 1;
    let mut k: u32 = 0;
    while k < e
        invariant
            k <= e <= 12,
            r == pow6(k as nat),
        decreases e - k,
    {
        proof {
            lemma_pow6_mono(k as nat + 1, 12);
            lemma_pow6_twelve();
        }
        r = r * 6;
        k = k + 1;
    }
    r
}

/// Counts the ordered rolls of `dice_amount` six-sided dice that total
/// `sum`, and the number of all ordered rolls: the numerator and
/// denominator of the dice-sum probability. An unreachable sum counts
/// zero ways.
pub fn rolldice_sum_count(sum: i32, dice_amount: i32) -> (r: (u32, u32))
    requires
        1 <= dice_amount <= 12,
    ensures
        r.0 == spec_ways(sum as int, dice_amount as nat),
        r.1 == pow6(dice_amount as nat),
{
    let dice = dice_amount as u32;
    let all_comb = pow6_exec(dice);
    let ghost d = dice_amount as nat;
    let limit: usize = 6 * (dice as usize);

    // the ways to reach each total, refined one die at a time
    let mut ways: Vec<u32> = Vec::new();
    ways.push(1);
    let mut s: usize = 1;
    while s <= limit
        invariant
            1 <= s <= limit + 1,
            limit == 6 * d,
            1 <= d <= 12,
            ways@.len() == s,
            forall|t: int| 0 <= t < s ==> #[trigger] ways@[t] == spec_ways(t, 0),
        decreases limit + 1 - s,
    {
        ways.push(0);
        s = s + 1;
    }

    let mut round: u32 = 1;
    while round <= dice
        invariant
            1 <= round <= dice + 1,
            dice == d,
            1 <= d <= 12,
            limit == 6 * d,
            ways@.len() == limit + 1,
            forall|t: int|
                0 <= t <= limit ==> #[trigger] ways@[t] == spec_ways(t, (round - 1) as nat),
        decreases dice + 1 - round,
    {
        let mut next: Vec<u32> = Vec::new();
        let mut t: usize = 0;
        while t <= limit
            invariant
                t <= limit + 1,
                1 <= round <= dice,
                dice == d,
                1 <= d <= 12,
                limit == 6 * d,
                ways@.len() == limit + 1,
                forall|u: int|
                    0 <= u <= limit ==> #[trigger] ways@[u] == spec_ways(u, (round - 1) as nat),
                next@.len() == t,
                forall|u: int| 0 <= u < t ==> #[trigger] next@[u] == spec_ways(u, round as nat),
            decreases limit + 1 - t,
        {
            proof {
                lemma_pow6_mono((round - 1) as nat, 11);
                lemma_pow6_mono(round as nat, 12);
                lemma_pow6_twelve();
                lemma_ways_bounds(t as int, round as nat);
                lemma_ways_bounds(t - 1, (round - 1) as nat);
                lemma_ways_bounds(t - 2, (round - 1) as nat);
                lemma_ways_bounds(t - 3, (round - 1) as nat);
                lemma_ways_bounds(t - 4, (round - 1) as nat);
                lemma_ways_bounds(t - 5, (round - 1) as nat);
                lemma_ways_bounds(t - 6, (round - 1) as nat);
                if t < 1 {
                    lemma_ways_zero(t - 1, (round - 1) as nat);
                }
                if t < 2 {
                    lemma_ways_zero(t - 2, (round - 1) as nat);
                }
                if t < 3 {
                    lemma_ways_zero(t - 3, (round - 1) as nat);
                }
                if t < 4 {
                    lemma_ways_zero(t - 4, (round - 1) as nat);
                }
                if t < 5 {
                    lemma_ways_zero(t - 5, (round - 1) as nat);
                }
                if t < 6 {
                    lemma_ways_zero(t - 6, (round - 1) as nat);
                }
                assert(pow6((round - 1) as nat) * 6 == pow6(round as nat));
            }
            let mut acc: u32 = 0;
            if t >= 1 {
                acc = acc + ways[t - 1];
            }
            if t >= 2 {
                acc = acc + ways[t - 2];
            }
            if t >= 3 {
                acc = acc + ways[t - 3];
            }
            if t >= 4 {
                acc = acc + ways[t - 4];
            }
            if t >= 5 {
                acc = acc + ways[t - 5];
            }
            if t >= 6 {
                acc = acc + ways[t - 6];
            }
            proof {
                assert(acc == spec_ways(t as int, round as nat));
            }
            next.push(acc);
            t = t + 1;
        }
        ways = next;
        round = round + 1;
    }

    if sum < 0 || sum > (limit as i32) {
        proof {
            lemma_ways_zero(sum as int, d);
        }
        return (0, all_comb);
    }
    let times = ways[sum as usize];
    (times, all_comb)
}

} // verus!
