//! A weighted sum: each entry counts as many times as its position, one
//! based.
use vstd::prelude::*;

verus! {

/// The sum of the entries, each multiplied by its one-based position.
pub open spec fn spec_weighted_sum(s: Seq<i64>) -> int
    decreases s.len(),
{
    if s.len() == 0 {
        0
    } else {
        spec_weighted_sum(s.drop_last()) + s.last() * s.len()
    }
}

/// Adds the entries, weighting each by its one-based position.
pub fn add(args: &[i64]) -> (r: i64)
    requires
        args@.len() < 0x7fffffffffffffff,
        forall|j: int|
            0 <= j <= args@.len() ==> i64::MIN <= spec_weighted_sum(#[trigger] args@.take(j))
                <= i64::MAX,
        forall|j: int|
            0 <= j < args@.len() ==> i64::MIN <= #[trigger] (args@[j] * (j + 1)) <= i64::MAX,
    ensures
        r == spec_weighted_sum(args@),
{
    let mut acc: i64 = 0;
    let mut i: usize = 0;
    proof {
        assert(args@.take(0) =~= Seq::<i64>::empty());
    }
    while i < args.len()
        invariant
            i <= args@.len(),
            args@.len() < 0x7fffffffffffffff,
            acc == spec_weighted_sum(args@.take(i as int)),
            forall|j: int|
                0 <= j <= args@.len() ==> i64::MIN <= spec_weighted_sum(#[trigger] args@.take(j))
                    <= i64::MAX,
            forall|j: int|
                0 <= j < args@.len() ==> i64::MIN <= #[trigger] (args@[j] * (j + 1)) <= i64::MAX,
        decreases args@.len() - i,
    {
        let e = args[i];
        proof {
            assert(args@.take(i as int + 1).drop_last() =~= args@.take(i as int));
            assert(args@.take(i as int + 1).last() == args@[i as int]);
            assert(args@.take(i as int + 1).len() == i + 1);
            assert(i64::MIN <= spec_weighted_sum(args@.take(i as int + 1)) <= i64::MAX);
            assert(i64::MIN <= args@[i as int] * (i + 1) <= i64::MAX);
        }
        acc = acc + e * ((i as i64) + 1);
        i = i + 1;
    }
    proof {
        assert(args@.take(args@.len() as int) =~= args@);
    }
    acc
}

} // verus!
