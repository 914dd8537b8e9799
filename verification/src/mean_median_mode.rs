//! The mean, median and mode of a list: the median is taken over the
//! distinct values, as the middle of the sorted, deduplicated list.
use vstd::prelude::*;

verus! {

/// The sum of the entries.
pub open spec fn spec_sum(s: Seq<usize>) -> int
    decreases s.len(),
{
    if s.len() == 0 {
        0
    } else {
        spec_sum(s.drop_last()) + s.last()
    }
}

/// Non-decreasing order.
pub open spec fn sorted(s: Seq<usize>) -> bool {
    forall|i: int, j: int| 0 <= i <= j < s.len() ==> s[i] <= s[j]
}

/// Strictly increasing order.
pub open spec fn strictly_sorted(s: Seq<usize>) -> bool {
    forall|i: int, j: int| 0 <= i < j < s.len() ==> s[i] < s[j]
}

/// How often `x` occurs in `s`.
pub open spec fn count_occ(s: Seq<usize>, x: usize) -> int
    decreases s.len(),
{
    if s.len() == 0 {
        0
    } else {
        count_occ(s.drop_last(), x) + if s.last() == x {
            1int
        } else {
            0int
        }
    }
}

/// Partial sums never pass the total.
proof fn lemma_sum_prefix(s: Seq<usize>, k: int)
    requires
        0 <= k <= s.len(),
    ensures
        0 <= spec_sum(s.take(k)) <= spec_sum(s),
    decreases s.len() - k,
{
    if k == s.len() {
        assert(s.take(k) =~= s);
        lemma_sum_nonneg(s);
    } else {
        lemma_sum_prefix(s, k + 1);
        assert(s.take(k + 1).drop_last() =~= s.take(k));
        lemma_sum_nonneg(s.take(k));
    }
}

proof fn lemma_sum_nonneg(s: Seq<usize>)
    ensures
        spec_sum(s) >= 0,
    decreases s.len(),
{
    if s.len() > 0 {
        lemma_sum_nonneg(s.drop_last());
    }
}

/// The mean: the sum divided by the length, rounding down.
pub fn mean(list: &[usize]) -> (r: usize)
    requires
        list@.len() >= 1,
        spec_sum(list@) <= usize::MAX,
    ensures
        r == spec_sum(list@) / list@.len() as int,
{
    let mut sum: usize = 0;
    let mut i: usize = 0;
    proof {
        assert(list@.take(0) =~= Seq::<usize>::empty());
    }
    while i < list.len()
        invariant
            i <= list@.len(),
            sum == spec_sum(list@.take(i as int)),
            spec_sum(list@) <= usize::MAX,
        decreases list@.len() - i,
    {
        proof {
            assert(list@.take(i as int + 1).drop_last() =~= list@.take(i as int));
            assert(list@.take(i as int + 1).last() == list@[i as int]);
            lemma_sum_prefix(list@, i as int + 1);
            lemma_sum_nonneg(list@.take(i as int));
        }
        sum = sum + list[i];
        i = i + 1;
    }
    proof {
        assert(list@.take(list@.len() as int) =~= list@);
    }
    sum / list.len()
}

/// Sorts by inserting each entry before the first larger one, keeping the
/// collection of entries intact.
fn sort_usizes(list: &[usize]) -> (out: Vec<usize>)
    ensures
        sorted(out@),
        out@.to_multiset() == list@.to_multiset(),
        out@.len() == list@.len(),
{
    broadcast use vstd::seq_lib::to_multiset_build, vstd::seq_lib::to_multiset_insert;

    let mut out: Vec<usize> = Vec::new();
    let mut i: usize = 0;
    proof {
        assert(list@.take(0) =~= Seq::<usize>::empty());
        assert(Seq::<usize>::empty().to_multiset() =~= out@.to_multiset());
    }
    while i < list.len()
        invariant
            i <= list@.len(),
            sorted(out@),
            out@.len() == i,
            out@.to_multiset() == list@.take(i as int).to_multiset(),
        decreases list@.len() - i,
    {
        let x = list[i];
        let mut pos: usize = 0;
        while pos < out.len() && out[pos as usize] <= x
            invariant
                pos <= out@.len(),
                forall|k: int| 0 <= k < pos ==> out@[k] <= x,
            decreases out@.len() - pos,
        {
            pos = pos + 1;
        }
        let ghost oldout = out@;
        out.insert(pos, x);
        proof {
            assert(out@ == oldout.insert(pos as int, x));
            assert(sorted(out@)) by {
                assert forall|a: int, b: int| 0 <= a <= b < out@.len() implies out@[a]
                    <= out@[b] by {
                    if b < pos {
                        assert(out@[a] == oldout[a] && out@[b] == oldout[b]);
                    } else if a < pos && b == pos {
                        assert(out@[a] == oldout[a] && out@[b] == x);
                    } else if a < pos && b > pos {
                        assert(out@[a] == oldout[a] && out@[b] == oldout[b - 1]);
                    } else if a == pos && b == pos {
                    } else if a == pos && b > pos {
                        assert(out@[b] == oldout[b - 1]);
                        assert(b - 1 >= pos);
                        assert(oldout[pos as int] > x || pos as int == oldout.len());
                        assert(oldout[pos as int] <= oldout[b - 1]);
                    } else {
                        assert(out@[a] == oldout[a - 1] && out@[b] == oldout[b - 1]);
                    }
                }
            }
            vstd::seq_lib::to_multiset_insert(oldout, pos as int, x);
            assert(list@.take(i as int + 1).drop_last() =~= list@.take(i as int));
            assert(list@.take(i as int + 1) =~= list@.take(i as int).push(x));
            vstd::seq_lib::to_multiset_build(list@.take(i as int), x);
            assert(out@.to_multiset() =~= list@.take(i as int + 1).to_multiset());
        }
        i = i + 1;
    }
    proof {
        assert(list@.take(list@.len() as int) =~= list@);
    }
    out
}

/// Keeps the first of each run of equal entries in a sorted list, leaving
/// a strictly increasing list over the same values.
fn dedup_sorted(v: &Vec<usize>) -> (u: Vec<usize>)
    requires
        sorted(v@),
    ensures
        strictly_sorted(u@),
        u@.to_set() == v@.to_set(),
        v@.len() > 0 ==> u@.len() > 0,
{
    broadcast use Seq::<usize>::lemma_push_to_set_commute;

    let mut u: Vec<usize> = Vec::new();
    let mut i: usize = 0;
    proof {
        assert(v@.take(0) =~= Seq::<usize>::empty());
        assert(u@.to_set() =~= v@.take(0).to_set());
    }
    while i < v.len()
        invariant
            i <= v@.len(),
            sorted(v@),
            strictly_sorted(u@),
            u@.to_set() == v@.take(i as int).to_set(),
            i > 0 ==> u@.len() > 0 && u@.last() == v@[i as int - 1],
            i == 0 ==> u@.len() == 0,
        decreases v@.len() - i,
    {
        let x = v[i];
        proof {
            assert(v@.take(i as int + 1) =~= v@.take(i as int).push(x));
            v@.take(i as int).lemma_push_to_set_commute(x);
        }
        if u.len() == 0 {
            let ghost oldu = u@;
            u.push(x);
            proof {
                assert(u@ =~= oldu.push(x));
                oldu.lemma_push_to_set_commute(x);
                assert(u@.to_set() =~= v@.take(i as int).to_set().insert(x));
            }
        } else {
            let last = u[u.len() - 1];
            if last != x {
                proof {
                    assert(last == v@[i as int - 1]);
                    assert(v@[i as int - 1] <= v@[i as int]);
                    assert(last < x);
                    assert(forall|k: int|
                        0 <= k < u@.len() - 1 ==> #[trigger] u@[k] < u@[u@.len() - 1]);
                }
                let ghost oldu = u@;
                u.push(x);
                proof {
                    assert(u@ =~= oldu.push(x));
                    oldu.lemma_push_to_set_commute(x);
                    assert(u@.to_set() =~= v@.take(i as int).to_set().insert(x));
                }
            } else {
                proof {
                    assert(v@.take(i as int).to_set().contains(x)) by {
                        assert(u@.to_set().contains(u@.last()));
                    }
                    assert(v@.take(i as int).to_set().insert(x) =~= v@.take(i as int).to_set());
                }
            }
        }
        i = i + 1;
    }
    proof {
        assert(v@.take(v@.len() as int) =~= v@);
    }
    u
}

/// The distinct values of `s` lying strictly below `r`.
pub open spec fn values_below(s: Set<usize>, r: usize) -> Set<usize> {
    Set::new(|x: usize| s.contains(x) && x < r)
}

/// A strictly increasing list enumerates as many values as it has entries.
proof fn lemma_strict_sorted_set_len(u: Seq<usize>)
    requires
        strictly_sorted(u),
    ensures
        u.to_set().finite(),
        u.to_set().len() == u.len(),
    decreases u.len(),
{
    if u.len() == 0 {
        assert(u.to_set() =~= Set::<usize>::empty());
    } else {
        let d = u.drop_last();
        assert(forall|i: int| 0 <= i < d.len() ==> #[trigger] d[i] == u[i]);
        assert(strictly_sorted(d));
        lemma_strict_sorted_set_len(d);
        assert(u =~= d.push(u.last()));
        d.lemma_push_to_set_commute(u.last());
        assert(!d.to_set().contains(u.last())) by {
            if d.contains(u.last()) {
                let k = choose|k: int| 0 <= k < d.len() && d[k] == u.last();
                assert(u[k] < u[u.len() - 1]);
            }
        }
        assert(u.to_set() == d.to_set().insert(u.last()));
    }
}

/// Equal multisets hold the same values.
proof fn lemma_multiset_same_set(a: Seq<usize>, b: Seq<usize>)
    requires
        a.to_multiset() == b.to_multiset(),
    ensures
        a.to_set() == b.to_set(),
{
    broadcast use vstd::seq_lib::to_multiset_contains;

    assert(a.to_set() =~= b.to_set()) by {
        assert forall|x: usize| a.to_set().contains(x) implies b.to_set().contains(x) by {
            assert(a.contains(x));
            assert(a.to_multiset().count(x) > 0);
            assert(b.contains(x));
        }
        assert forall|x: usize| b.to_set().contains(x) implies a.to_set().contains(x) by {
            assert(b.contains(x));
            assert(b.to_multiset().count(x) > 0);
            assert(a.contains(x));
        }
    }
}

/// The median over the distinct values: the value from the list with
/// exactly half of the distinct values strictly below it - the middle of
/// the sorted, deduplicated list, the upper of the two middles when their
/// count is even.
pub fn median(list: &[usize]) -> (r: usize)
    requires
        list@.len() >= 1,
    ensures
        list@.to_set().contains(r),
        values_below(list@.to_set(), r).len() == list@.to_set().len() / 2,
{
    let sorted_list = sort_usizes(list);
    proof {
        lemma_multiset_same_set(sorted_list@, list@);
    }
    let uniq = dedup_sorted(&sorted_list);
    let m = uniq.len() / 2;
    let r = uniq[m];
    proof {
        let u = uniq@;
        let ss = list@.to_set();
        lemma_strict_sorted_set_len(u);
        assert(ss.contains(r)) by {
            assert(u.contains(u[m as int]));
        }
        // the values below the middle entry are exactly the first half of
        // the deduplicated list
        let half = u.take(m as int);
        assert(forall|i: int| 0 <= i < half.len() ==> #[trigger] half[i] == u[i]);
        assert(strictly_sorted(half));
        lemma_strict_sorted_set_len(half);
        assert(values_below(ss, r) =~= half.to_set()) by {
            assert forall|x: usize| values_below(ss, r).contains(x) implies half.to_set().contains(
                x,
            ) by {
                assert(u.contains(x));
                let k = choose|k: int| 0 <= k < u.len() && u[k] == x;
                assert(k < m) by {
                    if k >= m && k > m {
                        assert(u[m as int] < u[k]);
                    }
                }
                assert(half[k] == x);
            }
            assert forall|x: usize| half.to_set().contains(x) implies values_below(
                ss,
                r,
            ).contains(x) by {
                let k = choose|k: int| 0 <= k < half.len() && half[k] == x;
                assert(u[k] == x);
                assert(u[k] < u[m as int]);
                assert(u.contains(x));
            }
        }
    }
    r
}

fn count_exec(list: &[usize], x: usize) -> (c: usize)
    ensures
        c == count_occ(list@, x),
{
    let mut c: usize = 0;
    let mut i: usize = 0;
    proof {
        assert(list@.take(0) =~= Seq::<usize>::empty());
    }
    while i < list.len()
        invariant
            i <= list@.len(),
            c == count_occ(list@.take(i as int), x),
            0 <= c <= i,
        decreases list@.len() - i,
    {
        proof {
            assert(list@.take(i as int + 1).drop_last() =~= list@.take(i as int));
            assert(list@.take(i as int + 1).last() == list@[i as int]);
        }
        if list[i] == x {
            c = c + 1;
        }
        i = i + 1;
    }
    proof {
        assert(list@.take(list@.len() as int) =~= list@);
    }
    c
}

/// The mode: a value occurring at least as often as every other; an empty
/// list reports zero.
pub fn mode(list: &[usize]) -> (r: usize)
    ensures
        list@.len() == 0 ==> r == 0,
        list@.len() > 0 ==> list@.contains(r) && forall|x: usize|
            list@.contains(x) ==> count_occ(list@, x) <= count_occ(list@, r),
{
    let mut best: usize = 0;
    let mut best_count: usize = 0;
    let mut i: usize = 0;
    while i < list.len()
        invariant
            i <= list@.len(),
            i > 0 ==> {
                &&& list@.contains(best)
                &&& best_count == count_occ(list@, best)
                &&& best_count >= 1
                &&& forall|j: int|
                    0 <= j < i ==> count_occ(list@, #[trigger] list@[j]) <= best_count
            },
            i == 0 ==> best == 0 && best_count == 0,
        decreases list@.len() - i,
    {
        let x = list[i];
        let c = count_exec(list, x);
        proof {
            lemma_count_occ_pos(list@, i as int);
        }
        if c > best_count {
            best = x;
            best_count = c;
        }
        i = i + 1;
    }
    proof {
        if list@.len() > 0 {
            assert forall|x: usize| list@.contains(x) implies count_occ(list@, x) <= count_occ(
                list@,
                best,
            ) by {
                let j = choose|j: int| 0 <= j < list@.len() && list@[j] == x;
                assert(count_occ(list@, list@[j]) <= best_count);
            }
        }
    }
    best
}

/// An entry of the list occurs at least once.
proof fn lemma_count_occ_pos(s: Seq<usize>, i: int)
    requires
        0 <= i < s.len(),
    ensures
        count_occ(s, s[i]) >= 1,
        count_occ(s, s[i]) <= s.len(),
    decreases s.len(),
{
    lemma_count_occ_le(s, s[i]);
    if i == s.len() - 1 {
        lemma_count_occ_nonneg(s.drop_last(), s[i]);
    } else {
        lemma_count_occ_pos(s.drop_last(), i);
    }
}

proof fn lemma_count_occ_nonneg(s: Seq<usize>, x: usize)
    ensures
        count_occ(s, x) >= 0,
    decreases s.len(),
{
    if s.len() > 0 {
        lemma_count_occ_nonneg(s.drop_last(), x);
    }
}

proof fn lemma_count_occ_le(s: Seq<usize>, x: usize)
    ensures
        count_occ(s, x) <= s.len(),
    decreases s.len(),
{
    if s.len() > 0 {
        lemma_count_occ_le(s.drop_last(), x);
        lemma_count_occ_nonneg(s.drop_last(), x);
    }
}

} // verus!
