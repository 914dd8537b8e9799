//! Ordering the words of a sentence by the digit hidden in each word.
use vstd::prelude::*;

verus! {

use crate::text::{chars_to_string, is_digit_char, is_digit_exec, join_with, spec_join,
    spec_split, split_on_char, str_to_chars};

/// A word that holds a digit somewhere.
pub open spec fn has_digit(w: Seq<char>) -> bool {
    exists|i: int| 0 <= i < w.len() && is_digit_char(#[trigger] w[i])
}

/// The first digit of the word.
pub open spec fn first_digit(w: Seq<char>) -> char
    decreases w.len(),
{
    if w.len() == 0 {
        '0'
    } else if is_digit_char(w[0]) {
        w[0]
    } else {
        first_digit(w.drop_first())
    }
}

/// The words keyed by digit `c`, in their order of appearance.
pub open spec fn filter_key(ws: Seq<Seq<char>>, c: char) -> Seq<Seq<char>>
    decreases ws.len(),
{
    if ws.len() == 0 {
        Seq::empty()
    } else {
        filter_key(ws.drop_last(), c) + (if first_digit(ws.last()) == c {
            seq![ws.last()]
        } else {
            Seq::empty()
        })
    }
}

/// Filtering by key distributes over gluing two lists together.
proof fn lemma_filter_key_concat(a: Seq<Seq<char>>, b: Seq<Seq<char>>, c: char)
    ensures
        filter_key(a + b, c) == filter_key(a, c) + filter_key(b, c),
    decreases b.len(),
{
    if b.len() == 0 {
        assert(a + b =~= a);
        assert(filter_key(a, c) + filter_key(b, c) =~= filter_key(a, c));
    } else {
        lemma_filter_key_concat(a, b.drop_last(), c);
        assert((a + b).drop_last() =~= a + b.drop_last());
        assert((a + b).last() == b.last());
        if first_digit(b.last()) == c {
            assert(filter_key(a, c) + (filter_key(b.drop_last(), c) + seq![b.last()]) =~= (
            filter_key(a, c) + filter_key(b.drop_last(), c)) + seq![b.last()]);
        } else {
            assert(filter_key(a, c) + (filter_key(b.drop_last(), c) + Seq::<Seq<char>>::empty())
                =~= (filter_key(a, c) + filter_key(b.drop_last(), c))
                + Seq::<Seq<char>>::empty());
        }
    }
}

/// A list without the key filters to nothing.
proof fn lemma_filter_key_none(s: Seq<Seq<char>>, c: char)
    requires
        forall|i: int| 0 <= i < s.len() ==> first_digit(#[trigger] s[i]) != c,
    ensures
        filter_key(s, c) == Seq::<Seq<char>>::empty(),
    decreases s.len(),
{
    if s.len() > 0 {
        let d = s.drop_last();
        assert(forall|i: int| 0 <= i < d.len() ==> #[trigger] d[i] == s[i]);
        lemma_filter_key_none(d, c);
        assert(filter_key(s, c) =~= Seq::<Seq<char>>::empty());
    }
}

/// Words ordered by their first digits.
pub open spec fn sorted_by_digit(ws: Seq<Seq<char>>) -> bool {
    forall|i: int, j: int|
        0 <= i <= j < ws.len() ==> first_digit(#[trigger] ws[i]) as int <= first_digit(
            #[trigger] ws[j],
        ) as int
}

fn first_digit_exec(w: &Vec<char>) -> (r: char)
    ensures
        r == first_digit(w@),
{
    let mut i: usize = 0;
    proof {
        assert(w@.skip(0) =~= w@);
    }
    while i < w.len()
        invariant
            i <= w@.len(),
            first_digit(w@) == first_digit(w@.skip(i as int)),
        decreases w@.len() - i,
    {
        let c = w[i];
        proof {
            assert(w@.skip(i as int)[0] == w@[i as int]);
            assert(w@.skip(i as int).drop_first() =~= w@.skip(i as int + 1));
        }
        if is_digit_exec(c) {
            proof {
                assert(first_digit(w@.skip(i as int)) == w@[i as int]);
            }
            return c;
        }
        i = i + 1;
    }
    proof {
        assert(w@.skip(w@.len() as int) =~= Seq::<char>::empty());
    }
    '0'
}

/// Sorts the words of the sentence by the first digit each one holds, and
/// joins them with single spaces again: the result is a rearrangement of
/// the sentence's words in digit order.
pub fn order(string: &str) -> (r: String)
    requires
        spec_split(string@, ' ').len() <= 1 || forall|j: int|
            0 <= j < spec_split(string@, ' ').len() ==> has_digit(
                #[trigger] spec_split(string@, ' ')[j],
            ),
    ensures
        exists|q: Seq<Seq<char>>|
            {
                &&& q.to_multiset() == spec_split(string@, ' ').to_multiset()
                &&& #[trigger] sorted_by_digit(q)
                &&& forall|c: char| #[trigger] filter_key(q, c) == filter_key(
                    spec_split(string@, ' '),
                    c,
                )
                &&& r@ == spec_join(q, seq![' '])
            },
{
    broadcast use vstd::seq_lib::to_multiset_insert, vstd::seq_lib::to_multiset_build;

    let chars = str_to_chars(string);
    let s = split_on_char(&chars, ' ');
    let ghost parts = spec_split(string@, ' ');
    let mut out: Vec<Vec<char>> = Vec::new();
    let mut i: usize = 0;
    proof {
        assert(out.deep_view() =~= parts.take(0));
    }
    while i < s.len()
        invariant
            i <= s@.len(),
            s.deep_view() == parts,
            sorted_by_digit(out.deep_view()),
            out.deep_view().to_multiset() == parts.take(i as int).to_multiset(),
            forall|c: char| #[trigger] filter_key(out.deep_view(), c) == filter_key(
                parts.take(i as int),
                c,
            ),
            out@.len() == i,
        decreases s@.len() - i,
    {
        let w = &s[i];
        proof {
            assert(s.deep_view()[i as int] == s@[i as int]@);
        }
        let key = first_digit_exec(w);
        let ku = key as u32;
        let mut pos: usize = 0;
        while pos < out.len()
            invariant_except_break
                pos <= out@.len(),
                ku == key as u32,
                forall|k: int|
                    0 <= k < pos ==> first_digit(#[trigger] out.deep_view()[k]) as int
                        <= key as int,
            ensures
                pos <= out@.len(),
                forall|k: int|
                    0 <= k < pos ==> first_digit(#[trigger] out.deep_view()[k]) as int
                        <= key as int,
                pos as int == out@.len() || first_digit(out.deep_view()[pos as int]) as int
                    > key as int,
            decreases out@.len() - pos,
        {
            proof {
                assert(out.deep_view()[pos as int] == out@[pos as int]@);
            }
            let candidate = first_digit_exec(&out[pos]);
            if (candidate as u32) > ku {
                break;
            }
            pos = pos + 1;
        }
        let ghost oldd = out.deep_view();
        out.insert(pos, w.clone());
        proof {
            assert(out@[pos as int]@ == s@[i as int]@);
            assert(out.deep_view() =~~= oldd.insert(pos as int, s@[i as int]@));
            vstd::seq_lib::to_multiset_insert(oldd, pos as int, s@[i as int]@);
            assert(parts.take(i as int + 1) =~= parts.take(i as int).push(parts[i as int]));
            vstd::seq_lib::to_multiset_build(parts.take(i as int), parts[i as int]);
            assert(out.deep_view().to_multiset() =~= parts.take(i as int + 1).to_multiset());
            let newd = out.deep_view();
            assert(sorted_by_digit(newd)) by {
                assert forall|a: int, b: int| 0 <= a <= b < newd.len() implies first_digit(
                    #[trigger] newd[a],
                ) as int <= first_digit(#[trigger] newd[b]) as int by {
                    if b < pos {
                        assert(newd[a] == oldd[a] && newd[b] == oldd[b]);
                    } else if a < pos && b == pos {
                        assert(newd[a] == oldd[a]);
                    } else if a < pos && b > pos {
                        assert(newd[a] == oldd[a] && newd[b] == oldd[b - 1]);
                    } else if a == pos && b == pos {
                    } else if a == pos && b > pos {
                        assert(newd[b] == oldd[b - 1]);
                        assert(b - 1 >= pos);
                        assert(pos as int == oldd.len() || first_digit(oldd[pos as int]) as int
                            > key as int);
                        assert(first_digit(oldd[pos as int]) as int <= first_digit(
                            oldd[b - 1],
                        ) as int);
                    } else {
                        assert(newd[a] == oldd[a - 1] && newd[b] == oldd[b - 1]);
                    }
                }
            }
            // equal keys keep their order: the word lands after every
            // word with its key and before none of them
            let wv = s@[i as int]@;
            assert(first_digit(wv) == key);
            assert forall|c: char| #[trigger] filter_key(newd, c) == filter_key(
                parts.take(i as int + 1),
                c,
            ) by {
                let pre = oldd.take(pos as int);
                let suf = oldd.skip(pos as int);
                assert(newd =~= pre + seq![wv] + suf);
                assert(oldd =~= pre + suf);
                lemma_filter_key_concat(pre, seq![wv], c);
                lemma_filter_key_concat(pre + seq![wv], suf, c);
                lemma_filter_key_concat(pre, suf, c);
                assert(seq![wv].drop_last() =~= Seq::<Seq<char>>::empty());
                assert(seq![wv].last() == wv);
                assert(filter_key(Seq::<Seq<char>>::empty(), c) == Seq::<Seq<char>>::empty());
                assert(filter_key(seq![wv], c) == filter_key(Seq::<Seq<char>>::empty(), c) + (
                if first_digit(wv) == c {
                    seq![wv]
                } else {
                    Seq::<Seq<char>>::empty()
                }));
                assert(parts.take(i as int + 1).drop_last() =~= parts.take(i as int));
                assert(parts.take(i as int + 1).last() == wv);
                if c == key {
                    assert forall|k: int| 0 <= k < suf.len() implies first_digit(
                        #[trigger] suf[k],
                    ) != c by {
                        assert(suf[k] == oldd[pos + k]);
                        assert(first_digit(oldd[pos as int]) as int > key as int);
                        assert(first_digit(oldd[pos + k]) as int >= first_digit(
                            oldd[pos as int],
                        ) as int);
                    }
                    lemma_filter_key_none(suf, c);
                    assert(filter_key(seq![wv], c) =~= seq![wv]);
                    assert(filter_key(oldd, c) =~= filter_key(pre, c));
                    assert(filter_key(newd, c) =~= filter_key(pre, c) + seq![wv]);
                    assert(filter_key(newd, c) =~= filter_key(parts.take(i as int), c) + seq![
                        wv,
                    ]);
                    assert(filter_key(parts.take(i as int + 1), c) =~= filter_key(
                        parts.take(i as int),
                        c,
                    ) + seq![wv]);
                } else {
                    assert(filter_key(seq![wv], c) =~= Seq::<Seq<char>>::empty());
                    assert(filter_key(newd, c) =~= filter_key(pre, c) + filter_key(suf, c));
                    assert(filter_key(newd, c) =~= filter_key(oldd, c));
                    assert(filter_key(parts.take(i as int + 1), c) =~= filter_key(
                        parts.take(i as int),
                        c,
                    ));
                }
            }
        }
        i = i + 1;
    }
    proof {
        assert(parts.take(parts.len() as int) =~= parts);
    }
    let mut sep: Vec<char> = Vec::new();
    sep.push(' ');
    let joined = join_with(&out, &sep);
    proof {
        assert(sep@ =~= seq![' ']);
        let q = out.deep_view();
        assert(q.to_multiset() == parts.to_multiset() && sorted_by_digit(q) && joined@
            == spec_join(q, seq![' ']));
        assert(forall|c: char| #[trigger] filter_key(q, c) == filter_key(parts, c));
    }
    chars_to_string(&joined)
}

} // verus!
