//! Hunting for numbers hidden in text that equal the sum of the cubes of
//! their digits, scanning digit runs three digits at a time.
use vstd::prelude::*;

verus! {

use crate::text::{all_digits, chars_to_string, digit_val, is_digit_char, spec_digits_of,
    spec_digits_val, str_to_chars, u64_digits, append_chars, parse_u64_digits};

/// The length of the digit run starting at the front of `s`.
pub open spec fn digit_prefix_len(s: Seq<char>) -> nat
    decreases s.len(),
{
    if s.len() == 0 || !is_digit_char(s[0]) {
        0
    } else {
        1 + digit_prefix_len(s.drop_first())
    }
}

/// The digit run at the front never outruns the text.
proof fn lemma_digit_prefix_le_len(s: Seq<char>)
    ensures
        digit_prefix_len(s) <= s.len(),
    decreases s.len(),
{
    if s.len() > 0 && is_digit_char(s[0]) {
        lemma_digit_prefix_le_len(s.drop_first());
    }
}

/// The digit runs of `s`, cut greedily into chunks of at most three digits
/// from the left: what the pattern of one to three digits matches, scanning
/// for successive leftmost matches.
pub open spec fn spec_digit_chunks(s: Seq<char>) -> Seq<Seq<char>>
    decreases s.len()
        via spec_digit_chunks_decreases
{
    if s.len() == 0 {
        Seq::empty()
    } else if !is_digit_char(s[0]) {
        spec_digit_chunks(s.drop_first())
    } else {
        let r = if digit_prefix_len(s) >= 3 {
            3
        } else {
            digit_prefix_len(s) as int
        };
        seq![s.take(r)] + spec_digit_chunks(s.skip(r))
    }
}

#[via_fn]
proof fn spec_digit_chunks_decreases(s: Seq<char>) {
    if s.len() > 0 && is_digit_char(s[0]) {
        lemma_digit_prefix_le_len(s);
        assert(digit_prefix_len(s) >= 1);
    }
}

/// The sum of the cubes of the digits of `s`.
pub open spec fn spec_cube_sum(s: Seq<char>) -> int
    decreases s.len(),
{
    if s.len() == 0 {
        0
    } else {
        spec_cube_sum(s.drop_last()) + digit_val(s.last()) * digit_val(s.last()) * digit_val(
            s.last(),
        )
    }
}

/// A chunk is lucky when its value equals the sum of the cubes of its
/// digits.
pub open spec fn is_lucky(chunk: Seq<char>) -> bool {
    spec_digits_val(chunk) == spec_cube_sum(chunk)
}

/// What a lucky chunk adds to the report: its cube sum, then a space.
pub open spec fn spec_lucky_part(chunk: Seq<char>) -> Seq<char> {
    if is_lucky(chunk) {
        spec_digits_of(spec_cube_sum(chunk) as nat) + seq![' ']
    } else {
        Seq::empty()
    }
}

/// The cube sums of the lucky chunks, each rendered with a trailing space.
pub open spec fn spec_lucky_text(chunks: Seq<Seq<char>>) -> Seq<char>
    decreases chunks.len(),
{
    if chunks.len() == 0 {
        Seq::empty()
    } else {
        spec_lucky_text(chunks.drop_last()) + spec_lucky_part(chunks.last())
    }
}

/// The total of the cube sums of the lucky chunks.
pub open spec fn spec_lucky_total(chunks: Seq<Seq<char>>) -> int
    decreases chunks.len(),
{
    if chunks.len() == 0 {
        0
    } else {
        spec_lucky_total(chunks.drop_last()) + if is_lucky(chunks.last()) {
            spec_cube_sum(chunks.last())
        } else {
            0
        }
    }
}

/// Whether any chunk is lucky.
pub open spec fn spec_any_lucky(chunks: Seq<Seq<char>>) -> bool
    decreases chunks.len(),
{
    if chunks.len() == 0 {
        false
    } else {
        spec_any_lucky(chunks.drop_last()) || is_lucky(chunks.last())
    }
}

/// Relies on regex::Regex::captures_iter with the pattern `(\d){1,3}`: it
/// yields the successive leftmost non-overlapping matches, each a greedy
/// run of at most three digits, so on an ASCII haystack the maximal digit
/// runs are cut into chunks of three from the left.
#[verifier::external_body]
fn digit_runs(s: &str) -> (runs: Vec<String>)
    requires
        forall|i: int| 0 <= i < s@.len() ==> (s@[i] as int) < 128,
    ensures
        runs.deep_view() == spec_digit_chunks(s@),
{
    let re = regex::Regex::new(r"(\d){1,3}").unwrap();
    re.captures_iter(s).map(|c| c[0].to_string()).collect()
}

/// The first `digit_prefix_len` characters are digits.
proof fn lemma_digit_prefix(s: Seq<char>)
    ensures
        forall|j: int| 0 <= j < digit_prefix_len(s) ==> is_digit_char(#[trigger] s[j]),
    decreases s.len(),
{
    if s.len() > 0 && is_digit_char(s[0]) {
        let d = s.drop_first();
        lemma_digit_prefix_le_len(s);
        lemma_digit_prefix(d);
        assert forall|j: int| 0 <= j < digit_prefix_len(s) implies is_digit_char(
            #[trigger] s[j],
        ) by {
            if j >= 1 {
                assert(s[j] == d[j - 1]);
                assert(is_digit_char(d[j - 1]));
            }
        }
    }
}

/// Every chunk holds one to three digit characters.
proof fn lemma_chunks_wf(s: Seq<char>)
    ensures
        forall|i: int|
            0 <= i < spec_digit_chunks(s).len() ==> {
                let c = #[trigger] spec_digit_chunks(s)[i];
                1 <= c.len() <= 3 && all_digits(c)
            },
    decreases s.len(),
{
    if s.len() == 0 {
    } else if !is_digit_char(s[0]) {
        lemma_chunks_wf(s.drop_first());
        assert(spec_digit_chunks(s) == spec_digit_chunks(s.drop_first()));
        assert forall|i: int|
            0 <= i < spec_digit_chunks(s).len() implies {
                let c = #[trigger] spec_digit_chunks(s)[i];
                1 <= c.len() <= 3 && all_digits(c)
            } by {
            let c2 = spec_digit_chunks(s.drop_first())[i];
            assert(1 <= c2.len() <= 3 && all_digits(c2));
        }
    } else {
        lemma_digit_prefix_le_len(s);
        assert(digit_prefix_len(s) >= 1);
        let r = if digit_prefix_len(s) >= 3 {
            3
        } else {
            digit_prefix_len(s) as int
        };
        lemma_digit_prefix(s);
        assert forall|j: int| 0 <= j < s.take(r).len() implies is_digit_char(
            #[trigger] s.take(r)[j],
        ) by {
            assert(s.take(r)[j] == s[j]);
        }
        lemma_chunks_wf(s.skip(r));
        assert(spec_digit_chunks(s) == seq![s.take(r)] + spec_digit_chunks(s.skip(r)));
        assert(spec_digit_chunks(s)[0] == s.take(r));
        assert(all_digits(s.take(r)));
        assert(1 <= s.take(r).len() <= 3);
        assert forall|i: int|
            0 <= i < spec_digit_chunks(s).len() implies {
                let c = #[trigger] spec_digit_chunks(s)[i];
                1 <= c.len() <= 3 && all_digits(c)
            } by {
            if i >= 1 {
                assert(spec_digit_chunks(s)[i] == spec_digit_chunks(s.skip(r))[i - 1]);
                let c2 = spec_digit_chunks(s.skip(r))[i - 1];
                assert(1 <= c2.len() <= 3 && all_digits(c2));
            }
        }
    }
}

/// Bounds for the value and the digit cube sum of a short digit string.
proof fn lemma_chunk_bounds(s: Seq<char>)
    requires
        all_digits(s),
    ensures
        0 <= spec_digits_val(s),
        s.len() <= 3 ==> spec_digits_val(s) <= 999,
        s.len() <= 2 ==> spec_digits_val(s) <= 99,
        s.len() <= 1 ==> spec_digits_val(s) <= 9,
        0 <= spec_cube_sum(s) <= 729 * s.len(),
    decreases s.len(),
{
    if s.len() > 0 {
        assert(all_digits(s.drop_last()));
        lemma_chunk_bounds(s.drop_last());
        let dv = digit_val(s.last());
        assert(0 <= dv * dv * dv <= 729) by (nonlinear_arith)
            requires
                0 <= dv <= 9,
        ;
    }
}

/// The report text is empty exactly when no chunk is lucky.
proof fn lemma_lucky_text_empty(chunks: Seq<Seq<char>>)
    ensures
        spec_lucky_text(chunks).len() == 0 <==> !spec_any_lucky(chunks),
    decreases chunks.len(),
{
    if chunks.len() > 0 {
        lemma_lucky_text_empty(chunks.drop_last());
    }
}

/// A prefix of the chunks never exceeds the full lucky total, and the
/// total of well-formed chunks is within the per-chunk bound.
proof fn lemma_lucky_total_prefix(chunks: Seq<Seq<char>>, k: int)
    requires
        0 <= k <= chunks.len(),
        forall|j: int|
            0 <= j < chunks.len() ==> all_digits(#[trigger] chunks[j]) && chunks[j].len() <= 3,
    ensures
        0 <= spec_lucky_total(chunks.take(k)),
        spec_lucky_total(chunks.take(k)) <= spec_lucky_total(chunks),
    decreases chunks.len() - k,
{
    if k < chunks.len() {
        lemma_lucky_total_prefix(chunks, k + 1);
        assert(chunks.take(k + 1).drop_last() =~= chunks.take(k));
        assert(chunks.take(k + 1).last() == chunks[k]);
        lemma_chunk_bounds(chunks[k]);
        let t = chunks.take(k);
        assert(forall|j: int| 0 <= j < t.len() ==> #[trigger] t[j] == chunks[j]);
        lemma_lucky_total_nonneg(t);
    } else {
        assert(chunks.take(k) =~= chunks);
        lemma_lucky_total_nonneg(chunks);
    }
}

proof fn lemma_lucky_total_nonneg(chunks: Seq<Seq<char>>)
    requires
        forall|j: int|
            0 <= j < chunks.len() ==> all_digits(#[trigger] chunks[j]) && chunks[j].len() <= 3,
    ensures
        spec_lucky_total(chunks) >= 0,
    decreases chunks.len(),
{
    if chunks.len() > 0 {
        let d = chunks.drop_last();
        assert(forall|j: int| 0 <= j < d.len() ==> #[trigger] d[j] == chunks[j]);
        lemma_lucky_total_nonneg(d);
        lemma_chunk_bounds(chunks.last());
    }
}

/// Scans the text for one-to-three digit chunks whose value equals the sum
/// of the cubes of their digits. With no such chunk the report is
/// `Unlucky`; otherwise it lists each lucky chunk's cube sum, then their
/// total, then `Lucky`, separated by spaces.
pub fn is_sum_of_cubes(s: &str) -> (r: String)
    requires
        forall|i: int| 0 <= i < s@.len() ==> (s@[i] as int) < 128,
        spec_lucky_total(spec_digit_chunks(s@)) <= u32::MAX,
    ensures
        ({
            let chunks = spec_digit_chunks(s@);
            if spec_any_lucky(chunks) {
                r@ == spec_lucky_text(chunks) + spec_digits_of(spec_lucky_total(chunks) as nat)
                    + seq![' ', 'L', 'u', 'c', 'k', 'y']
            } else {
                r@ == seq!['U', 'n', 'l', 'u', 'c', 'k', 'y']
            }
        }),
{
    let runs = digit_runs(s);
    let ghost chunks = spec_digit_chunks(s@);
    proof {
        lemma_chunks_wf(s@);
        assert(chunks.take(0) =~= Seq::<Seq<char>>::empty());
    }
    let mut add: u32 = 0;
    let mut sum: Vec<char> = Vec::new();
    let mut i: usize = 0;
    while i < runs.len()
        invariant
            i <= runs@.len(),
            runs.deep_view() == chunks,
            forall|j: int|
                0 <= j < chunks.len() ==> {
                    let c = #[trigger] chunks[j];
                    1 <= c.len() <= 3 && all_digits(c)
                },
            sum@ == spec_lucky_text(chunks.take(i as int)),
            add == spec_lucky_total(chunks.take(i as int)),
            spec_lucky_total(chunks) <= u32::MAX,
        decreases runs@.len() - i,
    {
        let run = &runs[i];
        let og = str_to_chars(run.as_str());
        proof {
            assert(runs.deep_view()[i as int] == runs@[i as int]@);
            assert(og@ == chunks[i as int]);
        }
        // the cube sum of the chunk's digits
        let mut result: u32 = 0;
        let mut j: usize = 0;
        while j < og.len()
            invariant
                j <= og@.len(),
                og@.len() <= 3,
                all_digits(og@),
                result == spec_cube_sum(og@.take(j as int)),
                0 <= result <= 729 * j,
            decreases og@.len() - j,
        {
            let c = og[j];
            proof {
                assert(is_digit_char(og@[j as int]));
                assert(og@.take(j as int + 1).drop_last() =~= og@.take(j as int));
                assert(og@.take(j as int + 1).last() == og@[j as int]);
            }
            let d = c as u32 - 48;
            proof {
                assert(0 <= (d as int) * (d as int) <= 81 && 0 <= (d as int) * (d as int) * (
                d as int) <= 729) by (nonlinear_arith)
                    requires
                        0 <= d <= 9,
                ;
            }
            result = result + d * d * d;
            j = j + 1;
        }
        proof {
            assert(og@.take(og@.len() as int) =~= og@);
            lemma_chunk_bounds(og@);
        }
        let parsed = parse_u64_digits(&og) as u32;
        proof {
            assert(chunks.take(i as int + 1).drop_last() =~= chunks.take(i as int));
            assert(chunks.take(i as int + 1).last() == chunks[i as int]);
            lemma_lucky_total_prefix(chunks, i as int + 1);
        }
        if parsed == result {
            add = add + result;
            let digits = u64_digits(result as u64);
            append_chars(&mut sum, &digits);
            sum.push(' ');
            proof {
                assert(sum@ =~= spec_lucky_text(chunks.take(i as int)) + spec_lucky_part(
                    chunks[i as int],
                ));
            }
        }
        i = i + 1;
    }
    proof {
        assert(chunks.take(chunks.len() as int) =~= chunks);
        lemma_lucky_text_empty(chunks);
    }
    if sum.len() == 0 {
        let mut out: Vec<char> = Vec::new();
        out.push('U');
        out.push('n');
        out.push('l');
        out.push('u');
        out.push('c');
        out.push('k');
        out.push('y');
        proof {
            assert(out@ =~= seq!['U', 'n', 'l', 'u', 'c', 'k', 'y']);
        }
        return chars_to_string(&out);
    }
    let total = u64_digits(add as u64);
    append_chars(&mut sum, &total);
    sum.push(' ');
    sum.push('L');
    sum.push('u');
    sum.push('c');
    sum.push('k');
    sum.push('y');
    proof {
        assert(sum@ =~= spec_lucky_text(chunks) + spec_digits_of(spec_lucky_total(chunks) as nat)
            + seq![' ', 'L', 'u', 'c', 'k', 'y']);
    }
    chars_to_string(&sum)
}

} // verus!
