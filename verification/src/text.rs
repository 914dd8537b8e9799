//! Shared helpers for the string katas: conversions between strings and
//! character vectors, decimal rendering and parsing, splitting and joining.
use vstd::prelude::*;

verus! {

/// Whether `c` is a decimal digit.
pub open spec fn is_digit_char(c: char) -> bool {
    48 <= c as int <= 57
}

/// The numeric value of a decimal digit character.
pub open spec fn digit_val(c: char) -> int {
    c as int - 48
}

/// The decimal digit character for a value below ten.
pub open spec fn digit_char(d: int) -> char {
    if d == 0 {
        '0'
    } else if d == 1 {
        '1'
    } else if d == 2 {
        '2'
    } else if d == 3 {
        '3'
    } else if d == 4 {
        '4'
    } else if d == 5 {
        '5'
    } else if d == 6 {
        '6'
    } else if d == 7 {
        '7'
    } else if d == 8 {
        '8'
    } else {
        '9'
    }
}

/// The decimal representation of `n`, as written by Rust's formatter.
pub open spec fn spec_digits_of(n: nat) -> Seq<char>
    decreases n,
{
    if n < 10 {
        seq![digit_char(n as int)]
    } else {
        spec_digits_of(n / 10) + seq![digit_char((n % 10) as int)]
    }
}

/// Relies on String's FromIterator implementation: collecting an iterator of
/// characters yields the string of exactly those characters, in order.
#[verifier::external_body]
pub(crate) fn chars_to_string(v: &Vec<char>) -> (s: String)
    ensures
        s@ == v@,
{
    v.iter().collect()
}

/// The characters of a string slice, as a vector.
pub fn str_to_chars(s: &str) -> (v: Vec<char>)
    ensures
        v@ == s@,
{
    let n = s.unicode_len();
    let mut v: Vec<char> = Vec::new();
    let mut i: usize = 0;
    while i < n
        invariant
            i <= n,
            n == s@.len(),
            v@ == s@.take(i as int),
        decreases n - i,
    {
        v.push(s.get_char(i));
        proof {
            assert(v@ =~= s@.take(i + 1));
        }
        i = i + 1;
    }
    proof {
        assert(s@.take(n as int) =~= s@);
    }
    v
}

fn digit_char_exec(d: u64) -> (c: char)
    requires
        d < 10,
    ensures
        c == digit_char(d as int),
{
    if d == 0 {
        '0'
    } else if d == 1 {
        '1'
    } else if d == 2 {
        '2'
    } else if d == 3 {
        '3'
    } else if d == 4 {
        '4'
    } else if d == 5 {
        '5'
    } else if d == 6 {
        '6'
    } else if d == 7 {
        '7'
    } else if d == 8 {
        '8'
    } else {
        '9'
    }
}

fn push_digits(v: &mut Vec<char>, n: u64)
    ensures
        final(v)@ == old(v)@ + spec_digits_of(n as nat),
    decreases n,
{
    if n >= 10 {
        push_digits(v, n / 10);
    }
    let c = digit_char_exec(n % 10);
    v.push(c);
    proof {
        if n < 10 {
            assert(v@ =~= old(v)@ + spec_digits_of(n as nat));
        } else {
            assert(v@ =~= old(v)@ + spec_digits_of(n as nat));
        }
    }
}

/// The decimal digits of `n`, as a character vector.
pub fn u64_digits(n: u64) -> (v: Vec<char>)
    ensures
        v@ == spec_digits_of(n as nat),
{
    let mut v: Vec<char> = Vec::new();
    push_digits(&mut v, n);
    v
}

/// Renders `n` in decimal, the way Rust's formatter writes a `u64`.
pub fn u64_to_string(n: u64) -> (s: String)
    ensures
        s@ == spec_digits_of(n as nat),
{
    let mut v: Vec<char> = Vec::new();
    push_digits(&mut v, n);
    chars_to_string(&v)
}

/// The value of a sequence of decimal digits, most significant first.
pub open spec fn spec_digits_val(s: Seq<char>) -> int
    decreases s.len(),
{
    if s.len() == 0 {
        0
    } else {
        spec_digits_val(s.drop_last()) * 10 + digit_val(s.last())
    }
}

/// Tests whether a character is a decimal digit.
pub fn is_digit_exec(c: char) -> (r: bool)
    ensures
        r == is_digit_char(c),
{
    let u = c as u32;
    48 <= u && u <= 57
}

/// Whether every character of `s` is a decimal digit.
pub open spec fn all_digits(s: Seq<char>) -> bool {
    forall|i: int| 0 <= i < s.len() ==> is_digit_char(#[trigger] s[i])
}

/// Parses a non-empty, all-digit character vector as a decimal number,
/// the way `str::parse::<u64>` reads it.
pub fn parse_u64_digits(v: &Vec<char>) -> (n: u64)
    requires
        v@.len() > 0,
        all_digits(v@),
        spec_digits_val(v@) <= u64::MAX,
    ensures
        n == spec_digits_val(v@),
{
    let mut n: u64 = 0;
    let mut i: usize = 0;
    proof {
        lemma_digits_val_nonneg(v@);
    }
    while i < v.len()
        invariant
            i <= v@.len(),
            all_digits(v@),
            n == spec_digits_val(v@.take(i as int)),
            spec_digits_val(v@) <= u64::MAX,
        decreases v@.len() - i,
    {
        let c = v[i];
        proof {
            assert(is_digit_char(v@[i as int]));
            assert(v@.take(i as int + 1).drop_last() =~= v@.take(i as int));
            assert(v@.take(i as int + 1).last() == v@[i as int]);
            lemma_digits_val_prefix_le(v@, i as int + 1);
            lemma_digits_val_nonneg(v@.take(i as int));
        }
        n = n * 10 + (c as u64 - 48);
        i = i + 1;
    }
    proof {
        assert(v@.take(v@.len() as int) =~= v@);
    }
    n
}

/// The position of the first occurrence of `c` in `s`, or -1.
pub open spec fn first_index_of(s: Seq<char>, c: char) -> int
    decreases s.len(),
{
    if s.len() == 0 {
        -1
    } else if s[0] == c {
        0
    } else {
        let r = first_index_of(s.drop_first(), c);
        if r == -1 {
            -1
        } else {
            r + 1
        }
    }
}

pub proof fn lemma_first_index_of(s: Seq<char>, c: char)
    ensures
        first_index_of(s, c) == -1 ==> forall|i: int| 0 <= i < s.len() ==> s[i] != c,
        first_index_of(s, c) != -1 ==> {
            let f = first_index_of(s, c);
            &&& 0 <= f < s.len()
            &&& s[f] == c
            &&& forall|i: int| 0 <= i < f ==> s[i] != c
        },
    decreases s.len(),
{
    if s.len() > 0 && s[0] != c {
        let d = s.drop_first();
        lemma_first_index_of(d, c);
        assert(forall|i: int| 1 <= i < s.len() ==> #[trigger] s[i] == d[i - 1]);
    }
}

/// The pieces of `s` between occurrences of the separator, the way
/// `str::split` with a one-character pattern yields them: an empty input
/// gives one empty piece, and adjacent separators give empty pieces.
pub open spec fn spec_split(s: Seq<char>, sep: char) -> Seq<Seq<char>>
    decreases s.len(),
{
    if s.len() == 0 {
        seq![Seq::<char>::empty()]
    } else if s.last() == sep {
        spec_split(s.drop_last(), sep).push(Seq::<char>::empty())
    } else {
        let sp = spec_split(s.drop_last(), sep);
        sp.update(sp.len() - 1, sp.last().push(s.last()))
    }
}

/// Splits a character vector on a separator character, the way `str::split`
/// does with a one-character pattern.
pub fn split_on_char(v: &Vec<char>, sep: char) -> (parts: Vec<Vec<char>>)
    ensures
        parts.deep_view() == spec_split(v@, sep),
{
    let mut parts: Vec<Vec<char>> = Vec::new();
    let mut cur: Vec<char> = Vec::new();
    let mut i: usize = 0;
    while i < v.len()
        invariant
            i <= v@.len(),
            parts.deep_view().push(cur@) == spec_split(v@.take(i as int), sep),
        decreases v@.len() - i,
    {
        let c = v[i];
        proof {
            assert(v@.take(i as int + 1).last() == v@[i as int]);
            assert(v@.take(i as int + 1).drop_last() =~= v@.take(i as int));
        }
        if c == sep {
            let ghost old_parts = parts.deep_view();
            let ghost old_cur = cur@;
            parts.push(cur);
            cur = Vec::new();
            proof {
                assert(parts.deep_view().push(cur@) =~~= old_parts.push(old_cur).push(
                    Seq::<char>::empty(),
                ));
            }
        } else {
            let ghost old_parts = parts.deep_view();
            let ghost old_cur = cur@;
            cur.push(c);
            proof {
                let sp = spec_split(v@.take(i as int), sep);
                assert(sp == old_parts.push(old_cur));
                assert(sp.last() == old_cur);
                assert(sp.len() == old_parts.len() + 1);
                assert(parts.deep_view() =~~= old_parts);
                assert(parts.deep_view().push(cur@) =~~= sp.update(
                    sp.len() - 1,
                    old_cur.push(c),
                ));
            }
        }
        i = i + 1;
    }
    let ghost old_parts = parts.deep_view();
    let ghost old_cur = cur@;
    parts.push(cur);
    proof {
        assert(v@.take(v@.len() as int) =~= v@);
        assert(parts.deep_view() =~~= old_parts.push(old_cur));
    }
    parts
}

/// The pieces of `parts` glued together with `sep` between them, the way
/// `[String]::join` writes them.
pub open spec fn spec_join(parts: Seq<Seq<char>>, sep: Seq<char>) -> Seq<char>
    decreases parts.len(),
{
    if parts.len() == 0 {
        Seq::empty()
    } else if parts.len() == 1 {
        parts[0]
    } else {
        parts[0] + sep + spec_join(parts.drop_first(), sep)
    }
}

/// Joining one more piece appends a separator and the piece.
pub proof fn lemma_join_push(ps: Seq<Seq<char>>, p: Seq<char>, sep: Seq<char>)
    ensures
        ps.len() == 0 ==> spec_join(ps.push(p), sep) == p,
        ps.len() > 0 ==> spec_join(ps.push(p), sep) == spec_join(ps, sep) + sep + p,
    decreases ps.len(),
{
    if ps.len() == 0 {
        assert(ps.push(p)[0] == p);
    } else {
        lemma_join_push(ps.drop_first(), p, sep);
        assert(ps.push(p).drop_first() =~= ps.drop_first().push(p));
        assert(ps.push(p)[0] == ps[0]);
        if ps.len() == 1 {
            assert(ps.drop_first().len() == 0);
            assert(spec_join(ps.push(p), sep) == ps[0] + sep + p);
            assert(spec_join(ps, sep) == ps[0]);
        } else {
            assert(spec_join(ps, sep) == ps[0] + sep + spec_join(ps.drop_first(), sep));
            assert(spec_join(ps.push(p), sep) == ps[0] + sep + (spec_join(ps.drop_first(), sep)
                + sep + p));
            assert(ps[0] + sep + (spec_join(ps.drop_first(), sep) + sep + p) =~= (ps[0] + sep
                + spec_join(ps.drop_first(), sep)) + sep + p);
        }
    }
}

/// Joins character vectors with a separator string, the way `[String]::join`
/// does.
pub fn join_with(parts: &Vec<Vec<char>>, sep: &Vec<char>) -> (out: Vec<char>)
    ensures
        out@ == spec_join(parts.deep_view(), sep@),
{
    let mut out: Vec<char> = Vec::new();
    let mut i: usize = 0;
    while i < parts.len()
        invariant
            i <= parts@.len(),
            parts.deep_view().len() == parts@.len(),
            out@ == spec_join(parts.deep_view().take(i as int), sep@),
        decreases parts@.len() - i,
    {
        if i > 0 {
            append_chars(&mut out, sep);
        }
        let part = &parts[i];
        append_chars(&mut out, part);
        proof {
            let pv = parts.deep_view();
            assert(pv[i as int] == parts@[i as int]@);
            assert(pv.take(i as int + 1) =~= pv.take(i as int).push(pv[i as int]));
            lemma_join_push(pv.take(i as int), pv[i as int], sep@);
        }
        i = i + 1;
    }
    proof {
        assert(parts.deep_view().take(parts@.len() as int) =~= parts.deep_view());
    }
    out
}

/// Appends the characters of `src` to `dst`.
pub fn append_chars(dst: &mut Vec<char>, src: &Vec<char>)
    ensures
        final(dst)@ == old(dst)@ + src@,
{
    let mut i: usize = 0;
    while i < src.len()
        invariant
            i <= src@.len(),
            dst@ == old(dst)@ + src@.take(i as int),
        decreases src@.len() - i,
    {
        dst.push(src[i]);
        proof {
            assert(old(dst)@ + src@.take(i as int + 1) =~= (old(dst)@ + src@.take(i as int)).push(
                src@[i as int],
            ));
        }
        i = i + 1;
    }
    proof {
        assert(src@.take(src@.len() as int) =~= src@);
    }
}

pub proof fn lemma_digits_val_nonneg(s: Seq<char>)
    requires
        all_digits(s),
    ensures
        spec_digits_val(s) >= 0,
    decreases s.len(),
{
    if s.len() > 0 {
        assert(all_digits(s.drop_last()));
        lemma_digits_val_nonneg(s.drop_last());
    }
}

/// The value of a proper prefix of a digit string is at most the value of
/// the whole string.
proof fn lemma_digits_val_prefix_le(s: Seq<char>, k: int)
    requires
        all_digits(s),
        0 <= k <= s.len(),
    ensures
        spec_digits_val(s.take(k)) <= spec_digits_val(s),
    decreases s.len() - k,
{
    if k < s.len() {
        assert(s.take(k + 1).drop_last() =~= s.take(k));
        assert(all_digits(s.take(k + 1)));
        lemma_digits_val_nonneg(s.take(k));
        lemma_digits_val_prefix_le(s, k + 1);
    } else {
        assert(s.take(k) =~= s);
    }
}

} // verus!
