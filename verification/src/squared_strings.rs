//! Operations on square strings: mirroring across the first diagonal,
//! rotating clockwise, and pairing a string with its mirror.
use vstd::prelude::*;

verus! {

use crate::text::{chars_to_string, join_with, spec_join, spec_split, split_on_char,
    str_to_chars, append_chars};

/// The `i`-th column of the lines: the `i`-th character of every line long
/// enough to have one, in line order.
pub open spec fn col_of(lines: Seq<Seq<char>>, i: int) -> Seq<char>
    decreases lines.len(),
{
    if lines.len() == 0 {
        Seq::empty()
    } else {
        col_of(lines.drop_last(), i) + (if 0 <= i < lines.last().len() {
            seq![lines.last()[i]]
        } else {
            Seq::empty()
        })
    }
}

/// The length of the longest line.
pub open spec fn max_line_len(lines: Seq<Seq<char>>) -> int
    decreases lines.len(),
{
    if lines.len() == 0 {
        0
    } else {
        let rest = max_line_len(lines.drop_last());
        if lines.last().len() > rest {
            lines.last().len() as int
        } else {
            rest
        }
    }
}

/// The transpose of the lines: one line per column.
pub open spec fn spec_transpose(lines: Seq<Seq<char>>) -> Seq<Seq<char>> {
    Seq::new(max_line_len(lines) as nat, |i: int| col_of(lines, i))
}

/// The mirror of `s` across its first diagonal: the lines are split on
/// newlines, transposed, and joined again.
pub open spec fn spec_diag_1_sym(s: Seq<char>) -> Seq<char> {
    spec_join(spec_transpose(spec_split(s, '\n')), seq!['\n'])
}

/// The clockwise rotation: the transposed lines, each reversed.
pub open spec fn spec_rot_90_clock(s: Seq<char>) -> Seq<char> {
    spec_join(
        Seq::new(
            max_line_len(spec_split(s, '\n')) as nat,
            |i: int| col_of(spec_split(s, '\n'), i).reverse(),
        ),
        seq!['\n'],
    )
}

fn max_len_exec(lines: &Vec<Vec<char>>) -> (m: usize)
    ensures
        m == max_line_len(lines.deep_view()),
{
    let mut m: usize = 0;
    let mut i: usize = 0;
    proof {
        assert(lines.deep_view().take(0) =~= Seq::<Seq<char>>::empty());
    }
    while i < lines.len()
        invariant
            i <= lines@.len(),
            lines.deep_view().len() == lines@.len(),
            m == max_line_len(lines.deep_view().take(i as int)),
        decreases lines@.len() - i,
    {
        proof {
            assert(lines.deep_view().take(i as int + 1).drop_last() =~= lines.deep_view().take(
                i as int,
            ));
            assert(lines.deep_view().take(i as int + 1).last() == lines@[i as int]@);
        }
        let li = lines[i].len();
        if li > m {
            m = li;
        }
        i = i + 1;
    }
    proof {
        assert(lines.deep_view().take(lines@.len() as int) =~= lines.deep_view());
    }
    m
}

fn column_exec(lines: &Vec<Vec<char>>, i: usize) -> (col: Vec<char>)
    ensures
        col@ == col_of(lines.deep_view(), i as int),
{
    let mut col: Vec<char> = Vec::new();
    let mut k: usize = 0;
    proof {
        assert(lines.deep_view().take(0) =~= Seq::<Seq<char>>::empty());
    }
    while k < lines.len()
        invariant
            k <= lines@.len(),
            lines.deep_view().len() == lines@.len(),
            col@ == col_of(lines.deep_view().take(k as int), i as int),
        decreases lines@.len() - k,
    {
        proof {
            assert(lines.deep_view().take(k as int + 1).drop_last() =~= lines.deep_view().take(
                k as int,
            ));
            assert(lines.deep_view().take(k as int + 1).last() == lines@[k as int]@);
        }
        let line = &lines[k];
        if i < line.len() {
            col.push(line[i]);
            proof {
                assert(col@ =~= col_of(lines.deep_view().take(k as int), i as int) + seq![
                    lines@[k as int]@[i as int],
                ]);
            }
        } else {
            proof {
                assert(col@ =~= col_of(lines.deep_view().take(k as int), i as int)
                    + Seq::<char>::empty());
            }
        }
        k = k + 1;
    }
    proof {
        assert(lines.deep_view().take(lines@.len() as int) =~= lines.deep_view());
    }
    col
}

fn transpose_exec(lines: &Vec<Vec<char>>) -> (cols: Vec<Vec<char>>)
    ensures
        cols.deep_view() == spec_transpose(lines.deep_view()),
{
    let maxlen = max_len_exec(lines);
    let mut cols: Vec<Vec<char>> = Vec::new();
    let mut i: usize = 0;
    while i < maxlen
        invariant
            i <= maxlen,
            maxlen == max_line_len(lines.deep_view()),
            cols.deep_view() == spec_transpose(lines.deep_view()).take(i as int),
        decreases maxlen - i,
    {
        let col = column_exec(lines, i);
        let ghost oldd = cols.deep_view();
        cols.push(col);
        proof {
            assert(cols.deep_view() =~~= oldd.push(col@));
            assert(spec_transpose(lines.deep_view())[i as int] == col_of(
                lines.deep_view(),
                i as int,
            ));
            assert(cols.deep_view() =~~= spec_transpose(lines.deep_view()).take(i as int + 1));
        }
        i = i + 1;
    }
    proof {
        assert(spec_transpose(lines.deep_view()).take(maxlen as int) =~= spec_transpose(
            lines.deep_view(),
        ));
    }
    cols
}

/// Mirrors the string across its first diagonal: the first characters of
/// every line form the first output line, and so on.
pub fn diag_1_sym(s: &str) -> (r: String)
    ensures
        r@ == spec_diag_1_sym(s@),
{
    let chars = str_to_chars(s);
    let lines = split_on_char(&chars, '\n');
    let cols = transpose_exec(&lines);
    let mut sep: Vec<char> = Vec::new();
    sep.push('\n');
    let joined = join_with(&cols, &sep);
    proof {
        assert(sep@ =~= seq!['\n']);
    }
    chars_to_string(&joined)
}

fn reverse_chars(v: &Vec<char>) -> (r: Vec<char>)
    ensures
        r@ == v@.reverse(),
{
    let mut r: Vec<char> = Vec::new();
    let mut i: usize = v.len();
    while i > 0
        invariant
            i <= v@.len(),
            r@.len() == v@.len() - i,
            forall|j: int| 0 <= j < r@.len() ==> r@[j] == v@[v@.len() - 1 - j],
        decreases i,
    {
        i = i - 1;
        r.push(v[i]);
    }
    proof {
        assert(r@ =~= v@.reverse());
    }
    r
}

/// Rotates the string a quarter turn clockwise: the mirror across the
/// first diagonal with every line reversed.
pub fn rot_90_clock(s: &str) -> (r: String)
    ensures
        r@ == spec_rot_90_clock(s@),
{
    let chars = str_to_chars(s);
    let lines = split_on_char(&chars, '\n');
    let cols = transpose_exec(&lines);
    let mut rev: Vec<Vec<char>> = Vec::new();
    let mut i: usize = 0;
    let ghost target = Seq::new(
        max_line_len(lines.deep_view()) as nat,
        |k: int| col_of(lines.deep_view(), k).reverse(),
    );
    proof {
        assert(cols.deep_view().len() == cols@.len());
        assert(target.take(0) =~= Seq::<Seq<char>>::empty());
    }
    while i < cols.len()
        invariant
            i <= cols@.len(),
            cols.deep_view() == spec_transpose(lines.deep_view()),
            target == Seq::new(
                max_line_len(lines.deep_view()) as nat,
                |k: int| col_of(lines.deep_view(), k).reverse(),
            ),
            cols@.len() == target.len(),
            rev.deep_view() == target.take(i as int),
        decreases cols@.len() - i,
    {
        let rc = reverse_chars(&cols[i]);
        let ghost oldd = rev.deep_view();
        rev.push(rc);
        proof {
            assert(cols.deep_view()[i as int] == cols@[i as int]@);
            assert(target[i as int] == col_of(lines.deep_view(), i as int).reverse());
            assert(rev.deep_view() =~~= oldd.push(rc@));
            assert(rev.deep_view() =~~= target.take(i as int + 1));
        }
        i = i + 1;
    }
    proof {
        assert(target.take(target.len() as int) =~= target);
    }
    let mut sep: Vec<char> = Vec::new();
    sep.push('\n');
    let joined = join_with(&rev, &sep);
    proof {
        assert(sep@ =~= seq!['\n']);
    }
    chars_to_string(&joined)
}

/// The string and its mirror, line by line: each line, a bar, and the
/// matching mirrored line.
pub open spec fn spec_selfie_and_diag1(s: Seq<char>) -> Seq<char> {
    let selfie = spec_split(s, '\n');
    let dcols = spec_split(spec_diag_1_sym(s), '\n');
    spec_join(
        Seq::new(dcols.len(), |i: int| selfie[i] + seq!['|'] + dcols[i]),
        seq!['\n'],
    )
}

/// Joins each line of the string with the matching line of its first
/// diagonal mirror, a bar between them. The mirror may not have more lines
/// than the string itself.
pub fn selfie_and_diag1(s: &str) -> (r: String)
    requires
        spec_split(spec_diag_1_sym(s@), '\n').len() <= spec_split(s@, '\n').len(),
    ensures
        r@ == spec_selfie_and_diag1(s@),
{
    let d1s = diag_1_sym(s);
    let d1s_chars = str_to_chars(d1s.as_str());
    let dcols = split_on_char(&d1s_chars, '\n');
    let chars = str_to_chars(s);
    let selfie = split_on_char(&chars, '\n');
    let ghost target = Seq::new(
        dcols.deep_view().len(),
        |i: int| selfie.deep_view()[i] + seq!['|'] + dcols.deep_view()[i],
    );
    let mut sd1: Vec<Vec<char>> = Vec::new();
    let mut i: usize = 0;
    while i < dcols.len()
        invariant
            i <= dcols@.len(),
            dcols@.len() <= selfie@.len(),
            dcols.deep_view().len() == dcols@.len(),
            selfie.deep_view().len() == selfie@.len(),
            target == Seq::new(
                dcols.deep_view().len(),
                |k: int| selfie.deep_view()[k] + seq!['|'] + dcols.deep_view()[k],
            ),
            sd1.deep_view() == target.take(i as int),
        decreases dcols@.len() - i,
    {
        let mut complete: Vec<char> = Vec::new();
        let part = &selfie[i];
        append_chars(&mut complete, part);
        complete.push('|');
        let dpart = &dcols[i];
        append_chars(&mut complete, dpart);
        let ghost oldd = sd1.deep_view();
        let ghost cv = complete@;
        sd1.push(complete);
        proof {
            assert(selfie.deep_view()[i as int] == selfie@[i as int]@);
            assert(dcols.deep_view()[i as int] == dcols@[i as int]@);
            assert(cv =~= target[i as int]);
            assert(sd1.deep_view() =~~= oldd.push(cv));
            assert(sd1.deep_view() =~~= target.take(i as int + 1));
        }
        i = i + 1;
    }
    proof {
        assert(target.take(target.len() as int) =~= target);
    }
    let mut sep: Vec<char> = Vec::new();
    sep.push('\n');
    let joined = join_with(&sd1, &sep);
    proof {
        assert(sep@ =~= seq!['\n']);
        assert(target =~= Seq::new(
            spec_split(spec_diag_1_sym(s@), '\n').len(),
            |i: int|
                spec_split(s@, '\n')[i] + seq!['|'] + spec_split(spec_diag_1_sym(s@), '\n')[i],
        ));
    }
    chars_to_string(&joined)
}

/// Applies the given transform to the string.
pub fn oper<F: Fn(&str) -> String>(fct: F, s: &str) -> (r: String)
    requires
        call_requires(fct, (s,)),
    ensures
        call_ensures(fct, (s,), r),
{
    fct(s)
}

} // verus!
