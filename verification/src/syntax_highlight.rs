//! Syntax highlighting for a toy robot language: runs of the commands `F`,
//! `L`, `R` and of digits are wrapped in colored spans, while parentheses
//! pass through and break the current run.
use vstd::prelude::*;

verus! {

use crate::text::{append_chars, chars_to_string, is_digit_char, is_digit_exec, str_to_chars};

/// The characters the highlighter accepts: the three commands, parentheses
/// and digits.
pub open spec fn valid_code_char(c: char) -> bool {
    c == 'F' || c == 'L' || c == 'R' || c == '(' || c == ')' || is_digit_char(c)
}

/// The color assigned to each character class; parentheses carry none.
pub open spec fn color_of(c: char) -> Seq<char> {
    if c == 'L' {
        seq!['r', 'e', 'd']
    } else if c == 'F' {
        seq!['p', 'i', 'n', 'k']
    } else if c == 'R' {
        seq!['g', 'r', 'e', 'e', 'n']
    } else if is_digit_char(c) {
        seq!['o', 'r', 'a', 'n', 'g', 'e']
    } else {
        Seq::empty()
    }
}

pub open spec fn span_pre() -> Seq<char> {
    seq!['<', 's', 'p', 'a', 'n', ' ', 's', 't', 'y', 'l', 'e', '=', '"', 'c', 'o', 'l', 'o', 'r', ':', ' ']
}

pub open spec fn span_mid() -> Seq<char> {
    seq!['"', '>']
}

pub open spec fn span_post() -> Seq<char> {
    seq!['<', '/', 's', 'p', 'a', 'n', '>']
}

/// One colored span: `<span style="color: COL">TXT</span>`.
pub open spec fn span_of(col: Seq<char>, txt: Seq<char>) -> Seq<char> {
    span_pre() + col + span_mid() + txt + span_post()
}

/// The highlighter's running state: output so far, the color of the open
/// run, and the characters of the open run.
pub open spec fn hl_group(
    st: (Seq<char>, Seq<char>, Seq<char>),
    newcol: Seq<char>,
    c: char,
    digit: bool,
) -> (Seq<char>, Seq<char>, Seq<char>) {
    let (hl, col, cur) = st;
    if cur.len() > 0 {
        if cur[0] == c || (is_digit_char(cur[0]) && digit) {
            (hl, col, cur.push(c))
        } else {
            (hl + span_of(col, cur), newcol, seq![c])
        }
    } else {
        (hl, col + newcol, seq![c])
    }
}

/// Processes one character: parentheses are copied to the output at once and
/// then join the grouping with an empty color; every other character joins
/// with its own color.
pub open spec fn hl_step(st: (Seq<char>, Seq<char>, Seq<char>), c: char) -> (
    Seq<char>,
    Seq<char>,
    Seq<char>,
) {
    if c == '(' || c == ')' {
        hl_group((st.0.push(c), st.1, st.2), Seq::empty(), c, false)
    } else {
        hl_group(st, color_of(c), c, is_digit_char(c))
    }
}

pub open spec fn hl_fold(s: Seq<char>) -> (Seq<char>, Seq<char>, Seq<char>)
    decreases s.len(),
{
    if s.len() == 0 {
        (Seq::empty(), Seq::empty(), Seq::empty())
    } else {
        hl_step(hl_fold(s.drop_last()), s.last())
    }
}

/// The highlighted form of `s`: the state after all characters, with the
/// still-open run flushed as a final span.
pub open spec fn spec_highlight(s: Seq<char>) -> Seq<char> {
    if s.len() == 0 {
        Seq::empty()
    } else {
        let st = hl_fold(s);
        st.0 + span_of(st.1, st.2)
    }
}

/// Appends `<span style="color: COL">TXT</span>` to `out`.
fn push_span(out: &mut Vec<char>, col: &Vec<char>, txt: &Vec<char>)
    ensures
        final(out)@ == old(out)@ + span_of(col@, txt@),
{
    let ghost start = out@;
    out.push('<');
    out.push('s');
    out.push('p');
    out.push('a');
    out.push('n');
    out.push(' ');
    out.push('s');
    out.push('t');
    out.push('y');
    out.push('l');
    out.push('e');
    out.push('=');
    out.push('"');
    out.push('c');
    out.push('o');
    out.push('l');
    out.push('o');
    out.push('r');
    out.push(':');
    out.push(' ');
    proof {
        assert(out@ =~= start + span_pre());
    }
    append_chars(out, col);
    out.push('"');
    out.push('>');
    proof {
        assert(out@ =~= start + span_pre() + col@ + span_mid());
    }
    append_chars(out, txt);
    out.push('<');
    out.push('/');
    out.push('s');
    out.push('p');
    out.push('a');
    out.push('n');
    out.push('>');
    proof {
        assert(out@ =~= start + (span_pre() + col@ + span_mid() + txt@ + span_post()));
    }
}

/// The grouping shared by every character class: extend the open run, or
/// flush it as a span and open a new one.
fn hl_group_exec(
    hl: &mut Vec<char>,
    col: &mut Vec<char>,
    cur: &mut Vec<char>,
    newcol: Vec<char>,
    c: char,
    digit: bool,
)
    ensures
        (final(hl)@, final(col)@, final(cur)@) == hl_group(
            (old(hl)@, old(col)@, old(cur)@),
            newcol@,
            c,
            digit,
        ),
{
    if cur.len() > 0 {
        let c0 = cur[0];
        let extend = c0 == c || (is_digit_exec(c0) && digit);
        if extend {
            cur.push(c);
        } else {
            push_span(hl, col, cur);
            *col = newcol;
            let mut fresh: Vec<char> = Vec::new();
            fresh.push(c);
            *cur = fresh;
            proof {
                assert(cur@ =~= seq![c]);
            }
        }
    } else {
        append_chars(col, &newcol);
        cur.push(c);
        proof {
            assert(cur@ =~= seq![c]);
        }
    }
}

/// Highlights robot code by wrapping each run of equal commands, or of
/// digits, in a colored span; parentheses are passed through directly and
/// also take part in the run grouping, with an empty color.
pub fn highlight(code: &str) -> (r: String)
    requires
        forall|i: int| 0 <= i < code@.len() ==> valid_code_char(#[trigger] code@[i]),
    ensures
        r@ == spec_highlight(code@),
{
    let chars = str_to_chars(code);
    let mut hl: Vec<char> = Vec::new();
    let mut col: Vec<char> = Vec::new();
    let mut cur: Vec<char> = Vec::new();
    let mut i: usize = 0;
    while i < chars.len()
        invariant
            i <= chars@.len(),
            chars@ == code@,
            forall|j: int| 0 <= j < code@.len() ==> valid_code_char(#[trigger] code@[j]),
            (hl@, col@, cur@) == hl_fold(chars@.take(i as int)),
        decreases chars@.len() - i,
    {
        let c = chars[i];
        proof {
            assert(chars@.take(i as int + 1).last() == chars@[i as int]);
            assert(chars@.take(i as int + 1).drop_last() =~= chars@.take(i as int));
        }
        if c == '(' || c == ')' {
            hl.push(c);
            let newcol: Vec<char> = Vec::new();
            hl_group_exec(&mut hl, &mut col, &mut cur, newcol, c, false);
        } else {
            let digit = is_digit_exec(c);
            let mut newcol: Vec<char> = Vec::new();
            if c == 'L' {
                newcol.push('r');
                newcol.push('e');
                newcol.push('d');
            } else if c == 'F' {
                newcol.push('p');
                newcol.push('i');
                newcol.push('n');
                newcol.push('k');
            } else if c == 'R' {
                newcol.push('g');
                newcol.push('r');
                newcol.push('e');
                newcol.push('e');
                newcol.push('n');
            } else {
                newcol.push('o');
                newcol.push('r');
                newcol.push('a');
                newcol.push('n');
                newcol.push('g');
                newcol.push('e');
            }
            proof {
                assert(chars@[i as int] == code@[i as int]);
                assert(valid_code_char(c));
                assert(newcol@ =~= color_of(c));
            }
            hl_group_exec(&mut hl, &mut col, &mut cur, newcol, c, digit);
        }
        i = i + 1;
    }
    proof {
        assert(chars@.take(chars@.len() as int) =~= chars@);
    }
    if chars.len() > 0 {
        push_span(&mut hl, &col, &cur);
    }
    chars_to_string(&hl)
}

} // verus!
