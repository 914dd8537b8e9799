//! A tiny personnel book: commands, a department and its employees.
use vstd::prelude::*;

verus! {

use crate::shortest_word::is_ws;
use crate::text::{append_chars, chars_to_string, str_to_chars};

/// A command typed at the prompt.
#[derive(PartialEq, Eq, Structural, Debug, Clone, Copy)]
pub enum Cmd {
    Add,
    List,
    Exit,
    Unknown,
}

/// The leading whitespace of `s`.
pub open spec fn leading_ws(s: Seq<char>) -> int
    decreases s.len(),
{
    if s.len() == 0 || !is_ws(s[0]) {
        0
    } else {
        1 + leading_ws(s.drop_first())
    }
}

/// The trailing whitespace of `s`.
pub open spec fn trailing_ws(s: Seq<char>) -> int
    decreases s.len(),
{
    if s.len() == 0 || !is_ws(s.last()) {
        0
    } else {
        1 + trailing_ws(s.drop_last())
    }
}

/// The text with surrounding whitespace removed, the way `str::trim`
/// removes it; all-whitespace text trims to nothing.
pub open spec fn spec_trim(s: Seq<char>) -> Seq<char> {
    if leading_ws(s) == s.len() {
        Seq::empty()
    } else {
        s.subrange(leading_ws(s), s.len() - trailing_ws(s))
    }
}

proof fn lemma_leading_ws(s: Seq<char>)
    ensures
        0 <= leading_ws(s) <= s.len(),
        forall|j: int| 0 <= j < leading_ws(s) ==> is_ws(#[trigger] s[j]),
        leading_ws(s) < s.len() ==> !is_ws(s[leading_ws(s)]),
    decreases s.len(),
{
    if s.len() > 0 && is_ws(s[0]) {
        let d = s.drop_first();
        lemma_leading_ws(d);
        assert(forall|j: int| 1 <= j < s.len() ==> #[trigger] s[j] == d[j - 1]);
    }
}

proof fn lemma_trailing_ws(s: Seq<char>)
    ensures
        0 <= trailing_ws(s) <= s.len(),
        forall|j: int| s.len() - trailing_ws(s) <= j < s.len() ==> is_ws(#[trigger] s[j]),
        trailing_ws(s) < s.len() ==> !is_ws(s[s.len() - trailing_ws(s) - 1]),
    decreases s.len(),
{
    if s.len() > 0 && is_ws(s.last()) {
        let d = s.drop_last();
        lemma_trailing_ws(d);
        assert(forall|j: int| 0 <= j < s.len() - 1 ==> #[trigger] s[j] == d[j]);
    }
}

fn is_ws_exec(c: char) -> (r: bool)
    ensures
        r == is_ws(c),
{
    c == ' ' || c == '\t' || c == '\n' || c == '\u{b}' || c == '\u{c}' || c == '\r' || c
        == '\u{85}' || c == '\u{a0}' || c == '\u{1680}' || ('\u{2000}' <= c && c <= '\u{200a}')
        || c == '\u{2028}' || c == '\u{2029}' || c == '\u{202f}' || c == '\u{205f}' || c
        == '\u{3000}'
}

/// Removes leading and trailing whitespace.
pub fn trim_text(s: &str) -> (r: String)
    ensures
        r@ == spec_trim(s@),
{
    let chars = str_to_chars(s);
    let n = chars.len();
    let mut a: usize = 0;
    proof {
        lemma_leading_ws(s@);
        lemma_trailing_ws(s@);
    }
    while a < n && is_ws_exec(chars[a])
        invariant
            a <= n,
            n == s@.len(),
            chars@ == s@,
            a <= leading_ws(s@),
            leading_ws(s@) <= s@.len(),
            forall|j: int| 0 <= j < leading_ws(s@) ==> is_ws(#[trigger] s@[j]),
            leading_ws(s@) < s@.len() ==> !is_ws(s@[leading_ws(s@)]),
        decreases n - a,
    {
        a = a + 1;
        proof {
            if a > leading_ws(s@) {
                assert(is_ws(s@[leading_ws(s@)]));
                assert(false);
            }
        }
    }
    proof {
        if a < leading_ws(s@) {
            assert(is_ws(s@[a as int]));
            assert(false);
        }
        assert(a == leading_ws(s@));
    }
    if a == n {
        let empty: Vec<char> = Vec::new();
        return chars_to_string(&empty);
    }
    let mut b: usize = n;
    while b > a && is_ws_exec(chars[b - 1])
        invariant
            a < n,
            a <= b <= n,
            n == s@.len(),
            chars@ == s@,
            a == leading_ws(s@),
            !is_ws(s@[a as int]),
            s@.len() - b <= trailing_ws(s@),
            trailing_ws(s@) <= s@.len(),
            forall|j: int|
                s@.len() - trailing_ws(s@) <= j < s@.len() ==> is_ws(#[trigger] s@[j]),
            trailing_ws(s@) < s@.len() ==> !is_ws(s@[s@.len() - trailing_ws(s@) - 1]),
        decreases b,
    {
        b = b - 1;
        proof {
            if s@.len() - b > trailing_ws(s@) {
                assert(is_ws(s@[s@.len() - trailing_ws(s@) - 1]));
                assert(false);
            }
        }
    }
    proof {
        if b > a {
            if s@.len() - b < trailing_ws(s@) {
                assert(is_ws(s@[b as int - 1]));
                assert(false);
            }
        } else {
            // the scan stopped at the leading bound, which is not whitespace
            assert(b == a);
            if s@.len() - b < trailing_ws(s@) {
                assert(is_ws(s@[b as int]));
                assert(false);
            }
        }
        assert(b == s@.len() - trailing_ws(s@));
    }
    let mut out: Vec<char> = Vec::new();
    let mut i: usize = a;
    while i < b
        invariant
            a <= i <= b <= n,
            n == s@.len(),
            chars@ == s@,
            out@ == s@.subrange(a as int, i as int),
        decreases b - i,
    {
        out.push(chars[i]);
        proof {
            assert(out@ =~= s@.subrange(a as int, i as int + 1));
        }
        i = i + 1;
    }
    proof {
        assert(out@ =~= spec_trim(s@));
    }
    chars_to_string(&out)
}

/// Reads a typed command: `add`, `list` or `exit`, anything else being
/// unknown.
pub fn parse_cmd(cmd: &str) -> (r: Cmd)
    ensures
        r == Cmd::Add <==> cmd@ == seq!['a', 'd', 'd'],
        r == Cmd::List <==> cmd@ == seq!['l', 'i', 's', 't'],
        r == Cmd::Exit <==> cmd@ == seq!['e', 'x', 'i', 't'],
{
    let chars = str_to_chars(cmd);
    if chars.len() == 3 && chars[0] == 'a' && chars[1] == 'd' && chars[2] == 'd' {
        proof {
            assert(cmd@ =~= seq!['a', 'd', 'd']);
        }
        Cmd::Add
    } else if chars.len() == 4 && chars[0] == 'l' && chars[1] == 'i' && chars[2] == 's'
        && chars[3] == 't' {
        proof {
            assert(cmd@ =~= seq!['l', 'i', 's', 't']);
        }
        Cmd::List
    } else if chars.len() == 4 && chars[0] == 'e' && chars[1] == 'x' && chars[2] == 'i'
        && chars[3] == 't' {
        proof {
            assert(cmd@ =~= seq!['e', 'x', 'i', 't']);
        }
        Cmd::Exit
    } else {
        proof {
            if cmd@ == seq!['a', 'd', 'd'] {
                assert(chars@[0] == 'a' && chars@[1] == 'd' && chars@[2] == 'd');
            }
            if cmd@ == seq!['l', 'i', 's', 't'] {
                assert(chars@[0] == 'l' && chars@[1] == 'i' && chars@[2] == 's' && chars@[3]
                    == 't');
            }
            if cmd@ == seq!['e', 'x', 'i', 't'] {
                assert(chars@[0] == 'e' && chars@[1] == 'x' && chars@[2] == 'i' && chars@[3]
                    == 't');
            }
        }
        Cmd::Unknown
    }
}

/// A department and the names of its employees.
pub struct Departments {
    pub name: String,
    pub employees: Vec<String>,
}

impl Departments {
    /// Records an employee: the typed name, trimmed of surrounding
    /// whitespace, joins the end of the roster.
    pub fn add_employee(&mut self, employee: &str)
        ensures
            final(self).name@ == old(self).name@,
            final(self).employees.deep_view() == old(self).employees.deep_view().push(
                spec_trim(employee@),
            ),
    {
        let trimmed = trim_text(employee);
        let ghost oldd = self.employees.deep_view();
        self.employees.push(trimmed);
        proof {
            assert(self.employees.deep_view() =~~= oldd.push(spec_trim(employee@)));
        }
    }

    /// One line per employee: the name, then ` works in `, then the
    /// department.
    pub fn list_employees(&self) -> (lines: Vec<String>)
        ensures
            lines.deep_view() == Seq::new(
                self.employees@.len() as nat,
                |i: int|
                    self.employees.deep_view()[i] + seq![
                        ' ', 'w', 'o', 'r', 'k', 's', ' ', 'i', 'n', ' ',
                    ] + self.name@,
            ),
    {
        let ghost target = Seq::new(
            self.employees@.len() as nat,
            |i: int|
                self.employees.deep_view()[i] + seq![
                    ' ', 'w', 'o', 'r', 'k', 's', ' ', 'i', 'n', ' ',
                ] + self.name@,
        );
        let mut lines: Vec<String> = Vec::new();
        let mut i: usize = 0;
        let name_chars = str_to_chars(self.name.as_str());
        while i < self.employees.len()
            invariant
                i <= self.employees@.len(),
                name_chars@ == self.name@,
                target == Seq::new(
                    self.employees@.len() as nat,
                    |k: int|
                        self.employees.deep_view()[k] + seq![
                            ' ', 'w', 'o', 'r', 'k', 's', ' ', 'i', 'n', ' ',
                        ] + self.name@,
                ),
                lines.deep_view() == target.take(i as int),
            decreases self.employees@.len() - i,
        {
            let mut line: Vec<char> = Vec::new();
            let emp = str_to_chars(self.employees[i].as_str());
            append_chars(&mut line, &emp);
            line.push(' ');
            line.push('w');
            line.push('o');
            line.push('r');
            line.push('k');
            line.push('s');
            line.push(' ');
            line.push('i');
            line.push('n');
            line.push(' ');
            append_chars(&mut line, &name_chars);
            let ghost lv = line@;
            let ghost oldd = lines.deep_view();
            let out = chars_to_string(&line);
            lines.push(out);
            proof {
                assert(self.employees.deep_view()[i as int] == self.employees@[i as int]@);
                assert(lv =~= target[i as int]);
                assert(lines.deep_view() =~~= oldd.push(lv));
                assert(lines.deep_view() =~~= target.take(i as int + 1));
            }
            i = i + 1;
        }
        proof {
            assert(target.take(target.len() as int) =~= target);
        }
        lines
    }
}

} // verus!
