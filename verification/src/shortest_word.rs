//! The length in bytes of the shortest word of a phrase.
use vstd::prelude::*;

verus! {

use crate::text::str_to_chars;

/// Whether `c` is whitespace, as Unicode defines the property.
pub open spec fn is_ws(c: char) -> bool {
    c == ' ' || c == '\t' || c == '\n' || c == '\u{b}' || c == '\u{c}' || c == '\r' || c
        == '\u{85}' || c == '\u{a0}' || c == '\u{1680}' || ('\u{2000}' <= c && c <= '\u{200a}')
        || c == '\u{2028}' || c == '\u{2029}' || c == '\u{202f}' || c == '\u{205f}' || c
        == '\u{3000}'
}

/// The bytes the character takes when written as UTF-8.
pub open spec fn char_utf8_len(c: char) -> int {
    if (c as int) < 0x80 {
        1
    } else if (c as int) < 0x800 {
        2
    } else if (c as int) < 0x10000 {
        3
    } else {
        4
    }
}

/// The UTF-8 byte length of the characters together.
pub open spec fn byte_len(s: Seq<char>) -> int
    decreases s.len(),
{
    if s.len() == 0 {
        0
    } else {
        byte_len(s.drop_last()) + char_utf8_len(s.last())
    }
}

/// The machine state after scanning a prefix: the finished words and the
/// open word.
pub open spec fn tok_state(s: Seq<char>) -> (Seq<Seq<char>>, Seq<char>)
    decreases s.len(),
{
    if s.len() == 0 {
        (Seq::empty(), Seq::empty())
    } else {
        let (done, cur) = tok_state(s.drop_last());
        if is_ws(s.last()) {
            if cur.len() > 0 {
                (done.push(cur), Seq::empty())
            } else {
                (done, Seq::empty())
            }
        } else {
            (done, cur.push(s.last()))
        }
    }
}

/// The whitespace-separated words of `s`.
pub open spec fn ws_tokens(s: Seq<char>) -> Seq<Seq<char>> {
    let (done, cur) = tok_state(s);
    if cur.len() > 0 {
        done.push(cur)
    } else {
        done
    }
}

/// The running minimum of the word byte lengths, folded from one hundred.
pub open spec fn spec_short(tokens: Seq<Seq<char>>) -> int
    decreases tokens.len(),
{
    if tokens.len() == 0 {
        100
    } else {
        let p = spec_short(tokens.drop_last());
        if byte_len(tokens.last()) < p {
            byte_len(tokens.last())
        } else {
            p
        }
    }
}

/// The smallest word byte length, with no starting bound.
pub open spec fn spec_min_len(tokens: Seq<Seq<char>>) -> int
    decreases tokens.len(),
{
    if tokens.len() == 0 {
        0
    } else if tokens.len() == 1 {
        byte_len(tokens.last())
    } else {
        let p = spec_min_len(tokens.drop_last());
        if byte_len(tokens.last()) < p {
            byte_len(tokens.last())
        } else {
            p
        }
    }
}

fn is_ws_exec(c: char) -> (r: bool)
    ensures
        r == is_ws(c),
{
    c == ' ' || c == '\t' || c == '\n' || c == '\u{b}' || c == '\u{c}' || c == '\r' || c
        == '\u{85}' || c == '\u{a0}' || c == '\u{1680}' || ('\u{2000}' <= c && c <= '\u{200a}')
        || c == '\u{2028}' || c == '\u{2029}' || c == '\u{202f}' || c == '\u{205f}' || c
        == '\u{3000}'
}

fn char_len_exec(c: char) -> (r: u32)
    ensures
        r == char_utf8_len(c),
{
    let u = c as u32;
    if u < 0x80 {
        1
    } else if u < 0x800 {
        2
    } else if u < 0x10000 {
        3
    } else {
        4
    }
}

/// Word lengths stay within four bytes per character.
proof fn lemma_byte_len_bounds(s: Seq<char>)
    ensures
        0 <= byte_len(s) <= 4 * s.len(),
    decreases s.len(),
{
    if s.len() > 0 {
        lemma_byte_len_bounds(s.drop_last());
    }
}

/// The shortest word's byte length, starting the running minimum at one
/// hundred: with no words, or none shorter, the result is one hundred.
pub fn find_short(s: &str) -> (r: u32)
    requires
        s@.len() < 0x10000000,
    ensures
        r == spec_short(ws_tokens(s@)),
{
    let chars = str_to_chars(s);
    let mut acc: u32 = 100;
    let mut cur_len: u32 = 0;
    let mut i: usize = 0;
    while i < chars.len()
        invariant
            i <= chars@.len(),
            chars@ == s@,
            s@.len() < 0x10000000,
            ({
                let (done, cur) = tok_state(s@.take(i as int));
                &&& acc == spec_short(done)
                &&& cur_len == byte_len(cur)
                &&& cur.len() <= i
                &&& 0 <= acc <= 100
            }),
        decreases chars@.len() - i,
    {
        let c = chars[i];
        proof {
            assert(s@.take(i as int + 1).drop_last() =~= s@.take(i as int));
            assert(s@.take(i as int + 1).last() == s@[i as int]);
            let (done, cur) = tok_state(s@.take(i as int));
            lemma_byte_len_bounds(cur);
        }
        proof {
            let (done, cur) = tok_state(s@.take(i as int));
            lemma_byte_len_bounds(cur);
            if cur.len() > 0 {
                lemma_byte_len_pos(cur);
                assert(done.push(cur).drop_last() =~= done);
                assert(done.push(cur).last() == cur);
            } else {
                assert(byte_len(cur) == 0);
            }
            assert(cur.push(s@[i as int]).drop_last() =~= cur);
            assert(cur.push(s@[i as int]).last() == s@[i as int]);
        }
        if is_ws_exec(c) {
            if cur_len > 0 {
                if cur_len < acc {
                    acc = cur_len;
                }
            }
            cur_len = 0;
        } else {
            let cl = char_len_exec(c);
            cur_len = cur_len + cl;
        }
        i = i + 1;
    }
    proof {
        assert(s@.take(s@.len() as int) =~= s@);
        let (done, cur) = tok_state(s@);
        lemma_byte_len_bounds(cur);
        if cur.len() > 0 {
            lemma_byte_len_pos(cur);
            assert(done.push(cur).drop_last() =~= done);
            assert(done.push(cur).last() == cur);
        } else {
            assert(byte_len(cur) == 0);
        }
    }
    if cur_len > 0 {
        if cur_len < acc {
            acc = cur_len;
        }
    }
    acc
}

/// A non-empty word takes at least one byte.
proof fn lemma_byte_len_pos(s: Seq<char>)
    requires
        s.len() > 0,
    ensures
        byte_len(s) >= 1,
{
    lemma_byte_len_bounds(s.drop_last());
}

/// The shortest word's byte length; the phrase must hold at least one
/// word.
pub fn first(s: &str) -> (r: u32)
    requires
        s@.len() < 0x10000000,
        ws_tokens(s@).len() >= 1,
    ensures
        r == spec_min_len(ws_tokens(s@)),
{
    second(s)
}

/// The shortest word's byte length, or zero for a phrase without words.
pub fn second(s: &str) -> (r: u32)
    requires
        s@.len() < 0x10000000,
    ensures
        r == spec_min_len(ws_tokens(s@)),
{
    let chars = str_to_chars(s);
    let mut acc: u32 = 0;
    let mut any = false;
    let mut cur_len: u32 = 0;
    let mut i: usize = 0;
    while i < chars.len()
        invariant
            i <= chars@.len(),
            chars@ == s@,
            s@.len() < 0x10000000,
            ({
                let (done, cur) = tok_state(s@.take(i as int));
                &&& any == (done.len() > 0)
                &&& any ==> acc == spec_min_len(done)
                &&& !any ==> acc == 0
                &&& cur_len == byte_len(cur)
                &&& cur.len() <= i
                &&& 0 <= acc
                &&& acc <= 4 * i
            }),
        decreases chars@.len() - i,
    {
        let c = chars[i];
        proof {
            assert(s@.take(i as int + 1).drop_last() =~= s@.take(i as int));
            assert(s@.take(i as int + 1).last() == s@[i as int]);
            let (done, cur) = tok_state(s@.take(i as int));
            lemma_byte_len_bounds(cur);
            if cur.len() > 0 {
                lemma_byte_len_pos(cur);
                assert(done.push(cur).drop_last() =~= done);
                assert(done.push(cur).last() == cur);
            } else {
                assert(byte_len(cur) == 0);
            }
            assert(cur.push(s@[i as int]).drop_last() =~= cur);
            assert(cur.push(s@[i as int]).last() == s@[i as int]);
            lemma_min_len_bounds(done);
        }
        if is_ws_exec(c) {
            if cur_len > 0 {
                if !any || cur_len < acc {
                    acc = cur_len;
                }
                any = true;
            }
            cur_len = 0;
        } else {
            let cl = char_len_exec(c);
            cur_len = cur_len + cl;
        }
        i = i + 1;
    }
    proof {
        assert(s@.take(s@.len() as int) =~= s@);
        let (done, cur) = tok_state(s@);
        lemma_byte_len_bounds(cur);
        if cur.len() > 0 {
            lemma_byte_len_pos(cur);
            assert(done.push(cur).drop_last() =~= done);
            assert(done.push(cur).last() == cur);
        } else {
            assert(byte_len(cur) == 0);
        }
        lemma_min_len_bounds(done);
    }
    if cur_len > 0 {
        if !any || cur_len < acc {
            acc = cur_len;
        }
    }
    acc
}

proof fn lemma_min_len_bounds(tokens: Seq<Seq<char>>)
    ensures
        tokens.len() > 0 ==> spec_min_len(tokens) >= 0,
    decreases tokens.len(),
{
    if tokens.len() > 1 {
        lemma_min_len_bounds(tokens.drop_last());
        lemma_byte_len_bounds(tokens.last());
    } else if tokens.len() == 1 {
        lemma_byte_len_bounds(tokens.last());
    }
}

} // verus!
