//! A loose pig-latin transform: words opening with one of the first five
//! letters get `-hay`, all others move their first letter to the back.
use vstd::prelude::*;

verus! {

use crate::text::{append_chars, chars_to_string, str_to_chars};

/// The letters treated as vowels by this transform: the first five of the
/// alphabet.
pub open spec fn is_listed_vowel(c: char) -> bool {
    c == 'a' || c == 'b' || c == 'c' || c == 'd' || c == 'e'
}

/// Transforms one word: a word opening with a listed vowel keeps its text
/// and gains `-hay`; any other word drops its first letter and gains a
/// dash, that letter, and `ay`.
pub fn pig_latin(string: &String) -> (r: String)
    requires
        string@.len() >= 1,
    ensures
        is_listed_vowel(string@[0]) ==> r@ == string@ + seq!['-', 'h', 'a', 'y'],
        !is_listed_vowel(string@[0]) ==> r@ == string@.drop_first() + seq!['-'] + seq![
            string@[0],
        ] + seq!['a', 'y'],
{
    let chars = str_to_chars(string.as_str());
    let first = chars[0];
    let start_w_vowel = first == 'a' || first == 'b' || first == 'c' || first == 'd' || first
        == 'e';
    let mut out: Vec<char> = Vec::new();
    if start_w_vowel {
        append_chars(&mut out, &chars);
        out.push('-');
        out.push('h');
        out.push('a');
        out.push('y');
        proof {
            assert(out@ =~= string@ + seq!['-', 'h', 'a', 'y']);
        }
    } else {
        let mut i: usize = 1;
        while i < chars.len()
            invariant
                1 <= i <= chars@.len(),
                chars@ == string@,
                out@ == string@.subrange(1, i as int),
            decreases chars@.len() - i,
        {
            out.push(chars[i]);
            proof {
                assert(out@ =~= string@.subrange(1, i as int + 1));
            }
            i = i + 1;
        }
        out.push('-');
        out.push(first);
        out.push('a');
        out.push('y');
        proof {
            assert(string@.subrange(1, string@.len() as int) =~= string@.drop_first());
            assert(out@ =~= string@.drop_first() + seq!['-'] + seq![string@[0]] + seq![
                'a',
                'y',
            ]);
        }
    }
    chars_to_string(&out)
}

} // verus!
