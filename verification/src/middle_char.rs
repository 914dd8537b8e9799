//! Picking the middle of a string: two characters when the length is even,
//! one when it is odd.
use vstd::prelude::*;

verus! {

/// Returns the middle of an ASCII string: the whole string when it has at
/// most two characters, the middle two when the length is even, and the
/// single middle character when it is odd.
pub fn get_middle_char(s: &str) -> (r: &str)
    requires
        s.is_ascii(),
    ensures
        s@.len() <= 2 ==> r@ == s@,
        s@.len() > 2 && s@.len() % 2 == 0 ==> r@ == s@.subrange(
            s@.len() as int / 2 - 1,
            s@.len() as int / 2 + 1,
        ),
        s@.len() > 2 && s@.len() % 2 == 1 ==> r@ == s@.subrange(
            s@.len() as int / 2,
            s@.len() as int / 2 + 1,
        ),
{
    let s_length = s.unicode_len();
    if s_length <= 2 {
        return s;
    }
    let is_even = s_length % 2 == 0;
    let middle_start = (s_length / 2) - 1;
    let middle_end = middle_start + 1;
    if is_even {
        s.substring_ascii(middle_start, middle_end + 1)
    } else {
        s.substring_ascii(middle_start + 1, middle_end + 1)
    }
}

} // verus!
