//! Checking that a string holds as many of one letter as of another,
//! regardless of case.
use vstd::prelude::*;

verus! {

use crate::text::str_to_chars;

/// The number of `x` characters, in either case.
pub open spec fn count_x(s: Seq<char>) -> int
    decreases s.len(),
{
    if s.len() == 0 {
        0
    } else {
        count_x(s.drop_last()) + if s.last() == 'x' || s.last() == 'X' {
            1int
        } else {
            0int
        }
    }
}

/// The number of `o` characters, in either case.
pub open spec fn count_o(s: Seq<char>) -> int
    decreases s.len(),
{
    if s.len() == 0 {
        0
    } else {
        count_o(s.drop_last()) + if s.last() == 'o' || s.last() == 'O' {
            1int
        } else {
            0int
        }
    }
}

/// Whether the string holds as many `x` as `o`, counting both cases; the
/// counts are made after lowercasing, which only the two cases of each
/// letter reach.
pub fn xo(string: &'static str) -> (r: bool)
    requires
        string@.len() < 0x80000000,
    ensures
        r == (count_x(string@) == count_o(string@)),
{
    let mut total_x: i32 = 0;
    let mut total_o: i32 = 0;
    let parsed = str_to_chars(string);
    let mut i: usize = 0;
    while i < parsed.len()
        invariant
            i <= parsed@.len(),
            parsed@ == string@,
            string@.len() < 0x80000000,
            total_x == count_x(string@.take(i as int)),
            total_o == count_o(string@.take(i as int)),
            0 <= total_x <= i,
            0 <= total_o <= i,
        decreases parsed@.len() - i,
    {
        let c = parsed[i];
        proof {
            assert(string@.take(i as int + 1).drop_last() =~= string@.take(i as int));
            assert(string@.take(i as int + 1).last() == string@[i as int]);
        }
        if c == 'x' || c == 'X' {
            total_x = total_x + 1;
        } else if c == 'o' || c == 'O' {
            total_o = total_o + 1;
        }
        i = i + 1;
    }
    proof {
        assert(string@.take(string@.len() as int) =~= string@);
    }
    total_x == total_o
}

/// The single-pass form: one running difference instead of two counters.
pub fn another_xo(string: &'static str) -> (r: bool)
    requires
        string@.len() < 0x80000000,
    ensures
        r == (count_x(string@) == count_o(string@)),
{
    let parsed = str_to_chars(string);
    let mut a: i32 = 0;
    let mut i: usize = 0;
    while i < parsed.len()
        invariant
            i <= parsed@.len(),
            parsed@ == string@,
            string@.len() < 0x80000000,
            a == count_x(string@.take(i as int)) - count_o(string@.take(i as int)),
            0 <= count_x(string@.take(i as int)) <= i,
            0 <= count_o(string@.take(i as int)) <= i,
        decreases parsed@.len() - i,
    {
        let c = parsed[i];
        proof {
            assert(string@.take(i as int + 1).drop_last() =~= string@.take(i as int));
            assert(string@.take(i as int + 1).last() == string@[i as int]);
        }
        if c == 'x' || c == 'X' {
            a = a + 1;
        } else if c == 'o' || c == 'O' {
            a = a - 1;
        }
        i = i + 1;
    }
    proof {
        assert(string@.take(string@.len() as int) =~= string@);
    }
    a == 0
}

} // verus!
