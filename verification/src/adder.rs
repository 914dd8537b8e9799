//! A strict rectangle containment check, adding two, and a greeting.
use vstd::prelude::*;

verus! {

use crate::text::{append_chars, chars_to_string, str_to_chars};

/// A rectangle described by its length and width.
#[derive(Debug)]
pub struct Rectangle {
    pub length: u32,
    pub width: u32,
}

impl Rectangle {
    /// Whether this rectangle is strictly larger than the other in both
    /// dimensions.
    pub fn can_hold(&self, other: &Rectangle) -> (r: bool)
        ensures
            r == (self.length > other.length && self.width > other.width),
    {
        self.length > other.length && self.width > other.width
    }
}

/// Adds two.
pub fn add_two(a: i32) -> (r: i32)
    requires
        a + 2 <= i32::MAX,
    ensures
        r == a + 2,
{
    a + 2
}

/// Greets the named person: `Hello NAME!`.
pub fn greeting(name: &str) -> (r: String)
    ensures
        r@ == seq!['H', 'e', 'l', 'l', 'o', ' '] + name@ + seq!['!'],
{
    let mut out: Vec<char> = Vec::new();
    out.push('H');
    out.push('e');
    out.push('l');
    out.push('l');
    out.push('o');
    out.push(' ');
    let chars = str_to_chars(name);
    append_chars(&mut out, &chars);
    out.push('!');
    proof {
        assert(out@ =~= seq!['H', 'e', 'l', 'l', 'o', ' '] + name@ + seq!['!']);
    }
    chars_to_string(&out)
}

} // verus!
