//! Small language-feature exercises: branching into a value, loops that
//! produce values, borrowing, slices and struct building.
use vstd::prelude::*;

verus! {

use crate::text::{first_index_of, lemma_first_index_of};

/// Picks two when asked, and eight otherwise.
pub fn if_let_statement(for_you: bool) -> (r: i8)
    ensures
        r == if for_you {
            2int
        } else {
            8int
        },
{
    let lets_see: i8 = if for_you {
        2
    } else {
        8
    };
    return lets_see;
}

/// A character for a quick laugh.
pub fn str_for_you() -> (r: char)
    ensures
        r == 'e',
{
    'e'
}

/// Counts to ten and doubles the count on the way out.
#[allow(non_snake_case)]
pub fn _loop_forever()
{
    let mut counter: i32 = 0;
    while counter != 10
        invariant
            0 <= counter <= 10,
        decreases 10 - counter,
    {
        counter = counter + 1;
    }
    let result = counter * 2;
    assert(result == 20);
}

/// The length of an ASCII string, in characters.
pub fn calculate_length(s: &String) -> (l: usize)
    ensures
        l == s@.len(),
{
    s.as_str().unicode_len()
}

/// Appends `, world` to the string.
pub fn change(some_string: &mut String)
    ensures
        final(some_string)@ == old(some_string)@ + seq![',', ' ', 'w', 'o', 'r', 'l', 'd'],
{
    some_string.append(", world");
    proof {
        reveal_strlit(", world");
        assert(final(some_string)@ =~= old(some_string)@ + seq![
            ',',
            ' ',
            'w',
            'o',
            'r',
            'l',
            'd',
        ]);
    }
}

/// The word before the first space, or the whole string when it has no
/// space.
pub fn first_word(s: &String) -> (r: &str)
    ensures
        first_index_of(s@, ' ') == -1 ==> r@ == s@,
        first_index_of(s@, ' ') != -1 ==> r@ == s@.subrange(0, first_index_of(s@, ' ')),
{
    let n = s.as_str().unicode_len();
    let mut i: usize = 0;
    proof {
        lemma_first_index_of(s@, ' ');
    }
    while i < n
        invariant
            i <= n,
            n == s@.len(),
            forall|j: int| 0 <= j < i ==> s@[j] != ' ',
            first_index_of(s@, ' ') == -1 ==> forall|j: int| 0 <= j < s@.len() ==> s@[j] != ' ',
            first_index_of(s@, ' ') != -1 ==> {
                let f = first_index_of(s@, ' ');
                &&& 0 <= f < s@.len()
                &&& s@[f] == ' '
                &&& forall|j: int| 0 <= j < f ==> s@[j] != ' '
            },
        decreases n - i,
    {
        let c = s.as_str().get_char(i);
        if c == ' ' {
            proof {
                assert(first_index_of(s@, ' ') == i);
            }
            return s.as_str().substring_char(0, i);
        }
        i = i + 1;
    }
    proof {
        if first_index_of(s@, ' ') != -1 {
            let f = first_index_of(s@, ' ');
            assert(s@[f] != ' ');
        }
    }
    s.as_str()
}

/// An account holder.
#[derive(Debug)]
pub struct User {
    pub username: String,
    pub email: String,
    pub sign_in_count: u64,
    pub active: bool,
}

/// Builds a fresh, active user with a single sign-in.
pub fn build_user(email: String, username: String) -> (u: User)
    ensures
        u.email@ == email@,
        u.username@ == username@,
        u.sign_in_count == 1,
        u.active == true,
{
    User { username, email, sign_in_count: 1, active: true }
}

} // verus!
