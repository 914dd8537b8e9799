//! Transcribing a DNA strand into its complement.
use vstd::prelude::*;

verus! {

use crate::text::{chars_to_string, str_to_chars};

/// The complement written for one symbol; anything unrecognised is dropped.
pub open spec fn spec_complement(c: char) -> Seq<char> {
    if c == 'A' {
        seq!['T']
    } else if c == 'T' {
        seq!['A']
    } else if c == 'G' {
        seq!['C']
    } else if c == 'C' {
        seq!['G']
    } else {
        Seq::empty()
    }
}

/// The transcribed strand: each symbol replaced by its complement.
pub open spec fn spec_dna_strand(s: Seq<char>) -> Seq<char>
    decreases s.len(),
{
    if s.len() == 0 {
        Seq::empty()
    } else {
        spec_dna_strand(s.drop_last()) + spec_complement(s.last())
    }
}

/// Transcribes a DNA strand: `A` with `T`, `T` with `A`, `G` with `C`, `C`
/// with `G`; other characters are skipped.
#[allow(non_snake_case)]
pub fn DNA_strand(dna: &str) -> (r: String)
    ensures
        r@ == spec_dna_strand(dna@),
{
    let d = str_to_chars(dna);
    let mut s: Vec<char> = Vec::new();
    let mut i: usize = 0;
    while i < d.len()
        invariant
            i <= d@.len(),
            d@ == dna@,
            s@ == spec_dna_strand(d@.take(i as int)),
        decreases d@.len() - i,
    {
        let c = d[i];
        proof {
            assert(d@.take(i as int + 1).drop_last() =~= d@.take(i as int));
            assert(d@.take(i as int + 1).last() == d@[i as int]);
        }
        if c == 'A' {
            s.push('T');
        } else if c == 'T' {
            s.push('A');
        } else if c == 'G' {
            s.push('C');
        } else if c == 'C' {
            s.push('G');
        }
        proof {
            assert(s@ =~= spec_dna_strand(d@.take(i as int)) + spec_complement(d@[i as int]));
        }
        i = i + 1;
    }
    proof {
        assert(d@.take(d@.len() as int) =~= d@);
    }
    chars_to_string(&s)
}

} // verus!
