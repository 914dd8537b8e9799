//! A tiny bit-flipping machine: an endless instruction tape is consumed,
//! and each data bit is flipped once per leading `1` instruction before a
//! stopping instruction is consumed.
use vstd::prelude::*;

verus! {

use crate::text::{chars_to_string, str_to_chars};

/// The position after `p` on a tape of length `len`, wrapping at the end.
pub open spec fn next_pos(p: int, len: int) -> int {
    if p + 1 == len {
        0
    } else {
        p + 1
    }
}

/// How many `1` instructions appear on the cyclic tape from position `p`
/// before another character, giving up after `fuel` steps.
pub open spec fn ones_from(t: Seq<char>, p: int, fuel: nat) -> nat
    decreases fuel,
{
    if fuel == 0 || !(0 <= p < t.len()) {
        0
    } else if t[p] != '1' {
        0
    } else {
        1 + ones_from(t, next_pos(p, t.len() as int), (fuel - 1) as nat)
    }
}

/// The run of `1` instructions from `p`; on a tape with a stopping
/// character one lap of fuel always suffices.
pub open spec fn spec_run(t: Seq<char>, p: int) -> nat {
    ones_from(t, p, t.len())
}

/// A tape on which every run of `1` instructions ends.
pub open spec fn tape_stops(t: Seq<char>) -> bool {
    exists|z: int| 0 <= z < t.len() && t[z] != '1'
}

/// The cyclic distance from `p` forward to `z`.
spec fn dist_to(p: int, z: int, len: int) -> int {
    if z >= p {
        z - p
    } else {
        z - p + len
    }
}

/// The run from `p` stops by the first non-`1` at the latest, so a lap of
/// fuel is exact and the run satisfies its defining equations.
proof fn lemma_run_le_dist(t: Seq<char>, p: int, fuel: nat, z: int)
    requires
        0 <= p < t.len(),
        0 <= z < t.len(),
        t[z] != '1',
    ensures
        ones_from(t, p, fuel) <= dist_to(p, z, t.len() as int),
    decreases fuel,
{
    if fuel > 0 && t[p] == '1' {
        assert(p != z);
        lemma_run_le_dist(t, next_pos(p, t.len() as int), (fuel - 1) as nat, z);
    }
}

/// More fuel does not change a count that came in under budget.
proof fn lemma_ones_fuel(t: Seq<char>, p: int, f1: nat, f2: nat)
    requires
        ones_from(t, p, f1) < f1,
        f1 <= f2,
    ensures
        ones_from(t, p, f1) == ones_from(t, p, f2),
    decreases f1,
{
    if 0 <= p < t.len() && t[p] == '1' {
        lemma_ones_fuel(t, next_pos(p, t.len() as int), (f1 - 1) as nat, (f2 - 1) as nat);
    }
}

/// The run's defining equations, available whenever the tape stops.
pub proof fn lemma_run(t: Seq<char>, p: int)
    requires
        0 <= p < t.len(),
        tape_stops(t),
    ensures
        spec_run(t, p) < t.len(),
        t[p] != '1' ==> spec_run(t, p) == 0,
        t[p] == '1' ==> spec_run(t, p) == 1 + spec_run(t, next_pos(p, t.len() as int)),
    decreases t.len(),
{
    let z = choose|z: int| 0 <= z < t.len() && t[z] != '1';
    lemma_run_le_dist(t, p, t.len(), z);
    assert(dist_to(p, z, t.len() as int) < t.len());
    if t[p] == '1' {
        let q = next_pos(p, t.len() as int);
        lemma_run_le_dist(t, q, (t.len() - 1) as nat, z);
        lemma_ones_fuel(t, q, (t.len() - 1) as nat, t.len());
    }
}

/// Stepping a number forward moves its remainder to the next cyclic
/// position.
proof fn lemma_mod_incr(a: int, len: int)
    requires
        len >= 1,
        a >= 0,
    ensures
        (a + 1) % len == next_pos(a % len, len),
{
    let q = a / len;
    let m = a % len;
    vstd::arithmetic::div_mod::lemma_fundamental_div_mod(a, len);
    assert(0 <= m < len) by (nonlinear_arith)
        requires
            len >= 1,
            m == a % len,
            a >= 0,
    ;
    if m + 1 == len {
        assert(a + 1 == (q + 1) * len + 0) by (nonlinear_arith)
            requires
                a == q * len + m,
                m + 1 == len,
        ;
        vstd::arithmetic::div_mod::lemma_fundamental_div_mod_converse(a + 1, len, q + 1, 0);
    } else {
        assert(a + 1 == q * len + (m + 1));
        vstd::arithmetic::div_mod::lemma_fundamental_div_mod_converse(a + 1, len, q, m + 1);
    }
}

/// The data character after `n` flips: a flip turns `0` into `1` and
/// anything else into `0`.
pub open spec fn flip_n(c: char, n: nat) -> char
    decreases n,
{
    if n == 0 {
        c
    } else if flip_n(c, (n - 1) as nat) == '0' {
        '1'
    } else {
        '0'
    }
}

/// The machine after the first `k` data characters: the output written so
/// far and the tape position. Each data character is flipped once per `1`
/// in the tape run at the current position, and the run and its stopping
/// instruction are consumed.
pub open spec fn interp_state(t: Seq<char>, data: Seq<char>, k: int) -> (Seq<char>, int)
    decreases k,
{
    if k <= 0 {
        (Seq::empty(), 0)
    } else {
        let (out, p) = interp_state(t, data, k - 1);
        let r = spec_run(t, p);
        (out.push(flip_n(data[k - 1], r)), next_pos((p + r) % t.len() as int, t.len() as int))
    }
}

/// Runs the machine over the whole data string.
pub open spec fn spec_interpreter(t: Seq<char>, data: Seq<char>) -> Seq<char> {
    interp_state(t, data, data.len() as int).0
}

/// Interprets the instruction tape over the data bits: for each data
/// character the machine consumes instructions, flipping the character for
/// every `1`, until it consumes a stopping instruction. With no data at
/// all the tape is never consulted, so only a machine with data needs a
/// stopping instruction.
pub fn interpreter(tape: &str, data: &str) -> (r: String)
    requires
        data@.len() == 0 || tape_stops(tape@),
    ensures
        r@ == spec_interpreter(tape@, data@),
{
    let t = str_to_chars(tape);
    let bits = str_to_chars(data);
    if bits.len() == 0 {
        let out: Vec<char> = Vec::new();
        return chars_to_string(&out);
    }
    let tlen = t.len();
    let mut out: Vec<char> = Vec::new();
    let mut pos: usize = 0;
    let mut i: usize = 0;
    proof {
        let z = choose|z: int| 0 <= z < tape@.len() && tape@[z] != '1';
        assert(tape@.len() >= 1);
    }
    while i < bits.len()
        invariant
            i <= bits@.len(),
            t@ == tape@,
            bits@ == data@,
            tlen == tape@.len(),
            tape@.len() >= 1,
            tape_stops(tape@),
            0 <= pos < tlen,
            (out@, pos as int) == interp_state(tape@, data@, i as int),
        decreases bits@.len() - i,
    {
        let mut c = bits[i];
        let ghost p0 = pos as int;
        let ghost r = spec_run(tape@, p0);
        let ghost mut f: nat = 0;
        proof {
            lemma_run(tape@, p0);
            vstd::arithmetic::div_mod::lemma_small_mod(p0 as nat, tape@.len());
        }
        while t[pos] == '1'
            invariant
                t@ == tape@,
                tlen == tape@.len(),
                tape@.len() >= 1,
                tape_stops(tape@),
                0 <= pos < tlen,
                f <= r,
                r < tape@.len(),
                c == flip_n(data@[i as int], f),
                i < data@.len(),
                bits@ == data@,
                pos as int == (p0 + f) % tape@.len() as int,
                0 <= p0 < tape@.len(),
                r == spec_run(tape@, p0),
                spec_run(tape@, pos as int) == r - f,
            decreases r - f,
        {
            proof {
                lemma_run(tape@, pos as int);
            }
            if c == '0' {
                c = '1';
            } else {
                c = '0';
            }
            let newpos = if pos + 1 == tlen {
                0
            } else {
                pos + 1
            };
            proof {
                assert(newpos as int == next_pos(pos as int, tape@.len() as int));
                lemma_mod_incr(p0 + f, tape@.len() as int);
            }
            pos = newpos;
            proof {
                f = f + 1;
            }
        }
        proof {
            lemma_run(tape@, pos as int);
            assert(spec_run(tape@, pos as int) == 0);
            assert(f == r);
        }
        let newpos = if pos + 1 == tlen {
            0
        } else {
            pos + 1
        };
        pos = newpos;
        out.push(c);
        proof {
            let st = interp_state(tape@, data@, i as int + 1);
            assert(st.0 == interp_state(tape@, data@, i as int).0.push(
                flip_n(data@[i as int], spec_run(tape@, p0)),
            ));
            assert(out@ =~= st.0);
            assert(pos as int == next_pos((p0 + r) % tape@.len() as int, tape@.len() as int));
        }
        i = i + 1;
    }
    proof {
        assert(out@ == spec_interpreter(tape@, data@));
    }
    chars_to_string(&out)
}

} // verus!
