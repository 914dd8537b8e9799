//! A memoising wrapper around a calculation, and the workout planner that
//! uses it.
use vstd::prelude::*;

verus! {

use std::collections::HashMap;
use crate::text::{append_chars, chars_to_string, u64_digits};

/// Remembers the results of a calculation keyed by its argument, so that
/// each argument is computed at most once.
pub struct Cacher<T> where T: Fn(u32) -> u32 {
    calculation: T,
    value: HashMap<u32, u32>,
}

impl<T> Cacher<T> where T: Fn(u32) -> u32 {
    /// Every remembered value is one the calculation could have returned
    /// for its key.
    pub closed spec fn wf(&self) -> bool {
        forall|k: u32|
            self.value@.contains_key(k) ==> call_ensures(self.calculation, (k,), self.value@[k])
    }

    /// The calculation being cached.
    pub closed spec fn spec_calculation(&self) -> T {
        self.calculation
    }

    /// The remembered results, keyed by their arguments.
    pub closed spec fn spec_cache(&self) -> Map<u32, u32> {
        self.value@
    }

    /// Wraps a calculation with an empty cache.
    pub fn new(calculation: T) -> (c: Cacher<T>)
        ensures
            c.wf(),
            c.spec_calculation() == calculation,
            c.spec_cache() == Map::<u32, u32>::empty(),
    {
        Cacher { calculation, value: HashMap::new() }
    }

    /// The calculation's result for `arg`: computed and stored on the
    /// first request, and replayed unchanged from the cache afterwards;
    /// no other stored entry moves.
    pub fn value(&mut self, arg: u32) -> (v: u32)
        requires
            old(self).wf(),
            call_requires(old(self).spec_calculation(), (arg,)),
        ensures
            final(self).wf(),
            final(self).spec_calculation() == old(self).spec_calculation(),
            call_ensures(final(self).spec_calculation(), (arg,), v),
            final(self).spec_cache() == old(self).spec_cache().insert(arg, v),
            old(self).spec_cache().contains_key(arg) ==> v == old(self).spec_cache()[arg],
    {
        match self.value.get(&arg) {
            Some(v) => {
                proof {
                    assert(self.value@.insert(arg, *v) =~= self.value@);
                }
                *v
            },
            None => {
                let v = (self.calculation)(arg);
                self.value.insert(arg, v);
                v
            },
        }
    }
}

/// One line of the workout plan for the given intensity.
pub open spec fn spec_pushups_line(n: nat) -> Seq<char> {
    seq!['T', 'o', 'd', 'a', 'y', ',', ' ', 'd', 'o', ' '] + crate::text::spec_digits_of(n)
        + seq![' ', 'p', 'u', 's', 'h', 'u', 'p', 's', '!']
}

pub open spec fn spec_situps_line(n: nat) -> Seq<char> {
    seq!['N', 'e', 'x', 't', ',', ' ', 'd', 'o', ' '] + crate::text::spec_digits_of(n) + seq![
        ' ',
        's',
        'i',
        't',
        'u',
        'p',
        's',
        '!',
    ]
}

pub open spec fn spec_break_line() -> Seq<char> {
    seq![
        'T', 'a', 'k', 'e', ' ', 'a', ' ', 'b', 'r', 'e', 'a', 'k', ' ', 't', 'o', 'd', 'a',
        'y', '!', ' ', 'R', 'e', 'm', 'e', 'm', 'b', 'e', 'r', ' ', 't', 'o', ' ', 's', 't',
        'a', 'y', ' ', 'h', 'y', 'd', 'r', 'a', 't', 'e', 'd', '!',
    ]
}

pub open spec fn spec_run_line(n: nat) -> Seq<char> {
    seq!['T', 'o', 'd', 'a', 'y', ',', ' ', 'r', 'u', 'n', ' ', 'f', 'o', 'r', ' ']
        + crate::text::spec_digits_of(n) + seq![' ', 'm', 'i', 'n', 'u', 't', 'e', 's', '!']
}

/// The lines of the plan: light intensity asks for push-ups and sit-ups, a
/// lucky random number grants a break, and anything else is a run.
pub open spec fn spec_workout_plan(intensity: nat, random_number: nat) -> Seq<Seq<char>> {
    if intensity < 25 {
        seq![spec_pushups_line(intensity), spec_situps_line(intensity)]
    } else if random_number == 3 {
        seq![spec_break_line()]
    } else {
        seq![spec_run_line(intensity)]
    }
}

fn pushups_line(n: u32) -> (r: String)
    ensures
        r@ == spec_pushups_line(n as nat),
{
    let mut out: Vec<char> = Vec::new();
    out.push('T');
    out.push('o');
    out.push('d');
    out.push('a');
    out.push('y');
    out.push(',');
    out.push(' ');
    out.push('d');
    out.push('o');
    out.push(' ');
    let digits = u64_digits(n as u64);
    append_chars(&mut out, &digits);
    out.push(' ');
    out.push('p');
    out.push('u');
    out.push('s');
    out.push('h');
    out.push('u');
    out.push('p');
    out.push('s');
    out.push('!');
    proof {
        assert(out@ =~= spec_pushups_line(n as nat));
    }
    chars_to_string(&out)
}

fn situps_line(n: u32) -> (r: String)
    ensures
        r@ == spec_situps_line(n as nat),
{
    let mut out: Vec<char> = Vec::new();
    out.push('N');
    out.push('e');
    out.push('x');
    out.push('t');
    out.push(',');
    out.push(' ');
    out.push('d');
    out.push('o');
    out.push(' ');
    let digits = u64_digits(n as u64);
    append_chars(&mut out, &digits);
    out.push(' ');
    out.push('s');
    out.push('i');
    out.push('t');
    out.push('u');
    out.push('p');
    out.push('s');
    out.push('!');
    proof {
        assert(out@ =~= spec_situps_line(n as nat));
    }
    chars_to_string(&out)
}

fn break_line() -> (r: String)
    ensures
        r@ == spec_break_line(),
{
    let mut out: Vec<char> = Vec::new();
    out.push('T');
    out.push('a');
    out.push('k');
    out.push('e');
    out.push(' ');
    out.push('a');
    out.push(' ');
    out.push('b');
    out.push('r');
    out.push('e');
    out.push('a');
    out.push('k');
    out.push(' ');
    out.push('t');
    out.push('o');
    out.push('d');
    out.push('a');
    out.push('y');
    out.push('!');
    out.push(' ');
    out.push('R');
    out.push('e');
    out.push('m');
    out.push('e');
    out.push('m');
    out.push('b');
    out.push('e');
    out.push('r');
    out.push(' ');
    out.push('t');
    out.push('o');
    out.push(' ');
    out.push('s');
    out.push('t');
    out.push('a');
    out.push('y');
    out.push(' ');
    out.push('h');
    out.push('y');
    out.push('d');
    out.push('r');
    out.push('a');
    out.push('t');
    out.push('e');
    out.push('d');
    out.push('!');
    proof {
        assert(out@ =~= spec_break_line());
    }
    chars_to_string(&out)
}

fn run_line(n: u32) -> (r: String)
    ensures
        r@ == spec_run_line(n as nat),
{
    let mut out: Vec<char> = Vec::new();
    out.push('T');
    out.push('o');
    out.push('d');
    out.push('a');
    out.push('y');
    out.push(',');
    out.push(' ');
    out.push('r');
    out.push('u');
    out.push('n');
    out.push(' ');
    out.push('f');
    out.push('o');
    out.push('r');
    out.push(' ');
    let digits = u64_digits(n as u64);
    append_chars(&mut out, &digits);
    out.push(' ');
    out.push('m');
    out.push('i');
    out.push('n');
    out.push('u');
    out.push('t');
    out.push('e');
    out.push('s');
    out.push('!');
    proof {
        assert(out@ =~= spec_run_line(n as nat));
    }
    chars_to_string(&out)
}

/// Builds the workout messages for the day, caching the simulated
/// expensive calculation so it runs at most once per argument.
pub fn generate_workout_plan(intensity: u32, random_number: u32) -> (plan: Vec<String>)
    ensures
        plan.deep_view() == spec_workout_plan(intensity as nat, random_number as nat),
{
    let calc = |num: u32| -> (r: u32)
        ensures
            r == num,
        { num };
    let mut expensive_closure = Cacher::new(calc);
    let mut plan: Vec<String> = Vec::new();
    if intensity < 25 {
        let a = expensive_closure.value(intensity);
        let line1 = pushups_line(a);
        let b = expensive_closure.value(intensity);
        let line2 = situps_line(b);
        plan.push(line1);
        plan.push(line2);
        proof {
            assert(plan.deep_view() =~~= spec_workout_plan(
                intensity as nat,
                random_number as nat,
            ));
        }
    } else if random_number == 3 {
        plan.push(break_line());
        proof {
            assert(plan.deep_view() =~~= spec_workout_plan(
                intensity as nat,
                random_number as nat,
            ));
        }
    } else {
        let a = expensive_closure.value(intensity);
        plan.push(run_line(a));
        proof {
            assert(plan.deep_view() =~~= spec_workout_plan(
                intensity as nat,
                random_number as nat,
            ));
        }
    }
    plan
}

} // verus!
