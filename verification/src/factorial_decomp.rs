//! Rendering the prime decomposition of a factorial computed with wrapping
//! multiplication, as a string such as `2^10 * 3^5 * 5^2 * 7 * 11`.
use vstd::prelude::*;

verus! {

use vstd::arithmetic::power::pow;
use vstd::arithmetic::power2::pow2;
use crate::primes::{least_divisor_from, lemma_least_divisor_from, lemma_least_divisor_is,
    lemma_divisor_of_quotient};
use crate::text::{chars_to_string, spec_digits_of, spec_join, join_with, u64_digits};

/// The modulus of machine-word arithmetic.
pub open spec fn word_range() -> nat {
    usize::MAX as nat + 1
}

/// The factorial of `n` as the fold of wrapping multiplications over
/// `2..=n`, exactly as machine words compute it.
pub open spec fn spec_wrapped_factorial(n: int) -> nat
    decreases n,
{
    if n < 2 {
        1
    } else {
        ((spec_wrapped_factorial(n - 1) * n) % (word_range() as int)) as nat
    }
}

/// How many times `p` divides `w`.
pub open spec fn spec_mult(w: nat, p: nat) -> nat
    decreases w
        via spec_mult_decreases
{
    if p < 2 || w < 1 {
        0
    } else if w % p == 0 {
        (1 + spec_mult((w as int / p as int) as nat, p)) as nat
    } else {
        0
    }
}

#[via_fn]
proof fn spec_mult_decreases(w: nat, p: nat) {
    if !(p < 2 || w < 1) && w % p == 0 {
        assert(0 <= (w as int / p as int) < w) by (nonlinear_arith)
            requires
                p >= 2,
                w >= 1,
        ;
    }
}

/// The prime decomposition of `w`: pairs of a prime and its exponent, in
/// increasing order of the prime, whose powers multiply to `w`.
pub open spec fn spec_factorization(w: nat) -> Seq<(nat, nat)>
    decreases w
        via spec_factorization_decreases
{
    if w <= 1 {
        Seq::empty()
    } else {
        let p = least_divisor_from(w as int, 2) as nat;
        let e = spec_mult(w, p);
        if p < 2 || e < 1 {
            Seq::empty()
        } else {
            seq![(p, e)] + spec_factorization((w as int / pow(p as int, e)) as nat)
        }
    }
}

#[via_fn]
proof fn spec_factorization_decreases(w: nat) {
    if w > 1 {
        let p = least_divisor_from(w as int, 2) as nat;
        let e = spec_mult(w, p);
        if !(p < 2 || e < 1) {
            vstd::arithmetic::power::lemma_pow_positive(p as int, e);
            assert(pow(p as int, e) >= 2) by {
                vstd::arithmetic::power::lemma_pow_increases(p, 1, e);
                assert(pow(p as int, 1) == p) by {
                    vstd::arithmetic::power::lemma_pow1(p as int);
                }
            }
            assert(0 <= (w as int / pow(p as int, e)) < w) by (nonlinear_arith)
                requires
                    pow(p as int, e) >= 2,
                    w >= 2,
            ;
        }
    }
}

/// The pairs as mathematical values.
pub open spec fn pairs_view(s: Seq<(u64, u32)>) -> Seq<(nat, nat)> {
    Seq::new(s.len(), |i: int| (s[i].0 as nat, s[i].1 as nat))
}

/// One rendered factor: the prime, and its exponent after a caret when the
/// exponent is more than one.
pub open spec fn spec_factor_text(pr: (nat, nat)) -> Seq<char> {
    if pr.1 == 1 {
        spec_digits_of(pr.0)
    } else {
        spec_digits_of(pr.0) + seq!['^'] + spec_digits_of(pr.1)
    }
}

/// Each factor of the decomposition, rendered.
pub open spec fn spec_factor_texts(fac: Seq<(nat, nat)>) -> Seq<Seq<char>> {
    Seq::new(fac.len(), |i: int| spec_factor_text(fac[i]))
}

/// The rendered decomposition: the factors joined with ` * `.
pub open spec fn spec_decomp_text(w: nat) -> Seq<char> {
    if spec_factorization(w).len() == 0 {
        Seq::empty()
    } else {
        spec_join(spec_factor_texts(spec_factorization(w)), seq![' ', '*', ' '])
    }
}

/// Computes the factorial of `n` in wrapping machine arithmetic, the fold
/// of `2..=n`.
pub fn wrapped_factorial(n: i32) -> (w: usize)
    requires
        n < i32::MAX,
    ensures
        w == spec_wrapped_factorial(n as int),
{
    let mut acc: usize = 1;
    let mut i: i32 = 2;
    if n < 2 {
        return 1;
    }
    while i <= n
        invariant
            2 <= i,
            n < i32::MAX,
            i <= n + 1,
            acc == spec_wrapped_factorial(i - 1),
        decreases n + 1 - i,
    {
        acc = acc.wrapping_mul(i as usize);
        proof {
            assert(acc == spec_wrapped_factorial(i as int));
        }
        i = i + 1;
    }
    acc
}

/// Two to the multiplicity of `p` in `w` is at most `w`.
proof fn lemma_mult_small(w: nat, p: nat)
    requires
        w >= 1,
        p >= 2,
    ensures
        pow2(spec_mult(w, p)) <= w,
    decreases w,
{
    vstd::arithmetic::power2::lemma_pow2_unfold(1);
    vstd::arithmetic::power2::lemma2_to64();
    if w % p == 0 {
        let q = (w as int / p as int) as nat;
        assert(w as int == (w as int / p as int) * p) by {
            vstd::arithmetic::div_mod::lemma_fundamental_div_mod(w as int, p as int);
        }
        assert(1 <= q) by (nonlinear_arith)
            requires
                w as int == q * p,
                w >= 1,
                p >= 2,
        ;
        assert(q < w) by (nonlinear_arith)
            requires
                w as int == q * p,
                p >= 2,
                q >= 1,
        ;
        lemma_mult_small(q, p);
        assert(pow2(spec_mult(w, p)) == 2 * pow2(spec_mult(q, p))) by {
            vstd::arithmetic::power2::lemma_pow2_unfold(spec_mult(w, p));
        }
        assert(2 * q <= w) by (nonlinear_arith)
            requires
                w as int == q * p,
                p >= 2,
                q >= 1,
        ;
    }
}

/// The multiplicity of `p` in a 64-bit word is below 64.
proof fn lemma_mult_bound(w: nat, p: nat)
    requires
        1 <= w <= u64::MAX,
        p >= 2,
    ensures
        spec_mult(w, p) < 64,
{
    lemma_mult_small(w, p);
    if spec_mult(w, p) >= 64 {
        assert(pow2(64) <= pow2(spec_mult(w, p))) by {
            if spec_mult(w, p) > 64 {
                vstd::arithmetic::power2::lemma_pow2_strictly_increases(64, spec_mult(w, p));
            }
        }
        vstd::arithmetic::power2::lemma2_to64_rest();
    }
}

/// Factors `w` by trial division with ascending candidates, collecting each
/// prime once with its exponent; the pairs come out in increasing prime
/// order and their powers multiply back to `w`. Inputs below two yield no
/// pairs.
pub fn factorize(w: u64) -> (pairs: Vec<(u64, u32)>)
    ensures
        pairs_view(pairs@) == spec_factorization(w as nat),
{
    let mut pairs: Vec<(u64, u32)> = Vec::new();
    let mut num: u64 = w;
    let mut i: u64 = 2;
    proof {
        assert(pairs_view(pairs@) =~= Seq::<(nat, nat)>::empty());
    }
    while i <= num
        invariant
            2 <= i,
            num <= w,
            spec_factorization(w as nat) == pairs_view(pairs@) + spec_factorization(num as nat),
            forall|d: int| 2 <= d < i ==> #[trigger] ((num as int) % d) != 0,
        decreases num, num + 2 - i,
    {
        let ghost i0 = i as int;
        let ghost num0 = num as int;
        if num % i == 0 {
            // i is the least divisor of num, hence the next prime factor
            let mut k: u32 = 0;
            let ghost entry = num as int;
            proof {
                lemma_mult_bound(num as nat, i as nat);
                vstd::arithmetic::power::lemma_pow0(i as int);
            }
            while num % i == 0
                invariant
                    2 <= i,
                    1 <= num <= entry,
                    entry <= w,
                    spec_mult(num as nat, i as nat) + k == spec_mult(entry as nat, i as nat),
                    spec_mult(entry as nat, i as nat) < 64,
                    pow(i as int, k as nat) >= 1,
                    entry == (num as int) * pow(i as int, k as nat),
                    num as int == entry / pow(i as int, k as nat),
                    forall|d: int| 2 <= d < i ==> #[trigger] ((num as int) % d) != 0,
                decreases num,
            {
                proof {
                    assert(i <= num) by (nonlinear_arith)
                        requires
                            num % i == 0,
                            num >= 1,
                            i >= 2,
                    ;
                    assert(num as int == (num as int / i as int) * i) by {
                        vstd::arithmetic::div_mod::lemma_fundamental_div_mod(
                            num as int,
                            i as int,
                        );
                    }
                    let q = num as int / i as int;
                    assert(1 <= q < num) by (nonlinear_arith)
                        requires
                            num as int == q * i,
                            num >= 1,
                            i >= 2,
                    ;
                    assert forall|d: int| 2 <= d < i implies #[trigger] (q % d) != 0 by {
                        if q % d == 0 {
                            lemma_divisor_of_quotient(num as int, i as int, d);
                        }
                    }
                    assert(pow(i as int, (k + 1) as nat) == pow(i as int, k as nat) * i) by {
                        vstd::arithmetic::power::lemma_pow1(i as int);
                        vstd::arithmetic::power::lemma_pow_adds(i as int, k as nat, 1);
                    }
                    assert(entry == q * (pow(i as int, k as nat) * i)) by (nonlinear_arith)
                        requires
                            entry == (num as int) * pow(i as int, k as nat),
                            num as int == q * i,
                    ;
                    assert(pow(i as int, (k + 1) as nat) >= 1) by (nonlinear_arith)
                        requires
                            pow(i as int, k as nat) >= 1,
                            i >= 2,
                            pow(i as int, (k + 1) as nat) == pow(i as int, k as nat) * i,
                    ;
                    assert(q == entry / pow(i as int, (k + 1) as nat)) by {
                        vstd::arithmetic::div_mod::lemma_fundamental_div_mod_converse(
                            entry,
                            pow(i as int, (k + 1) as nat),
                            q,
                            0,
                        );
                        assert(entry == q * pow(i as int, (k + 1) as nat) + 0)
                            by (nonlinear_arith)
                            requires
                                entry == q * (pow(i as int, k as nat) * i),
                                pow(i as int, (k + 1) as nat) == pow(i as int, k as nat) * i,
                        ;
                    }
                }
                num = num / i;
                k = k + 1;
            }
            pairs.push((i, k));
            proof {
                // the factorization of the block's entry value starts with
                // (i, k) and continues with the factorization of num
                assert(k >= 1);
                lemma_least_divisor_is(entry, 2, i0);
                assert(spec_mult(entry as nat, i as nat) == k as nat) by {
                    assert(spec_mult(num as nat, i as nat) == 0);
                }
                assert(spec_factorization(entry as nat) == seq![(i as nat, k as nat)]
                    + spec_factorization(num as nat)) by {
                    assert(entry >= 2);
                    assert(least_divisor_from(entry, 2) == i0);
                }
                let ghost old_pairs = pairs@.drop_last();
                assert(pairs_view(pairs@) =~= pairs_view(old_pairs).push((i as nat, k as nat)));
                assert(pairs_view(old_pairs) + (seq![(i as nat, k as nat)]
                    + spec_factorization(num as nat)) =~= pairs_view(old_pairs).push(
                    (i as nat, k as nat),
                ) + spec_factorization(num as nat));
            }
        }
        proof {
            // the candidate can never reach the largest word, which is a
            // multiple of three and would have been divided out long before
            if i == u64::MAX {
                assert((u64::MAX as int) % 3 == 0);
                assert(false);
            }
        }
        i = i + 1;
    }
    proof {
        if num >= 2 {
            assert((num as int) % (num as int) == 0) by (nonlinear_arith)
                requires
                    num >= 2,
            ;
        }
        assert(num <= 1);
        assert(spec_factorization(num as nat) =~= Seq::<(nat, nat)>::empty());
        assert(pairs_view(pairs@) + Seq::<(nat, nat)>::empty() =~= pairs_view(pairs@));
    }
    pairs
}

/// Renders the prime decomposition of the wrapping-arithmetic factorial of
/// `n`: each prime with a caret and its exponent when that is above one,
/// factors joined with ` * `. A factorial that wraps to zero or one yields
/// the empty string.
pub fn decomp(n: i32) -> (r: String)
    requires
        n < i32::MAX,
    ensures
        r@ == spec_decomp_text(spec_wrapped_factorial(n as int)),
{
    let w = wrapped_factorial(n);
    let w64 = w as u64;
    let pairs = factorize(w64);
    let mut parts: Vec<Vec<char>> = Vec::new();
    let ghost fac = spec_factorization(w64 as nat);
    let mut j: usize = 0;
    while j < pairs.len()
        invariant
            j <= pairs@.len(),
            fac == pairs_view(pairs@),
            parts.deep_view() == spec_factor_texts(fac.take(j as int)),
        decreases pairs@.len() - j,
    {
        let (p, e) = pairs[j];
        let mut part = u64_digits(p);
        if e != 1 {
            part.push('^');
            let epart = u64_digits(e as u64);
            crate::text::append_chars(&mut part, &epart);
        }
        let ghost oldparts = parts.deep_view();
        parts.push(part);
        proof {
            assert(fac[j as int] == (p as nat, e as nat));
            assert(part@ =~= spec_factor_text((p as nat, e as nat)));
            assert(fac.take(j as int + 1) =~= fac.take(j as int).push(fac[j as int]));
            assert(parts.deep_view() =~~= oldparts.push(part@));
            assert(spec_factor_texts(fac.take(j as int + 1)) =~~= spec_factor_texts(
                fac.take(j as int),
            ).push(spec_factor_text(fac[j as int])));
        }
        j = j + 1;
    }
    proof {
        assert(fac.take(fac.len() as int) =~= fac);
    }
    if parts.len() == 0 {
        return String::new();
    }
    let mut sep: Vec<char> = Vec::new();
    sep.push(' ');
    sep.push('*');
    sep.push(' ');
    let joined = join_with(&parts, &sep);
    proof {
        assert(sep@ =~= seq![' ', '*', ' ']);
    }
    chars_to_string(&joined)
}

} // verus!
