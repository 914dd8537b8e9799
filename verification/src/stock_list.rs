//! Summing warehouse stock by category: each article line names a code and
//! a quantity, and each requested category collects the quantities of the
//! articles whose code opens with it.
use vstd::prelude::*;

verus! {

use vstd::pervasive::VecAdditionalExecFns;
use crate::text::{all_digits, append_chars, chars_to_string, spec_digits_of, spec_digits_val,
    spec_split, split_on_char, str_to_chars, u64_digits, parse_u64_digits};

/// A well-formed article line: at least two space-separated fields, a
/// non-empty code, and a quantity of digits that fits a word.
pub open spec fn wf_art(a: Seq<char>) -> bool {
    let parts = spec_split(a, ' ');
    &&& parts.len() >= 2
    &&& parts[0].len() >= 1
    &&& parts[1].len() >= 1
    &&& all_digits(parts[1])
    &&& spec_digits_val(parts[1]) <= u64::MAX
}

/// The first letter of the article's code.
pub open spec fn art_code(a: Seq<char>) -> char {
    spec_split(a, ' ')[0][0]
}

/// The article's quantity.
pub open spec fn art_qty(a: Seq<char>) -> int {
    spec_digits_val(spec_split(a, ' ')[1])
}

/// The total quantity of the articles whose code opens with the one-letter
/// category `cat`.
pub open spec fn cat_sum(arts: Seq<Seq<char>>, cat: Seq<char>) -> int
    decreases arts.len(),
{
    if arts.len() == 0 {
        0
    } else {
        cat_sum(arts.drop_last(), cat) + if cat == seq![art_code(arts.last())] {
            art_qty(arts.last())
        } else {
            0
        }
    }
}

/// How often `cat` occurs among the first `hi` categories.
pub open spec fn cat_occurrences(cats: Seq<Seq<char>>, cat: Seq<char>, hi: int) -> int
    decreases hi,
{
    if hi <= 0 {
        0
    } else {
        cat_occurrences(cats, cat, hi - 1) + if cats[hi - 1] == cat {
            1int
        } else {
            0int
        }
    }
}

/// The total printed for the category at position `j`: every repetition of
/// a category restarts from the stored total, so the figure grows with
/// each occurrence.
pub open spec fn printed_total(arts: Seq<Seq<char>>, cats: Seq<Seq<char>>, j: int) -> int {
    cat_occurrences(cats, cats[j], j + 1) * cat_sum(arts, cats[j])
}

/// One report entry: `(CAT : N)`.
pub open spec fn spec_entry(cat: Seq<char>, total: nat) -> Seq<char> {
    seq!['('] + cat + seq![' ', ':', ' '] + spec_digits_of(total) + seq![')']
}

/// The whole report: the entries joined with ` - `; an empty article or
/// category list yields an empty report.
pub open spec fn spec_stock_list(arts: Seq<Seq<char>>, cats: Seq<Seq<char>>) -> Seq<char> {
    if arts.len() == 0 || cats.len() == 0 {
        Seq::empty()
    } else {
        spec_join_entries(arts, cats, cats.len() as int)
    }
}

/// The first `hi` entries joined with ` - `.
pub open spec fn spec_join_entries(arts: Seq<Seq<char>>, cats: Seq<Seq<char>>, hi: int) -> Seq<
    char,
>
    decreases hi,
{
    if hi <= 0 {
        Seq::empty()
    } else if hi == 1 {
        spec_entry(cats[0], printed_total(arts, cats, 0) as nat)
    } else {
        spec_join_entries(arts, cats, hi - 1) + seq![' ', '-', ' '] + spec_entry(
            cats[hi - 1],
            printed_total(arts, cats, hi - 1) as nat,
        )
    }
}

/// Quantities are never negative, so category sums grow along the
/// articles.
proof fn lemma_cat_sum_prefix(arts: Seq<Seq<char>>, cat: Seq<char>, k: int)
    requires
        0 <= k <= arts.len(),
        forall|j: int| 0 <= j < arts.len() ==> wf_art(#[trigger] arts[j]),
    ensures
        0 <= cat_sum(arts.take(k), cat) <= cat_sum(arts, cat),
    decreases arts.len() - k,
{
    if k == arts.len() {
        assert(arts.take(k) =~= arts);
        lemma_cat_sum_nonneg(arts, cat);
    } else {
        lemma_cat_sum_prefix(arts, cat, k + 1);
        assert(arts.take(k + 1).drop_last() =~= arts.take(k));
        assert(arts.take(k + 1).last() == arts[k]);
        lemma_cat_sum_nonneg(arts.take(k), cat);
        if cat == seq![art_code(arts[k])] {
            crate::text::lemma_digits_val_nonneg(spec_split(arts[k], ' ')[1]);
        }
    }
}

proof fn lemma_cat_sum_nonneg(arts: Seq<Seq<char>>, cat: Seq<char>)
    requires
        forall|j: int| 0 <= j < arts.len() ==> wf_art(#[trigger] arts[j]),
    ensures
        cat_sum(arts, cat) >= 0,
    decreases arts.len(),
{
    if arts.len() > 0 {
        let d = arts.drop_last();
        assert(forall|j: int| 0 <= j < d.len() ==> #[trigger] d[j] == arts[j]);
        lemma_cat_sum_nonneg(d, cat);
        if cat == seq![art_code(arts.last())] {
            crate::text::lemma_digits_val_nonneg(spec_split(arts.last(), ' ')[1]);
        }
    }
}

fn chars_eq(a: &Vec<char>, b: &Vec<char>) -> (r: bool)
    ensures
        r == (a@ == b@),
{
    if a.len() != b.len() {
        return false;
    }
    let mut i: usize = 0;
    while i < a.len()
        invariant
            i <= a@.len(),
            a@.len() == b@.len(),
            forall|j: int| 0 <= j < i ==> a@[j] == b@[j],
        decreases a@.len() - i,
    {
        if a[i] != b[i] {
            return false;
        }
        i = i + 1;
    }
    proof {
        assert(a@ =~= b@);
    }
    true
}

/// Builds the stock report: for each requested category, in order, the sum
/// of the quantities of the articles whose code opens with that category
/// letter; a repeated category keeps its stored total and adds the sum
/// again. Entries read `(CAT : N)` and are joined with ` - `; with no
/// articles or no categories the report is empty.
pub fn stock_list(list_art: Vec<&str>, list_cat: Vec<&str>) -> (r: String)
    requires
        forall|j: int| 0 <= j < list_art@.len() ==> wf_art(#[trigger] list_art@[j]@),
        forall|j: int|
            0 <= j < list_cat@.len() ==> 0 <= #[trigger] printed_total(
                list_art.deep_view(),
                list_cat.deep_view(),
                j,
            ) <= u64::MAX,
    ensures
        r@ == spec_stock_list(list_art.deep_view(), list_cat.deep_view()),
{
    let ghost arts = list_art.deep_view();
    let ghost cats = list_cat.deep_view();
    if list_art.len() == 0 || list_cat.len() == 0 {
        let empty: Vec<char> = Vec::new();
        return chars_to_string(&empty);
    }
    // parse each article into its code letter and quantity
    let mut codes: Vec<(char, u64)> = Vec::new();
    let mut i: usize = 0;
    while i < list_art.len()
        invariant
            i <= list_art@.len(),
            arts == list_art.deep_view(),
            arts.len() == list_art@.len(),
            forall|j: int| 0 <= j < arts.len() ==> wf_art(#[trigger] arts[j]),
            codes@.len() == i,
            forall|j: int|
                0 <= j < i ==> #[trigger] codes@[j] == (art_code(arts[j]), art_qty(
                    arts[j],
                ) as u64),
        decreases list_art@.len() - i,
    {
        proof {
            assert(arts[i as int] == list_art@[i as int]@);
        }
        let chars = str_to_chars(list_art[i]);
        let parts = split_on_char(&chars, ' ');
        proof {
            assert(parts.deep_view() == spec_split(arts[i as int], ' '));
            assert(parts.deep_view()[0] == parts@[0]@);
            assert(parts.deep_view()[1] == parts@[1]@);
        }
        let code = parts[0][0];
        let qty = parse_u64_digits(&parts[1]);
        codes.push((code, qty));
        i = i + 1;
    }
    // accumulate totals per category, keyed by the category text
    let mut totals: Vec<(Vec<char>, u64)> = Vec::new();
    let mut stock: Vec<char> = Vec::new();
    let mut c: usize = 0;
    while c < list_cat.len()
        invariant
            1 <= list_cat@.len(),
            1 <= list_art@.len(),
            c <= list_cat@.len(),
            arts == list_art.deep_view(),
            cats == list_cat.deep_view(),
            arts.len() == list_art@.len(),
            cats.len() == list_cat@.len(),
            forall|j: int| 0 <= j < arts.len() ==> wf_art(#[trigger] arts[j]),
            forall|j: int|
                0 <= j < cats.len() ==> 0 <= #[trigger] printed_total(arts, cats, j)
                    <= u64::MAX,
            codes@.len() == arts.len(),
            forall|j: int|
                0 <= j < arts.len() ==> #[trigger] codes@[j] == (art_code(arts[j]), art_qty(
                    arts[j],
                ) as u64),
            forall|j: int|
                0 <= j < totals@.len() ==> #[trigger] totals@[j].1 == cat_occurrences(
                    cats,
                    totals@[j].0@,
                    c as int,
                ) * cat_sum(arts, totals@[j].0@),
            forall|j1: int, j2: int|
                0 <= j1 < j2 < totals@.len() ==> (#[trigger] totals@[j1].0)@ != (
                #[trigger] totals@[j2].0)@,
            forall|j: int|
                0 <= j < c ==> exists|e: int|
                    0 <= e < totals@.len() && (#[trigger] totals@[e].0)@ == (#[trigger] cats[j]),
            stock@ == spec_join_entries(arts, cats, c as int),
        decreases list_cat@.len() - c,
    {
        let ghost totals0 = totals@;
        proof {
            assert(cats[c as int] == list_cat@[c as int]@);
        }
        let cat_chars = str_to_chars(list_cat[c]);
        // find or create this category's stored total
        let mut found: bool = false;
        let mut idx: usize = 0;
        let mut k: usize = 0;
        while k < totals.len()
            invariant_except_break
                k <= totals@.len(),
                cat_chars@ == cats[c as int],
                c < cats.len(),
                !found,
                forall|j: int| 0 <= j < k ==> (#[trigger] totals@[j].0)@ != cats[c as int],
            ensures
                found ==> idx < totals@.len() && totals@[idx as int].0@ == cats[c as int],
                !found ==> forall|j: int|
                    0 <= j < totals@.len() ==> (#[trigger] totals@[j].0)@ != cats[c as int],
                cat_chars@ == cats[c as int],
            decreases totals@.len() - k,
        {
            let hit = chars_eq(&totals[k].0, &cat_chars);
            if hit {
                found = true;
                idx = k;
                break;
            }
            k = k + 1;
        }
        if !found {
            proof {
                assert forall|j: int| 0 <= j < c implies cats[j] != cats[c as int] by {
                    if cats[j] == cats[c as int] {
                        let e = choose|e: int|
                            0 <= e < totals@.len() && (#[trigger] totals@[e].0)@ == cats[j];
                        assert(totals@[e].0@ != cats[c as int]);
                    }
                }
            }
            let fresh = cat_chars.clone();
            idx = totals.len();
            totals.push((fresh, 0));
            proof {
                assert(totals@[idx as int].0@ == cats[c as int]);
                assert(cat_occurrences(cats, cats[c as int], c as int) == 0) by {
                    lemma_occurrences_zero(cats, cats[c as int], c as int);
                }
                assert(cat_occurrences(cats, cats[c as int], c as int) * cat_sum(
                    arts,
                    cats[c as int],
                ) == 0) by (nonlinear_arith)
                    requires
                        cat_occurrences(cats, cats[c as int], c as int) == 0,
                ;
            }
        }
        let ghost occ_before = cat_occurrences(cats, cats[c as int], c as int);
        let ghost csum = cat_sum(arts, cats[c as int]);
        proof {
            lemma_cat_sum_nonneg(arts, cats[c as int]);
            lemma_occurrences_step(cats, cats[c as int], c as int);
            assert(printed_total(arts, cats, c as int) == (occ_before + 1) * csum);
            assert((occ_before + 1) * csum == occ_before * csum + csum) by (nonlinear_arith);
            lemma_occurrences_nonneg(cats, cats[c as int], c as int);
            assert(occ_before * csum >= 0) by (nonlinear_arith)
                requires
                    occ_before >= 0,
                    csum >= 0,
            ;
        }
        // add every matching article's quantity to the stored total
        let mut t: u64 = totals[idx].1;
        let mut a: usize = 0;
        proof {
            assert(arts.take(0) =~= Seq::<Seq<char>>::empty());
        }
        while a < codes.len()
            invariant
                a <= codes@.len(),
                codes@.len() == arts.len(),
                forall|j: int| 0 <= j < arts.len() ==> wf_art(#[trigger] arts[j]),
                forall|j: int|
                    0 <= j < arts.len() ==> #[trigger] codes@[j] == (art_code(arts[j]),
                    art_qty(arts[j]) as u64),
                cat_chars@ == cats[c as int],
                c < cats.len(),
                t == occ_before * csum + cat_sum(arts.take(a as int), cats[c as int]),
                occ_before * csum >= 0,
                occ_before * csum + csum <= u64::MAX,
                csum == cat_sum(arts, cats[c as int]),
                occ_before == cat_occurrences(cats, cats[c as int], c as int),
                printed_total(arts, cats, c as int) == occ_before * csum + csum,
                0 <= printed_total(arts, cats, c as int) <= u64::MAX,
            decreases codes@.len() - a,
        {
            proof {
                assert(arts.take(a as int + 1).drop_last() =~= arts.take(a as int));
                assert(arts.take(a as int + 1).last() == arts[a as int]);
                lemma_cat_sum_prefix(arts, cats[c as int], a as int + 1);
                lemma_cat_sum_prefix(arts, cats[c as int], a as int);
                if cats[c as int] == seq![art_code(arts[a as int])] {
                    crate::text::lemma_digits_val_nonneg(
                        spec_split(arts[a as int], ' ')[1],
                    );
                }
            }
            let (code, qty) = codes[a];
            let is_match = cat_chars.len() == 1 && cat_chars[0] == code;
            proof {
                if is_match {
                    assert(cats[c as int] =~= seq![art_code(arts[a as int])]);
                } else {
                    if cats[c as int] == seq![art_code(arts[a as int])] {
                        assert(cat_chars@.len() == 1);
                        assert(cat_chars@[0] == art_code(arts[a as int]));
                    }
                }
            }
            if is_match {
                t = t + qty;
            }
            a = a + 1;
        }
        proof {
            assert(arts.take(arts.len() as int) =~= arts);
        }
        totals.set(idx, (cat_chars, t));
        // write this category's entry
        let mut entry: Vec<char> = Vec::new();
        entry.push('(');
        let catv = str_to_chars(list_cat[c]);
        append_chars(&mut entry, &catv);
        entry.push(' ');
        entry.push(':');
        entry.push(' ');
        let digits = u64_digits(t);
        append_chars(&mut entry, &digits);
        entry.push(')');
        proof {
            assert(entry@ =~= spec_entry(
                cats[c as int],
                printed_total(arts, cats, c as int) as nat,
            ));
        }
        if stock.len() == 0 {
            proof {
                lemma_join_entries_empty(arts, cats, c as int);
            }
            append_chars(&mut stock, &entry);
            proof {
                assert(c == 0);
                assert(stock@ =~= spec_join_entries(arts, cats, 1));
            }
        } else {
            stock.push(' ');
            stock.push('-');
            stock.push(' ');
            append_chars(&mut stock, &entry);
            proof {
                assert(c >= 1) by {
                    if c == 0 {
                    }
                }
                assert(stock@ =~= spec_join_entries(arts, cats, c as int) + seq![' ', '-', ' ']
                    + spec_entry(cats[c as int], printed_total(arts, cats, c as int) as nat));
            }
        }
        // re-establish the per-entry accounting for the next round
        proof {
            lemma_totals_update(
                arts,
                cats,
                totals@,
                idx as int,
                c as int,
                occ_before,
                csum,
            );
            assert forall|j: int| 0 <= j < c + 1 implies exists|e: int|
                0 <= e < totals@.len() && (#[trigger] totals@[e].0)@ == (#[trigger] cats[j]) by {
                if j == c {
                    assert(0 <= idx < totals@.len() && totals@[idx as int].0@ == cats[j]);
                } else {
                    let e = choose|e: int|
                        0 <= e < totals0.len() && (#[trigger] totals0[e].0)@ == cats[j];
                    if e == idx {
                        assert(totals@[idx as int].0@ == cats[c as int]);
                        assert(totals0[idx as int].0@ == cats[c as int] || totals0.len()
                            == idx);
                        assert(totals@[idx as int].0@ == cats[j] || totals@[idx as int].0@
                            == cats[c as int]);
                        assert((#[trigger] totals@[idx as int].0)@ == cats[j] || cats[j]
                            == cats[c as int]);
                        if cats[j] == cats[c as int] {
                            assert(totals@[idx as int].0@ == cats[j]);
                        } else {
                            assert(totals0[e].0@ == cats[j]);
                            assert(totals0[idx as int].0@ == cats[c as int]);
                        }
                    } else {
                        assert(totals@[e].0@ == totals0[e].0@);
                    }
                }
            }
        }
        c = c + 1;
    }
    proof {
        assert(stock@ == spec_stock_list(arts, cats));
    }
    chars_to_string(&stock)
}

/// A category not seen among the first `hi` has no occurrences there.
proof fn lemma_occurrences_zero(cats: Seq<Seq<char>>, cat: Seq<char>, hi: int)
    requires
        forall|j: int| 0 <= j < hi ==> cats[j] != cat,
    ensures
        cat_occurrences(cats, cat, hi) == 0,
    decreases hi,
{
    if hi > 0 {
        lemma_occurrences_zero(cats, cat, hi - 1);
    }
}

proof fn lemma_occurrences_nonneg(cats: Seq<Seq<char>>, cat: Seq<char>, hi: int)
    ensures
        cat_occurrences(cats, cat, hi) >= 0,
    decreases hi,
{
    if hi > 0 {
        lemma_occurrences_nonneg(cats, cat, hi - 1);
    }
}

/// The category at `hi` occurs once more through position `hi`.
proof fn lemma_occurrences_step(cats: Seq<Seq<char>>, cat: Seq<char>, hi: int)
    requires
        0 <= hi < cats.len(),
        cats[hi] == cat,
    ensures
        cat_occurrences(cats, cat, hi + 1) == cat_occurrences(cats, cat, hi) + 1,
{
}

/// An empty report means no category was processed yet.
proof fn lemma_join_entries_empty(arts: Seq<Seq<char>>, cats: Seq<Seq<char>>, hi: int)
    requires
        0 <= hi,
        spec_join_entries(arts, cats, hi).len() == 0,
    ensures
        hi == 0,
    decreases hi,
{
    if hi == 1 {
        assert(spec_entry(cats[0], printed_total(arts, cats, 0) as nat).len() >= 6);
    } else if hi > 1 {
        assert(spec_entry(cats[hi - 1], printed_total(arts, cats, hi - 1) as nat).len() >= 6);
    }
}

/// Updating one stored total, and leaving the rest alone, keeps the
/// accounting for the next category position.
proof fn lemma_totals_update(
    arts: Seq<Seq<char>>,
    cats: Seq<Seq<char>>,
    totals: Seq<(Vec<char>, u64)>,
    idx: int,
    c: int,
    occ_before: int,
    csum: int,
)
    requires
        0 <= c < cats.len(),
        0 <= idx < totals.len(),
        totals[idx].0@ == cats[c],
        totals[idx].1 == occ_before * csum + csum,
        occ_before == cat_occurrences(cats, cats[c], c),
        csum == cat_sum(arts, cats[c]),
        forall|j: int|
            0 <= j < totals.len() && j != idx ==> #[trigger] totals[j].1 == cat_occurrences(
                cats,
                totals[j].0@,
                c,
            ) * cat_sum(arts, totals[j].0@),
        forall|j1: int, j2: int|
            0 <= j1 < j2 < totals.len() ==> (#[trigger] totals[j1].0)@ != (
            #[trigger] totals[j2].0)@,
    ensures
        forall|j: int|
            0 <= j < totals.len() ==> #[trigger] totals[j].1 == cat_occurrences(
                cats,
                totals[j].0@,
                c + 1,
            ) * cat_sum(arts, totals[j].0@),
{
    assert forall|j: int|
        0 <= j < totals.len() implies #[trigger] totals[j].1 == cat_occurrences(
        cats,
        totals[j].0@,
        c + 1,
    ) * cat_sum(arts, totals[j].0@) by {
        if j == idx {
            assert(cat_occurrences(cats, cats[c], c + 1) == occ_before + 1);
            assert((occ_before + 1) * csum == occ_before * csum + csum) by (nonlinear_arith);
        } else {
            assert(totals[j].0@ != cats[c]) by {
                if j < idx {
                } else {
                }
            }
            assert(cat_occurrences(cats, totals[j].0@, c + 1) == cat_occurrences(
                cats,
                totals[j].0@,
                c,
            ));
        }
    }
}

} // verus!
