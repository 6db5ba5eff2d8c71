use vstd::prelude::*;

use crate::company_token_processor::entry_keys;
use crate::text::str_to_chars;
use crate::types::{TickerSymbol, TickerSymbolFrequency, TickerSymbolFrequencyMap};

verus! {

/// Lexicographic order on character sequences by scalar value: the order of `String`'s `Ord`
/// (UTF-8 byte order and scalar-value order agree).
pub open spec fn chars_le(a: Seq<char>, b: Seq<char>) -> bool
    decreases a.len(),
{
    if a.len() == 0 {
        true
    } else if b.len() == 0 {
        false
    } else if a[0] != b[0] {
        (a[0] as u32) < (b[0] as u32)
    } else {
        chars_le(a.drop_first(), b.drop_first())
    }
}

/// The order of sorted results: higher frequency first, then ticker symbol ascending.
pub open spec fn result_le(a: (Seq<char>, usize), b: (Seq<char>, usize)) -> bool {
    a.1 > b.1 || (a.1 == b.1 && chars_le(a.0, b.0))
}

/// The views of ticker symbol and frequency pairs.
pub open spec fn entry_views(v: Seq<(TickerSymbol, TickerSymbolFrequency)>) -> Seq<
    (Seq<char>, usize),
> {
    v.map_values(|e: (TickerSymbol, TickerSymbolFrequency)| (e.0@, e.1))
}

/// Whether a sequence of result entries is in `result_le` order.
pub open spec fn results_sorted(s: Seq<(Seq<char>, usize)>) -> bool {
    forall|i: int, j: int| 0 <= i < j < s.len() ==> result_le(#[trigger] s[i], #[trigger] s[j])
}

/// Whether a sequence of result entries is strictly ordered: higher frequency first, and ticker
/// symbols strictly ascending among equal frequencies.
pub open spec fn results_strictly_sorted(s: Seq<(Seq<char>, usize)>) -> bool {
    forall|i: int, j: int|
        0 <= i < j < s.len() ==> (#[trigger] s[i]).1 > (#[trigger] s[j]).1 || (s[i].1 == s[j].1 && chars_le(
            s[i].0,
            s[j].0,
        ) && s[i].0 != s[j].0)
}

/// Any two character sequences are ordered one way or the other.
pub proof fn lemma_chars_le_total(a: Seq<char>, b: Seq<char>)
    ensures
        chars_le(a, b) || chars_le(b, a),
    decreases a.len(),
{
    if a.len() > 0 && b.len() > 0 {
        if a[0] == b[0] {
            lemma_chars_le_total(a.drop_first(), b.drop_first());
        } else {
            if (a[0] as u32) == (b[0] as u32) {
                vstd::utf8::char_u32_cast(a[0], a[0] as u32);
                vstd::utf8::char_u32_cast(b[0], b[0] as u32);
            }
        }
    }
}

/// The order on character sequences is transitive.
pub proof fn lemma_chars_le_transitive(a: Seq<char>, b: Seq<char>, c: Seq<char>)
    requires
        chars_le(a, b),
        chars_le(b, c),
    ensures
        chars_le(a, c),
    decreases a.len(),
{
    if a.len() > 0 && b.len() > 0 && c.len() > 0 && a[0] == b[0] && b[0] == c[0] {
        lemma_chars_le_transitive(a.drop_first(), b.drop_first(), c.drop_first());
    }
}

/// The order on character sequences is antisymmetric.
pub proof fn lemma_chars_le_antisymmetric(a: Seq<char>, b: Seq<char>)
    requires
        chars_le(a, b),
        chars_le(b, a),
    ensures
        a == b,
    decreases a.len(),
{
    if a.len() > 0 && b.len() > 0 {
        lemma_chars_le_antisymmetric(a.drop_first(), b.drop_first());
        assert(a =~= seq![a[0]] + a.drop_first());
        assert(b =~= seq![b[0]] + b.drop_first());
    }
}

/// Every character sequence is ordered before or beside itself.
proof fn lemma_chars_le_reflexive(a: Seq<char>)
    ensures
        chars_le(a, a),
    decreases a.len(),
{
    if a.len() > 0 {
        lemma_chars_le_reflexive(a.drop_first());
    }
}

/// `result_le` is a total order on result entries.
pub proof fn lemma_result_le_total_ordering()
    ensures
        vstd::relations::total_ordering(|a: (Seq<char>, usize), b: (Seq<char>, usize)| result_le(a, b)),
{
    let r = |a: (Seq<char>, usize), b: (Seq<char>, usize)| result_le(a, b);
    assert forall|x: (Seq<char>, usize)| #[trigger] r(x, x) by {
        lemma_chars_le_reflexive(x.0);
    }
    assert forall|x: (Seq<char>, usize), y: (Seq<char>, usize)| #[trigger] r(x, y) && #[trigger] r(y, x) implies x == y by {
        lemma_chars_le_antisymmetric(x.0, y.0);
    }
    assert forall|x: (Seq<char>, usize), y: (Seq<char>, usize), z: (Seq<char>, usize)| #[trigger] r(x, y) && #[trigger] r(y, z) implies r(x, z) by {
        if x.1 == y.1 && y.1 == z.1 {
            lemma_chars_le_transitive(x.0, y.0, z.0);
        }
    }
    assert forall|x: (Seq<char>, usize), y: (Seq<char>, usize)| #[trigger] r(x, y) || #[trigger] r(y, x) by {
        lemma_chars_le_total(x.0, y.0);
    }
}

/// The sorted order is deterministic: two sorted arrangements of the same entries are equal,
/// so `sort_results` gives the same result for the same entries in any order.
pub proof fn law_sorted_results_are_determined(x: Seq<(Seq<char>, usize)>, y: Seq<(Seq<char>, usize)>)
    requires
        results_sorted(x),
        results_sorted(y),
        x.to_multiset() == y.to_multiset(),
    ensures
        x == y,
{
    let r = |a: (Seq<char>, usize), b: (Seq<char>, usize)| result_le(a, b);
    lemma_result_le_total_ordering();
    assert(vstd::relations::sorted_by(x, r)) by {
        assert forall|i: int, j: int| 0 <= i < j < x.len() implies #[trigger] r(x[i], x[j]) by {
            assert(result_le(x[i], x[j]));
        }
    }
    assert(vstd::relations::sorted_by(y, r)) by {
        assert forall|i: int, j: int| 0 <= i < j < y.len() implies #[trigger] r(y[i], y[j]) by {
            assert(result_le(y[i], y[j]));
        }
    }
    vstd::seq_lib::lemma_sorted_unique(x, y, r);
}

/// Equal prefixes do not change the comparison of the rest.
proof fn lemma_chars_le_skip(a: Seq<char>, b: Seq<char>, i: int)
    requires
        0 <= i <= a.len(),
        i <= b.len(),
        a.take(i) == b.take(i),
    ensures
        chars_le(a, b) == chars_le(a.skip(i), b.skip(i)),
    decreases i,
{
    if i > 0 {
        assert(a.len() > 0 && b.len() > 0);
        assert(a[0] == a.take(i)[0]);
        assert(b[0] == b.take(i)[0]);
        assert(a.drop_first().take(i - 1) =~= a.take(i).drop_first());
        assert(b.drop_first().take(i - 1) =~= b.take(i).drop_first());
        lemma_chars_le_skip(a.drop_first(), b.drop_first(), i - 1);
        assert(a.drop_first().skip(i - 1) =~= a.skip(i));
        assert(b.drop_first().skip(i - 1) =~= b.skip(i));
        assert(chars_le(a, b) == chars_le(a.drop_first(), b.drop_first()));
    } else {
        assert(a.skip(0) =~= a);
        assert(b.skip(0) =~= b);
    }
}

/// Compares two strings by `chars_le`.
pub fn string_le(a: &TickerSymbol, b: &TickerSymbol) -> (le: bool)
    ensures
        le == chars_le(a@, b@),
{
    let ca = str_to_chars(a.as_str());
    let cb = str_to_chars(b.as_str());
    let mut i: usize = 0;
    while i < ca.len() && i < cb.len()
        invariant
            i <= ca@.len(),
            i <= cb@.len(),
            ca@ == a@,
            cb@ == b@,
            ca@.take(i as int) == cb@.take(i as int),
        decreases ca@.len() - i,
    {
        if ca[i] != cb[i] {
            proof {
                lemma_chars_le_skip(ca@, cb@, i as int);
                assert(ca@.skip(i as int)[0] == ca@[i as int]);
                assert(cb@.skip(i as int)[0] == cb@[i as int]);
            }
            let ai = ca[i] as u32;
            let bi = cb[i] as u32;
            return ai < bi;
        }
        assert(ca@.take(i + 1) =~= ca@.take(i as int).push(ca@[i as int]));
        assert(cb@.take(i + 1) =~= cb@.take(i as int).push(cb@[i as int]));
        i = i + 1;
    }
    proof {
        lemma_chars_le_skip(ca@, cb@, i as int);
    }
    i == ca.len()
}

/// Whether result entry `a` goes before or beside `b`: higher frequency first, then ticker
/// symbol ascending.
fn entry_le(a: &(TickerSymbol, TickerSymbolFrequency), b: &(TickerSymbol, TickerSymbolFrequency)) -> (le:
    bool)
    ensures
        le == result_le((a.0@, a.1), (b.0@, b.1)),
{
    if a.1 != b.1 {
        a.1 > b.1
    } else {
        string_le(&a.0, &b.0)
    }
}

/// `result_le` is total.
proof fn lemma_result_le_total(a: (Seq<char>, usize), b: (Seq<char>, usize))
    ensures
        result_le(a, b) || result_le(b, a),
{
    lemma_chars_le_total(a.0, b.0);
}

/// `result_le` is transitive.
proof fn lemma_result_le_transitive(
    a: (Seq<char>, usize),
    b: (Seq<char>, usize),
    c: (Seq<char>, usize),
)
    requires
        result_le(a, b),
        result_le(b, c),
    ensures
        result_le(a, c),
{
    if a.1 == b.1 && b.1 == c.1 {
        lemma_chars_le_transitive(a.0, b.0, c.0);
    }
}

/// Sorts ticker symbol frequencies: higher frequency first, and ticker symbols ascending among
/// equal frequencies.
///
/// The result holds the same entries as `results`, in `result_le` order. Where the ticker
/// symbols of `results` are distinct, so are those of the result, and the order is strict.
pub fn sort_results(results: TickerSymbolFrequencyMap) -> (sorted: Vec<
    (TickerSymbol, TickerSymbolFrequency),
>)
    ensures
        entry_views(sorted@).to_multiset() == entry_views(results@).to_multiset(),
        results_sorted(entry_views(sorted@)),
        entry_keys(entry_views(results@)).no_duplicates() ==> entry_keys(
            entry_views(sorted@),
        ).no_duplicates() && results_strictly_sorted(entry_views(sorted@)),
{
    let ghost input = entry_views(results@);
    let mut sorted: Vec<(TickerSymbol, TickerSymbolFrequency)> = Vec::new();
    let mut i: usize = 0;
    assert(entry_views(sorted@) =~= input.take(0));
    while i < results.len()
        invariant
            i <= results@.len(),
            input == entry_views(results@),
            entry_views(sorted@).to_multiset() == input.take(i as int).to_multiset(),
            results_sorted(entry_views(sorted@)),
        decreases results@.len() - i,
    {
        let ghost before = entry_views(sorted@);
        let entry = (results[i].0.clone(), results[i].1);
        let ghost x = (entry.0@, entry.1);
        assert(x == input[i as int]);
        let mut p: usize = 0;
        while p < sorted.len()
            invariant_except_break
                p <= sorted@.len(),
                before == entry_views(sorted@),
                forall|k: int| 0 <= k < p ==> result_le(before[k], x),
                x == (entry.0@, entry.1),
            ensures
                p <= sorted@.len(),
                before == entry_views(sorted@),
                forall|k: int| 0 <= k < p ==> result_le(before[k], x),
                p < sorted@.len() ==> result_le(x, before[p as int]),
            decreases sorted@.len() - p,
        {
            assert(before[p as int] == (sorted@[p as int].0@, sorted@[p as int].1));
            let le = entry_le(&entry, &sorted[p]);
            assert(le == result_le(x, before[p as int]));
            if le {
                break;
            }
            proof {
                lemma_result_le_total(x, before[p as int]);
            }
            p = p + 1;
        }
        sorted.insert(p, entry);
        proof {
            let after = entry_views(sorted@);
            assert(after =~= before.insert(p as int, x));
            assert(input.take(i + 1) =~= input.take(i as int).push(x));
            vstd::seq_lib::to_multiset_insert(before, p as int, x);
            assert(after.to_multiset() == before.to_multiset().insert(x));
            vstd::seq_lib::to_multiset_build(input.take(i as int), x);
            assert forall|a: int, b: int| 0 <= a < b < after.len() implies result_le(
                #[trigger] after[a],
                #[trigger] after[b],
            ) by {
                if b < p {
                    assert(after[a] == before[a] && after[b] == before[b]);
                } else if b == p {
                    assert(after[a] == before[a]);
                } else if a > p {
                    assert(after[a] == before[a - 1] && after[b] == before[b - 1]);
                } else if a == p {
                    assert(after[b] == before[b - 1]);
                    assert(result_le(x, before[p as int]));
                    if b - 1 > p {
                        lemma_result_le_transitive(x, before[p as int], before[b - 1]);
                    }
                } else {
                    assert(after[a] == before[a] && after[b] == before[b - 1]);
                }
            }
        }
        i = i + 1;
    }
    assert(input.take(results@.len() as int) =~= input);
    proof {
        lemma_distinct_keys_kept(input, entry_views(sorted@));
    }
    sorted
}

/// A sequence of result entries with the same entries as one whose ticker symbols are distinct
/// has distinct ticker symbols; sorted, it is strictly sorted.
proof fn lemma_distinct_keys_kept(input: Seq<(Seq<char>, usize)>, out: Seq<(Seq<char>, usize)>)
    requires
        out.to_multiset() == input.to_multiset(),
        results_sorted(out),
    ensures
        entry_keys(input).no_duplicates() ==> entry_keys(out).no_duplicates() && results_strictly_sorted(out),
{
    if entry_keys(input).no_duplicates() {
        input.to_multiset_ensures();
        out.to_multiset_ensures();
        assert(input.no_duplicates()) by {
            assert forall|i: int, j: int| 0 <= i < input.len() && 0 <= j < input.len() && i != j implies input[i]
                != input[j] by {
                assert(entry_keys(input)[i] != entry_keys(input)[j]);
            }
        }
        input.lemma_multiset_has_no_duplicates();
        out.lemma_multiset_has_no_duplicates_conv();
        assert forall|a: int, b: int| 0 <= a < entry_keys(out).len() && 0 <= b < entry_keys(out).len() && a != b implies entry_keys(out)[a]
            != entry_keys(out)[b] by {
            if entry_keys(out)[a] == entry_keys(out)[b] {
                assert(out[a] != out[b]);
                assert(out.contains(out[a]));
                assert(out.contains(out[b]));
                assert(input.to_multiset().count(out[a]) > 0);
                assert(input.to_multiset().count(out[b]) > 0);
                assert(input.contains(out[a]));
                assert(input.contains(out[b]));
                let ia = choose|ia: int| 0 <= ia < input.len() && input[ia] == out[a];
                let ib = choose|ib: int| 0 <= ib < input.len() && input[ib] == out[b];
                assert(entry_keys(input)[ia] == entry_keys(input)[ib]);
            }
        }
        assert forall|i: int, j: int| 0 <= i < j < out.len() implies (#[trigger] out[i]).1 > (#[trigger] out[j]).1 || (
        out[i].1 == out[j].1 && chars_le(out[i].0, out[j].0) && out[i].0 != out[j].0) by {
            assert(result_le(out[i], out[j]));
            assert(entry_keys(out)[i] != entry_keys(out)[j]);
        }
    }
}

} // verus!
