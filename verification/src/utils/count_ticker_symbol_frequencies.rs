use vstd::prelude::*;

use crate::types::{TickerSymbol, TickerSymbolFrequencyMap};
use crate::utils::seq_facts::{
    count_in, first_occurrences, lemma_count_in_le_len, lemma_count_in_pos, lemma_count_in_take_succ,
    lemma_first_occurrences, lemma_first_occurrences_take_succ, string_views,
};

verus! {

/// The position of the entry for `symbol` in `entries`, if there is one.
pub fn position_of_symbol(entries: &Vec<(TickerSymbol, usize)>, symbol: &TickerSymbol) -> (position:
    Option<usize>)
    ensures
        match position {
            Some(j) => j < entries@.len() && entries@[j as int].0@ == symbol@ && forall|k: int|
                0 <= k < j ==> entries@[k].0@ != symbol@,
            None => forall|k: int| 0 <= k < entries@.len() ==> entries@[k].0@ != symbol@,
        },
{
    let mut j: usize = 0;
    while j < entries.len()
        invariant
            j <= entries@.len(),
            forall|k: int| 0 <= k < j ==> entries@[k].0@ != symbol@,
        decreases entries@.len() - j,
    {
        if entries[j].0 == *symbol {
            return Some(j);
        }
        j = j + 1;
    }
    None
}

/// Counts the occurrences of each ticker symbol in `ticker_symbols`.
///
/// The result holds one entry per distinct symbol, in order of first appearance, paired with the
/// number of times that symbol occurs.
pub fn count_ticker_symbol_frequencies(ticker_symbols: &[TickerSymbol]) -> (frequencies:
    TickerSymbolFrequencyMap)
    ensures
        frequencies@.map_values(|e: (TickerSymbol, usize)| e.0@) == first_occurrences(
            string_views(ticker_symbols@),
        ),
        forall|i: int|
            0 <= i < frequencies@.len() ==> #[trigger] frequencies@[i].1 == count_in(
                string_views(ticker_symbols@),
                frequencies@[i].0@,
            ),
{
    let ghost views = string_views(ticker_symbols@);
    let mut frequencies: TickerSymbolFrequencyMap = Vec::new();
    let mut i: usize = 0;
    while i < ticker_symbols.len()
        invariant
            i <= ticker_symbols@.len(),
            views == string_views(ticker_symbols@),
            frequencies@.map_values(|e: (TickerSymbol, usize)| e.0@) == first_occurrences(
                views.take(i as int),
            ),
            forall|k: int|
                0 <= k < frequencies@.len() ==> #[trigger] frequencies@[k].1 == count_in(
                    views.take(i as int),
                    frequencies@[k].0@,
                ),
        decreases ticker_symbols@.len() - i,
    {
        let ghost keys = frequencies@.map_values(|e: (TickerSymbol, usize)| e.0@);
        proof {
            lemma_first_occurrences(views.take(i as int));
            lemma_first_occurrences_take_succ(views, i as int);
            assert(views.take(i as int + 1).drop_last() =~= views.take(i as int));
        }
        let position = position_of_symbol(&frequencies, &ticker_symbols[i]);
        assert(views[i as int] == ticker_symbols@[i as int]@);
        if let Some(j) = position {
            assert(keys[j as int] == views[i as int]);
            proof {
                lemma_count_in_le_len(views.take(i as int), views[i as int]);
            }
            let count = frequencies[j].1;
            let symbol = frequencies[j].0.clone();
            frequencies.set(j, (symbol, count + 1));
            assert forall|k: int| 0 <= k < frequencies@.len() implies #[trigger] frequencies@[k].1
                == count_in(views.take(i + 1), frequencies@[k].0@) by {
                lemma_count_in_take_succ(views, i as int, frequencies@[k].0@);
                if k != j {
                    assert(keys.no_duplicates());
                    assert(keys[k] != keys[j as int]);
                }
            }
            assert(frequencies@.map_values(|e: (TickerSymbol, usize)| e.0@) =~= keys);
        } else {
            assert(!keys.contains(views[i as int])) by {
                if keys.contains(views[i as int]) {
                    let k = choose|k: int| 0 <= k < keys.len() && keys[k] == views[i as int];
                    assert(frequencies@[k].0@ == keys[k]);
                }
            }
            frequencies.push((ticker_symbols[i].clone(), 1));
            assert forall|k: int| 0 <= k < frequencies@.len() implies #[trigger] frequencies@[k].1
                == count_in(views.take(i + 1), frequencies@[k].0@) by {
                lemma_count_in_take_succ(views, i as int, frequencies@[k].0@);
                if k < frequencies@.len() - 1 {
                    assert(keys[k] == frequencies@[k].0@);
                    assert(keys[k] != views[i as int]);
                } else {
                    lemma_count_in_pos(views.take(i as int), views[i as int]);
                }
            }
            assert(frequencies@.map_values(|e: (TickerSymbol, usize)| e.0@) =~= keys.push(
                views[i as int],
            ));
        }
        i = i + 1;
    }
    assert(views.take(ticker_symbols@.len() as int) =~= views);
    frequencies
}

/// The sum, over the symbols of `distinct`, of their numbers of occurrences in `symbols`.
pub open spec fn total_count<A>(distinct: Seq<A>, symbols: Seq<A>) -> nat
    decreases distinct.len(),
{
    if distinct.len() == 0 {
        0
    } else {
        total_count(distinct.drop_last(), symbols) + count_in(symbols, distinct.last())
    }
}

/// One more symbol adds, to the total over `distinct`, the number of times `distinct` holds it.
proof fn lemma_total_count_push<A>(distinct: Seq<A>, symbols: Seq<A>, x: A)
    ensures
        total_count(distinct, symbols.push(x)) == total_count(distinct, symbols) + count_in(distinct, x),
    decreases distinct.len(),
{
    assert(symbols.push(x).drop_last() =~= symbols);
    if distinct.len() > 0 {
        lemma_total_count_push(distinct.drop_last(), symbols, x);
    }
}

/// In a sequence without repetition an element occurs once if it occurs at all.
proof fn lemma_count_in_distinct<A>(s: Seq<A>, x: A)
    requires
        s.no_duplicates(),
    ensures
        count_in(s, x) == if s.contains(x) { 1nat } else { 0nat },
    decreases s.len(),
{
    if s.len() > 0 {
        let p = s.drop_last();
        assert(p.no_duplicates()) by {
            assert forall|a: int, b: int| 0 <= a < p.len() && 0 <= b < p.len() && a != b implies p[a] != p[b] by {
                assert(p[a] == s[a] && p[b] == s[b]);
            }
        }
        lemma_count_in_distinct(p, x);
        crate::utils::seq_facts::lemma_contains_push(p, s.last());
        assert(s =~= p.push(s.last()));
        if s.last() == x {
            assert(!p.contains(x)) by {
                if p.contains(x) {
                    let k = choose|k: int| 0 <= k < p.len() && p[k] == x;
                    assert(s[k] == s[s.len() - 1]);
                }
            }
        }
    }
}

/// The frequencies of `count_ticker_symbol_frequencies` are positive and add up to the number
/// of symbols counted.
pub proof fn law_frequencies_sum_to_count<A>(symbols: Seq<A>)
    ensures
        total_count(first_occurrences(symbols), symbols) == symbols.len(),
        forall|t: A| #[trigger] first_occurrences(symbols).contains(t) ==> count_in(symbols, t) > 0,
    decreases symbols.len(),
{
    lemma_first_occurrences(symbols);
    assert forall|t: A| #[trigger] first_occurrences(symbols).contains(t) implies count_in(symbols, t) > 0 by {
        lemma_count_in_pos(symbols, t);
    }
    if symbols.len() > 0 {
        let s = symbols.drop_last();
        let x = symbols.last();
        assert(symbols =~= s.push(x));
        law_frequencies_sum_to_count(s);
        lemma_first_occurrences(s);
        let f = first_occurrences(s);
        lemma_total_count_push(f, s, x);
        lemma_count_in_distinct(f, x);
        if s.contains(x) {
            assert(first_occurrences(symbols) == f);
        } else {
            assert(first_occurrences(symbols) == f.push(x));
            lemma_count_in_pos(s, x);
            assert(f.push(x).drop_last() =~= f);
            assert(count_in(symbols, x) == count_in(s, x) + 1);
        }
    }
}

} // verus!
