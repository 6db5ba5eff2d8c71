//! Extraction of ticker symbols, with their frequencies, from text documents.
use vstd::prelude::*;

use crate::company_token_mapper::{
    company_sequence_length, law_built_mapper_names_only_listed_symbols, lemma_built_model_consistent, model_consistent, empty_model, ingest_list, list_view, nested_views, CompanyModel, CompanyTokenMapper, EntryView,
};
use crate::error::Error;
use crate::ratio::{ratio_at_least, ratio_at_least_exec, ratio_less, ratio_less_exec, Ratio};
use crate::token_mapper::position_in;
use crate::token_parity_state::{
    all_matches, company_matches, query_matches, token_matches, consistent_with_query, lemma_all_matches_consistent, lemma_parity_total_le_total_ordering,
    lemma_sorted_parity_unique, lemma_total_sorted_is_parity_sorted, parity_sorted, parity_total_le, potential_view, sequences_view, PotentialTokenSequenceMap, PotentialView,
    TokenParityState,
};
use crate::token_range_state::{
    law_collected_runs_match_only_their_ticker_token, runs_matched_on_ticker_token, lemma_all_ranges_named, lemma_all_ranges_nonempty, lemma_all_ranges_some, parity_valid, lemma_score_after_some, law_top_ranges_of_scored_runs_exist, lemma_top_ranges_subset, lemma_unique_runs_distinct, all_ranges, copy_indices, count_matched, first_position, indices_below, indices_equal, lemma_all_ranges_below,
    lemma_first_position, lemma_unique_runs_below, parity_below, potential_keys, range_views,
    ranges_of, run_tickers, runs_below, scored, top_ranges, unique_mentions, RangeView,
    TokenRangeState,
};
use crate::tokenizer::{lemma_split_words_len, split_words, Tokenizer};
use crate::types::{
    CompanySequenceIndex, CompanySymbolList, QueryTokenIndex, TickerSymbol, TickerSymbolFrequencyMap, TickerSymbolTokenId, Token,
    TokenId, TokenRef,
};
use crate::text::usize_to_string;
use crate::utils::count_ticker_symbol_frequencies::{count_ticker_symbol_frequencies, position_of_symbol};
use crate::utils::dedup_vector::contains_string;
use crate::utils::seq_facts::{count_in, first_occurrences, string_views};
use crate::utils::sort_results::entry_views;

verus! {

broadcast use {vstd::hash_map::group_hash_map_axioms, vstd::std_specs::hash::group_hash_axioms};

/// The thresholds that steer extraction.
pub struct CompanyTokenProcessorConfig {
    /// The least share of top runs that must match exactly on a ticker symbol for ticker
    /// symbols written in the text to count on their own.
    pub threshold_ratio_exact_matches: Ratio,
    /// The least share of a company name that a run must cover to be kept.
    pub threshold_min_company_token_coverage: Ratio,
}

impl Default for CompanyTokenProcessorConfig {
    /// The default thresholds: at least half of the top runs must match exactly on a ticker
    /// symbol for ticker symbols written in the text to count on their own, and a run must
    /// cover at least 60% of a company name.
    fn default() -> (config: Self)
        ensures
            config == (CompanyTokenProcessorConfig {
                threshold_ratio_exact_matches: Ratio { numerator: 50, denominator: 100 },
                threshold_min_company_token_coverage: Ratio { numerator: 60, denominator: 100 },
            }),
    {
        CompanyTokenProcessorConfig {
            threshold_ratio_exact_matches: Ratio { numerator: 50, denominator: 100 },
            threshold_min_company_token_coverage: Ratio { numerator: 60, denominator: 100 },
        }
    }
}

/// Finds the companies that a text document mentions, by ticker symbol or by name.
pub struct CompanyTokenProcessor<'a> {
    config: &'a CompanyTokenProcessorConfig,
    company_token_mapper: CompanyTokenMapper,
}

/// The ticker symbol token ids of a potential view, in order.
pub open spec fn view_keys(p: PotentialView) -> Seq<TokenId> {
    p.map_values(|e: (TickerSymbolTokenId, Seq<(CompanySequenceIndex, Seq<TokenId>)>)| e.0)
}

/// The potential view after recording sequence `seq`, at index `idx`, for ticker symbol token
/// id `t`: an equal pair already recorded for `t` is removed before the pair is appended.
pub open spec fn potential_add(
    p: PotentialView,
    t: TickerSymbolTokenId,
    idx: CompanySequenceIndex,
    seq: Seq<TokenId>,
) -> PotentialView {
    let k = first_position(view_keys(p), t);
    if k >= 0 {
        p.update(
            k,
            (
                t,
                p[k].1.filter(|e: (CompanySequenceIndex, Seq<TokenId>)| e != (idx, seq)).push(
                    (idx, seq),
                ),
            ),
        )
    } else {
        p.push((t, seq![(idx, seq)]))
    }
}

/// The potential view after scanning the first `n` sequences of ticker symbol token id `t` for
/// sequences that start with query token id `q`.
pub open spec fn scan_company_sequences(
    p: PotentialView,
    t: TickerSymbolTokenId,
    q: TokenId,
    sequences: Seq<Seq<TokenId>>,
    n: nat,
) -> PotentialView
    decreases n,
{
    if n == 0 {
        p
    } else {
        let p1 = scan_company_sequences(p, t, q, sequences, (n - 1) as nat);
        let s = sequences[n - 1];
        if s.len() > 0 && s[0] == q {
            potential_add(p1, t, (n - 1) as usize, s)
        } else {
            p1
        }
    }
}

/// The potential view after scanning the first `n` candidate ticker symbol token ids of query
/// token id `q`.
pub open spec fn scan_candidate_tickers(
    p: PotentialView,
    q: TokenId,
    tickers: Seq<TickerSymbolTokenId>,
    sequences: Map<TickerSymbolTokenId, Seq<Seq<TokenId>>>,
    n: nat,
) -> PotentialView
    decreases n,
{
    if n == 0 {
        p
    } else {
        let p1 = scan_candidate_tickers(p, q, tickers, sequences, (n - 1) as nat);
        let t = tickers[n - 1];
        if sequences.contains_key(t) {
            scan_company_sequences(p1, t, q, sequences[t], sequences[t].len())
        } else {
            p1
        }
    }
}

/// The company token sequences that start with one of the first `n` query token ids, per
/// ticker symbol token id, in order of discovery.
pub open spec fn potential_sequences(model: CompanyModel, query: Seq<TokenId>, n: nat) -> PotentialView
    decreases n,
{
    if n == 0 {
        Seq::empty()
    } else {
        let p1 = potential_sequences(model, query, (n - 1) as nat);
        let q = query[n - 1];
        if model.reverse.contains_key(q) {
            scan_candidate_tickers(p1, q, model.reverse[q], model.sequences, model.reverse[q].len())
        } else {
            p1
        }
    }
}

/// The position of the entry for `t`, where there is one: see `first_position`.
fn find_potential_entry(p: &PotentialTokenSequenceMap, t: TickerSymbolTokenId) -> (position: Option<
    usize,
>)
    ensures
        match position {
            Some(k) => k < p@.len() && k == first_position(view_keys(potential_view(p@)), t),
            None => first_position(view_keys(potential_view(p@)), t) < 0,
        },
{
    let ghost keys = view_keys(potential_view(p@));
    let mut k: usize = 0;
    while k < p.len()
        invariant
            k <= p@.len(),
            keys == view_keys(potential_view(p@)),
            forall|j: int| 0 <= j < k ==> keys[j] != t,
        decreases p@.len() - k,
    {
        assert(keys[k as int] == p@[k as int].0);
        if p[k].0 == t {
            proof {
                lemma_first_position(keys, t);
            }
            return Some(k);
        }
        k = k + 1;
    }
    proof {
        lemma_first_position(keys, t);
    }
    None
}

/// Records sequence `seq`, at index `idx`, for ticker symbol token id `t`: see `potential_add`.
fn add_potential_sequence(
    p: &mut PotentialTokenSequenceMap,
    t: TickerSymbolTokenId,
    idx: CompanySequenceIndex,
    seq: &Vec<TokenId>,
)
    ensures
        potential_view(final(p)@) == potential_add(potential_view(old(p)@), t, idx, seq@),
{
    let ghost before = potential_view(p@);
    let ghost old_p = p@;
    match find_potential_entry(p, t) {
        Some(k) => {
            proof {
                lemma_first_position(view_keys(before), t);
                assert(view_keys(before)[k as int] == before[k as int].0);
            }
            let (key, entries) = p.remove(k);
            let ghost views = sequences_view(entries@);
            let ghost keep = |e: (CompanySequenceIndex, Seq<TokenId>)| e != (idx, seq@);
            assert(before[k as int] == (key, views));
            let mut kept: Vec<(CompanySequenceIndex, Vec<TokenId>)> = Vec::new();
            let mut i: usize = 0;
            while i < entries.len()
                invariant
                    i <= entries@.len(),
                    views == sequences_view(entries@),
                    keep == (|e: (CompanySequenceIndex, Seq<TokenId>)| e != (idx, seq@)),
                    sequences_view(kept@) == views.take(i as int).filter(keep),
                decreases entries@.len() - i,
            {
                proof {
                    assert(views.take(i + 1) =~= views.take(i as int).push(views[i as int]));
                    views.take(i as int).lemma_filter_push(views[i as int], keep);
                }
                let same = entries[i].0 == idx && indices_equal(&entries[i].1, seq);
                if !same {
                    let ghost old_kept = sequences_view(kept@);
                    kept.push((entries[i].0, copy_indices(&entries[i].1)));
                    assert(sequences_view(kept@) =~= old_kept.push(views[i as int]));
                }
                i = i + 1;
            }
            assert(views.take(entries@.len() as int) =~= views);
            let ghost filtered = sequences_view(kept@);
            kept.push((idx, copy_indices(seq)));
            assert(sequences_view(kept@) =~= filtered.push((idx, seq@)));
            let ghost entry_view = (key, sequences_view(kept@));
            p.insert(k, (key, kept));
            assert(p@ =~= old_p.update(k as int, p@[k as int]));
            assert(potential_view(p@)[k as int] == entry_view);
            assert(key == t);
            assert(potential_view(p@) =~= before.update(k as int, entry_view));
        },
        None => {
            let mut entries: Vec<(CompanySequenceIndex, Vec<TokenId>)> = Vec::new();
            entries.push((idx, copy_indices(seq)));
            assert(sequences_view(entries@) =~= seq![(idx, seq@)]);
            p.push((t, entries));
            assert(potential_view(p@) =~= potential_add(before, t, idx, seq@));
        },
    }
}

/// The ids of the tokens of `ts` that `tokens` holds, in order.
pub open spec fn known_token_ids(tokens: Seq<Seq<char>>, ts: Seq<Seq<char>>) -> Seq<TokenId> {
    ts.filter_map(|t: Seq<char>| position_in(tokens, t))
}

/// The number of runs whose query token ids hold `id`.
pub open spec fn ranges_holding(top: Seq<RangeView>, id: TokenId) -> nat
    decreases top.len(),
{
    if top.len() == 0 {
        0
    } else {
        ranges_holding(top.drop_last(), id) + if top.last().query_text_doc_token_ids.contains(id) {
            1nat
        } else {
            0nat
        }
    }
}

/// `frequency` reduced by `held`, but not below zero.
pub open spec fn reduced_frequency(frequency: usize, held: nat) -> usize {
    if frequency >= held {
        (frequency - held) as usize
    } else {
        0
    }
}

/// The frequencies reduced, per ticker symbol, by the number of top runs that hold its token
/// id, keeping those left above zero; or `None` where there are top runs and a ticker symbol
/// has no token id.
pub open spec fn adjust_frequencies(
    frequencies: Seq<(Seq<char>, usize)>,
    top: Seq<RangeView>,
    ticker_ids: Map<Seq<char>, TokenId>,
) -> Option<Seq<(Seq<char>, usize)>> {
    if top.len() > 0 && exists|k: int|
        0 <= k < frequencies.len() && !ticker_ids.contains_key(#[trigger] frequencies[k].0) {
        None
    } else {
        Some(
            frequencies.map_values(
                |e: (Seq<char>, usize)|
                    (e.0, reduced_frequency(e.1, ranges_holding(top, ticker_ids[e.0]))),
            ).filter(|e: (Seq<char>, usize)| e.1 > 0),
        )
    }
}

/// The ticker symbols of frequency entries, in order.
pub open spec fn entry_keys(entries: Seq<(Seq<char>, usize)>) -> Seq<Seq<char>> {
    entries.map_values(|e: (Seq<char>, usize)| e.0)
}

/// The entries after adding `e`: its frequency is added to the entry of its ticker symbol, or
/// it is appended where there is none.
pub open spec fn add_frequency(acc: Seq<(Seq<char>, usize)>, e: (Seq<char>, usize)) -> Seq<
    (Seq<char>, usize),
> {
    if entry_keys(acc).contains(e.0) {
        let k = entry_keys(acc).index_of(e.0);
        acc.update(k, (e.0, (acc[k].1 + e.1) as usize))
    } else {
        acc.push(e)
    }
}

/// The frequencies of `entries` summed per ticker symbol, in order of first appearance.
pub open spec fn combine_entries(entries: Seq<(Seq<char>, usize)>) -> Seq<(Seq<char>, usize)>
    decreases entries.len(),
{
    if entries.len() == 0 {
        Seq::empty()
    } else {
        add_frequency(combine_entries(entries.drop_last()), entries.last())
    }
}

/// The entries of frequency maps, one map after another.
pub open spec fn maps_entries(maps: Seq<TickerSymbolFrequencyMap>) -> Seq<(Seq<char>, usize)> {
    maps.map_values(|m: TickerSymbolFrequencyMap| entry_views(m@)).flatten()
}

/// The sum of the frequencies of `symbol` in `entries`.
pub open spec fn symbol_total(entries: Seq<(Seq<char>, usize)>, symbol: Seq<char>) -> nat
    decreases entries.len(),
{
    if entries.len() == 0 {
        0
    } else {
        symbol_total(entries.drop_last(), symbol) + if entries.last().0 == symbol {
            entries.last().1 as nat
        } else {
            0nat
        }
    }
}

/// The total of a symbol over a prefix is at most its total over the whole.
proof fn lemma_symbol_total_prefix(entries: Seq<(Seq<char>, usize)>, i: int, symbol: Seq<char>)
    requires
        0 <= i <= entries.len(),
    ensures
        symbol_total(entries.take(i), symbol) <= symbol_total(entries, symbol),
    decreases entries.len() - i,
{
    if i < entries.len() {
        lemma_symbol_total_prefix(entries, i + 1, symbol);
        assert(entries.take(i + 1).drop_last() =~= entries.take(i));
    } else {
        assert(entries.take(i) =~= entries);
    }
}

/// A symbol that no entry names has a total of zero.
proof fn lemma_symbol_total_absent(entries: Seq<(Seq<char>, usize)>, symbol: Seq<char>)
    requires
        !entry_keys(entries).contains(symbol),
    ensures
        symbol_total(entries, symbol) == 0,
    decreases entries.len(),
{
    if entries.len() > 0 {
        let p = entries.drop_last();
        assert(entry_keys(entries)[entries.len() - 1] == entries.last().0);
        assert(!entry_keys(p).contains(symbol)) by {
            if entry_keys(p).contains(symbol) {
                let k = choose|k: int| 0 <= k < entry_keys(p).len() && entry_keys(p)[k] == symbol;
                assert(entry_keys(entries)[k] == symbol);
            }
        }
        lemma_symbol_total_absent(p, symbol);
    }
}

/// Where no ticker symbol occurs twice, every symbol's total fits in a `usize`.
pub proof fn lemma_symbol_total_distinct(entries: Seq<(Seq<char>, usize)>, symbol: Seq<char>)
    requires
        entry_keys(entries).no_duplicates(),
    ensures
        symbol_total(entries, symbol) <= usize::MAX,
    decreases entries.len(),
{
    if entries.len() > 0 {
        let p = entries.drop_last();
        assert(entry_keys(p) =~= entry_keys(entries).drop_last());
        lemma_symbol_total_distinct(p, symbol);
        if entries.last().0 == symbol {
            assert(!entry_keys(p).contains(symbol)) by {
                if entry_keys(p).contains(symbol) {
                    let k = choose|k: int| 0 <= k < entry_keys(p).len() && entry_keys(p)[k] == symbol;
                    assert(entry_keys(entries)[k] == entry_keys(entries)[entries.len() - 1]);
                }
            }
            lemma_symbol_total_absent(p, symbol);
        }
    }
}

/// Combining keeps exactly the ticker symbols of the entries, each once.
proof fn lemma_combine_keys(entries: Seq<(Seq<char>, usize)>)
    ensures
        forall|x: Seq<char>| entry_keys(combine_entries(entries)).contains(x) <==> entry_keys(entries).contains(x),
        entry_keys(combine_entries(entries)).no_duplicates(),
    decreases entries.len(),
{
    if entries.len() > 0 {
        let p = entries.drop_last();
        let e = entries.last();
        lemma_combine_keys(p);
        let acc = combine_entries(p);
        assert(entry_keys(entries) =~= entry_keys(p).push(e.0));
        assert(combine_entries(entries) == add_frequency(acc, e));
        if entry_keys(acc).contains(e.0) {
            let k = entry_keys(acc).index_of(e.0);
            assert(entry_keys(add_frequency(acc, e)) =~= entry_keys(acc).update(k, e.0));
            assert(entry_keys(acc)[k] == e.0);
            assert(entry_keys(acc).update(k, e.0) =~= entry_keys(acc));
        } else {
            assert(entry_keys(add_frequency(acc, e)) =~= entry_keys(acc).push(e.0));
        }
        assert forall|x: Seq<char>| entry_keys(combine_entries(entries)).contains(x) <==> entry_keys(entries).contains(x) by {
            crate::utils::seq_facts::lemma_contains_push(entry_keys(p), e.0);
            assert(entry_keys(entries).contains(x) <==> (entry_keys(p).contains(x) || x == e.0));
            assert(entry_keys(acc).contains(x) <==> entry_keys(p).contains(x));
            if entry_keys(acc).contains(e.0) {
                assert(entry_keys(combine_entries(entries)) == entry_keys(acc));
            } else {
                crate::utils::seq_facts::lemma_contains_push(entry_keys(acc), e.0);
                assert(entry_keys(combine_entries(entries)) == entry_keys(acc).push(e.0));
            }
        }
    }
}

/// Combining entries whose ticker symbols are distinct keeps them as they are.
proof fn lemma_combine_distinct(entries: Seq<(Seq<char>, usize)>)
    requires
        entry_keys(entries).no_duplicates(),
    ensures
        combine_entries(entries) == entries,
    decreases entries.len(),
{
    if entries.len() > 0 {
        let p = entries.drop_last();
        let e = entries.last();
        assert(entry_keys(p) =~= entry_keys(entries).drop_last());
        lemma_combine_distinct(p);
        assert(!entry_keys(p).contains(e.0)) by {
            if entry_keys(p).contains(e.0) {
                let k = choose|k: int| 0 <= k < entry_keys(p).len() && entry_keys(p)[k] == e.0;
                assert(entry_keys(entries)[k] == entry_keys(entries)[entries.len() - 1]);
            }
        }
        assert(entries =~= p.push(e));
    }
}

/// A ticker symbol of some run has at least one run.
proof fn lemma_ranges_of_nonempty(states: Seq<RangeView>, t: Seq<char>)
    requires
        run_tickers(states).contains(t),
    ensures
        ranges_of(states, t).len() > 0,
    decreases states.len(),
{
    if states.len() > 0 && states.last().ticker_symbol != t {
        let p = states.drop_last();
        assert(run_tickers(p).contains(t)) by {
            let k = choose|k: int| 0 <= k < run_tickers(states).len() && run_tickers(states)[k] == t;
            if k == states.len() - 1 {
                assert(run_tickers(states)[k] == states.last().ticker_symbol);
            }
            assert(run_tickers(p)[k] == t);
        }
        lemma_ranges_of_nonempty(p, t);
    }
}

/// Filtering entries keeps their ticker symbols distinct and takes no new ones.
proof fn lemma_filter_entry_keys(entries: Seq<(Seq<char>, usize)>, pred: spec_fn((Seq<char>, usize)) -> bool)
    ensures
        entry_keys(entries).no_duplicates() ==> entry_keys(entries.filter(pred)).no_duplicates(),
        forall|t: Seq<char>| entry_keys(entries.filter(pred)).contains(t) ==> entry_keys(entries).contains(t),
    decreases entries.len(),
{
    if entries.len() == 0 {
        reveal(Seq::filter);
        assert(entry_keys(entries.filter(pred)) =~= Seq::<Seq<char>>::empty());
    } else {
        let p = entries.drop_last();
        let l = entries.last();
        lemma_filter_entry_keys(p, pred);
        assert(entries =~= p.push(l));
        p.lemma_filter_push(l, pred);
        assert(entry_keys(entries) =~= entry_keys(p).push(l.0));
        crate::utils::seq_facts::lemma_contains_push(entry_keys(p), l.0);
        if pred(l) {
            assert(entry_keys(entries.filter(pred)) =~= entry_keys(p.filter(pred)).push(l.0));
            crate::utils::seq_facts::lemma_contains_push(entry_keys(p.filter(pred)), l.0);
            assert forall|t: Seq<char>| entry_keys(entries.filter(pred)).contains(t) implies entry_keys(entries).contains(t) by {
                if t != l.0 {
                    assert(entry_keys(p.filter(pred)).contains(t));
                    assert(entry_keys(p).contains(t));
                    let k = choose|k: int| 0 <= k < entry_keys(p).len() && entry_keys(p)[k] == t;
                    assert(entry_keys(entries)[k] == t);
                } else {
                    assert(entry_keys(entries)[entries.len() - 1] == t);
                }
            }
            if entry_keys(entries).no_duplicates() {
                assert(!entry_keys(p).contains(l.0)) by {
                    if entry_keys(p).contains(l.0) {
                        let k = choose|k: int| 0 <= k < entry_keys(p).len() && entry_keys(p)[k] == l.0;
                        assert(entry_keys(entries)[k] == entry_keys(entries)[entries.len() - 1]);
                    }
                }
                assert(entry_keys(p).no_duplicates()) by {
                    assert forall|a: int, b: int| 0 <= a < b < entry_keys(p).len() implies entry_keys(p)[a] != entry_keys(p)[b] by {
                        assert(entry_keys(p)[a] == entry_keys(entries)[a]);
                        assert(entry_keys(p)[b] == entry_keys(entries)[b]);
                    }
                }
                let fk = entry_keys(p.filter(pred)).push(l.0);
                assert forall|a: int, b: int| 0 <= a < b < fk.len() implies fk[a] != fk[b] by {
                    if b == fk.len() - 1 {
                        assert(entry_keys(p.filter(pred)).contains(fk[a]));
                    }
                }
            }
        } else {
            assert(entries.filter(pred) == p.filter(pred));
            assert forall|t: Seq<char>| entry_keys(entries.filter(pred)).contains(t) implies entry_keys(entries).contains(t) by {
                assert(entry_keys(p.filter(pred)).contains(t));
                assert(entry_keys(p).contains(t));
                let k = choose|k: int| 0 <= k < entry_keys(p).len() && entry_keys(p)[k] == t;
                assert(entry_keys(entries)[k] == t);
            }
            if entry_keys(entries).no_duplicates() {
                assert(entry_keys(p).no_duplicates()) by {
                    assert forall|a: int, b: int| 0 <= a < b < entry_keys(p).len() implies entry_keys(p)[a] != entry_keys(p)[b] by {
                        assert(entry_keys(p)[a] == entry_keys(entries)[a]);
                        assert(entry_keys(p)[b] == entry_keys(entries)[b]);
                    }
                }
            }
        }
    }
}

/// Whether `ids` holds `id`.
pub(crate) fn contains_token_id(ids: &Vec<TokenId>, id: TokenId) -> (found: bool)
    ensures
        found == ids@.contains(id),
{
    let mut j: usize = 0;
    while j < ids.len()
        invariant
            j <= ids@.len(),
            forall|k: int| 0 <= k < j ==> ids@[k] != id,
        decreases ids@.len() - j,
    {
        if ids[j] == id {
            return true;
        }
        j = j + 1;
    }
    false
}

/// The tokens as string slices.
pub(crate) fn token_refs(tokens: &[Token]) -> (refs: Vec<&TokenRef>)
    ensures
        refs@.map_values(|t: &TokenRef| t@) == string_views(tokens@),
{
    let mut refs: Vec<&TokenRef> = Vec::new();
    let mut i: usize = 0;
    while i < tokens.len()
        invariant
            i <= tokens@.len(),
            refs@.map_values(|t: &TokenRef| t@) == string_views(tokens@).take(i as int),
        decreases tokens@.len() - i,
    {
        let r = tokens[i].as_str();
        let ghost before = refs@;
        refs.push(r);
        assert(string_views(tokens@).take(i + 1) =~= string_views(tokens@).take(i as int).push(
            tokens@[i as int]@,
        ));
        assert(refs@.map_values(|t: &TokenRef| t@) =~= before.map_values(|t: &TokenRef| t@).push(
            r@,
        ));
        i = i + 1;
    }
    assert(string_views(tokens@).take(tokens@.len() as int) =~= string_views(tokens@));
    refs
}

/// The parity states of a query against potential sequences, in `parity_total_le` order (which
/// is `parity_le` order).
pub open spec fn sorted_parity_states(p: PotentialView, query: Seq<TokenId>) -> Seq<TokenParityState> {
    all_matches(p, query, p.len()).sort_by(|a: TokenParityState, b: TokenParityState| parity_total_le(a, b))
}

/// The scored runs of a query, one per mention, that cover at least `min_coverage` of their
/// company name, or `None` where collecting the runs fails.
pub open spec fn kept_ranges(model: CompanyModel, query: Seq<TokenId>, min_coverage: Ratio) -> Option<
    Seq<RangeView>,
> {
    let p = potential_sequences(model, query, query.len());
    match all_ranges(view_keys(p), sorted_parity_states(p, query), model, p.len()) {
        Some(all) => Some(
            unique_mentions(all).map_values(|r: RangeView| scored(r, query.len())).filter(
                |r: RangeView| ratio_at_least(r.company_token_coverage, min_coverage),
            ),
        ),
        None => None,
    }
}

/// The share of runs that match exactly on their ticker symbol; 1 when there are none.
pub open spec fn exact_match_ratio(top: Seq<RangeView>) -> Ratio {
    if top.len() == 0 {
        Ratio { numerator: 1, denominator: 1 }
    } else {
        Ratio { numerator: count_matched(top) as usize, denominator: top.len() as usize }
    }
}

/// For each ticker symbol of the runs, in order of first appearance, the number of distinct
/// query token index vectors among its runs.
pub open spec fn range_frequencies(top: Seq<RangeView>) -> Seq<(Seq<char>, usize)> {
    first_occurrences(run_tickers(top)).map_values(
        |t: Seq<char>| (t, first_occurrences(ranges_of(top, t)).len() as usize),
    )
}

/// For each distinct symbol, in order of first appearance, the number of its occurrences.
pub open spec fn symbol_frequencies(symbols: Seq<Seq<char>>) -> Seq<(Seq<char>, usize)> {
    first_occurrences(symbols).map_values(|t: Seq<char>| (t, count_in(symbols, t) as usize))
}

/// Whether each ticker symbol occurs once among the entries, and every frequency is positive.
pub open spec fn distinct_positive(entries: Seq<(Seq<char>, usize)>) -> bool {
    &&& entry_keys(entries).no_duplicates()
    &&& forall|k: int| 0 <= k < entries.len() ==> #[trigger] entries[k].1 > 0
}

/// The ticker symbol token ids of the text that count: none where the share of top runs that
/// match exactly is below the threshold.
pub open spec fn counted_ticker_ids(
    ticker_ids: Seq<TokenId>,
    top: Seq<RangeView>,
    threshold_ratio_exact_matches: Ratio,
) -> Seq<TokenId> {
    if ratio_less(exact_match_ratio(top), threshold_ratio_exact_matches) {
        Seq::empty()
    } else {
        ticker_ids
    }
}

/// The ticker symbol frequencies of a text whose top runs are `top` and whose ticker symbol
/// tokens have ids `ticker_ids`: the runs' frequencies, followed by the ticker symbols written
/// in the text that no run names, each with the number of times it is written there, reduced by
/// the runs that hold its token id. Ticker
/// symbols written in the text are ignored where too few top runs match exactly. `None` where a
/// token id has no ticker symbol, or a ticker symbol has no token id.
pub open spec fn tally_ticker_symbols(
    model: CompanyModel,
    ticker_ids: Seq<TokenId>,
    top: Seq<RangeView>,
    threshold_ratio_exact_matches: Ratio,
) -> Option<Seq<(Seq<char>, usize)>> {
    let ids = counted_ticker_ids(ticker_ids, top, threshold_ratio_exact_matches);
    if exists|k: int| 0 <= k < ids.len() && !model.id_tickers.contains_key(#[trigger] ids[k]) {
        None
    } else {
        let text_keys = first_occurrences(run_tickers(top));
        let symbols = ids.map_values(|id: TokenId| model.id_tickers[id]);
        let not_in_text = symbols.filter(|t: Seq<char>| !text_keys.contains(t));
        match adjust_frequencies(symbol_frequencies(not_in_text), top, model.ticker_ids) {
            Some(adjusted) => Some(combine_entries(range_frequencies(top) + adjusted)),
            None => None,
        }
    }
}

/// The ticker symbol frequencies that a processor with company state `model`, tokenizers and
/// thresholds `(exact match ratio, minimum coverage)` finds in `text`, or `None` where
/// processing fails.
pub open spec fn extraction(
    model: CompanyModel,
    ticker_symbol_tokenizer: Tokenizer,
    text_doc_tokenizer: Tokenizer,
    thresholds: (Ratio, Ratio),
    text: Seq<char>,
) -> Option<Seq<(Seq<char>, usize)>> {
    let query = known_token_ids(model.tokens, text_doc_tokenizer.spec_tokenize(text));
    let ticker_ids = known_token_ids(model.tokens, ticker_symbol_tokenizer.spec_tokenize(text)).filter(
        |id: TokenId| model.sequences.contains_key(id),
    );
    match kept_ranges(model, query, thresholds.1) {
        Some(kept) => match top_ranges(query.len(), kept) {
            Some(top) => tally_ticker_symbols(model, ticker_ids, top, thresholds.0),
            None => None,
        },
        None => None,
    }
}

/// The ticker symbol frequencies that a processor built over the company symbol list `entries`
/// finds in `text`, or `None` where building it or processing fails.
pub open spec fn extraction_from_list(
    entries: Seq<EntryView>,
    thresholds: (Ratio, Ratio),
    case_sensitive: bool,
    text: Seq<char>,
) -> Option<Seq<(Seq<char>, usize)>> {
    match ingest_list(
        empty_model(),
        entries,
        Tokenizer::ticker_symbol_parser_spec(),
        Tokenizer::text_doc_parser_spec(case_sensitive),
    ) {
        Some(model) => extraction(
            model,
            Tokenizer::ticker_symbol_parser_spec(),
            Tokenizer::text_doc_parser_spec(case_sensitive),
            thresholds,
            text,
        ),
        None => None,
    }
}

/// Whether every run's ticker symbol is named by the model.
pub open spec fn runs_named(runs: Seq<RangeView>, model: CompanyModel) -> bool {
    forall|i: int| 0 <= i < runs.len() ==> model.id_tickers.values().contains(#[trigger] runs[i].ticker_symbol)
}

/// The kept runs hold only query token indices of the query and carry ticker symbols that the
/// model names.
proof fn lemma_kept_ranges_named(model: CompanyModel, query: Seq<TokenId>, min_coverage: Ratio)
    requires
        query.len() <= usize::MAX,
    ensures
        kept_ranges(model, query, min_coverage) matches Some(kept) ==> runs_below(kept, query.len())
            && runs_named(kept, model),
{
    let p = potential_sequences(model, query, query.len());
    let parity = sorted_parity_states(p, query);
    let matches = all_matches(p, query, p.len());
    let r = |a: TokenParityState, b: TokenParityState| parity_total_le(a, b);
    lemma_all_matches_consistent(p, query, p.len());
    lemma_parity_total_le_total_ordering();
    matches.lemma_sort_by_ensures(r);
    assert(parity_below(parity, query.len())) by {
        assert forall|i: int| 0 <= i < parity.len() implies (#[trigger] parity[i]).query_token_idx < query.len() by {
            assert(parity.contains(parity[i]));
            assert(matches.contains(parity[i]));
            let j = choose|j: int| 0 <= j < matches.len() && matches[j] == parity[i];
            assert(matches[j] == parity[i]);
        }
    }
    lemma_all_ranges_below(view_keys(p), parity, model, p.len(), query.len());
    lemma_all_ranges_named(view_keys(p), parity, model, p.len());
    match all_ranges(view_keys(p), parity, model, p.len()) {
        Some(all) => {
            lemma_unique_runs_below(all, query.len(), true);
            lemma_unique_runs_distinct(all, true);
            let u = unique_mentions(all);
            let sc = u.map_values(|r: RangeView| scored(r, query.len()));
            let keep = |r: RangeView| ratio_at_least(r.company_token_coverage, min_coverage);
            let kept = sc.filter(keep);
            assert forall|i: int| 0 <= i < kept.len() implies model.id_tickers.values().contains(
                #[trigger] kept[i].ticker_symbol,
            ) && (forall|j: int| 0 <= j < kept[i].query_token_indices.len() ==> #[trigger] kept[i].query_token_indices[j]
                < query.len()) by {
                assert(kept.contains(kept[i]));
                sc.lemma_filter_contains_rev(keep, kept[i]);
                let a = choose|a: int| 0 <= a < sc.len() && sc[a] == kept[i];
                assert(sc[a] == scored(u[a], query.len()));
                assert(all.contains(u[a]));
                let b = choose|b: int| 0 <= b < all.len() && all[b] == u[a];
                assert(all[b] == u[a]);
                assert forall|j: int| 0 <= j < kept[i].query_token_indices.len() implies #[trigger] kept[i].query_token_indices[j]
                    < query.len() by {
                    assert(kept[i].query_token_indices == u[a].query_token_indices);
                    assert(u[a].query_token_indices[j] < query.len());
                }
            }
            assert(kept_ranges(model, query, min_coverage) == Some(kept));
            assert(runs_named(kept, model));
            assert(runs_below(kept, query.len())) by {
                assert forall|si: int, j: int|
                    0 <= si < kept.len() && 0 <= j < kept[si].query_token_indices.len() implies #[trigger] kept[si].query_token_indices[j]
                        < query.len() by {
                    assert(model.id_tickers.values().contains(kept[si].ticker_symbol));
                }
            }
        },
        None => {},
    }
}

/// Picking the top runs never fails in processing: every kept run has a score and covers only
/// query token indices of the query.
pub proof fn law_top_run_selection_never_fails(model: CompanyModel, query: Seq<TokenId>, min_coverage: Ratio)
    requires
        query.len() <= usize::MAX,
    ensures
        kept_ranges(model, query, min_coverage) matches Some(kept) ==> top_ranges(query.len(), kept) is Some,
{
    lemma_kept_ranges_named(model, query, min_coverage);
    let p = potential_sequences(model, query, query.len());
    let parity = sorted_parity_states(p, query);
    match all_ranges(view_keys(p), parity, model, p.len()) {
        Some(all) => {
            lemma_all_ranges_nonempty(view_keys(p), parity, model, p.len());
            lemma_unique_runs_distinct(all, true);
            let u = unique_mentions(all);
            let sc = u.map_values(|r: RangeView| scored(r, query.len()));
            let keep = |r: RangeView| ratio_at_least(r.company_token_coverage, min_coverage);
            let kept = sc.filter(keep);
            assert(kept_ranges(model, query, min_coverage) == Some(kept));
            assert(indices_below(kept, query.len()));
            assert forall|i: int| 0 <= i < kept.len() implies (#[trigger] kept[i]).range_score is Some by {
                assert(kept.contains(kept[i]));
                sc.lemma_filter_contains_rev(keep, kept[i]);
                let a = choose|a: int| 0 <= a < sc.len() && sc[a] == kept[i];
                assert(sc[a] == scored(u[a], query.len()));
                assert(all.contains(u[a]));
                let b = choose|b: int| 0 <= b < all.len() && all[b] == u[a];
                assert(all[b].query_token_indices.len() > 0);
                assert(kept[i].query_token_indices == u[a].query_token_indices);
                assert(kept[i].query_token_indices[0] < query.len());
                lemma_score_after_some(u[a], query.len(), 0);
            }
            law_top_ranges_of_scored_runs_exist(query.len(), kept);
        },
        None => {},
    }
}

/// In processing, a kept run, and so a top run, counts as an exact ticker symbol match exactly
/// when it is the single query token whose id is its ticker symbol token id: the exact-match
/// ratio that decides whether ticker symbols written in the text count is the share of top runs
/// that are such tokens.
pub proof fn law_exact_matches_are_ticker_tokens(model: CompanyModel, query: Seq<TokenId>, min_coverage: Ratio)
    requires
        query.len() <= usize::MAX,
    ensures
        kept_ranges(model, query, min_coverage) matches Some(kept) ==> runs_matched_on_ticker_token(kept) && (
        top_ranges(query.len(), kept) matches Some(top) ==> runs_matched_on_ticker_token(top)),
{
    lemma_kept_ranges_named(model, query, min_coverage);
    let p = potential_sequences(model, query, query.len());
    let parity = sorted_parity_states(p, query);
    match all_ranges(view_keys(p), parity, model, p.len()) {
        Some(all) => {
            law_collected_runs_match_only_their_ticker_token(view_keys(p), parity, model, p.len());
            lemma_unique_runs_distinct(all, true);
            let u = unique_mentions(all);
            let sc = u.map_values(|r: RangeView| scored(r, query.len()));
            let keep = |r: RangeView| ratio_at_least(r.company_token_coverage, min_coverage);
            let kept = sc.filter(keep);
            assert(kept_ranges(model, query, min_coverage) == Some(kept));
            assert forall|i: int| 0 <= i < kept.len() implies (#[trigger] kept[i]).is_matched_on_ticker_symbol == Some(
                kept[i].query_text_doc_token_ids == seq![kept[i].ticker_symbol_token_id],
            ) by {
                assert(kept.contains(kept[i]));
                sc.lemma_filter_contains_rev(keep, kept[i]);
                let a = choose|a: int| 0 <= a < sc.len() && sc[a] == kept[i];
                assert(sc[a] == scored(u[a], query.len()));
                assert(all.contains(u[a]));
                let b = choose|b: int| 0 <= b < all.len() && all[b] == u[a];
                assert(all[b] == u[a]);
            }
            assert(indices_below(kept, query.len()));
            lemma_top_ranges_subset(query.len(), kept);
            match top_ranges(query.len(), kept) {
                Some(top) => {
                    assert forall|i: int| 0 <= i < top.len() implies (#[trigger] top[i]).is_matched_on_ticker_symbol == Some(
                        top[i].query_text_doc_token_ids == seq![top[i].ticker_symbol_token_id],
                    ) by {
                        assert(kept.contains(top[i]));
                        let a = choose|a: int| 0 <= a < kept.len() && kept[a] == top[i];
                        assert(kept[a] == top[i]);
                    }
                },
                None => {},
            }
        },
        None => {},
    }
}

/// The frequencies tallied from top runs named by the model name only ticker symbols that the
/// model names.
proof fn lemma_tally_named(model: CompanyModel, ticker_ids: Seq<TokenId>, top: Seq<RangeView>, threshold: Ratio)
    requires
        runs_named(top, model),
    ensures
        tally_ticker_symbols(model, ticker_ids, top, threshold) matches Some(f) ==> forall|k: int|
            0 <= k < f.len() ==> model.id_tickers.values().contains(#[trigger] f[k].0),
{
    let ids = counted_ticker_ids(ticker_ids, top, threshold);
    if !(exists|k: int| 0 <= k < ids.len() && !model.id_tickers.contains_key(#[trigger] ids[k])) {
        let text_keys = first_occurrences(run_tickers(top));
        let symbols = ids.map_values(|id: TokenId| model.id_tickers[id]);
        let outside = |t: Seq<char>| !text_keys.contains(t);
        let not_in_text = symbols.filter(outside);
        let qf = symbol_frequencies(not_in_text);
        match adjust_frequencies(qf, top, model.ticker_ids) {
            Some(adjusted) => {
                let tf = range_frequencies(top);
                let all = tf + adjusted;
                lemma_combine_keys(all);
                crate::utils::seq_facts::lemma_first_occurrences(run_tickers(top));
                crate::utils::seq_facts::lemma_first_occurrences(symbols);
                crate::utils::seq_facts::lemma_first_occurrences(not_in_text);
                let ticker_ids_map = model.ticker_ids;
                let reduced = qf.map_values(
                    |e: (Seq<char>, usize)|
                        (e.0, reduced_frequency(e.1, ranges_holding(top, ticker_ids_map[e.0]))),
                );
                let positive = |e: (Seq<char>, usize)| e.1 > 0;
                assert(adjusted == reduced.filter(positive));
                lemma_filter_entry_keys(reduced, positive);
                assert(entry_keys(reduced) =~= entry_keys(qf));
                assert(entry_keys(qf) =~= first_occurrences(not_in_text));
                assert(entry_keys(tf) =~= text_keys);
                let f = combine_entries(all);
                assert forall|k: int| 0 <= k < f.len() implies model.id_tickers.values().contains(#[trigger] f[k].0) by {
                    let t = f[k].0;
                    assert(entry_keys(f)[k] == t);
                    assert(entry_keys(all).contains(t));
                    let a = choose|a: int| 0 <= a < entry_keys(all).len() && entry_keys(all)[a] == t;
                    if a < tf.len() {
                        assert(all[a] == tf[a]);
                        assert(entry_keys(tf)[a] == t);
                        assert(text_keys.contains(t));
                        assert(run_tickers(top).contains(t));
                        let b = choose|b: int| 0 <= b < run_tickers(top).len() && run_tickers(top)[b] == t;
                        assert(top[b].ticker_symbol == t);
                    } else {
                        assert(all[a] == adjusted[a - tf.len()]);
                        assert(entry_keys(adjusted)[a - tf.len()] == t);
                        assert(entry_keys(adjusted).contains(t));
                        assert(entry_keys(reduced).contains(t));
                        assert(not_in_text.contains(t));
                        symbols.lemma_filter_contains_rev(outside, t);
                        assert(symbols.contains(t));
                        let b = choose|b: int| 0 <= b < symbols.len() && symbols[b] == t;
                        assert(model.id_tickers.contains_key(ids[b]));
                        assert(model.id_tickers[ids[b]] == t);
                    }
                }
            },
            None => {},
        }
    }
}

/// Every ticker symbol that processing reports is named by the company state: it is the ticker
/// symbol of one of its token ids.
pub proof fn law_reported_symbols_are_named(
    model: CompanyModel,
    ticker_symbol_tokenizer: Tokenizer,
    text_doc_tokenizer: Tokenizer,
    thresholds: (Ratio, Ratio),
    text: Seq<char>,
)
    requires
        text.len() <= usize::MAX,
    ensures
        extraction(model, ticker_symbol_tokenizer, text_doc_tokenizer, thresholds, text) matches Some(f)
            ==> forall|k: int| 0 <= k < f.len() ==> model.id_tickers.values().contains(#[trigger] f[k].0),
{
    let words = text_doc_tokenizer.spec_tokenize(text);
    let query = known_token_ids(model.tokens, words);
    crate::utils::seq_facts::lemma_filter_map_len(words, |t: Seq<char>| position_in(model.tokens, t));
    crate::utils::seq_facts::lemma_filter_map_len(split_words(text), text_doc_tokenizer.word_token_fn());
    lemma_split_words_len(text);
    let ticker_ids = known_token_ids(model.tokens, ticker_symbol_tokenizer.spec_tokenize(text)).filter(
        |id: TokenId| model.sequences.contains_key(id),
    );
    lemma_kept_ranges_named(model, query, thresholds.1);
    match kept_ranges(model, query, thresholds.1) {
        Some(kept) => {
            lemma_top_ranges_subset(query.len(), kept);
            match top_ranges(query.len(), kept) {
                Some(top) => {
                    assert(runs_named(top, model)) by {
                        assert forall|i: int| 0 <= i < top.len() implies model.id_tickers.values().contains(
                            #[trigger] top[i].ticker_symbol,
                        ) by {
                            assert(kept.contains(top[i]));
                            let a = choose|a: int| 0 <= a < kept.len() && kept[a] == top[i];
                            assert(kept[a] == top[i]);
                        }
                    }
                    lemma_tally_named(model, ticker_ids, top, thresholds.0);
                },
                None => {},
            }
        },
        None => {},
    }
}

/// Whether `(idx, seq)` is sequence `idx` of ticker symbol token id `t` and starts with one of the
/// first `n` query token ids.
pub open spec fn potential_entry_sound(
    model: CompanyModel,
    query: Seq<TokenId>,
    n: nat,
    t: TickerSymbolTokenId,
    e: (CompanySequenceIndex, Seq<TokenId>),
) -> bool {
    &&& model.sequences.contains_key(t)
    &&& e.0 < model.sequences[t].len()
    &&& e.1 == model.sequences[t][e.0 as int]
    &&& e.1.len() > 0
    &&& exists|i: int| 0 <= i < n && i < query.len() && #[trigger] query[i] == e.1[0]
}

/// Whether a potential view names each ticker symbol token id once, and records only sequences
/// of that id that start with one of the first `n` query token ids.
pub open spec fn potential_sound(p: PotentialView, model: CompanyModel, query: Seq<TokenId>, n: nat) -> bool {
    &&& view_keys(p).no_duplicates()
    &&& forall|k: int, j: int|
        0 <= k < p.len() && 0 <= j < p[k].1.len() ==> potential_entry_sound(model, query, n, p[k].0, #[trigger] p[k].1[j])
}

/// Recording a sound sequence keeps a potential view sound.
proof fn lemma_potential_add_sound(
    p: PotentialView,
    t: TickerSymbolTokenId,
    idx: CompanySequenceIndex,
    seq: Seq<TokenId>,
    model: CompanyModel,
    query: Seq<TokenId>,
    n: nat,
)
    requires
        potential_sound(p, model, query, n),
        potential_entry_sound(model, query, n, t, (idx, seq)),
    ensures
        potential_sound(potential_add(p, t, idx, seq), model, query, n),
{
    let keys = view_keys(p);
    let k = first_position(keys, t);
    lemma_first_position(keys, t);
    let out = potential_add(p, t, idx, seq);
    if k >= 0 {
        assert(keys[k] == t);
        let pred = |e: (CompanySequenceIndex, Seq<TokenId>)| e != (idx, seq);
        let f = p[k].1.filter(pred);
        let pushed = f.push((idx, seq));
        assert(view_keys(out) =~= keys);
        assert forall|a: int, j: int| 0 <= a < out.len() && 0 <= j < out[a].1.len() implies potential_entry_sound(
            model,
            query,
            n,
            out[a].0,
            #[trigger] out[a].1[j],
        ) by {
            if a != k {
                assert(out[a] == p[a]);
            } else {
                assert(out[a] == (t, pushed));
                if j < f.len() {
                    assert(pushed[j] == f[j]);
                    assert(f.contains(f[j]));
                    p[k].1.lemma_filter_contains_rev(pred, f[j]);
                    let b = choose|b: int| 0 <= b < p[k].1.len() && p[k].1[b] == f[j];
                    assert(potential_entry_sound(model, query, n, p[k].0, p[k].1[b]));
                } else {
                    assert(pushed[j] == (idx, seq));
                }
            }
        }
    } else {
        assert(view_keys(out) =~= keys.push(t));
        assert(!keys.contains(t));
        assert forall|a: int, b: int| 0 <= a < view_keys(out).len() && 0 <= b < view_keys(out).len() && a != b implies view_keys(out)[a]
            != view_keys(out)[b] by {
            if a < keys.len() && b < keys.len() {
            } else if a < keys.len() {
                assert(keys.contains(keys[a]));
            } else if b < keys.len() {
                assert(keys.contains(keys[b]));
            }
        }
        assert forall|a: int, j: int| 0 <= a < out.len() && 0 <= j < out[a].1.len() implies potential_entry_sound(
            model,
            query,
            n,
            out[a].0,
            #[trigger] out[a].1[j],
        ) by {
            if a < p.len() {
                assert(out[a] == p[a]);
            } else {
                assert(out[a] == (t, seq![(idx, seq)]));
            }
        }
    }
}

/// Scanning the sequences of a ticker symbol token id for those that start with query token id
/// `query[n - 1]` keeps a potential view sound.
proof fn lemma_scan_company_sequences_sound(
    p: PotentialView,
    t: TickerSymbolTokenId,
    model: CompanyModel,
    query: Seq<TokenId>,
    n: nat,
    m: nat,
)
    requires
        potential_sound(p, model, query, n),
        model.sequences.contains_key(t),
        sequences_fit(model.sequences),
        0 < n <= query.len(),
        m <= model.sequences[t].len(),
    ensures
        potential_sound(scan_company_sequences(p, t, query[n - 1], model.sequences[t], m), model, query, n),
    decreases m,
{
    if m > 0 {
        lemma_scan_company_sequences_sound(p, t, model, query, n, (m - 1) as nat);
        let p1 = scan_company_sequences(p, t, query[n - 1], model.sequences[t], (m - 1) as nat);
        let sq = model.sequences[t][m - 1];
        if sq.len() > 0 && sq[0] == query[n - 1] {
            assert(model.sequences[t].len() <= usize::MAX);
            assert(query[n - 1] == sq[0]);
            assert(potential_entry_sound(model, query, n, t, ((m - 1) as usize, sq)));
            lemma_potential_add_sound(p1, t, (m - 1) as usize, sq, model, query, n);
        }
    }
}

/// Scanning candidate ticker symbol token ids of query token id `query[n - 1]` keeps a
/// potential view sound.
proof fn lemma_scan_candidate_tickers_sound(
    p: PotentialView,
    tickers: Seq<TickerSymbolTokenId>,
    model: CompanyModel,
    query: Seq<TokenId>,
    n: nat,
    m: nat,
)
    requires
        potential_sound(p, model, query, n),
        sequences_fit(model.sequences),
        0 < n <= query.len(),
        m <= tickers.len(),
    ensures
        potential_sound(scan_candidate_tickers(p, query[n - 1], tickers, model.sequences, m), model, query, n),
    decreases m,
{
    if m > 0 {
        lemma_scan_candidate_tickers_sound(p, tickers, model, query, n, (m - 1) as nat);
        let p1 = scan_candidate_tickers(p, query[n - 1], tickers, model.sequences, (m - 1) as nat);
        let t = tickers[m - 1];
        if model.sequences.contains_key(t) {
            lemma_scan_company_sequences_sound(p1, t, model, query, n, model.sequences[t].len());
        }
    }
}

/// The potential sequences of a query name each ticker symbol token id once, and hold only
/// company token sequences of that id, each starting with a token id of the query.
pub proof fn law_potential_sequences_start_in_the_query(model: CompanyModel, query: Seq<TokenId>, n: nat)
    requires
        sequences_fit(model.sequences),
        n <= query.len(),
    ensures
        potential_sound(potential_sequences(model, query, n), model, query, n),
    decreases n,
{
    if n == 0 {
        assert(view_keys(potential_sequences(model, query, n)) =~= Seq::<TokenId>::empty());
    } else {
        law_potential_sequences_start_in_the_query(model, query, (n - 1) as nat);
        let p1 = potential_sequences(model, query, (n - 1) as nat);
        assert(potential_sound(p1, model, query, n)) by {
            assert forall|k: int, j: int| 0 <= k < p1.len() && 0 <= j < p1[k].1.len() implies potential_entry_sound(
                model,
                query,
                n,
                p1[k].0,
                #[trigger] p1[k].1[j],
            ) by {
                assert(potential_entry_sound(model, query, (n - 1) as nat, p1[k].0, p1[k].1[j]));
                let i = choose|i: int| 0 <= i < n - 1 && i < query.len() && #[trigger] query[i] == p1[k].1[j].1[0];
            }
        }
        let q = query[n - 1];
        if model.reverse.contains_key(q) {
            lemma_scan_candidate_tickers_sound(p1, model.reverse[q], model, query, n, model.reverse[q].len());
        }
    }
}

/// Whether every entry of a potential view is a ticker symbol token id that holds company token
/// sequences, with indices of its sequences.
pub open spec fn potential_valid(p: PotentialView, sequences: Map<TokenId, Seq<Seq<TokenId>>>) -> bool {
    forall|k: int|
        0 <= k < p.len() ==> sequences.contains_key((#[trigger] p[k]).0) && forall|j: int|
            0 <= j < p[k].1.len() ==> company_sequence_length(sequences, p[k].0, (#[trigger] p[k].1[j]).0) is Some
}

/// Whether every company has at most `usize::MAX` token sequences.
pub open spec fn sequences_fit(sequences: Map<TokenId, Seq<Seq<TokenId>>>) -> bool {
    forall|t: TokenId| #[trigger] sequences.contains_key(t) ==> sequences[t].len() <= usize::MAX
}

/// Recording a known sequence keeps a potential view valid.
proof fn lemma_potential_add_valid(
    p: PotentialView,
    t: TickerSymbolTokenId,
    idx: CompanySequenceIndex,
    seq: Seq<TokenId>,
    sequences: Map<TokenId, Seq<Seq<TokenId>>>,
)
    requires
        potential_valid(p, sequences),
        sequences.contains_key(t),
        company_sequence_length(sequences, t, idx) is Some,
    ensures
        potential_valid(potential_add(p, t, idx, seq), sequences),
{
    let keys = view_keys(p);
    let k = first_position(keys, t);
    lemma_first_position(keys, t);
    let out = potential_add(p, t, idx, seq);
    if k >= 0 {
        assert(keys[k] == t);
        assert(p[k].0 == t);
        let pred = |e: (CompanySequenceIndex, Seq<TokenId>)| e != (idx, seq);
        let f = p[k].1.filter(pred);
        let pushed = f.push((idx, seq));
        assert forall|a: int| 0 <= a < out.len() implies sequences.contains_key((#[trigger] out[a]).0) && forall|j: int|
            0 <= j < out[a].1.len() ==> company_sequence_length(sequences, out[a].0, (#[trigger] out[a].1[j]).0) is Some by {
            if a != k {
                assert(out[a] == p[a]);
            } else {
                assert(out[a] == (t, pushed));
                assert forall|j: int| 0 <= j < out[a].1.len() implies company_sequence_length(
                    sequences,
                    out[a].0,
                    (#[trigger] out[a].1[j]).0,
                ) is Some by {
                    if j < f.len() {
                        assert(pushed[j] == f[j]);
                        assert(f.contains(f[j]));
                        p[k].1.lemma_filter_contains_rev(pred, f[j]);
                        let b = choose|b: int| 0 <= b < p[k].1.len() && p[k].1[b] == f[j];
                        assert(company_sequence_length(sequences, p[k].0, p[k].1[b].0) is Some);
                    }
                }
            }
        }
    } else {
        assert forall|a: int| 0 <= a < out.len() implies sequences.contains_key((#[trigger] out[a]).0) && forall|j: int|
            0 <= j < out[a].1.len() ==> company_sequence_length(sequences, out[a].0, (#[trigger] out[a].1[j]).0) is Some by {
            if a < p.len() {
                assert(out[a] == p[a]);
            } else {
                assert(out[a] == (t, seq![(idx, seq)]));
            }
        }
    }
}

/// Scanning the sequences of a known ticker symbol token id keeps a potential view valid.
proof fn lemma_scan_company_sequences_valid(
    p: PotentialView,
    t: TickerSymbolTokenId,
    q: TokenId,
    sequences: Map<TokenId, Seq<Seq<TokenId>>>,
    n: nat,
)
    requires
        potential_valid(p, sequences),
        sequences_fit(sequences),
        sequences.contains_key(t),
        n <= sequences[t].len(),
    ensures
        potential_valid(scan_company_sequences(p, t, q, sequences[t], n), sequences),
    decreases n,
{
    if n > 0 {
        lemma_scan_company_sequences_valid(p, t, q, sequences, (n - 1) as nat);
        let p1 = scan_company_sequences(p, t, q, sequences[t], (n - 1) as nat);
        let s = sequences[t][n - 1];
        if s.len() > 0 && s[0] == q {
            assert(sequences[t].len() <= usize::MAX);
            assert(company_sequence_length(sequences, t, (n - 1) as usize) is Some);
            lemma_potential_add_valid(p1, t, (n - 1) as usize, s, sequences);
        }
    }
}

/// Scanning candidate ticker symbol token ids keeps a potential view valid.
proof fn lemma_scan_candidate_tickers_valid(
    p: PotentialView,
    q: TokenId,
    tickers: Seq<TickerSymbolTokenId>,
    sequences: Map<TokenId, Seq<Seq<TokenId>>>,
    n: nat,
)
    requires
        potential_valid(p, sequences),
        sequences_fit(sequences),
        n <= tickers.len(),
    ensures
        potential_valid(scan_candidate_tickers(p, q, tickers, sequences, n), sequences),
    decreases n,
{
    if n > 0 {
        lemma_scan_candidate_tickers_valid(p, q, tickers, sequences, (n - 1) as nat);
        let p1 = scan_candidate_tickers(p, q, tickers, sequences, (n - 1) as nat);
        let t = tickers[n - 1];
        if sequences.contains_key(t) {
            lemma_scan_company_sequences_valid(p1, t, q, sequences, sequences[t].len());
        }
    }
}

/// The potential sequences of a query are valid.
proof fn lemma_potential_sequences_valid(model: CompanyModel, query: Seq<TokenId>, n: nat)
    requires
        sequences_fit(model.sequences),
        n <= query.len(),
    ensures
        potential_valid(potential_sequences(model, query, n), model.sequences),
    decreases n,
{
    if n > 0 {
        lemma_potential_sequences_valid(model, query, (n - 1) as nat);
        let q = query[n - 1];
        if model.reverse.contains_key(q) {
            lemma_scan_candidate_tickers_valid(
                potential_sequences(model, query, (n - 1) as nat),
                q,
                model.reverse[q],
                model.sequences,
                model.reverse[q].len(),
            );
        }
    }
}

/// Two sequences of valid parity states make a valid one.
proof fn lemma_parity_valid_concat(
    a: Seq<TokenParityState>,
    b: Seq<TokenParityState>,
    sequences: Map<TokenId, Seq<Seq<TokenId>>>,
)
    requires
        parity_valid(a, sequences),
        parity_valid(b, sequences),
    ensures
        parity_valid(a + b, sequences),
{
    assert forall|i: int| 0 <= i < (a + b).len() implies company_sequence_length(
        sequences,
        (#[trigger] (a + b)[i]).ticker_symbol_token_id,
        (a + b)[i].company_sequence_idx,
    ) is Some by {
        if i < a.len() {
            assert((a + b)[i] == a[i]);
        } else {
            assert((a + b)[i] == b[i - a.len()]);
        }
    }
}

/// The matches of a query token within a known sequence are valid.
proof fn lemma_token_matches_valid(
    ticker: TickerSymbolTokenId,
    sequence_idx: CompanySequenceIndex,
    sequence: Seq<TokenId>,
    query_idx: QueryTokenIndex,
    query_id: TokenId,
    n: nat,
    sequences: Map<TokenId, Seq<Seq<TokenId>>>,
)
    requires
        company_sequence_length(sequences, ticker, sequence_idx) is Some,
    ensures
        parity_valid(token_matches(ticker, sequence_idx, sequence, query_idx, query_id, n), sequences),
    decreases n,
{
    if n > 0 {
        lemma_token_matches_valid(ticker, sequence_idx, sequence, query_idx, query_id, (n - 1) as nat, sequences);
        let rest = token_matches(ticker, sequence_idx, sequence, query_idx, query_id, (n - 1) as nat);
        let out = token_matches(ticker, sequence_idx, sequence, query_idx, query_id, n);
        assert forall|i: int| 0 <= i < out.len() implies company_sequence_length(
            sequences,
            (#[trigger] out[i]).ticker_symbol_token_id,
            out[i].company_sequence_idx,
        ) is Some by {
            if i < rest.len() {
                assert(out[i] == rest[i]);
            }
        }
    }
}

/// The matches of a query within a known sequence are valid.
proof fn lemma_query_matches_valid(
    ticker: TickerSymbolTokenId,
    sequence_idx: CompanySequenceIndex,
    sequence: Seq<TokenId>,
    query: Seq<TokenId>,
    n: nat,
    sequences: Map<TokenId, Seq<Seq<TokenId>>>,
)
    requires
        company_sequence_length(sequences, ticker, sequence_idx) is Some,
    ensures
        parity_valid(query_matches(ticker, sequence_idx, sequence, query, n), sequences),
    decreases n,
{
    if n > 0 {
        lemma_query_matches_valid(ticker, sequence_idx, sequence, query, (n - 1) as nat, sequences);
        lemma_token_matches_valid(
            ticker,
            sequence_idx,
            sequence,
            (n - 1) as usize,
            query[n - 1],
            sequence.len(),
            sequences,
        );
        lemma_parity_valid_concat(
            query_matches(ticker, sequence_idx, sequence, query, (n - 1) as nat),
            token_matches(ticker, sequence_idx, sequence, (n - 1) as usize, query[n - 1], sequence.len()),
            sequences,
        );
    }
}

/// The matches of a query within the first `n` known sequences of a company are valid.
proof fn lemma_company_matches_valid(
    ticker: TickerSymbolTokenId,
    company_sequences: Seq<(CompanySequenceIndex, Seq<TokenId>)>,
    query: Seq<TokenId>,
    n: nat,
    sequences: Map<TokenId, Seq<Seq<TokenId>>>,
)
    requires
        n <= company_sequences.len(),
        forall|j: int|
            0 <= j < company_sequences.len() ==> company_sequence_length(sequences, ticker, (#[trigger] company_sequences[j]).0) is Some,
    ensures
        parity_valid(company_matches(ticker, company_sequences, query, n), sequences),
    decreases n,
{
    if n > 0 {
        lemma_company_matches_valid(ticker, company_sequences, query, (n - 1) as nat, sequences);
        let e = company_sequences[n - 1];
        lemma_query_matches_valid(ticker, e.0, e.1, query, query.len(), sequences);
        lemma_parity_valid_concat(
            company_matches(ticker, company_sequences, query, (n - 1) as nat),
            query_matches(ticker, e.0, e.1, query, query.len()),
            sequences,
        );
    }
}

/// The matches of a query within the first `n` entries of a valid potential view are valid.
proof fn lemma_all_matches_valid(p: PotentialView, query: Seq<TokenId>, n: nat, sequences: Map<TokenId, Seq<Seq<TokenId>>>)
    requires
        potential_valid(p, sequences),
        n <= p.len(),
    ensures
        parity_valid(all_matches(p, query, n), sequences),
    decreases n,
{
    if n > 0 {
        lemma_all_matches_valid(p, query, (n - 1) as nat, sequences);
        let e = p[n - 1];
        assert forall|j: int| 0 <= j < e.1.len() implies company_sequence_length(sequences, e.0, (#[trigger] e.1[j]).0) is Some by {
            assert(p[n - 1].1[j] == e.1[j]);
        }
        lemma_company_matches_valid(e.0, e.1, query, e.1.len(), sequences);
        lemma_parity_valid_concat(
            all_matches(p, query, (n - 1) as nat),
            company_matches(e.0, e.1, query, e.1.len()),
            sequences,
        );
    }
}

/// Tallying succeeds over a consistent state for ticker symbol token ids that hold company
/// token sequences.
proof fn lemma_tally_some(model: CompanyModel, ticker_ids: Seq<TokenId>, top: Seq<RangeView>, threshold: Ratio)
    requires
        model_consistent(model),
        forall|k: int| 0 <= k < ticker_ids.len() ==> model.sequences.contains_key(#[trigger] ticker_ids[k]),
    ensures
        tally_ticker_symbols(model, ticker_ids, top, threshold) is Some,
{
    let ids = counted_ticker_ids(ticker_ids, top, threshold);
    assert forall|k: int| 0 <= k < ids.len() implies model.id_tickers.contains_key(#[trigger] ids[k]) by {
        assert(model.sequences.contains_key(ticker_ids[k]));
    }
    let text_keys = first_occurrences(run_tickers(top));
    let symbols = ids.map_values(|id: TokenId| model.id_tickers[id]);
    let outside = |t: Seq<char>| !text_keys.contains(t);
    let not_in_text = symbols.filter(outside);
    let qf = symbol_frequencies(not_in_text);
    crate::utils::seq_facts::lemma_first_occurrences(not_in_text);
    assert forall|k: int| 0 <= k < qf.len() implies model.ticker_ids.contains_key(#[trigger] qf[k].0) by {
        let t = first_occurrences(not_in_text)[k];
        assert(qf[k].0 == t);
        assert(first_occurrences(not_in_text).contains(t));
        symbols.lemma_filter_contains_rev(outside, t);
        let b = choose|b: int| 0 <= b < symbols.len() && symbols[b] == t;
        assert(model.id_tickers.contains_key(ids[b]));
    }
}

/// Processing succeeds over a consistent company state whose text has at most `usize::MAX`
/// tokens: see `law_processing_never_fails`.
pub proof fn lemma_extraction_some(
    model: CompanyModel,
    ticker_symbol_tokenizer: Tokenizer,
    text_doc_tokenizer: Tokenizer,
    thresholds: (Ratio, Ratio),
    text: Seq<char>,
)
    requires
        model_consistent(model),
        sequences_fit(model.sequences),
        text_doc_tokenizer.spec_tokenize(text).len() <= usize::MAX,
    ensures
        extraction(model, ticker_symbol_tokenizer, text_doc_tokenizer, thresholds, text) is Some,
{
    let words = text_doc_tokenizer.spec_tokenize(text);
    let query = known_token_ids(model.tokens, words);
    crate::utils::seq_facts::lemma_filter_map_len(words, |t: Seq<char>| position_in(model.tokens, t));
    let p = potential_sequences(model, query, query.len());
    lemma_potential_sequences_valid(model, query, query.len());
    let matches = all_matches(p, query, p.len());
    lemma_all_matches_valid(p, query, p.len(), model.sequences);
    let parity = sorted_parity_states(p, query);
    let r = |a: TokenParityState, b: TokenParityState| parity_total_le(a, b);
    lemma_parity_total_le_total_ordering();
    matches.lemma_sort_by_ensures(r);
    assert(parity_valid(parity, model.sequences)) by {
        assert forall|i: int| 0 <= i < parity.len() implies company_sequence_length(
            model.sequences,
            (#[trigger] parity[i]).ticker_symbol_token_id,
            parity[i].company_sequence_idx,
        ) is Some by {
            assert(parity.contains(parity[i]));
            assert(matches.contains(parity[i]));
            let j = choose|j: int| 0 <= j < matches.len() && matches[j] == parity[i];
            assert(matches[j] == parity[i]);
        }
    }
    let keys = view_keys(p);
    assert forall|j: int| 0 <= j < p.len() implies model.id_tickers.contains_key(#[trigger] keys[j]) by {
        assert(keys[j] == p[j].0);
        assert(model.sequences.contains_key(p[j].0));
    }
    lemma_all_ranges_some(keys, parity, model, p.len());
    law_top_run_selection_never_fails(model, query, thresholds.1);
    let ticker_ids = known_token_ids(model.tokens, ticker_symbol_tokenizer.spec_tokenize(text)).filter(
        |id: TokenId| model.sequences.contains_key(id),
    );
    assert forall|k: int| 0 <= k < ticker_ids.len() implies model.sequences.contains_key(#[trigger] ticker_ids[k]) by {
        known_token_ids(model.tokens, ticker_symbol_tokenizer.spec_tokenize(text)).lemma_filter_pred(
            |id: TokenId| model.sequences.contains_key(id),
            k,
        );
    }
    match kept_ranges(model, query, thresholds.1) {
        Some(kept) => {
            let top = top_ranges(query.len(), kept)->0;
            lemma_tally_some(model, ticker_ids, top, thresholds.0);
        },
        None => {},
    }
}

/// Processing never fails over a consistent company state (one built over a company symbol
/// list is, see `CompanyTokenProcessor::new`), where each company has at most `usize::MAX`
/// token sequences and the text at most `usize::MAX` characters: every token id that holds
/// sequences names a ticker symbol, every named ticker symbol has a token id, and every run has
/// a score.
pub proof fn law_processing_never_fails(
    model: CompanyModel,
    ticker_symbol_tokenizer: Tokenizer,
    text_doc_tokenizer: Tokenizer,
    thresholds: (Ratio, Ratio),
    text: Seq<char>,
)
    requires
        model_consistent(model),
        sequences_fit(model.sequences),
        text.len() <= usize::MAX,
    ensures
        extraction(model, ticker_symbol_tokenizer, text_doc_tokenizer, thresholds, text) is Some,
{
    crate::utils::seq_facts::lemma_filter_map_len(split_words(text), text_doc_tokenizer.word_token_fn());
    lemma_split_words_len(text);
    lemma_extraction_some(model, ticker_symbol_tokenizer, text_doc_tokenizer, thresholds, text);
}

/// Filtering by a predicate that holds of every element keeps the sequence.
proof fn lemma_filter_all<A>(s: Seq<A>, pred: spec_fn(A) -> bool)
    requires
        forall|k: int| 0 <= k < s.len() ==> pred(#[trigger] s[k]),
    ensures
        s.filter(pred) == s,
    decreases s.len(),
{
    if s.len() == 0 {
        reveal(Seq::filter);
        assert(s.filter(pred) =~= s);
    } else {
        let p = s.drop_last();
        assert forall|k: int| 0 <= k < p.len() implies pred(#[trigger] p[k]) by {
            assert(p[k] == s[k]);
        }
        lemma_filter_all(p, pred);
        assert(s =~= p.push(s.last()));
        assert(pred(s[s.len() - 1]));
        p.lemma_filter_push(s.last(), pred);
    }
}

/// Where there is no top run and the exact-match threshold is at most one, every ticker symbol
/// written in the text is reported with the number of times it is written there, in order of
/// first appearance: a frequency is the total number of occurrences.
pub proof fn law_symbols_without_runs_count_every_occurrence(
    model: CompanyModel,
    ticker_ids: Seq<TokenId>,
    threshold_ratio_exact_matches: Ratio,
)
    requires
        model_consistent(model),
        forall|k: int| 0 <= k < ticker_ids.len() ==> model.sequences.contains_key(#[trigger] ticker_ids[k]),
        !ratio_less(Ratio { numerator: 1, denominator: 1 }, threshold_ratio_exact_matches),
        ticker_ids.len() <= usize::MAX,
    ensures
        tally_ticker_symbols(model, ticker_ids, Seq::empty(), threshold_ratio_exact_matches) == Some(
            symbol_frequencies(ticker_ids.map_values(|id: TokenId| model.id_tickers[id])),
        ),
{
    let top = Seq::<RangeView>::empty();
    let ids = counted_ticker_ids(ticker_ids, top, threshold_ratio_exact_matches);
    assert(ids == ticker_ids);
    lemma_tally_some(model, ticker_ids, top, threshold_ratio_exact_matches);
    let text_keys = first_occurrences(run_tickers(top));
    assert(run_tickers(top) =~= Seq::<Seq<char>>::empty());
    assert(text_keys =~= Seq::<Seq<char>>::empty());
    let symbols = ids.map_values(|id: TokenId| model.id_tickers[id]);
    let outside = |t: Seq<char>| !text_keys.contains(t);
    lemma_filter_all(symbols, outside);
    let qf = symbol_frequencies(symbols);
    crate::utils::seq_facts::lemma_first_occurrences(symbols);
    let ticker_ids_map = model.ticker_ids;
    let reduced = qf.map_values(
        |e: (Seq<char>, usize)| (e.0, reduced_frequency(e.1, ranges_holding(top, ticker_ids_map[e.0]))),
    );
    assert(reduced =~= qf);
    let positive = |e: (Seq<char>, usize)| e.1 > 0;
    assert forall|k: int| 0 <= k < qf.len() implies positive(#[trigger] qf[k]) by {
        let t = first_occurrences(symbols)[k];
        assert(first_occurrences(symbols).contains(t));
        crate::utils::seq_facts::lemma_count_in_pos(symbols, t);
        crate::utils::seq_facts::lemma_count_in_le_len(symbols, t);
        assert(qf[k] == (t, count_in(symbols, t) as usize));
    }
    lemma_filter_all(qf, positive);
    assert(adjust_frequencies(qf, top, model.ticker_ids) == Some(qf));
    assert(range_frequencies(top) =~= Seq::<(Seq<char>, usize)>::empty());
    assert(range_frequencies(top) + qf =~= qf);
    assert(entry_keys(qf) =~= first_occurrences(symbols));
    lemma_combine_distinct(qf);
}

/// Whether `t` is the ticker symbol of one of `entries`.
pub open spec fn is_listed(entries: Seq<EntryView>, t: Seq<char>) -> bool {
    exists|i: int| 0 <= i < entries.len() && #[trigger] entries[i].0 == t
}

/// Every ticker symbol that a processor built over a company symbol list reports for a text is
/// a ticker symbol of the list.
pub proof fn law_reported_symbols_are_listed(
    entries: Seq<EntryView>,
    thresholds: (Ratio, Ratio),
    case_sensitive: bool,
    text: Seq<char>,
)
    requires
        text.len() <= usize::MAX,
    ensures
        extraction_from_list(entries, thresholds, case_sensitive, text) matches Some(f) ==> forall|k: int|
            0 <= k < f.len() ==> is_listed(entries, #[trigger] f[k].0),
{
    let tk = Tokenizer::ticker_symbol_parser_spec();
    let dt = Tokenizer::text_doc_parser_spec(case_sensitive);
    law_built_mapper_names_only_listed_symbols(entries, case_sensitive);
    match ingest_list(empty_model(), entries, tk, dt) {
        Some(model) => {
            law_reported_symbols_are_named(model, tk, dt, thresholds, text);
            match extraction(model, tk, dt, thresholds, text) {
                Some(f) => {
                    assert forall|k: int| 0 <= k < f.len() implies is_listed(entries, #[trigger] f[k].0) by {
                        assert(model.id_tickers.values().contains(f[k].0));
                        let id = choose|id: TokenId| model.id_tickers.contains_key(id) && model.id_tickers[id] == f[k].0;
                        assert(model.id_tickers.contains_key(id));
                    }
                },
                None => {},
            }
        },
        None => {},
    }
}

impl<'a> CompanyTokenProcessor<'a> {
    /// The processor's internal consistency.
    #[verifier::type_invariant]
    spec fn is_consistent(self) -> bool {
        model_consistent(self.company_token_mapper.model())
    }

    /// The abstract state of the processor's company token mapper.
    pub closed spec fn mapper_model(self) -> CompanyModel {
        self.company_token_mapper.model()
    }

    /// The processor's thresholds.
    pub closed spec fn thresholds(self) -> (Ratio, Ratio) {
        (self.config.threshold_ratio_exact_matches, self.config.threshold_min_company_token_coverage)
    }

    /// The tokenizer for ticker symbols written in the text.
    pub closed spec fn ticker_symbol_tokenizer(self) -> Tokenizer {
        self.company_token_mapper.ticker_symbol_tokenizer
    }

    /// The tokenizer for the words of the text.
    pub closed spec fn text_doc_tokenizer(self) -> Tokenizer {
        self.company_token_mapper.text_doc_tokenizer
    }

    /// Creates a processor over a company symbol list.
    ///
    /// Fails with a parser error where the company token mapper cannot be built.
    pub fn new(
        config: &'a CompanyTokenProcessorConfig,
        company_symbol_list: &'a CompanySymbolList,
        case_sensitive: bool,
    ) -> (processor: Result<Self, Error>)
        ensures
            match ingest_list(
                empty_model(),
                list_view(company_symbol_list@),
                Tokenizer::ticker_symbol_parser_spec(),
                Tokenizer::text_doc_parser_spec(case_sensitive),
            ) {
                Some(m) => processor matches Ok(processor) && processor.mapper_model() == m
                    && processor.thresholds() == (
                    config.threshold_ratio_exact_matches,
                    config.threshold_min_company_token_coverage,
                ) && processor.ticker_symbol_tokenizer() == Tokenizer::ticker_symbol_parser_spec()
                    && processor.text_doc_tokenizer() == Tokenizer::text_doc_parser_spec(
                    case_sensitive,
                ),
                None => processor matches Err(Error::ParserError(_)),
            },
    {
        let company_token_mapper = CompanyTokenMapper::new(company_symbol_list, case_sensitive)?;
        proof {
            lemma_built_model_consistent(list_view(company_symbol_list@), case_sensitive);
        }
        Ok(CompanyTokenProcessor { config, company_token_mapper })
    }

    /// Extracts the ticker symbols that a text document mentions, by ticker symbol or by company
    /// name, with their frequencies: see `extraction`.
    ///
    /// Never fails: the company state of a processor is consistent (see
    /// `law_processing_never_fails`).
    pub fn process_text_doc(&mut self, text: &str) -> (result: Result<TickerSymbolFrequencyMap, Error>)
        ensures
            *final(self) == *old(self),
            result is Ok,
            match extraction(
                old(self).mapper_model(),
                old(self).ticker_symbol_tokenizer(),
                old(self).text_doc_tokenizer(),
                old(self).thresholds(),
                text@,
            ) {
                Some(frequencies) => result matches Ok(f) && entry_views(f@) == frequencies,
                None => result matches Err(Error::ParserError(_)),
            },
            result matches Ok(f) ==> distinct_positive(entry_views(f@)),
    {
        let ticker_symbol_tokens_pre_filtered = self.company_token_mapper.ticker_symbol_tokenizer.tokenize(text);
        let text_doc_tokens_pre_filtered = self.company_token_mapper.text_doc_tokenizer.tokenize(text);
        proof {
            use_type_invariant(&*self);
            let sequences_map = self.company_token_mapper.company_token_sequences_map@;
            assert(sequences_fit(self.mapper_model().sequences)) by {
                assert forall|t: TokenId| #[trigger] self.mapper_model().sequences.contains_key(t) implies self.mapper_model().sequences[t].len()
                    <= usize::MAX by {
                    assert(sequences_map[t]@.len() == sequences_map[t].len());
                }
            }
            assert(string_views(text_doc_tokens_pre_filtered@).len() == text_doc_tokens_pre_filtered.len());
            lemma_extraction_some(
                self.mapper_model(),
                self.ticker_symbol_tokenizer(),
                self.text_doc_tokenizer(),
                self.thresholds(),
                text@,
            );
        }
        let (query_text_doc_token_ids, query_ticker_symbol_token_ids) = self.get_filtered_query_token_ids(
            &text_doc_tokens_pre_filtered,
            &ticker_symbol_tokens_pre_filtered,
        );
        let token_range_states = match self.collect_kept_ranges(&query_text_doc_token_ids) {
            Ok(states) => states,
            Err(e) => {
                return Err(e);
            },
        };
        assert(indices_below(range_views(token_range_states@), query_text_doc_token_ids@.len()));
        let top_range_states = match TokenRangeState::collect_top_range_states(
            &query_text_doc_token_ids,
            &token_range_states,
        ) {
            Ok(states) => states,
            Err(e) => {
                return Err(e);
            },
        };
        self.tally_ticker_symbols(query_ticker_symbol_token_ids, &top_range_states)
    }

    /// The ticker symbol frequencies from the top runs and the ticker symbol token ids of the
    /// text: see `tally_ticker_symbols`.
    ///
    /// Fails with a parser error where a token id has no ticker symbol, or a ticker symbol has no
    /// token id.
    fn tally_ticker_symbols(&self, query_ticker_symbol_token_ids: Vec<TokenId>, top_range_states: &[TokenRangeState]) -> (result:
        Result<TickerSymbolFrequencyMap, Error>)
        ensures
            match tally_ticker_symbols(
                self.mapper_model(),
                query_ticker_symbol_token_ids@,
                range_views(top_range_states@),
                self.thresholds().0,
            ) {
                Some(frequencies) => result matches Ok(f) && entry_views(f@) == frequencies,
                None => result matches Err(Error::ParserError(_)),
            },
            result matches Ok(f) ==> distinct_positive(entry_views(f@)),
    {
        let ghost model = self.mapper_model();
        let ghost top = range_views(top_range_states@);
        let ghost threshold = self.thresholds().0;
        let mut ids = query_ticker_symbol_token_ids;
        let ratio_exact_matches = TokenRangeState::calc_exact_ticker_symbol_match_ratio(top_range_states);
        assert(ratio_exact_matches == exact_match_ratio(top));
        if ratio_less_exec(ratio_exact_matches, self.config.threshold_ratio_exact_matches) {
            ids = Vec::new();
        }
        let ghost spec_ids = counted_ticker_ids(query_ticker_symbol_token_ids@, top, threshold);
        assert(ids@ =~= spec_ids);
        let text_doc_ticker_frequencies = TokenRangeState::count_token_range_ticker_symbol_frequencies(top_range_states);
        let ghost text_view = entry_views(text_doc_ticker_frequencies@);
        assert(text_view =~= range_frequencies(top)) by {
            let keys = text_doc_ticker_frequencies@.map_values(|e: (TickerSymbol, usize)| e.0@);
            assert forall|k: int| 0 <= k < text_view.len() implies text_view[k] == range_frequencies(top)[k] by {
                assert(keys[k] == text_doc_ticker_frequencies@[k].0@);
                assert(text_doc_ticker_frequencies@[k].1 == first_occurrences(ranges_of(top, text_doc_ticker_frequencies@[k].0@)).len());
            }
        }
        let mut symbols: Vec<TickerSymbol> = Vec::new();
        let mut i: usize = 0;
        while i < ids.len()
            invariant
                i <= ids@.len(),
                model == self.mapper_model(),
                top == range_views(top_range_states@),
                threshold == self.thresholds().0,
                ids@ == spec_ids,
                spec_ids == counted_ticker_ids(query_ticker_symbol_token_ids@, top, threshold),
                forall|k: int| 0 <= k < i ==> model.id_tickers.contains_key(#[trigger] ids@[k]),
                string_views(symbols@) == ids@.take(i as int).map_values(|id: TokenId| model.id_tickers[id]),
            decreases ids@.len() - i,
        {
            match self.company_token_mapper.get_ticker_symbol_by_token_id(&ids[i]) {
                Ok(ticker_symbol) => {
                    let ghost before = string_views(symbols@);
                    symbols.push(ticker_symbol.clone());
                    assert(string_views(symbols@) =~= ids@.take(i + 1).map_values(|id: TokenId| model.id_tickers[id])) by {
                        assert(ids@.take(i + 1) =~= ids@.take(i as int).push(ids@[i as int]));
                        assert(string_views(symbols@) =~= before.push(ticker_symbol@));
                    }
                },
                Err(e) => {
                    assert(!model.id_tickers.contains_key(ids@[i as int]));
                    let mut msg = "Failed to fetch token ID ".to_owned();
                    msg.append(usize_to_string(ids[i]).as_str());
                    msg.append(": ");
                    match e {
                        Error::ParserError(inner) => {
                            msg.append("ParserError(\"");
                            msg.append(inner.as_str());
                        },
                        Error::TokenFilterError(inner) => {
                            msg.append("TokenFilterError(\"");
                            msg.append(inner.as_str());
                        },
                    }
                    msg.append("\")");
                    return Err(Error::ParserError(msg));
                },
            }
            i = i + 1;
        }
        assert(ids@.take(ids@.len() as int) =~= ids@);
        let ghost symbol_views = string_views(symbols@);
        let mut text_keys: Vec<TickerSymbol> = Vec::new();
        let mut k: usize = 0;
        while k < text_doc_ticker_frequencies.len()
            invariant
                k <= text_doc_ticker_frequencies@.len(),
                text_view == entry_views(text_doc_ticker_frequencies@),
                string_views(text_keys@) == entry_keys(text_view).take(k as int),
            decreases text_doc_ticker_frequencies@.len() - k,
        {
            let ghost before = string_views(text_keys@);
            text_keys.push(text_doc_ticker_frequencies[k].0.clone());
            assert(string_views(text_keys@) =~= entry_keys(text_view).take(k + 1)) by {
                assert(entry_keys(text_view).take(k + 1) =~= entry_keys(text_view).take(k as int).push(
                    text_view[k as int].0,
                ));
                assert(string_views(text_keys@) =~= before.push(text_doc_ticker_frequencies@[k as int].0@));
            }
            k = k + 1;
        }
        let ghost text_key_views = first_occurrences(run_tickers(top));
        assert(string_views(text_keys@) =~= text_key_views) by {
            assert(entry_keys(text_view).take(text_view.len() as int) =~= entry_keys(text_view));
        }
        let ghost outside = |t: Seq<char>| !text_key_views.contains(t);
        let mut query_tickers_not_in_text_doc: Vec<TickerSymbol> = Vec::new();
        let mut j: usize = 0;
        while j < symbols.len()
            invariant
                j <= symbols@.len(),
                symbol_views == string_views(symbols@),
                string_views(text_keys@) == text_key_views,
                outside == (|t: Seq<char>| !text_key_views.contains(t)),
                string_views(query_tickers_not_in_text_doc@) == symbol_views.take(j as int).filter(outside),
            decreases symbols@.len() - j,
        {
            proof {
                assert(symbol_views.take(j + 1) =~= symbol_views.take(j as int).push(symbol_views[j as int]));
                symbol_views.take(j as int).lemma_filter_push(symbol_views[j as int], outside);
            }
            if !contains_string(&text_keys, &symbols[j]) {
                let ghost before = string_views(query_tickers_not_in_text_doc@);
                query_tickers_not_in_text_doc.push(symbols[j].clone());
                assert(string_views(query_tickers_not_in_text_doc@) =~= before.push(symbol_views[j as int]));
            }
            j = j + 1;
        }
        assert(symbol_views.take(symbol_views.len() as int) =~= symbol_views);
        let ghost not_in_views = string_views(query_tickers_not_in_text_doc@);
        assert(symbol_views =~= spec_ids.map_values(|id: TokenId| model.id_tickers[id]));
        let mut query_ticker_frequencies = count_ticker_symbol_frequencies(&query_tickers_not_in_text_doc);
        assert(entry_views(query_ticker_frequencies@) =~= symbol_frequencies(not_in_views)) by {
            let keys = query_ticker_frequencies@.map_values(|e: (TickerSymbol, usize)| e.0@);
            assert forall|k: int| 0 <= k < query_ticker_frequencies@.len() implies entry_views(query_ticker_frequencies@)[k]
                == symbol_frequencies(not_in_views)[k] by {
                assert(keys[k] == query_ticker_frequencies@[k].0@);
                assert(query_ticker_frequencies@[k].1 == count_in(not_in_views, query_ticker_frequencies@[k].0@));
            }
        }
        let ghost query_view = entry_views(query_ticker_frequencies@);
        match self.adjust_query_ticker_frequencies(&mut query_ticker_frequencies, top_range_states) {
            Ok(()) => {},
            Err(e) => {
                return Err(e);
            },
        }
        let ghost adjusted = entry_views(query_ticker_frequencies@);
        proof {
            let ticker_ids = model.ticker_ids;
            let reduced = query_view.map_values(
                |e: (Seq<char>, usize)|
                    (e.0, reduced_frequency(e.1, ranges_holding(top, ticker_ids[e.0]))),
            );
            let positive = |e: (Seq<char>, usize)| e.1 > 0;
            assert(adjusted == reduced.filter(positive));
            assert(entry_keys(reduced) =~= entry_keys(query_view));
            assert(entry_keys(query_view) =~= first_occurrences(not_in_views));
            crate::utils::seq_facts::lemma_first_occurrences(not_in_views);
            lemma_filter_entry_keys(reduced, positive);
            assert(entry_keys(text_view) =~= text_key_views);
            crate::utils::seq_facts::lemma_first_occurrences(run_tickers(top));
            assert forall|a: int, b: int|
                0 <= a < entry_keys(text_view).len() && 0 <= b < entry_keys(adjusted).len() implies entry_keys(text_view)[a]
                    != entry_keys(adjusted)[b] by {
                let t = entry_keys(adjusted)[b];
                assert(entry_keys(adjusted).contains(t));
                assert(not_in_views.contains(t));
                let m = choose|m: int| 0 <= m < not_in_views.len() && not_in_views[m] == t;
                symbol_views.lemma_filter_pred(outside, m);
                assert(text_key_views.contains(entry_keys(text_view)[a]));
            }
            vstd::seq_lib::lemma_no_dup_in_concat(entry_keys(text_view), entry_keys(adjusted));
            assert(entry_keys(text_view + adjusted) =~= entry_keys(text_view) + entry_keys(adjusted));
            lemma_combine_distinct(text_view + adjusted);
            assert forall|k: int| 0 <= k < text_view.len() implies #[trigger] text_view[k].1 > 0 by {
                let t = text_view[k].0;
                assert(entry_keys(text_view)[k] == t);
                assert(text_key_views.contains(t));
                assert(run_tickers(top).contains(t));
                lemma_ranges_of_nonempty(top, t);
                let r = ranges_of(top, t);
                crate::utils::seq_facts::lemma_first_occurrences(r);
                assert(r.contains(r[0]));
                assert(first_occurrences(r).contains(r[0]));
                assert(text_doc_ticker_frequencies@[k].1 == first_occurrences(r).len());
            }
            assert forall|k: int| 0 <= k < adjusted.len() implies #[trigger] adjusted[k].1 > 0 by {
                reduced.lemma_filter_pred(positive, k);
            }
            assert(distinct_positive(text_view + adjusted)) by {
                let all = text_view + adjusted;
                assert forall|k: int| 0 <= k < all.len() implies #[trigger] all[k].1 > 0 by {
                    if k < text_view.len() {
                        assert(all[k] == text_view[k]);
                    } else {
                        assert(all[k] == adjusted[k - text_view.len()]);
                    }
                }
            }
        }
        let mut maps: Vec<TickerSymbolFrequencyMap> = Vec::new();
        maps.push(text_doc_ticker_frequencies);
        maps.push(query_ticker_frequencies);
        proof {
            let mv = maps@.map_values(|m: TickerSymbolFrequencyMap| entry_views(m@));
            assert(mv =~= seq![text_view, adjusted]);
            reveal_with_fuel(Seq::flatten, 3);
            assert(mv.drop_first().drop_first() =~= Seq::<Seq<(Seq<char>, usize)>>::empty());
            assert(maps_entries(maps@) =~= text_view + adjusted);
            assert forall|symbol: Seq<char>| #[trigger] symbol_total(maps_entries(maps@), symbol) <= usize::MAX by {
                lemma_symbol_total_distinct(text_view + adjusted, symbol);
            }
        }
        let combined = self.combine_ticker_symbol_frequencies(&maps);
        Ok(combined)
    }

    /// The scored runs of the query that cover enough of their company name: see
    /// `kept_ranges`.
    ///
    /// Fails with a parser error where collecting the runs fails.
    fn collect_kept_ranges(&self, query_text_doc_token_ids: &[TokenId]) -> (result: Result<
        Vec<TokenRangeState>,
        Error,
    >)
        ensures
            match kept_ranges(
                self.mapper_model(),
                query_text_doc_token_ids@,
                self.thresholds().1,
            ) {
                Some(kept) => result matches Ok(states) && range_views(states@) == kept
                    && runs_below(kept, query_text_doc_token_ids@.len()),
                None => result matches Err(Error::ParserError(_)),
            },
    {
        let ghost model = self.mapper_model();
        let ghost query = query_text_doc_token_ids@;
        let potential_token_id_sequences = match self.get_potential_token_sequences(query_text_doc_token_ids) {
            Ok(p) => p,
            Err(e) => {
                return Err(e);
            },
        };
        let ghost p = potential_view(potential_token_id_sequences@);
        let query_len = query_text_doc_token_ids.len();
        assert(query.len() == query_len);
        let token_parity_states = TokenParityState::collect_token_parity_states(
            query_text_doc_token_ids,
            &potential_token_id_sequences,
        );
        proof {
            let parity = token_parity_states@;
            let matches = all_matches(p, query, p.len());
            lemma_all_matches_consistent(p, query, p.len());
            assert(consistent_with_query(parity, query)) by {
                broadcast use vstd::seq_lib::group_to_multiset_ensures;

                assert forall|i: int| 0 <= i < parity.len() implies (#[trigger] parity[i]).query_token_idx
                    < query.len() && parity[i].query_token_id == query[parity[i].query_token_idx as int] by {
                    assert(parity.contains(parity[i]));
                    assert(parity.to_multiset().count(parity[i]) > 0);
                    assert(matches.contains(parity[i]));
                    let j = choose|j: int| 0 <= j < matches.len() && matches[j] == parity[i];
                    assert(matches[j] == parity[i]);
                }
            }
            let chosen = sorted_parity_states(p, query);
            lemma_parity_total_le_total_ordering();
            matches.lemma_sort_by_ensures(|a: TokenParityState, b: TokenParityState| parity_total_le(a, b));
            lemma_total_sorted_is_parity_sorted(chosen);
            lemma_sorted_parity_unique(parity, chosen, query);
            assert(parity_below(parity, query.len()));
            assert(potential_keys(potential_token_id_sequences) =~= view_keys(p));
            lemma_all_ranges_below(view_keys(p), parity, model, p.len(), query.len());
        }
        let mut token_range_states = match TokenRangeState::collect_token_range_states(
            &self.company_token_mapper,
            &potential_token_id_sequences,
            &token_parity_states,
        ) {
            Ok(states) => states,
            Err(e) => {
                return Err(e);
            },
        };
        let ghost unique = range_views(token_range_states@);
        proof {
            match all_ranges(view_keys(p), token_parity_states@, model, p.len()) {
                Some(all) => {
                    lemma_unique_runs_below(all, query.len(), true);
                },
                None => {},
            }
        }
        TokenRangeState::assign_token_range_scores(query_text_doc_token_ids, &mut token_range_states);
        let ghost scored_views = range_views(token_range_states@);
        assert(runs_below(scored_views, query.len())) by {
            assert forall|si: int, j: int|
                0 <= si < scored_views.len() && 0 <= j < scored_views[si].query_token_indices.len() implies #[trigger] scored_views[si].query_token_indices[j]
                    < query.len() by {
                assert(scored_views[si].query_token_indices == unique[si].query_token_indices);
            }
        }
        let min_coverage = self.config.threshold_min_company_token_coverage;
        let ghost keep = |r: RangeView| ratio_at_least(r.company_token_coverage, min_coverage);
        let mut kept: Vec<TokenRangeState> = Vec::new();
        let mut i: usize = 0;
        while i < token_range_states.len()
            invariant
                i <= token_range_states@.len(),
                scored_views == range_views(token_range_states@),
                runs_below(scored_views, query.len()),
                keep == (|r: RangeView| ratio_at_least(r.company_token_coverage, min_coverage)),
                range_views(kept@) == scored_views.take(i as int).filter(keep),
                runs_below(range_views(kept@), query.len()),
            decreases token_range_states@.len() - i,
        {
            proof {
                assert(scored_views.take(i + 1) =~= scored_views.take(i as int).push(scored_views[i as int]));
                scored_views.take(i as int).lemma_filter_push(scored_views[i as int], keep);
            }
            if ratio_at_least_exec(token_range_states[i].company_token_coverage, min_coverage) {
                let ghost before = range_views(kept@);
                kept.push(token_range_states[i].duplicate());
                assert(range_views(kept@) =~= before.push(scored_views[i as int]));
                assert(runs_below(range_views(kept@), query.len())) by {
                    let after = range_views(kept@);
                    assert forall|si: int, j: int|
                        0 <= si < after.len() && 0 <= j < after[si].query_token_indices.len() implies #[trigger] after[si].query_token_indices[j]
                            < query.len() by {
                        if si < before.len() {
                            assert(after[si] == before[si]);
                        } else {
                            assert(after[si] == scored_views[i as int]);
                        }
                    }
                }
            }
            i = i + 1;
        }
        assert(scored_views.take(scored_views.len() as int) =~= scored_views);
        Ok(kept)
    }

    /// The ids of the known text document tokens, and the ids of the known ticker symbol tokens
    /// that name a company with token sequences.
    fn get_filtered_query_token_ids(&self, text_doc_tokens: &[Token], ticker_symbol_tokens: &[Token]) -> (ids: (
        Vec<TokenId>,
        Vec<TokenId>,
    ))
        ensures
            ids.0@ == known_token_ids(self.mapper_model().tokens, string_views(text_doc_tokens@)),
            ids.1@ == known_token_ids(self.mapper_model().tokens, string_views(ticker_symbol_tokens@)).filter(
                |id: TokenId| self.mapper_model().sequences.contains_key(id),
            ),
    {
        proof {
            use_type_invariant(self);
        }
        let mapper = &self.company_token_mapper;
        assert((|t: Seq<char>| mapper.token_mapper.spec_token_id(t)) =~= (|t: Seq<char>| position_in(
            self.mapper_model().tokens,
            t,
        )));
        let query_text_doc_token_ids = mapper.token_mapper.get_filtered_token_ids(token_refs(text_doc_tokens));
        let known_ticker_ids = mapper.token_mapper.get_filtered_token_ids(token_refs(ticker_symbol_tokens));
        let ghost keep = |id: TokenId| self.mapper_model().sequences.contains_key(id);
        let mut query_ticker_symbol_token_ids: Vec<TokenId> = Vec::new();
        let mut i: usize = 0;
        while i < known_ticker_ids.len()
            invariant
                i <= known_ticker_ids@.len(),
                keep == (|id: TokenId| self.mapper_model().sequences.contains_key(id)),
                query_ticker_symbol_token_ids@ == known_ticker_ids@.take(i as int).filter(keep),
            decreases known_ticker_ids@.len() - i,
        {
            proof {
                assert(known_ticker_ids@.take(i + 1) =~= known_ticker_ids@.take(i as int).push(
                    known_ticker_ids@[i as int],
                ));
                known_ticker_ids@.take(i as int).lemma_filter_push(known_ticker_ids@[i as int], keep);
            }
            if self.company_token_mapper.company_token_sequences_map.contains_key(&known_ticker_ids[i]) {
                query_ticker_symbol_token_ids.push(known_ticker_ids[i]);
            }
            i = i + 1;
        }
        assert(known_ticker_ids@.take(known_ticker_ids@.len() as int) =~= known_ticker_ids@);
        (query_text_doc_token_ids, query_ticker_symbol_token_ids)
    }

    /// Reduces each frequency by the number of top runs that hold its ticker symbol's token id,
    /// and drops the frequencies that reach zero: see `adjust_frequencies`.
    ///
    /// Fails with a parser error where there are top runs and a ticker symbol has no token id.
    fn adjust_query_ticker_frequencies(
        &self,
        query_ticker_frequencies: &mut TickerSymbolFrequencyMap,
        top_range_states: &[TokenRangeState],
    ) -> (result: Result<(), Error>)
        ensures
            match adjust_frequencies(
                entry_views(old(query_ticker_frequencies)@),
                range_views(top_range_states@),
                self.mapper_model().ticker_ids,
            ) {
                Some(adjusted) => result is Ok && entry_views(final(query_ticker_frequencies)@)
                    == adjusted,
                None => result matches Err(Error::ParserError(_)),
            },
    {
        let ghost initial = entry_views(query_ticker_frequencies@);
        let ghost top = range_views(top_range_states@);
        let ghost ticker_ids = self.mapper_model().ticker_ids;
        let mut r: usize = 0;
        while r < top_range_states.len()
            invariant
                r <= top.len(),
                initial == entry_views(old(query_ticker_frequencies)@),
                top == range_views(top_range_states@),
                ticker_ids == self.mapper_model().ticker_ids,
                query_ticker_frequencies@.len() == initial.len(),
                r > 0 ==> forall|k: int| 0 <= k < initial.len() ==> ticker_ids.contains_key(#[trigger] initial[k].0),
                forall|k: int|
                    0 <= k < initial.len() ==> #[trigger] entry_views(query_ticker_frequencies@)[k]
                        == (initial[k].0, reduced_frequency(initial[k].1, ranges_holding(top.take(r as int), ticker_ids[initial[k].0]))),
            decreases top.len() - r,
        {
            let range_text_doc_token_ids = &top_range_states[r].query_text_doc_token_ids;
            assert(top.take(r + 1).drop_last() =~= top.take(r as int));
            assert(top[r as int].query_text_doc_token_ids == range_text_doc_token_ids@);
            let mut k: usize = 0;
            while k < query_ticker_frequencies.len()
                invariant
                    k <= query_ticker_frequencies@.len(),
                    initial == entry_views(old(query_ticker_frequencies)@),
                    r < top.len(),
                    top == range_views(top_range_states@),
                    top[r as int].query_text_doc_token_ids == range_text_doc_token_ids@,
                    top.take(r + 1).drop_last() == top.take(r as int),
                    ticker_ids == self.mapper_model().ticker_ids,
                    query_ticker_frequencies@.len() == initial.len(),
                    forall|j: int| 0 <= j < k ==> ticker_ids.contains_key(#[trigger] initial[j].0),
                    r > 0 ==> forall|j: int| 0 <= j < initial.len() ==> ticker_ids.contains_key(#[trigger] initial[j].0),
                    forall|j: int|
                        k <= j < initial.len() ==> #[trigger] entry_views(query_ticker_frequencies@)[j]
                            == (initial[j].0, reduced_frequency(initial[j].1, ranges_holding(top.take(r as int), ticker_ids[initial[j].0]))),
                    forall|j: int|
                        0 <= j < k ==> #[trigger] entry_views(query_ticker_frequencies@)[j]
                            == (initial[j].0, reduced_frequency(initial[j].1, ranges_holding(top.take(r + 1), ticker_ids[initial[j].0]))),
                decreases query_ticker_frequencies@.len() - k,
            {
                assert(entry_views(query_ticker_frequencies@)[k as int] == (query_ticker_frequencies@[k as int].0@, query_ticker_frequencies@[k as int].1));
                let token_id = match self.company_token_mapper.get_ticker_symbol_token_id(&query_ticker_frequencies[k].0) {
                    Ok(id) => *id,
                    Err(e) => {
                        proof {
                            assert(!ticker_ids.contains_key(initial[k as int].0));
                            assert(adjust_frequencies(initial, top, ticker_ids) is None);
                        }
                        return Err(e);
                    },
                };
                let held = contains_token_id(range_text_doc_token_ids, token_id);
                let ghost before = query_ticker_frequencies@;
                let (symbol, frequency) = query_ticker_frequencies.remove(k);
                let updated = if held {
                    frequency.saturating_sub(1)
                } else {
                    frequency
                };
                query_ticker_frequencies.insert(k, (symbol, updated));
                proof {
                    let after = query_ticker_frequencies@;
                    assert(after =~= before.update(k as int, after[k as int]));
                    assert forall|j: int| 0 <= j < initial.len() && j != k implies #[trigger] entry_views(after)[j]
                        == entry_views(before)[j] by {
                        assert(after[j] == before[j]);
                    }
                }
                k = k + 1;
            }
            r = r + 1;
        }
        assert(top.take(top.len() as int) =~= top);
        let ghost reduced = entry_views(query_ticker_frequencies@);
        let ghost keep = |e: (Seq<char>, usize)| e.1 > 0;
        let mut kept: TickerSymbolFrequencyMap = Vec::new();
        let mut i: usize = 0;
        while i < query_ticker_frequencies.len()
            invariant
                i <= query_ticker_frequencies@.len(),
                reduced == entry_views(query_ticker_frequencies@),
                keep == (|e: (Seq<char>, usize)| e.1 > 0),
                entry_views(kept@) == reduced.take(i as int).filter(keep),
            decreases query_ticker_frequencies@.len() - i,
        {
            proof {
                assert(reduced.take(i + 1) =~= reduced.take(i as int).push(reduced[i as int]));
                reduced.take(i as int).lemma_filter_push(reduced[i as int], keep);
            }
            if query_ticker_frequencies[i].1 > 0 {
                let ghost before = entry_views(kept@);
                kept.push((query_ticker_frequencies[i].0.clone(), query_ticker_frequencies[i].1));
                assert(entry_views(kept@) =~= before.push(reduced[i as int]));
            }
            i = i + 1;
        }
        assert(reduced.take(reduced.len() as int) =~= reduced);
        proof {
            assert(reduced =~= initial.map_values(
                |e: (Seq<char>, usize)|
                    (e.0, reduced_frequency(e.1, ranges_holding(top, ticker_ids[e.0]))),
            ));
            if top.len() == 0 {
                assert(!(top.len() > 0));
            }
        }
        *query_ticker_frequencies = kept;
        Ok(())
    }

    /// The frequencies of all maps summed per ticker symbol, in order of first appearance: see
    /// `combine_entries`.
    ///
    /// Every ticker symbol's total must fit in a `usize`.
    fn combine_ticker_symbol_frequencies(&self, ticker_symbol_frequency_maps: &[TickerSymbolFrequencyMap]) -> (combined:
        TickerSymbolFrequencyMap)
        requires
            forall|symbol: Seq<char>| #[trigger] symbol_total(
                maps_entries(ticker_symbol_frequency_maps@),
                symbol,
            ) <= usize::MAX,
        ensures
            entry_views(combined@) == combine_entries(
                maps_entries(ticker_symbol_frequency_maps@),
            ),
    {
        let ghost maps = ticker_symbol_frequency_maps@.map_values(|m: TickerSymbolFrequencyMap| entry_views(m@));
        let ghost all = maps_entries(ticker_symbol_frequency_maps@);
        assert(maps.skip(0) =~= maps);
        let mut combined: TickerSymbolFrequencyMap = Vec::new();
        let ghost mut done: Seq<(Seq<char>, usize)> = Seq::empty();
        let mut m: usize = 0;
        while m < ticker_symbol_frequency_maps.len()
            invariant
                m <= maps.len(),
                maps == ticker_symbol_frequency_maps@.map_values(|m: TickerSymbolFrequencyMap| entry_views(m@)),
                all == maps.flatten(),
                all == done + maps.skip(m as int).flatten(),
                forall|symbol: Seq<char>| #[trigger] symbol_total(all, symbol) <= usize::MAX,
                entry_views(combined@) == combine_entries(done),
                entry_keys(combine_entries(done)).no_duplicates(),
                forall|k: int| 0 <= k < combined@.len() ==> combined@[k].1 == symbol_total(done, #[trigger] combine_entries(done)[k].0),
            decreases maps.len() - m,
        {
            let map = &ticker_symbol_frequency_maps[m];
            assert(maps[m as int] == entry_views(map@));
            assert(maps.skip(m as int).flatten() =~= maps[m as int] + maps.skip(m + 1).flatten()) by {
                assert(maps.skip(m as int).drop_first() =~= maps.skip(m + 1));
            }
            let ghost start = done;
            let mut e: usize = 0;
            while e < map.len()
                invariant
                    e <= map@.len(),
                    m < maps.len(),
                    maps[m as int] == entry_views(map@),
                    all == start + maps[m as int] + maps.skip(m + 1).flatten(),
                    done == start + entry_views(map@).take(e as int),
                    forall|symbol: Seq<char>| #[trigger] symbol_total(all, symbol) <= usize::MAX,
                    entry_views(combined@) == combine_entries(done),
                    entry_keys(combine_entries(done)).no_duplicates(),
                    forall|k: int| 0 <= k < combined@.len() ==> combined@[k].1 == symbol_total(done, #[trigger] combine_entries(done)[k].0),
                decreases map@.len() - e,
            {
                let ghost entry = entry_views(map@)[e as int];
                let ghost next = done.push(entry);
                assert(next =~= start + entry_views(map@).take(e + 1));
                assert(next.drop_last() =~= done);
                proof {
                    assert(next =~= (start + maps[m as int] + maps.skip(m + 1).flatten()).take(next.len() as int));
                    lemma_symbol_total_prefix(all, next.len() as int, entry.0);
                }
                let ghost acc = combine_entries(done);
                match position_of_symbol(&combined, &map[e].0) {
                    Some(j) => {
                        assert(entry_keys(acc)[j as int] == entry.0);
                        assert(entry_keys(acc).index_of(entry.0) == j) by {
                            assert(entry_keys(acc).contains(entry.0));
                        }
                        let (symbol, frequency) = combined.remove(j);
                        combined.insert(j, (symbol, frequency + map[e].1));
                        proof {
                            assert(entry_keys(add_frequency(acc, entry)) =~= entry_keys(acc));
                            assert forall|k: int| 0 <= k < combined@.len() implies combined@[k].1 == symbol_total(next, #[trigger] combine_entries(next)[k].0) by {
                                if k != j {
                                    assert(entry_keys(acc)[k] == acc[k].0);
                                    assert(acc[k].0 != entry.0);
                                }
                            }
                        }
                    },
                    None => {
                        assert(!entry_keys(acc).contains(entry.0)) by {
                            if entry_keys(acc).contains(entry.0) {
                                let k = choose|k: int| 0 <= k < entry_keys(acc).len() && entry_keys(acc)[k] == entry.0;
                                assert(combined@[k].0@ == entry.0);
                            }
                        }
                        combined.push((map[e].0.clone(), map[e].1));
                        proof {
                            assert(entry_keys(add_frequency(acc, entry)) =~= entry_keys(acc).push(entry.0));
                            assert(!entry_keys(done).contains(entry.0)) by {
                                if entry_keys(done).contains(entry.0) {
                                    let k = choose|k: int| 0 <= k < entry_keys(done).len() && entry_keys(done)[k] == entry.0;
                                    lemma_combine_keys(done);
                                    assert(entry_keys(done)[k] == done[k].0);
                                }
                            }
                            lemma_symbol_total_absent(done, entry.0);
                            assert forall|k: int| 0 <= k < combined@.len() implies combined@[k].1 == symbol_total(next, #[trigger] combine_entries(next)[k].0) by {
                                if k < acc.len() {
                                    assert(acc[k].0 != entry.0);
                                }
                            }
                        }
                    },
                }
                assert(entry_views(combined@) =~= combine_entries(next));
                proof {
                    done = next;
                }
                e = e + 1;
            }
            assert(entry_views(map@).take(map@.len() as int) =~= entry_views(map@));
            m = m + 1;
        }
        assert(maps.skip(maps.len() as int).flatten() =~= Seq::<(Seq<char>, usize)>::empty());
        assert(done =~= all);
        combined
    }

    /// The company token sequences that start with a query token id, per ticker symbol token
    /// id, in order of discovery: see `potential_sequences`.
    fn get_potential_token_sequences(&self, query_text_doc_token_ids: &[TokenId]) -> (result: Result<
        PotentialTokenSequenceMap,
        Error,
    >)
        ensures
            result matches Ok(p) && potential_view(p@) == potential_sequences(
                self.mapper_model(),
                query_text_doc_token_ids@,
                query_text_doc_token_ids@.len(),
            ),
    {
        let ghost model = self.mapper_model();
        let ghost query = query_text_doc_token_ids@;
        let mapper = &self.company_token_mapper;
        let mut potential: PotentialTokenSequenceMap = Vec::new();
        assert(potential_view(potential@) =~= Seq::empty());
        let mut i: usize = 0;
        while i < query_text_doc_token_ids.len()
            invariant
                i <= query.len(),
                query == query_text_doc_token_ids@,
                model == mapper.model(),
                potential_view(potential@) == potential_sequences(model, query, i as nat),
            decreases query.len() - i,
        {
            let query_token_id = query_text_doc_token_ids[i];
            match mapper.company_reverse_token_map.get(&query_token_id) {
                Some(tickers) => {
                    let ghost start = potential_view(potential@);
                    assert(model.reverse[query_token_id] == tickers@);
                    let mut j: usize = 0;
                    while j < tickers.len()
                        invariant
                            j <= tickers@.len(),
                            model == mapper.model(),
                            potential_view(potential@) == scan_candidate_tickers(
                                start,
                                query_token_id,
                                tickers@,
                                model.sequences,
                                j as nat,
                            ),
                        decreases tickers@.len() - j,
                    {
                        let ticker_symbol_token_id = tickers[j];
                        match mapper.company_token_sequences_map.get(&ticker_symbol_token_id) {
                            Some(sequences) => {
                                let ghost views = nested_views(sequences@);
                                assert(model.sequences[ticker_symbol_token_id] == views);
                                let ghost base = potential_view(potential@);
                                let mut s: usize = 0;
                                while s < sequences.len()
                                    invariant
                                        s <= sequences@.len(),
                                        views == nested_views(sequences@),
                                        potential_view(potential@) == scan_company_sequences(
                                            base,
                                            ticker_symbol_token_id,
                                            query_token_id,
                                            views,
                                            s as nat,
                                        ),
                                    decreases sequences@.len() - s,
                                {
                                    let sequence = &sequences[s];
                                    assert(views[s as int] == sequence@);
                                    if sequence.len() > 0 && sequence[0] == query_token_id {
                                        add_potential_sequence(
                                            &mut potential,
                                            ticker_symbol_token_id,
                                            s,
                                            sequence,
                                        );
                                    }
                                    s = s + 1;
                                }
                            },
                            None => {},
                        }
                        j = j + 1;
                    }
                },
                None => {},
            }
            i = i + 1;
        }
        Ok(potential)
    }
}

} // verus!
