//! Contiguous runs of query tokens that follow a company's token sequence.
use vstd::prelude::*;

use crate::company_token_mapper::{company_sequence_length, CompanyModel, CompanyTokenMapper};
use crate::error::Error;
use crate::ratio::{
    lemma_score_order, score_greater, score_greater_exec, score_tied, score_tied_exec, Ratio, RangeScore,
};
use crate::token_parity_state::{potential_view, PotentialTokenSequenceMap, TokenParityState};
use crate::text::usize_to_string;
use crate::types::{
    CompanySequenceIndex, CompanySequenceTokenIndex, QueryTokenIndex, TickerSymbol,
    TickerSymbolFrequencyMap, TokenId,
};
use crate::utils::seq_facts::first_occurrences;

verus! {

/// A run of query tokens aligned with consecutive tokens of one company token sequence.
#[derive(Debug)]
pub struct TokenRangeState {
    /// The ticker symbol of the company.
    pub ticker_symbol: TickerSymbol,
    /// The token id of the ticker symbol.
    pub ticker_symbol_token_id: TokenId,
    /// Whether the run is exactly the ticker symbol token; `None` until finalized.
    pub is_matched_on_ticker_symbol: Option<bool>,
    /// The query token indices of the run.
    pub query_token_indices: Vec<QueryTokenIndex>,
    /// The query token ids of the run.
    pub query_text_doc_token_ids: Vec<TokenId>,
    /// The index of the company token sequence.
    pub company_sequence_idx: CompanySequenceIndex,
    /// The company sequence token indices of the run.
    pub company_sequence_token_indices: Vec<CompanySequenceTokenIndex>,
    /// The length of the company token sequence.
    pub company_sequence_max_length: usize,
    /// The share of the company token sequence that the run covers (set when finalized).
    pub company_token_coverage: Ratio,
    /// The run's score, once assigned.
    pub range_score: Option<RangeScore>,
    /// Whether the run is complete.
    pub is_collection_finalized: bool,
}

/// The abstract form of a `TokenRangeState`.
pub struct RangeView {
    pub ticker_symbol: Seq<char>,
    pub ticker_symbol_token_id: TokenId,
    pub is_matched_on_ticker_symbol: Option<bool>,
    pub query_token_indices: Seq<QueryTokenIndex>,
    pub query_text_doc_token_ids: Seq<TokenId>,
    pub company_sequence_idx: CompanySequenceIndex,
    pub company_sequence_token_indices: Seq<CompanySequenceTokenIndex>,
    pub company_sequence_max_length: usize,
    pub company_token_coverage: Ratio,
    pub range_score: Option<RangeScore>,
    pub is_collection_finalized: bool,
}

impl View for TokenRangeState {
    type V = RangeView;

    open spec fn view(&self) -> RangeView {
        RangeView {
            ticker_symbol: self.ticker_symbol@,
            ticker_symbol_token_id: self.ticker_symbol_token_id,
            is_matched_on_ticker_symbol: self.is_matched_on_ticker_symbol,
            query_token_indices: self.query_token_indices@,
            query_text_doc_token_ids: self.query_text_doc_token_ids@,
            company_sequence_idx: self.company_sequence_idx,
            company_sequence_token_indices: self.company_sequence_token_indices@,
            company_sequence_max_length: self.company_sequence_max_length,
            company_token_coverage: self.company_token_coverage,
            range_score: self.range_score,
            is_collection_finalized: self.is_collection_finalized,
        }
    }
}

/// The views of a sequence of range states.
pub open spec fn range_views(s: Seq<TokenRangeState>) -> Seq<RangeView> {
    s.map_values(|r: TokenRangeState| r@)
}

/// A fresh, empty run.
pub open spec fn new_range(
    ticker_symbol: Seq<char>,
    ticker_symbol_token_id: TokenId,
    company_sequence_idx: CompanySequenceIndex,
    company_sequence_max_length: usize,
) -> RangeView {
    RangeView {
        ticker_symbol,
        ticker_symbol_token_id,
        is_matched_on_ticker_symbol: None,
        query_token_indices: Seq::empty(),
        query_text_doc_token_ids: Seq::empty(),
        company_sequence_idx,
        company_sequence_token_indices: Seq::empty(),
        company_sequence_max_length,
        company_token_coverage: Ratio { numerator: 0, denominator: 1 },
        range_score: None,
        is_collection_finalized: false,
    }
}

/// A run extended by one aligned token.
pub open spec fn add_partial(
    r: RangeView,
    query_token_idx: QueryTokenIndex,
    query_token_id: TokenId,
    company_sequence_token_idx: CompanySequenceTokenIndex,
) -> RangeView {
    RangeView {
        query_token_indices: r.query_token_indices.push(query_token_idx),
        query_text_doc_token_ids: r.query_text_doc_token_ids.push(query_token_id),
        company_sequence_token_indices: r.company_sequence_token_indices.push(
            company_sequence_token_idx,
        ),
        ..r
    }
}

/// A completed run: its coverage is the number of its tokens over the sequence length, and it
/// matches on the ticker symbol when it is exactly the ticker symbol token.
pub open spec fn finalize(r: RangeView) -> RangeView {
    RangeView {
        company_token_coverage: Ratio {
            numerator: r.query_token_indices.len() as usize,
            denominator: r.company_sequence_max_length,
        },
        is_matched_on_ticker_symbol: Some(
            r.query_text_doc_token_ids.len() == 1 && r.query_text_doc_token_ids[0]
                == r.ticker_symbol_token_id,
        ),
        is_collection_finalized: true,
        ..r
    }
}

/// The state of the scan over parity states for one ticker symbol.
pub struct RangeScan {
    pub last_company_sequence_idx: int,
    pub last_company_sequence_token_idx: int,
    pub last_query_token_idx: int,
    pub current: Option<RangeView>,
    pub done: Seq<RangeView>,
}

/// The marker that no previous index has been seen.
pub open spec fn unset_index() -> int {
    usize::MAX - 1
}

/// The scan before any parity state.
pub open spec fn scan_start() -> RangeScan {
    RangeScan {
        last_company_sequence_idx: unset_index(),
        last_company_sequence_token_idx: unset_index(),
        last_query_token_idx: unset_index(),
        current: None,
        done: Seq::empty(),
    }
}

/// The completed runs once the current run, if any, is finalized and kept when not empty.
pub open spec fn flush(done: Seq<RangeView>, current: Option<RangeView>) -> Seq<RangeView> {
    match current {
        Some(r) => if !r.is_collection_finalized {
            if finalize(r).query_token_indices.len() > 0 {
                done.push(finalize(r))
            } else {
                done
            }
        } else {
            done
        },
        None => done,
    }
}

/// Whether parity state `p` starts a new run after the scan `s`.
pub open spec fn starts_new_run(s: RangeScan, p: TokenParityState) -> bool {
    p.company_sequence_token_idx == 0 || s.last_company_sequence_idx != p.company_sequence_idx
        || p.company_sequence_token_idx != s.last_company_sequence_token_idx + 1
        || p.query_token_idx != s.last_query_token_idx + 1
}

/// The scan after parity state `p`, or `None` where a new run's sequence length is unknown.
pub open spec fn scan_step(
    s: RangeScan,
    p: TokenParityState,
    ticker_symbol_token_id: TokenId,
    ticker_symbol: Seq<char>,
    sequences: Map<TokenId, Seq<Seq<TokenId>>>,
) -> Option<RangeScan> {
    if p.ticker_symbol_token_id != ticker_symbol_token_id {
        Some(
            RangeScan {
                last_company_sequence_idx: unset_index(),
                last_company_sequence_token_idx: unset_index(),
                last_query_token_idx: unset_index(),
                ..s
            },
        )
    } else {
        let is_new = starts_new_run(s, p);
        let length = company_sequence_length(sequences, ticker_symbol_token_id, p.company_sequence_idx);
        if is_new && length is None {
            None
        } else {
            let (done, current) = if is_new {
                (
                    flush(s.done, s.current),
                    Some(new_range(ticker_symbol, ticker_symbol_token_id, p.company_sequence_idx, length->0)),
                )
            } else {
                (s.done, s.current)
            };
            let current = if !(is_new && p.company_sequence_token_idx != 0) {
                match current {
                    Some(r) => Some(
                        add_partial(
                            r,
                            p.query_token_idx,
                            p.query_token_id,
                            p.company_sequence_token_idx,
                        ),
                    ),
                    None => None,
                }
            } else {
                current
            };
            Some(
                RangeScan {
                    last_company_sequence_idx: p.company_sequence_idx as int,
                    last_company_sequence_token_idx: p.company_sequence_token_idx as int,
                    last_query_token_idx: p.query_token_idx as int,
                    current,
                    done,
                },
            )
        }
    }
}

/// The scan over parity states `parity`, or `None` where it fails.
pub open spec fn scan_states(
    parity: Seq<TokenParityState>,
    ticker_symbol_token_id: TokenId,
    ticker_symbol: Seq<char>,
    sequences: Map<TokenId, Seq<Seq<TokenId>>>,
) -> Option<RangeScan>
    decreases parity.len(),
{
    if parity.len() == 0 {
        Some(scan_start())
    } else {
        match scan_states(parity.drop_last(), ticker_symbol_token_id, ticker_symbol, sequences) {
            Some(s) => scan_step(s, parity.last(), ticker_symbol_token_id, ticker_symbol, sequences),
            None => None,
        }
    }
}

/// The runs of one ticker symbol, or `None` where a sequence length is unknown.
pub open spec fn ticker_ranges(
    parity: Seq<TokenParityState>,
    ticker_symbol_token_id: TokenId,
    ticker_symbol: Seq<char>,
    sequences: Map<TokenId, Seq<Seq<TokenId>>>,
) -> Option<Seq<RangeView>> {
    match scan_states(parity, ticker_symbol_token_id, ticker_symbol, sequences) {
        Some(s) => Some(flush(s.done, s.current)),
        None => None,
    }
}

/// The runs of the first `n` ticker symbol token ids of `keys`, or `None` where a ticker symbol
/// or a sequence length is unknown.
pub open spec fn all_ranges(
    keys: Seq<TokenId>,
    parity: Seq<TokenParityState>,
    model: CompanyModel,
    n: nat,
) -> Option<Seq<RangeView>>
    decreases n,
{
    if n == 0 {
        Some(Seq::empty())
    } else {
        match all_ranges(keys, parity, model, (n - 1) as nat) {
            Some(acc) => {
                let id = keys[n - 1];
                if !model.id_tickers.contains_key(id) {
                    None
                } else {
                    match ticker_ranges(parity, id, model.id_tickers[id], model.sequences) {
                        Some(r) => Some(acc + r),
                        None => None,
                    }
                }
            },
            None => None,
        }
    }
}

/// What identifies a run for de-duplication: its ticker symbol, then either the query token
/// ids it holds (`by_position` false) or the query token positions it covers (`by_position`
/// true), then its company sequence.
pub open spec fn range_key(r: RangeView, by_position: bool) -> (Seq<char>, Seq<usize>, CompanySequenceIndex) {
    if by_position {
        (r.ticker_symbol, r.query_token_indices, r.company_sequence_idx)
    } else {
        (r.ticker_symbol, r.query_text_doc_token_ids, r.company_sequence_idx)
    }
}

/// Whether a run with the key of `s[i]` occurs before position `i`.
pub open spec fn key_seen_before(s: Seq<RangeView>, i: int, by_position: bool) -> bool {
    exists|k: int| 0 <= k < i && range_key(#[trigger] s[k], by_position) == range_key(s[i], by_position)
}

/// The runs of `s` whose key has not occurred earlier, in order.
pub open spec fn unique_runs(s: Seq<RangeView>, by_position: bool) -> Seq<RangeView>
    decreases s.len(),
{
    if s.len() == 0 {
        Seq::empty()
    } else if key_seen_before(s, s.len() - 1, by_position) {
        unique_runs(s.drop_last(), by_position)
    } else {
        unique_runs(s.drop_last(), by_position).push(s.last())
    }
}

/// The first run of each (ticker symbol, query token ids, company sequence index), in order.
pub open spec fn unique_ranges(s: Seq<RangeView>) -> Seq<RangeView> {
    unique_runs(s, false)
}

/// The first run of each (ticker symbol, query token positions, company sequence index), in
/// order: one run per mention of a company name in the text.
pub open spec fn unique_mentions(s: Seq<RangeView>) -> Seq<RangeView> {
    unique_runs(s, true)
}

/// Every run kept by `unique_runs` is a run of the input, and no two kept runs share a key.
pub proof fn lemma_unique_runs_distinct(s: Seq<RangeView>, by_position: bool)
    ensures
        forall|k: int| 0 <= k < unique_runs(s, by_position).len() ==> s.contains(#[trigger] unique_runs(s, by_position)[k]),
        forall|a: int, b: int|
            0 <= a < b < unique_runs(s, by_position).len() ==> range_key(#[trigger] unique_runs(s, by_position)[a], by_position)
                != range_key(#[trigger] unique_runs(s, by_position)[b], by_position),
    decreases s.len(),
{
    if s.len() > 0 {
        let p = s.drop_last();
        lemma_unique_runs_distinct(p, by_position);
        let u = unique_runs(p, by_position);
        assert forall|k: int| 0 <= k < u.len() implies s.contains(#[trigger] u[k]) by {
            let j = choose|j: int| 0 <= j < p.len() && p[j] == u[k];
            assert(s[j] == u[k]);
        }
        if !key_seen_before(s, s.len() - 1, by_position) {
            let out = u.push(s.last());
            assert(s[s.len() - 1] == s.last());
            assert forall|a: int, b: int| 0 <= a < b < out.len() implies range_key(#[trigger] out[a], by_position)
                != range_key(#[trigger] out[b], by_position) by {
                if b == out.len() - 1 {
                    let j = choose|j: int| 0 <= j < p.len() && p[j] == u[a];
                    assert(s[j] == out[a]);
                    if range_key(out[a], by_position) == range_key(out[b], by_position) {
                        assert(range_key(s[j], by_position) == range_key(s[s.len() - 1], by_position));
                        assert(key_seen_before(s, s.len() - 1, by_position));
                    }
                } else {
                    assert(out[a] == u[a] && out[b] == u[b]);
                }
            }
        }
    }
}

/// Runs whose keys are all distinct are kept as they are.
proof fn lemma_unique_runs_of_distinct(s: Seq<RangeView>, by_position: bool)
    requires
        forall|a: int, b: int| 0 <= a < b < s.len() ==> range_key(#[trigger] s[a], by_position) != range_key(#[trigger] s[b], by_position),
    ensures
        unique_runs(s, by_position) == s,
    decreases s.len(),
{
    if s.len() > 0 {
        let p = s.drop_last();
        assert forall|a: int, b: int| 0 <= a < b < p.len() implies range_key(#[trigger] p[a], by_position) != range_key(#[trigger] p[b], by_position) by {
            assert(p[a] == s[a] && p[b] == s[b]);
        }
        lemma_unique_runs_of_distinct(p, by_position);
        assert(!key_seen_before(s, s.len() - 1, by_position)) by {
            if key_seen_before(s, s.len() - 1, by_position) {
                let k = choose|k: int| 0 <= k < s.len() - 1 && range_key(#[trigger] s[k], by_position) == range_key(s[s.len() - 1], by_position);
            }
        }
        assert(s =~= p.push(s.last()));
    }
}

/// Removing repeated runs twice gives what removing them once gives, by either key
/// (`get_unique` and `get_unique_mentions` are idempotent).
pub proof fn law_unique_ranges_is_idempotent(s: Seq<RangeView>, by_position: bool)
    ensures
        unique_runs(unique_runs(s, by_position), by_position) == unique_runs(s, by_position),
{
    lemma_unique_runs_distinct(s, by_position);
    lemma_unique_runs_of_distinct(unique_runs(s, by_position), by_position);
}

/// Whether two index vectors hold the same indices.
pub fn indices_equal(a: &Vec<usize>, b: &Vec<usize>) -> (equal: bool)
    ensures
        equal == (a@ == b@),
{
    if a.len() != b.len() {
        return false;
    }
    let mut i: usize = 0;
    while i < a.len()
        invariant
            i <= a@.len(),
            a@.len() == b@.len(),
            forall|k: int| 0 <= k < i ==> a@[k] == b@[k],
        decreases a@.len() - i,
    {
        if a[i] != b[i] {
            return false;
        }
        i = i + 1;
    }
    assert(a@ =~= b@);
    true
}

/// A copy of an index vector.
pub fn copy_indices(v: &Vec<usize>) -> (copy: Vec<usize>)
    ensures
        copy@ == v@,
{
    let mut copy: Vec<usize> = Vec::new();
    let mut i: usize = 0;
    while i < v.len()
        invariant
            i <= v@.len(),
            copy@ == v@.take(i as int),
        decreases v@.len() - i,
    {
        copy.push(v[i]);
        assert(v@.take(i + 1) =~= v@.take(i as int).push(v@[i as int]));
        i = i + 1;
    }
    assert(v@.take(v@.len() as int) =~= v@);
    copy
}

/// The view of an optional range state.
pub open spec fn opt_view(r: Option<TokenRangeState>) -> Option<RangeView> {
    match r {
        Some(s) => Some(s@),
        None => None,
    }
}

/// The ticker symbol token ids of potential token sequences, in order.
pub open spec fn potential_keys(p: PotentialTokenSequenceMap) -> Seq<TokenId> {
    potential_view(p@).map_values(|e: (TokenId, Seq<(CompanySequenceIndex, Seq<TokenId>)>)| e.0)
}

/// A failed scan stays failed over more parity states.
proof fn lemma_scan_none_extends(
    parity: Seq<TokenParityState>,
    k: int,
    ticker_symbol_token_id: TokenId,
    ticker_symbol: Seq<char>,
    sequences: Map<TokenId, Seq<Seq<TokenId>>>,
)
    requires
        0 <= k <= parity.len(),
        scan_states(parity.take(k), ticker_symbol_token_id, ticker_symbol, sequences) is None,
    ensures
        scan_states(parity, ticker_symbol_token_id, ticker_symbol, sequences) is None,
    decreases parity.len() - k,
{
    if k < parity.len() {
        assert(parity.take(k + 1).drop_last() =~= parity.take(k));
        lemma_scan_none_extends(parity, k + 1, ticker_symbol_token_id, ticker_symbol, sequences);
    } else {
        assert(parity.take(k) =~= parity);
    }
}

/// A failed collection stays failed over more ticker symbols.
proof fn lemma_all_ranges_none_extends(
    keys: Seq<TokenId>,
    parity: Seq<TokenParityState>,
    model: CompanyModel,
    k: nat,
    n: nat,
)
    requires
        k <= n,
        all_ranges(keys, parity, model, k) is None,
    ensures
        all_ranges(keys, parity, model, n) is None,
    decreases n - k,
{
    if k < n {
        lemma_all_ranges_none_extends(keys, parity, model, k + 1, n);
    }
}

/// Whether every run's query token indices are below `n`, for runs of a scan.
pub open spec fn runs_below(runs: Seq<RangeView>, n: nat) -> bool {
    forall|si: int, j: int|
        0 <= si < runs.len() && 0 <= j < runs[si].query_token_indices.len()
            ==> #[trigger] runs[si].query_token_indices[j] < n
}

/// Whether a scan's runs, finished and current, hold only query token indices below `n`.
pub open spec fn scan_below(s: RangeScan, n: nat) -> bool {
    &&& runs_below(s.done, n)
    &&& match s.current {
        Some(r) => runs_below(seq![r], n),
        None => true,
    }
}

/// Whether every parity state refers to a query token index below `n`.
pub open spec fn parity_below(parity: Seq<TokenParityState>, n: nat) -> bool {
    forall|i: int| 0 <= i < parity.len() ==> (#[trigger] parity[i]).query_token_idx < n
}

/// Flushing keeps the runs below `n`.
proof fn lemma_flush_below(done: Seq<RangeView>, current: Option<RangeView>, n: nat)
    requires
        runs_below(done, n),
        match current {
            Some(r) => runs_below(seq![r], n),
            None => true,
        },
    ensures
        runs_below(flush(done, current), n),
{
    match current {
        Some(r) => {
            if !r.is_collection_finalized && finalize(r).query_token_indices.len() > 0 {
                let out = done.push(finalize(r));
                assert forall|si: int, j: int|
                    0 <= si < out.len() && 0 <= j < out[si].query_token_indices.len() implies #[trigger] out[si].query_token_indices[j]
                        < n by {
                    if si == done.len() {
                        assert(seq![r][0] == r);
                    }
                }
            }
        },
        None => {},
    }
}

/// A scan over parity states below `n` keeps its runs below `n`.
proof fn lemma_scan_states_below(
    parity: Seq<TokenParityState>,
    ticker_symbol_token_id: TokenId,
    ticker_symbol: Seq<char>,
    sequences: Map<TokenId, Seq<Seq<TokenId>>>,
    n: nat,
)
    requires
        parity_below(parity, n),
    ensures
        match scan_states(parity, ticker_symbol_token_id, ticker_symbol, sequences) {
            Some(s) => scan_below(s, n),
            None => true,
        },
    decreases parity.len(),
{
    if parity.len() > 0 {
        let prefix = parity.drop_last();
        assert(parity_below(prefix, n)) by {
            assert forall|i: int| 0 <= i < prefix.len() implies (#[trigger] prefix[i]).query_token_idx < n by {
                assert(prefix[i] == parity[i]);
            }
        }
        lemma_scan_states_below(prefix, ticker_symbol_token_id, ticker_symbol, sequences, n);
        match scan_states(prefix, ticker_symbol_token_id, ticker_symbol, sequences) {
            Some(s) => {
                let p = parity.last();
                assert(p == parity[parity.len() - 1]);
                if p.ticker_symbol_token_id == ticker_symbol_token_id {
                    let is_new = starts_new_run(s, p);
                    let length = company_sequence_length(sequences, ticker_symbol_token_id, p.company_sequence_idx);
                    if !(is_new && length is None) {
                        if is_new {
                            lemma_flush_below(s.done, s.current, n);
                            let fresh = new_range(ticker_symbol, ticker_symbol_token_id, p.company_sequence_idx, length->0);
                            assert(runs_below(seq![fresh], n));
                            if p.company_sequence_token_idx == 0 {
                                let r = add_partial(fresh, p.query_token_idx, p.query_token_id, p.company_sequence_token_idx);
                                assert(r.query_token_indices =~= seq![p.query_token_idx]);
                                assert(runs_below(seq![r], n)) by {
                                    assert(seq![r][0] == r);
                                }
                            }
                        } else {
                            match s.current {
                                Some(c) => {
                                    let r = add_partial(c, p.query_token_idx, p.query_token_id, p.company_sequence_token_idx);
                                    assert(runs_below(seq![r], n)) by {
                                        assert(seq![r][0] == r);
                                        assert forall|j: int| 0 <= j < r.query_token_indices.len() implies #[trigger] r.query_token_indices[j] < n by {
                                            if j < c.query_token_indices.len() {
                                                assert(seq![c][0] == c);
                                                assert(seq![c][0].query_token_indices[j] < n);
                                            }
                                        }
                                    }
                                },
                                None => {},
                            }
                        }
                    }
                }
            },
            None => {},
        }
    }
}

/// The runs collected over parity states below `n` hold only query token indices below `n`.
pub proof fn lemma_all_ranges_below(
    keys: Seq<TokenId>,
    parity: Seq<TokenParityState>,
    model: CompanyModel,
    k: nat,
    n: nat,
)
    requires
        parity_below(parity, n),
    ensures
        match all_ranges(keys, parity, model, k) {
            Some(all) => runs_below(all, n),
            None => true,
        },
    decreases k,
{
    if k > 0 {
        lemma_all_ranges_below(keys, parity, model, (k - 1) as nat, n);
        match all_ranges(keys, parity, model, (k - 1) as nat) {
            Some(acc) => {
                let id = keys[k - 1];
                if model.id_tickers.contains_key(id) {
                    lemma_scan_states_below(parity, id, model.id_tickers[id], model.sequences, n);
                    match scan_states(parity, id, model.id_tickers[id], model.sequences) {
                        Some(s) => {
                            lemma_flush_below(s.done, s.current, n);
                            let r = flush(s.done, s.current);
                            let out = acc + r;
                            assert forall|si: int, j: int|
                                0 <= si < out.len() && 0 <= j < out[si].query_token_indices.len() implies #[trigger] out[si].query_token_indices[j]
                                    < n by {
                                if si < acc.len() {
                                    assert(out[si] == acc[si]);
                                } else {
                                    assert(out[si] == r[si - acc.len()]);
                                }
                            }
                        },
                        None => {},
                    }
                }
            },
            None => {},
        }
    }
}

/// Removing repeated runs keeps the runs below `n`.
pub proof fn lemma_unique_runs_below(s: Seq<RangeView>, n: nat, by_position: bool)
    requires
        runs_below(s, n),
    ensures
        runs_below(unique_runs(s, by_position), n),
    decreases s.len(),
{
    if s.len() > 0 {
        let p = s.drop_last();
        assert(runs_below(p, n)) by {
            assert forall|si: int, j: int|
                0 <= si < p.len() && 0 <= j < p[si].query_token_indices.len() implies #[trigger] p[si].query_token_indices[j]
                    < n by {
                assert(p[si] == s[si]);
            }
        }
        lemma_unique_runs_below(p, n, by_position);
        if !key_seen_before(s, s.len() - 1, by_position) {
            let u = unique_runs(p, by_position);
            let out = u.push(s.last());
            assert forall|si: int, j: int|
                0 <= si < out.len() && 0 <= j < out[si].query_token_indices.len() implies #[trigger] out[si].query_token_indices[j]
                    < n by {
                if si < u.len() {
                    assert(out[si] == u[si]);
                } else {
                    assert(out[si] == s[s.len() - 1]);
                }
            }
        }
    }
}

/// Whether every run carries ticker symbol `ticker`.
pub open spec fn runs_of_ticker(runs: Seq<RangeView>, ticker: Seq<char>) -> bool {
    forall|i: int| 0 <= i < runs.len() ==> (#[trigger] runs[i]).ticker_symbol == ticker
}

/// The runs of a scan for `ticker` carry `ticker`.
proof fn lemma_scan_states_ticker(
    parity: Seq<TokenParityState>,
    ticker_symbol_token_id: TokenId,
    ticker_symbol: Seq<char>,
    sequences: Map<TokenId, Seq<Seq<TokenId>>>,
)
    ensures
        match scan_states(parity, ticker_symbol_token_id, ticker_symbol, sequences) {
            Some(s) => runs_of_ticker(s.done, ticker_symbol) && (s.current matches Some(r)
                ==> r.ticker_symbol == ticker_symbol),
            None => true,
        },
    decreases parity.len(),
{
    if parity.len() > 0 {
        lemma_scan_states_ticker(parity.drop_last(), ticker_symbol_token_id, ticker_symbol, sequences);
        match scan_states(parity.drop_last(), ticker_symbol_token_id, ticker_symbol, sequences) {
            Some(s) => {
                match s.current {
                    Some(r) => {
                        let f = flush(s.done, s.current);
                        assert(runs_of_ticker(f, ticker_symbol)) by {
                            if !r.is_collection_finalized && finalize(r).query_token_indices.len() > 0 {
                                assert forall|i: int| 0 <= i < f.len() implies (#[trigger] f[i]).ticker_symbol == ticker_symbol by {
                                    if i < s.done.len() {
                                        assert(f[i] == s.done[i]);
                                    }
                                }
                            }
                        }
                    },
                    None => {},
                }
            },
            None => {},
        }
    }
}

/// Every run collected carries a ticker symbol that the model names.
pub proof fn lemma_all_ranges_named(keys: Seq<TokenId>, parity: Seq<TokenParityState>, model: CompanyModel, k: nat)
    ensures
        match all_ranges(keys, parity, model, k) {
            Some(all) => forall|i: int| 0 <= i < all.len() ==> model.id_tickers.values().contains(
                (#[trigger] all[i]).ticker_symbol,
            ),
            None => true,
        },
    decreases k,
{
    if k > 0 {
        lemma_all_ranges_named(keys, parity, model, (k - 1) as nat);
        match all_ranges(keys, parity, model, (k - 1) as nat) {
            Some(acc) => {
                let id = keys[k - 1];
                if model.id_tickers.contains_key(id) {
                    let t = model.id_tickers[id];
                    lemma_scan_states_ticker(parity, id, t, model.sequences);
                    match scan_states(parity, id, t, model.sequences) {
                        Some(s) => {
                            let r = flush(s.done, s.current);
                            assert(runs_of_ticker(r, t)) by {
                                assert forall|i: int| 0 <= i < r.len() implies (#[trigger] r[i]).ticker_symbol == t by {
                                    if i < s.done.len() {
                                        assert(r[i] == s.done[i]);
                                    }
                                }
                            }
                            let out = acc + r;
                            assert(model.id_tickers.values().contains(t));
                            assert forall|i: int| 0 <= i < out.len() implies model.id_tickers.values().contains(
                                (#[trigger] out[i]).ticker_symbol,
                            ) by {
                                if i < acc.len() {
                                    assert(out[i] == acc[i]);
                                } else {
                                    assert(out[i] == r[i - acc.len()]);
                                }
                            }
                        },
                        None => {},
                    }
                }
            },
            None => {},
        }
    }
}

/// Whether every bucket entry is a run index in `[0, n)`.
pub open spec fn buckets_within(b: Seq<Seq<int>>, n: int) -> bool {
    forall|j: int, m: int| 0 <= j < b.len() && 0 <= m < b[j].len() ==> 0 <= #[trigger] b[j][m] < n
}

/// Placing a run keeps the buckets' number and their entries in range.
proof fn lemma_place_within(buckets: Seq<Seq<int>>, states: Seq<RangeView>, si: int, q: int, n: int)
    requires
        buckets_within(buckets, n),
        0 <= si < n,
        0 <= q < buckets.len(),
    ensures
        place(buckets, states, si, q) matches Some(b) ==> b.len() == buckets.len() && buckets_within(b, n),
{
    match place(buckets, states, si, q) {
        Some(b) => {
            assert forall|j: int, m: int| 0 <= j < b.len() && 0 <= m < b[j].len() implies 0 <= #[trigger] b[j][m] < n by {
                if j != q {
                    assert(b[j] == buckets[j]);
                } else if b[j] != buckets[j] {
                    if m < buckets[j].len() && b[j] =~= buckets[j].push(si) {
                        assert(b[j][m] == buckets[j][m]);
                    }
                }
            }
        },
        None => {},
    }
}

/// Placing a run under its first `m` indices keeps the buckets' number and entries in range.
proof fn lemma_place_run_within(buckets: Seq<Seq<int>>, states: Seq<RangeView>, si: int, m: nat, n: int)
    requires
        buckets_within(buckets, n),
        0 <= si < n,
        si < states.len(),
        m <= states[si].query_token_indices.len(),
        indices_below(states, buckets.len()),
    ensures
        place_run(buckets, states, si, m) matches Some(b) ==> b.len() == buckets.len() && buckets_within(b, n),
    decreases m,
{
    if m > 0 {
        lemma_place_run_within(buckets, states, si, (m - 1) as nat, n);
        match place_run(buckets, states, si, (m - 1) as nat) {
            Some(b) => {
                let q = states[si].query_token_indices[m - 1] as int;
                assert(states[si].query_token_indices[m - 1] < buckets.len());
                lemma_place_within(b, states, si, q, n);
            },
            None => {},
        }
    }
}

/// Placing the first `k` runs keeps the buckets' number and entries in range.
proof fn lemma_place_runs_within(buckets: Seq<Seq<int>>, states: Seq<RangeView>, k: nat)
    requires
        buckets_within(buckets, states.len() as int),
        k <= states.len(),
        indices_below(states, buckets.len()),
    ensures
        place_runs(buckets, states, k) matches Some(b) ==> b.len() == buckets.len() && buckets_within(
            b,
            states.len() as int,
        ),
    decreases k,
{
    if k > 0 {
        lemma_place_runs_within(buckets, states, (k - 1) as nat);
        match place_runs(buckets, states, (k - 1) as nat) {
            Some(b) => {
                lemma_place_run_within(
                    b,
                    states,
                    k - 1,
                    states[k - 1].query_token_indices.len(),
                    states.len() as int,
                );
            },
            None => {},
        }
    }
}

/// Every top run is one of the runs.
pub proof fn lemma_top_ranges_subset(query_len: nat, states: Seq<RangeView>)
    requires
        indices_below(states, query_len),
    ensures
        top_ranges(query_len, states) matches Some(top) ==> forall|i: int|
            0 <= i < top.len() ==> states.contains(#[trigger] top[i]),
{
    let empty = Seq::new(query_len, |i: int| Seq::<int>::empty());
    assert(buckets_within(empty, states.len() as int));
    lemma_place_runs_within(empty, states, states.len());
    match place_runs(empty, states, states.len()) {
        Some(b) => {
            crate::utils::seq_facts::lemma_flatten_all(b, |si: int| 0 <= si < states.len());
            let top = b.flatten().map_values(|si: int| states[si]);
            assert forall|i: int| 0 <= i < top.len() implies states.contains(#[trigger] top[i]) by {
                let si = b.flatten()[i];
                assert(0 <= si < states.len());
                assert(states[si] == top[i]);
            }
        },
        None => {},
    }
}

/// Whether every parity state refers to a company token sequence that `sequences` holds.
pub open spec fn parity_valid(parity: Seq<TokenParityState>, sequences: Map<TokenId, Seq<Seq<TokenId>>>) -> bool {
    forall|i: int|
        0 <= i < parity.len() ==> company_sequence_length(
            sequences,
            (#[trigger] parity[i]).ticker_symbol_token_id,
            parity[i].company_sequence_idx,
        ) is Some
}

/// A scan over parity states that refer to known sequences succeeds.
proof fn lemma_scan_states_some(
    parity: Seq<TokenParityState>,
    ticker_symbol_token_id: TokenId,
    ticker_symbol: Seq<char>,
    sequences: Map<TokenId, Seq<Seq<TokenId>>>,
)
    requires
        parity_valid(parity, sequences),
    ensures
        scan_states(parity, ticker_symbol_token_id, ticker_symbol, sequences) is Some,
    decreases parity.len(),
{
    if parity.len() > 0 {
        let prefix = parity.drop_last();
        assert(parity_valid(prefix, sequences)) by {
            assert forall|i: int| 0 <= i < prefix.len() implies company_sequence_length(
                sequences,
                (#[trigger] prefix[i]).ticker_symbol_token_id,
                prefix[i].company_sequence_idx,
            ) is Some by {
                assert(prefix[i] == parity[i]);
            }
        }
        lemma_scan_states_some(prefix, ticker_symbol_token_id, ticker_symbol, sequences);
        assert(parity.last() == parity[parity.len() - 1]);
    }
}

/// Collecting runs succeeds where every ticker symbol token id names a ticker symbol and every
/// parity state refers to a known sequence.
pub proof fn lemma_all_ranges_some(keys: Seq<TokenId>, parity: Seq<TokenParityState>, model: CompanyModel, k: nat)
    requires
        k <= keys.len(),
        forall|j: int| 0 <= j < k ==> model.id_tickers.contains_key(#[trigger] keys[j]),
        parity_valid(parity, model.sequences),
    ensures
        all_ranges(keys, parity, model, k) is Some,
    decreases k,
{
    if k > 0 {
        lemma_all_ranges_some(keys, parity, model, (k - 1) as nat);
        let id = keys[k - 1];
        assert(model.id_tickers.contains_key(id));
        lemma_scan_states_some(parity, id, model.id_tickers[id], model.sequences);
    }
}

/// Whether every run has a score.
pub open spec fn all_scored(states: Seq<RangeView>) -> bool {
    forall|si: int| 0 <= si < states.len() ==> (#[trigger] states[si]).range_score is Some
}

/// Placing a scored run among scored runs succeeds.
proof fn lemma_place_some(buckets: Seq<Seq<int>>, states: Seq<RangeView>, si: int, q: int)
    requires
        buckets_within(buckets, states.len() as int),
        all_scored(states),
        0 <= si < states.len(),
        0 <= q < buckets.len(),
    ensures
        place(buckets, states, si, q) is Some,
{
    assert(states[si].range_score is Some);
    if buckets[q].len() > 0 {
        assert(0 <= buckets[q][0] < states.len());
        assert(states[buckets[q][0]].range_score is Some);
    }
}

/// Placing a scored run among scored runs under its first `m` indices succeeds.
proof fn lemma_place_run_some(buckets: Seq<Seq<int>>, states: Seq<RangeView>, si: int, m: nat)
    requires
        buckets_within(buckets, states.len() as int),
        all_scored(states),
        0 <= si < states.len(),
        m <= states[si].query_token_indices.len(),
        indices_below(states, buckets.len()),
    ensures
        place_run(buckets, states, si, m) is Some,
    decreases m,
{
    if m > 0 {
        lemma_place_run_some(buckets, states, si, (m - 1) as nat);
        lemma_place_run_within(buckets, states, si, (m - 1) as nat, states.len() as int);
        let b = place_run(buckets, states, si, (m - 1) as nat)->0;
        assert(states[si].query_token_indices[m - 1] < buckets.len());
        lemma_place_some(b, states, si, states[si].query_token_indices[m - 1] as int);
    }
}

/// Placing the first `k` runs, all scored, succeeds.
proof fn lemma_place_runs_some(buckets: Seq<Seq<int>>, states: Seq<RangeView>, k: nat)
    requires
        buckets_within(buckets, states.len() as int),
        all_scored(states),
        k <= states.len(),
        indices_below(states, buckets.len()),
    ensures
        place_runs(buckets, states, k) is Some,
    decreases k,
{
    if k > 0 {
        lemma_place_runs_some(buckets, states, (k - 1) as nat);
        lemma_place_runs_within(buckets, states, (k - 1) as nat);
        let b = place_runs(buckets, states, (k - 1) as nat)->0;
        lemma_place_run_some(b, states, k - 1, states[k - 1].query_token_indices.len());
    }
}

/// Picking the top runs fails only on a run without a score: where every run is scored and
/// covers only query token indices below the query length, it succeeds.
pub proof fn law_top_ranges_of_scored_runs_exist(query_len: nat, states: Seq<RangeView>)
    requires
        indices_below(states, query_len),
        all_scored(states),
    ensures
        top_ranges(query_len, states) is Some,
{
    let empty = Seq::new(query_len, |i: int| Seq::<int>::empty());
    assert(buckets_within(empty, states.len() as int));
    lemma_place_runs_some(empty, states, states.len());
}

/// Whether the first `m` query token indices of run `r` hold `q`.
pub open spec fn covers_within(r: RangeView, m: int, q: int) -> bool {
    exists|x: int| 0 <= x < m && x < r.query_token_indices.len() && #[trigger] r.query_token_indices[x] as int == q
}

/// Whether run `r` covers query token index `q`.
pub open spec fn covers(r: RangeView, q: int) -> bool {
    covers_within(r, r.query_token_indices.len() as int, q)
}

/// Whether run `j` has been placed under `q` once the runs before `k`, and the first `m`
/// indices of run `k`, are placed.
pub open spec fn placed(states: Seq<RangeView>, k: int, m: int, j: int, q: int) -> bool {
    (0 <= j < k && covers(states[j], q)) || (j == k && covers_within(states[k], m, q))
}

/// Whether no run placed under `q` has a greater score than run `si`.
pub open spec fn unbeaten(states: Seq<RangeView>, k: int, m: int, si: int, q: int) -> bool {
    forall|j: int|
        0 <= j < states.len() && #[trigger] placed(states, k, m, j, q) ==> !score_greater(
            states[j].range_score->0,
            states[si].range_score->0,
        )
}

/// What the buckets hold once the runs before `k`, and the first `m` indices of run `k`, are
/// placed: runs placed under their bucket's index that no run placed there beats, and at least
/// one run wherever a run has been placed.
pub open spec fn buckets_hold_best(b: Seq<Seq<int>>, states: Seq<RangeView>, k: int, m: int) -> bool {
    &&& buckets_within(b, states.len() as int)
    &&& forall|q: int, x: int|
        0 <= q < b.len() && 0 <= x < b[q].len() ==> placed(states, k, m, #[trigger] b[q][x], q) && unbeaten(
            states,
            k,
            m,
            b[q][x],
            q,
        )
    &&& forall|q: int, j: int|
        0 <= q < b.len() && 0 <= j < states.len() && #[trigger] placed(states, k, m, j, q) ==> b[q].len() > 0
}

/// Placing one more index of run `k` adds exactly that placement.
proof fn lemma_placed_succ(states: Seq<RangeView>, k: int, m: int, j: int, q: int)
    requires
        0 <= k < states.len(),
        0 <= m < states[k].query_token_indices.len(),
    ensures
        placed(states, k, m + 1, j, q) == (placed(states, k, m, j, q) || (j == k
            && states[k].query_token_indices[m] as int == q)),
{
    if j == k && covers_within(states[k], m + 1, q) && !(states[k].query_token_indices[m] as int == q) {
        let x = choose|x: int|
            0 <= x < m + 1 && x < states[k].query_token_indices.len() && #[trigger] states[k].query_token_indices[x]
                as int == q;
        assert(x < m);
    }
    if j == k && states[k].query_token_indices[m] as int == q {
        assert(covers_within(states[k], m + 1, q));
    }
    if j == k && covers_within(states[k], m, q) {
        let x = choose|x: int|
            0 <= x < m && x < states[k].query_token_indices.len() && #[trigger] states[k].query_token_indices[x]
                as int == q;
        assert(covers_within(states[k], m + 1, q));
    }
}

/// Placing run `k` under its `m`-th index keeps the buckets holding the best runs.
proof fn lemma_place_holds_best(b: Seq<Seq<int>>, states: Seq<RangeView>, k: int, m: int)
    requires
        buckets_hold_best(b, states, k, m),
        all_scored(states),
        0 <= k < states.len(),
        0 <= m < states[k].query_token_indices.len(),
        indices_below(states, b.len()),
    ensures
        place(b, states, k, states[k].query_token_indices[m] as int) matches Some(b2) ==> b2.len() == b.len()
            && buckets_hold_best(b2, states, k, m + 1),
{
    let q = states[k].query_token_indices[m] as int;
    assert(0 <= q < b.len());
    lemma_place_within(b, states, k, q, states.len() as int);
    assert forall|q2: int, j: int| #[trigger] placed(states, k, m + 1, j, q2) == (placed(states, k, m, j, q2) || (j == k
        && q2 == q)) by {
        lemma_placed_succ(states, k, m, j, q2);
    }
    let sc = states[k].range_score->0;
    assert(states[k].range_score is Some);
    match place(b, states, k, q) {
        Some(b2) => {
            assert forall|q2: int, x: int|
                0 <= q2 < b2.len() && 0 <= x < b2[q2].len() implies placed(states, k, m + 1, #[trigger] b2[q2][x], q2)
                    && unbeaten(states, k, m + 1, b2[q2][x], q2) by {
                let si = b2[q2][x];
                assert(0 <= si < states.len());
                assert(states[si].range_score is Some);
                if q2 != q {
                    assert(b2[q2] == b[q2]);
                    assert(placed(states, k, m, si, q2) && unbeaten(states, k, m, si, q2));
                    assert forall|j: int| 0 <= j < states.len() && #[trigger] placed(states, k, m + 1, j, q2) implies !score_greater(
                        states[j].range_score->0,
                        states[si].range_score->0,
                    ) by {
                        assert(placed(states, k, m, j, q2));
                    }
                } else if b[q].len() == 0 {
                    assert(b2[q] =~= seq![k]);
                    assert(si == k);
                    assert forall|j: int| 0 <= j < states.len() && #[trigger] placed(states, k, m + 1, j, q2) implies !score_greater(
                        states[j].range_score->0,
                        states[si].range_score->0,
                    ) by {
                        if placed(states, k, m, j, q) {
                            assert(b[q].len() > 0);
                        }
                        lemma_score_order(sc, sc, sc, sc);
                    }
                } else {
                    let first = b[q][0];
                    assert(placed(states, k, m, first, q) && unbeaten(states, k, m, first, q));
                    assert(0 <= first < states.len());
                    assert(states[first].range_score is Some);
                    let e = states[first].range_score->0;
                    if score_greater(sc, e) {
                        assert(b2[q] =~= seq![k]);
                        assert(si == k);
                        assert forall|j: int| 0 <= j < states.len() && #[trigger] placed(states, k, m + 1, j, q2) implies !score_greater(
                            states[j].range_score->0,
                            states[si].range_score->0,
                        ) by {
                            lemma_score_order(states[j].range_score->0, e, sc, sc);
                        }
                    } else if score_tied(sc, e) {
                        assert(b2[q] =~= b[q].push(k));
                        if x < b[q].len() {
                            assert(b2[q][x] == b[q][x]);
                            assert(placed(states, k, m, si, q) && unbeaten(states, k, m, si, q));
                            assert(!score_greater(e, states[si].range_score->0));
                            assert forall|j: int| 0 <= j < states.len() && #[trigger] placed(states, k, m + 1, j, q2) implies !score_greater(
                                states[j].range_score->0,
                                states[si].range_score->0,
                            ) by {
                                if !placed(states, k, m, j, q) {
                                    lemma_score_order(sc, e, sc, states[si].range_score->0);
                                }
                            }
                        } else {
                            assert(si == k);
                            assert forall|j: int| 0 <= j < states.len() && #[trigger] placed(states, k, m + 1, j, q2) implies !score_greater(
                                states[j].range_score->0,
                                states[si].range_score->0,
                            ) by {
                                lemma_score_order(states[j].range_score->0, e, sc, sc);
                            }
                        }
                    } else {
                        assert(b2 == b);
                        assert(placed(states, k, m, si, q) && unbeaten(states, k, m, si, q));
                        assert(!score_greater(e, states[si].range_score->0));
                        assert forall|j: int| 0 <= j < states.len() && #[trigger] placed(states, k, m + 1, j, q2) implies !score_greater(
                            states[j].range_score->0,
                            states[si].range_score->0,
                        ) by {
                            if !placed(states, k, m, j, q) {
                                lemma_score_order(sc, e, sc, states[si].range_score->0);
                            }
                        }
                    }
                }
            }
            assert forall|q2: int, j: int|
                0 <= q2 < b2.len() && 0 <= j < states.len() && #[trigger] placed(states, k, m + 1, j, q2) implies b2[q2].len()
                    > 0 by {
                if q2 != q {
                    assert(b2[q2] == b[q2]);
                    assert(placed(states, k, m, j, q2));
                } else if b[q].len() > 0 {
                    let first = b[q][0];
                    assert(0 <= first < states.len());
                    assert(states[first].range_score is Some);
                }
            }
        },
        None => {},
    }
}

/// Placing the first `m` indices of run `k` keeps the buckets holding the best runs.
proof fn lemma_place_run_holds_best(b: Seq<Seq<int>>, states: Seq<RangeView>, k: int, m: nat)
    requires
        buckets_hold_best(b, states, k, 0),
        all_scored(states),
        0 <= k < states.len(),
        m <= states[k].query_token_indices.len(),
        indices_below(states, b.len()),
    ensures
        place_run(b, states, k, m) matches Some(b2) ==> b2.len() == b.len() && buckets_hold_best(b2, states, k, m as int),
    decreases m,
{
    if m > 0 {
        lemma_place_run_holds_best(b, states, k, (m - 1) as nat);
        match place_run(b, states, k, (m - 1) as nat) {
            Some(b1) => {
                lemma_place_holds_best(b1, states, k, m - 1);
            },
            None => {},
        }
    }
}

/// Placing the first `k` runs keeps the buckets holding the best runs.
proof fn lemma_place_runs_holds_best(b: Seq<Seq<int>>, states: Seq<RangeView>, k: nat)
    requires
        buckets_hold_best(b, states, 0, 0),
        all_scored(states),
        k <= states.len(),
        indices_below(states, b.len()),
    ensures
        place_runs(b, states, k) matches Some(b2) ==> b2.len() == b.len() && buckets_hold_best(b2, states, k as int, 0),
    decreases k,
{
    if k > 0 {
        lemma_place_runs_holds_best(b, states, (k - 1) as nat);
        match place_runs(b, states, (k - 1) as nat) {
            Some(b1) => {
                let j = k - 1;
                let len = states[j].query_token_indices.len();
                assert forall|q: int, i: int| #[trigger] placed(states, j, 0, i, q) == placed(states, j, 0, i, q) by {}
                assert(buckets_hold_best(b1, states, j, 0));
                lemma_place_run_holds_best(b1, states, j, len);
                match place_run(b1, states, j, len) {
                    Some(b2) => {
                        assert forall|q: int, i: int| #[trigger] placed(states, k as int, 0, i, q) == placed(states, j, len as int, i, q) by {
                            if i == j {
                                assert(covers(states[j], q) == covers_within(states[j], len as int, q));
                            }
                            if i == k {
                                assert(!covers_within(states[k as int], 0, q));
                            }
                        }
                        assert forall|q: int, x: int|
                            0 <= q < b2.len() && 0 <= x < b2[q].len() implies placed(states, k as int, 0, #[trigger] b2[q][x], q)
                                && unbeaten(states, k as int, 0, b2[q][x], q) by {
                            assert(placed(states, j, len as int, b2[q][x], q) && unbeaten(states, j, len as int, b2[q][x], q));
                            assert forall|i: int| 0 <= i < states.len() && #[trigger] placed(states, k as int, 0, i, q) implies !score_greater(
                                states[i].range_score->0,
                                states[b2[q][x]].range_score->0,
                            ) by {
                                assert(placed(states, j, len as int, i, q));
                            }
                        }
                        assert forall|q: int, i: int|
                            0 <= q < b2.len() && 0 <= i < states.len() && #[trigger] placed(states, k as int, 0, i, q) implies b2[q].len()
                                > 0 by {
                            assert(placed(states, j, len as int, i, q));
                        }
                    },
                    None => {},
                }
            },
            None => {},
        }
    }
}

/// Whether run `r` covers query token index `q` and no run covering `q` has a greater score.
pub open spec fn best_at(states: Seq<RangeView>, r: RangeView, q: int) -> bool {
    &&& covers(r, q)
    &&& forall|j: int|
        0 <= j < states.len() && #[trigger] covers(states[j], q) ==> !score_greater(
            states[j].range_score->0,
            r.range_score->0,
        )
}

/// Whether run `r` is best at some query token index it covers.
pub open spec fn best_somewhere(states: Seq<RangeView>, r: RangeView) -> bool {
    exists|q: int| #[trigger] best_at(states, r, q)
}

/// Whether every run of `top` is best at some query token index it covers, and every query
/// token index below `query_len` that a run covers has a run of `top` covering it.
pub open spec fn top_runs_best(states: Seq<RangeView>, query_len: nat, top: Seq<RangeView>) -> bool {
    &&& forall|i: int| 0 <= i < top.len() ==> best_somewhere(states, #[trigger] top[i])
    &&& forall|q: int, j: int|
        0 <= q < query_len && 0 <= j < states.len() && #[trigger] covers(states[j], q) ==> exists|i: int|
            0 <= i < top.len() && #[trigger] covers(top[i], q)
}

/// The top runs are the best where they stand: every top run covers a query token index at
/// which no run has a greater score, and every query token index that some run covers has a
/// top run.
pub proof fn law_top_runs_are_unbeaten(query_len: nat, states: Seq<RangeView>)
    requires
        indices_below(states, query_len),
        all_scored(states),
    ensures
        top_ranges(query_len, states) matches Some(top) ==> top_runs_best(states, query_len, top),
{
    let empty = Seq::new(query_len, |i: int| Seq::<int>::empty());
    assert(buckets_hold_best(empty, states, 0, 0)) by {
        assert forall|q: int, j: int|
            0 <= q < empty.len() && 0 <= j < states.len() && #[trigger] placed(states, 0, 0, j, q) implies empty[q].len()
                > 0 by {
            assert(!covers_within(states[0], 0, q));
        }
    }
    lemma_place_runs_holds_best(empty, states, states.len());
    match place_runs(empty, states, states.len()) {
        Some(b) => {
            let n = states.len() as int;
            let top = b.flatten().map_values(|si: int| states[si]);
            assert(top_ranges(query_len, states) == Some(top));
            let good = |si: int| 0 <= si < n && best_somewhere(states, states[si]);
            assert forall|q: int, x: int| 0 <= q < b.len() && 0 <= x < b[q].len() implies good(#[trigger] b[q][x]) by {
                let si = b[q][x];
                assert(placed(states, n, 0, si, q) && unbeaten(states, n, 0, si, q));
                assert(covers(states[si], q));
                assert forall|j: int| 0 <= j < n && #[trigger] covers(states[j], q) implies !score_greater(
                    states[j].range_score->0,
                    states[si].range_score->0,
                ) by {
                    assert(placed(states, n, 0, j, q));
                }
                assert(best_at(states, states[si], q));
            }
            crate::utils::seq_facts::lemma_flatten_all(b, good);
            assert forall|i: int| 0 <= i < top.len() implies best_somewhere(states, #[trigger] top[i]) by {
                assert(good(b.flatten()[i]));
                assert(top[i] == states[b.flatten()[i]]);
            }
            assert forall|q: int, j: int|
                0 <= q < query_len && 0 <= j < states.len() && #[trigger] covers(states[j], q) implies exists|i: int|
                    0 <= i < top.len() && #[trigger] covers(top[i], q) by {
                assert(placed(states, n, 0, j, q));
                assert(b[q].len() > 0);
                let si = b[q][0];
                assert(placed(states, n, 0, si, q));
                lemma_flatten_member(b, q, 0);
                let i = choose|i: int| 0 <= i < b.flatten().len() && b.flatten()[i] == b[q][0];
                assert(top[i] == states[si]);
                assert(covers(top[i], q));
            }
            assert(top_runs_best(states, query_len, top));
        },
        None => {},
    }
}

/// Every element of an inner sequence stands somewhere in the flattened sequence.
proof fn lemma_flatten_member(s: Seq<Seq<int>>, j: int, m: int)
    requires
        0 <= j < s.len(),
        0 <= m < s[j].len(),
    ensures
        exists|i: int| 0 <= i < s.flatten().len() && s.flatten()[i] == s[j][m],
    decreases s.len(),
{
    let rest = s.drop_first();
    assert(s.flatten() == s.first() + rest.flatten());
    if j == 0 {
        assert(s.flatten()[m] == s[0][m]);
    } else {
        assert(rest[j - 1] == s[j]);
        lemma_flatten_member(rest, j - 1, m);
        let i = choose|i: int| 0 <= i < rest.flatten().len() && rest.flatten()[i] == rest[j - 1][m];
        assert(s.flatten()[s.first().len() + i] == s[j][m]);
    }
}

/// Whether a run's query token indices and company sequence token indices come in step, each
/// rising by one from one aligned token to the next.
pub open spec fn run_consecutive(r: RangeView) -> bool {
    &&& r.query_token_indices.len() == r.company_sequence_token_indices.len()
    &&& forall|x: int|
        0 < x < r.query_token_indices.len() ==> #[trigger] r.query_token_indices[x] == r.query_token_indices[x
            - 1] + 1 && r.company_sequence_token_indices[x] == r.company_sequence_token_indices[x - 1] + 1
}

/// Whether every run comes in step.
pub open spec fn runs_consecutive(runs: Seq<RangeView>) -> bool {
    forall|si: int| 0 <= si < runs.len() ==> run_consecutive(#[trigger] runs[si])
}

/// Whether a scan's runs come in step, and the run being read ends at the scan's last indices
/// unless those were reset.
pub open spec fn scan_consecutive(s: RangeScan) -> bool {
    &&& runs_consecutive(s.done)
    &&& match s.current {
        Some(r) => run_consecutive(r) && (r.query_token_indices.len() > 0 ==> s.last_query_token_idx
            == unset_index() || (s.last_query_token_idx == r.query_token_indices.last() as int
            && s.last_company_sequence_token_idx == r.company_sequence_token_indices.last() as int)),
        None => true,
    }
}

/// Flushing keeps runs in step.
proof fn lemma_flush_consecutive(done: Seq<RangeView>, current: Option<RangeView>)
    requires
        runs_consecutive(done),
        current matches Some(r) ==> run_consecutive(r),
    ensures
        runs_consecutive(flush(done, current)),
{
    match current {
        Some(r) => {
            if !r.is_collection_finalized && finalize(r).query_token_indices.len() > 0 {
                let out = done.push(finalize(r));
                assert forall|si: int| 0 <= si < out.len() implies run_consecutive(#[trigger] out[si]) by {
                    if si < done.len() {
                        assert(out[si] == done[si]);
                    }
                }
            }
        },
        None => {},
    }
}

/// One scan step keeps the runs in step.
#[verifier::rlimit(30)]
proof fn lemma_scan_step_consecutive(
    s: RangeScan,
    p: TokenParityState,
    ticker_symbol_token_id: TokenId,
    ticker_symbol: Seq<char>,
    sequences: Map<TokenId, Seq<Seq<TokenId>>>,
)
    requires
        scan_consecutive(s),
        p.query_token_idx < usize::MAX,
    ensures
        scan_step(s, p, ticker_symbol_token_id, ticker_symbol, sequences) matches Some(s2) ==> scan_consecutive(s2),
{
    if p.ticker_symbol_token_id == ticker_symbol_token_id {
        let is_new = starts_new_run(s, p);
        let length = company_sequence_length(sequences, ticker_symbol_token_id, p.company_sequence_idx);
        if !(is_new && length is None) {
            let s2 = scan_step(s, p, ticker_symbol_token_id, ticker_symbol, sequences)->0;
            if is_new {
                lemma_flush_consecutive(s.done, s.current);
                let fresh = new_range(ticker_symbol, ticker_symbol_token_id, p.company_sequence_idx, length->0);
                if p.company_sequence_token_idx == 0 {
                    let r = add_partial(fresh, p.query_token_idx, p.query_token_id, p.company_sequence_token_idx);
                    assert(r.query_token_indices =~= seq![p.query_token_idx]);
                    assert(r.company_sequence_token_indices =~= seq![p.company_sequence_token_idx]);
                    assert(s2.current == Some(r));
                } else {
                    assert(s2.current == Some(fresh));
                }
            } else {
                assert(s2.done == s.done);
                match s.current {
                    Some(c) => {
                        let r = add_partial(c, p.query_token_idx, p.query_token_id, p.company_sequence_token_idx);
                        assert(s2.current == Some(r));
                        assert(p.query_token_idx == s.last_query_token_idx + 1);
                        assert(s.last_query_token_idx != unset_index());
                        assert(run_consecutive(r)) by {
                            assert forall|x: int| 0 < x < r.query_token_indices.len() implies #[trigger] r.query_token_indices[x]
                                == r.query_token_indices[x - 1] + 1 && r.company_sequence_token_indices[x]
                                == r.company_sequence_token_indices[x - 1] + 1 by {
                                if x < c.query_token_indices.len() {
                                    assert(r.query_token_indices[x] == c.query_token_indices[x]);
                                    assert(r.query_token_indices[x - 1] == c.query_token_indices[x - 1]);
                                    assert(r.company_sequence_token_indices[x] == c.company_sequence_token_indices[x]);
                                    assert(r.company_sequence_token_indices[x - 1] == c.company_sequence_token_indices[x - 1]);
                                    assert(c.query_token_indices[x] == c.query_token_indices[x - 1] + 1);
                                } else {
                                    assert(r.query_token_indices[x - 1] == c.query_token_indices.last());
                                    assert(r.company_sequence_token_indices[x - 1] == c.company_sequence_token_indices.last());
                                }
                            }
                        }
                    },
                    None => {
                        assert(s2.current is None);
                    },
                }
            }
        }
    }
}

/// A scan over parity states whose query token indices are below `usize::MAX` keeps its runs in
/// step.
proof fn lemma_scan_states_consecutive(
    parity: Seq<TokenParityState>,
    ticker_symbol_token_id: TokenId,
    ticker_symbol: Seq<char>,
    sequences: Map<TokenId, Seq<Seq<TokenId>>>,
)
    requires
        parity_below(parity, usize::MAX as nat),
    ensures
        scan_states(parity, ticker_symbol_token_id, ticker_symbol, sequences) matches Some(s) ==> scan_consecutive(s),
    decreases parity.len(),
{
    if parity.len() > 0 {
        let prefix = parity.drop_last();
        assert(parity_below(prefix, usize::MAX as nat)) by {
            assert forall|i: int| 0 <= i < prefix.len() implies (#[trigger] prefix[i]).query_token_idx < usize::MAX by {
                assert(prefix[i] == parity[i]);
            }
        }
        lemma_scan_states_consecutive(prefix, ticker_symbol_token_id, ticker_symbol, sequences);
        assert(parity.last() == parity[parity.len() - 1]);
        match scan_states(prefix, ticker_symbol_token_id, ticker_symbol, sequences) {
            Some(s) => {
                lemma_scan_step_consecutive(s, parity.last(), ticker_symbol_token_id, ticker_symbol, sequences);
            },
            None => {},
        }
    }
}

/// Every run collected over parity states whose query token indices are below `usize::MAX`
/// comes in step: from one aligned token to the next, the query token index and the company
/// sequence token index each rise by one.
pub proof fn law_collected_runs_are_consecutive(
    keys: Seq<TokenId>,
    parity: Seq<TokenParityState>,
    model: CompanyModel,
    k: nat,
)
    requires
        parity_below(parity, usize::MAX as nat),
    ensures
        all_ranges(keys, parity, model, k) matches Some(all) ==> runs_consecutive(all),
    decreases k,
{
    if k > 0 {
        law_collected_runs_are_consecutive(keys, parity, model, (k - 1) as nat);
        match all_ranges(keys, parity, model, (k - 1) as nat) {
            Some(acc) => {
                let id = keys[k - 1];
                if model.id_tickers.contains_key(id) {
                    lemma_scan_states_consecutive(parity, id, model.id_tickers[id], model.sequences);
                    match scan_states(parity, id, model.id_tickers[id], model.sequences) {
                        Some(s) => {
                            lemma_flush_consecutive(s.done, s.current);
                            let r = flush(s.done, s.current);
                            let out = acc + r;
                            assert forall|si: int| 0 <= si < out.len() implies run_consecutive(#[trigger] out[si]) by {
                                if si < acc.len() {
                                    assert(out[si] == acc[si]);
                                } else {
                                    assert(out[si] == r[si - acc.len()]);
                                }
                            }
                        },
                        None => {},
                    }
                }
            },
            None => {},
        }
    }
}

/// A completed run matches exactly on its ticker symbol when, and only when, it holds the one
/// query token id that is its ticker symbol token id; completing keeps the run's ticker symbol
/// token id, query token ids and positions.
pub proof fn law_finalized_run_matches_only_its_ticker_token(r: RangeView)
    ensures
        finalize(r).is_matched_on_ticker_symbol == Some(r.query_text_doc_token_ids == seq![r.ticker_symbol_token_id]),
        finalize(r).query_text_doc_token_ids == r.query_text_doc_token_ids,
        finalize(r).query_token_indices == r.query_token_indices,
        finalize(r).ticker_symbol_token_id == r.ticker_symbol_token_id,
        finalize(r).ticker_symbol == r.ticker_symbol,
{
    if r.query_text_doc_token_ids.len() == 1 && r.query_text_doc_token_ids[0] == r.ticker_symbol_token_id {
        assert(r.query_text_doc_token_ids =~= seq![r.ticker_symbol_token_id]);
    }
}

/// Whether each run is marked as matching on its ticker symbol exactly when its query token ids
/// are the single ticker symbol token id.
pub open spec fn runs_matched_on_ticker_token(runs: Seq<RangeView>) -> bool {
    forall|si: int|
        0 <= si < runs.len() ==> (#[trigger] runs[si]).is_matched_on_ticker_symbol == Some(
            runs[si].query_text_doc_token_ids == seq![runs[si].ticker_symbol_token_id],
        )
}

/// Flushing adds only completed runs.
proof fn lemma_flush_matched(done: Seq<RangeView>, current: Option<RangeView>)
    requires
        runs_matched_on_ticker_token(done),
    ensures
        runs_matched_on_ticker_token(flush(done, current)),
{
    match current {
        Some(r) => {
            if !r.is_collection_finalized && finalize(r).query_token_indices.len() > 0 {
                law_finalized_run_matches_only_its_ticker_token(r);
                let out = done.push(finalize(r));
                assert forall|si: int| 0 <= si < out.len() implies (#[trigger] out[si]).is_matched_on_ticker_symbol == Some(
                    out[si].query_text_doc_token_ids == seq![out[si].ticker_symbol_token_id],
                ) by {
                    if si < done.len() {
                        assert(out[si] == done[si]);
                    }
                }
            }
        },
        None => {},
    }
}

/// The finished runs of a scan are marked by their query token ids.
proof fn lemma_scan_states_matched(
    parity: Seq<TokenParityState>,
    ticker_symbol_token_id: TokenId,
    ticker_symbol: Seq<char>,
    sequences: Map<TokenId, Seq<Seq<TokenId>>>,
)
    ensures
        scan_states(parity, ticker_symbol_token_id, ticker_symbol, sequences) matches Some(s)
            ==> runs_matched_on_ticker_token(s.done),
    decreases parity.len(),
{
    if parity.len() > 0 {
        let prefix = parity.drop_last();
        lemma_scan_states_matched(prefix, ticker_symbol_token_id, ticker_symbol, sequences);
        match scan_states(prefix, ticker_symbol_token_id, ticker_symbol, sequences) {
            Some(s) => {
                lemma_flush_matched(s.done, s.current);
            },
            None => {},
        }
    }
}

/// Every collected run is marked as matching on its ticker symbol exactly when it is the single
/// query token whose id is the run's ticker symbol token id: a run of a company name token, or
/// of several tokens, never counts as an exact ticker symbol match.
pub proof fn law_collected_runs_match_only_their_ticker_token(
    keys: Seq<TokenId>,
    parity: Seq<TokenParityState>,
    model: CompanyModel,
    k: nat,
)
    ensures
        all_ranges(keys, parity, model, k) matches Some(all) ==> runs_matched_on_ticker_token(all),
    decreases k,
{
    if k > 0 {
        law_collected_runs_match_only_their_ticker_token(keys, parity, model, (k - 1) as nat);
        match all_ranges(keys, parity, model, (k - 1) as nat) {
            Some(acc) => {
                let id = keys[k - 1];
                if model.id_tickers.contains_key(id) {
                    lemma_scan_states_matched(parity, id, model.id_tickers[id], model.sequences);
                    match scan_states(parity, id, model.id_tickers[id], model.sequences) {
                        Some(s) => {
                            lemma_flush_matched(s.done, s.current);
                            let r = flush(s.done, s.current);
                            let out = acc + r;
                            assert forall|si: int| 0 <= si < out.len() implies (#[trigger] out[si]).is_matched_on_ticker_symbol
                                == Some(out[si].query_text_doc_token_ids == seq![out[si].ticker_symbol_token_id]) by {
                                if si < acc.len() {
                                    assert(out[si] == acc[si]);
                                } else {
                                    assert(out[si] == r[si - acc.len()]);
                                }
                            }
                        },
                        None => {},
                    }
                }
            },
            None => {},
        }
    }
}

/// Whether every run covers at least one query token.
pub open spec fn runs_nonempty(runs: Seq<RangeView>) -> bool {
    forall|si: int| 0 <= si < runs.len() ==> (#[trigger] runs[si]).query_token_indices.len() > 0
}

/// Flushing keeps only runs that cover a query token.
proof fn lemma_flush_nonempty(done: Seq<RangeView>, current: Option<RangeView>)
    requires
        runs_nonempty(done),
    ensures
        runs_nonempty(flush(done, current)),
{
    match current {
        Some(r) => {
            if !r.is_collection_finalized && finalize(r).query_token_indices.len() > 0 {
                let out = done.push(finalize(r));
                assert forall|si: int| 0 <= si < out.len() implies (#[trigger] out[si]).query_token_indices.len() > 0 by {
                    if si < done.len() {
                        assert(out[si] == done[si]);
                    }
                }
            }
        },
        None => {},
    }
}

/// A scan keeps only finished runs that cover a query token.
proof fn lemma_scan_states_nonempty(
    parity: Seq<TokenParityState>,
    ticker_symbol_token_id: TokenId,
    ticker_symbol: Seq<char>,
    sequences: Map<TokenId, Seq<Seq<TokenId>>>,
)
    ensures
        scan_states(parity, ticker_symbol_token_id, ticker_symbol, sequences) matches Some(s) ==> runs_nonempty(s.done),
    decreases parity.len(),
{
    if parity.len() > 0 {
        let prefix = parity.drop_last();
        lemma_scan_states_nonempty(prefix, ticker_symbol_token_id, ticker_symbol, sequences);
        match scan_states(prefix, ticker_symbol_token_id, ticker_symbol, sequences) {
            Some(s) => {
                lemma_flush_nonempty(s.done, s.current);
            },
            None => {},
        }
    }
}

/// Every collected run covers at least one query token.
pub proof fn lemma_all_ranges_nonempty(keys: Seq<TokenId>, parity: Seq<TokenParityState>, model: CompanyModel, k: nat)
    ensures
        all_ranges(keys, parity, model, k) matches Some(all) ==> runs_nonempty(all),
    decreases k,
{
    if k > 0 {
        lemma_all_ranges_nonempty(keys, parity, model, (k - 1) as nat);
        match all_ranges(keys, parity, model, (k - 1) as nat) {
            Some(acc) => {
                let id = keys[k - 1];
                if model.id_tickers.contains_key(id) {
                    lemma_scan_states_nonempty(parity, id, model.id_tickers[id], model.sequences);
                    match scan_states(parity, id, model.id_tickers[id], model.sequences) {
                        Some(s) => {
                            lemma_flush_nonempty(s.done, s.current);
                            let r = flush(s.done, s.current);
                            let out = acc + r;
                            assert forall|si: int| 0 <= si < out.len() implies (#[trigger] out[si]).query_token_indices.len() > 0 by {
                                if si < acc.len() {
                                    assert(out[si] == acc[si]);
                                } else {
                                    assert(out[si] == r[si - acc.len()]);
                                }
                            }
                        },
                        None => {},
                    }
                }
            },
            None => {},
        }
    }
}

/// A run that covers a query token index below `n` has a score once the first `n` indices
/// are scored.
pub proof fn lemma_score_after_some(r: RangeView, n: nat, j: int)
    requires
        0 <= j < r.query_token_indices.len(),
        r.query_token_indices[j] < n,
    ensures
        score_after(r, n) is Some,
    decreases n,
{
    lemma_first_position(r.query_token_indices, (n - 1) as usize);
    if first_position(r.query_token_indices, (n - 1) as usize) < 0 {
        assert(r.query_token_indices[j] != (n - 1) as usize);
        lemma_score_after_some(r, (n - 1) as nat, j);
    }
}

/// Finalizes `current`, if it is an unfinished run, and appends it to `done` when it is not
/// empty: see `flush`.
fn flush_range(done: &mut Vec<TokenRangeState>, current: Option<TokenRangeState>)
    ensures
        range_views(final(done)@) == flush(range_views(old(done)@), opt_view(current)),
{
    match current {
        Some(mut state) => {
            if !state.is_collection_finalized {
                state.finalize_collection();
                if state.query_token_indices.len() > 0 {
                    let ghost before = range_views(done@);
                    done.push(state);
                    assert(range_views(done@) =~= before.push(done@.last()@));
                }
            }
        },
        None => {},
    }
}

impl TokenRangeState {
    /// Collects the runs of query tokens that follow company token sequences, for each
    /// ticker symbol token id of `potential_token_id_sequences` in order, then keeps one run per
    /// mention: the first of each (ticker symbol, query token positions, sequence index), so
    /// that a company name written twice in the text stays two runs.
    ///
    /// Fails with a parser error where a ticker symbol token id has no ticker symbol, or a run
    /// starts in a company token sequence that the mapper does not hold.
    pub fn collect_token_range_states(
        company_token_mapper: &CompanyTokenMapper,
        potential_token_id_sequences: &PotentialTokenSequenceMap,
        token_parity_states: &[TokenParityState],
    ) -> (result: Result<Vec<TokenRangeState>, Error>)
        ensures
            match all_ranges(
                potential_keys(*potential_token_id_sequences),
                token_parity_states@,
                company_token_mapper.model(),
                potential_token_id_sequences@.len(),
            ) {
                Some(all) => result matches Ok(states) && range_views(states@) == unique_mentions(
                    all,
                ),
                None => result matches Err(Error::ParserError(_)),
            },
    {
        let ghost keys = potential_keys(*potential_token_id_sequences);
        let ghost model = company_token_mapper.model();
        let ghost parity = token_parity_states@;
        let mut token_range_states: Vec<TokenRangeState> = Vec::new();
        let mut a: usize = 0;
        while a < potential_token_id_sequences.len()
            invariant
                a <= potential_token_id_sequences@.len(),
                keys == potential_keys(*potential_token_id_sequences),
                model == company_token_mapper.model(),
                parity == token_parity_states@,
                all_ranges(keys, parity, model, a as nat) == Some(range_views(token_range_states@)),
            decreases potential_token_id_sequences@.len() - a,
        {
            let ticker_symbol_token_id = potential_token_id_sequences[a].0;
            assert(keys[a as int] == ticker_symbol_token_id);
            let ticker_symbol = match company_token_mapper.get_ticker_symbol_by_token_id(
                &ticker_symbol_token_id,
            ) {
                Ok(t) => t,
                Err(e) => {
                    proof {
                        lemma_all_ranges_none_extends(
                            keys,
                            parity,
                            model,
                            (a + 1) as nat,
                            potential_token_id_sequences@.len() as nat,
                        );
                    }
                    return Err(e);
                },
            };
            let ghost sequences = model.sequences;
            let mut ticker_states: Vec<TokenRangeState> = Vec::new();
            let mut last_company_sequence_idx: usize = usize::MAX - 1;
            let mut last_company_sequence_token_idx: usize = usize::MAX - 1;
            let mut last_query_token_idx: usize = usize::MAX - 1;
            let mut current: Option<TokenRangeState> = None;
            let mut p: usize = 0;
            assert(range_views(ticker_states@) =~= Seq::<RangeView>::empty());
            while p < token_parity_states.len()
                invariant
                    p <= token_parity_states@.len(),
                    a < potential_token_id_sequences@.len(),
                    keys == potential_keys(*potential_token_id_sequences),
                    keys[a as int] == ticker_symbol_token_id,
                    all_ranges(keys, parity, model, a as nat) == Some(range_views(token_range_states@)),
                    model.id_tickers.contains_key(ticker_symbol_token_id),
                    model.id_tickers[ticker_symbol_token_id] == ticker_symbol@,
                    parity == token_parity_states@,
                    model == company_token_mapper.model(),
                    sequences == model.sequences,
                    scan_states(parity.take(p as int), ticker_symbol_token_id, ticker_symbol@, sequences)
                        == Some(
                        RangeScan {
                            last_company_sequence_idx: last_company_sequence_idx as int,
                            last_company_sequence_token_idx: last_company_sequence_token_idx as int,
                            last_query_token_idx: last_query_token_idx as int,
                            current: opt_view(current),
                            done: range_views(ticker_states@),
                        },
                    ),
                decreases token_parity_states@.len() - p,
            {
                let ps = token_parity_states[p];
                assert(parity.take(p + 1).drop_last() =~= parity.take(p as int));
                assert(parity.take(p + 1).last() == ps);
                if ps.ticker_symbol_token_id != ticker_symbol_token_id {
                    last_company_sequence_idx = usize::MAX - 1;
                    last_company_sequence_token_idx = usize::MAX - 1;
                    last_query_token_idx = usize::MAX - 1;
                } else {
                    let is_new = ps.company_sequence_token_idx == 0 || last_company_sequence_idx
                        != ps.company_sequence_idx || last_company_sequence_token_idx == usize::MAX
                        || ps.company_sequence_token_idx != last_company_sequence_token_idx + 1
                        || last_query_token_idx == usize::MAX || ps.query_token_idx
                        != last_query_token_idx + 1;
                    if is_new {
                        let length = match company_token_mapper.get_company_token_sequence_max_length(
                            &ticker_symbol_token_id,
                            ps.company_sequence_idx,
                        ) {
                            Some(length) => length,
                            None => {
                                proof {
                                    lemma_scan_none_extends(
                                        parity,
                                        p + 1,
                                        ticker_symbol_token_id,
                                        ticker_symbol@,
                                        sequences,
                                    );
                                    assert(ticker_ranges(
                                        parity,
                                        ticker_symbol_token_id,
                                        ticker_symbol@,
                                        sequences,
                                    ) is None);
                                    assert(all_ranges(keys, parity, model, (a + 1) as nat) is None);
                                    lemma_all_ranges_none_extends(
                                        keys,
                                        parity,
                                        model,
                                        (a + 1) as nat,
                                        potential_token_id_sequences@.len() as nat,
                                    );
                                }
                                let mut msg = "Failed to fetch max length for ticker_symbol_token_id: ".to_owned();
                                msg.append(usize_to_string(ticker_symbol_token_id).as_str());
                                msg.append(", company_sequence_idx: ");
                                msg.append(usize_to_string(ps.company_sequence_idx).as_str());
                                return Err(Error::ParserError(msg));
                            },
                        };
                        flush_range(&mut ticker_states, current);
                        current = Some(
                            TokenRangeState::new(
                                ticker_symbol.clone(),
                                ticker_symbol_token_id,
                                ps.company_sequence_idx,
                                length,
                            ),
                        );
                    }
                    if !(is_new && ps.company_sequence_token_idx != 0) {
                        current = match current {
                            Some(mut state) => {
                                state.add_partial_state(
                                    ps.query_token_idx,
                                    ps.query_token_id,
                                    ps.company_sequence_token_idx,
                                );
                                Some(state)
                            },
                            None => None,
                        };
                    }
                    last_company_sequence_idx = ps.company_sequence_idx;
                    last_company_sequence_token_idx = ps.company_sequence_token_idx;
                    last_query_token_idx = ps.query_token_idx;
                }
                p = p + 1;
            }
            assert(parity.take(token_parity_states@.len() as int) =~= parity);
            flush_range(&mut ticker_states, current);
            let ghost before = range_views(token_range_states@);
            token_range_states.append(&mut ticker_states);
            assert(range_views(token_range_states@) =~= before + ticker_ranges(
                parity,
                ticker_symbol_token_id,
                ticker_symbol@,
                sequences,
            )->0);
            a = a + 1;
        }
        Ok(TokenRangeState::get_unique_mentions(&token_range_states))
    }

    /// A fresh, empty run: see `new_range`.
    pub fn new(
        ticker_symbol: TickerSymbol,
        ticker_symbol_token_id: TokenId,
        company_sequence_idx: CompanySequenceIndex,
        company_sequence_max_length: usize,
    ) -> (state: Self)
        ensures
            state@ == new_range(
                ticker_symbol@,
                ticker_symbol_token_id,
                company_sequence_idx,
                company_sequence_max_length,
            ),
    {
        TokenRangeState {
            ticker_symbol,
            ticker_symbol_token_id,
            is_matched_on_ticker_symbol: None,
            query_token_indices: Vec::new(),
            query_text_doc_token_ids: Vec::new(),
            company_sequence_idx,
            company_sequence_token_indices: Vec::new(),
            company_sequence_max_length,
            company_token_coverage: Ratio { numerator: 0, denominator: 1 },
            range_score: None,
            is_collection_finalized: false,
        }
    }

    /// A copy of the state.
    pub fn duplicate(&self) -> (copy: Self)
        ensures
            copy@ == self@,
    {
        TokenRangeState {
            ticker_symbol: self.ticker_symbol.clone(),
            ticker_symbol_token_id: self.ticker_symbol_token_id,
            is_matched_on_ticker_symbol: self.is_matched_on_ticker_symbol,
            query_token_indices: copy_indices(&self.query_token_indices),
            query_text_doc_token_ids: copy_indices(&self.query_text_doc_token_ids),
            company_sequence_idx: self.company_sequence_idx,
            company_sequence_token_indices: copy_indices(&self.company_sequence_token_indices),
            company_sequence_max_length: self.company_sequence_max_length,
            company_token_coverage: self.company_token_coverage,
            range_score: self.range_score,
            is_collection_finalized: self.is_collection_finalized,
        }
    }

    /// Extends the run by one aligned token: see `add_partial`.
    pub fn add_partial_state(
        &mut self,
        query_token_idx: QueryTokenIndex,
        query_token_id: TokenId,
        company_sequence_token_idx: CompanySequenceTokenIndex,
    )
        ensures
            final(self)@ == add_partial(
                old(self)@,
                query_token_idx,
                query_token_id,
                company_sequence_token_idx,
            ),
    {
        self.query_token_indices.push(query_token_idx);
        self.query_text_doc_token_ids.push(query_token_id);
        self.company_sequence_token_indices.push(company_sequence_token_idx);
    }

    /// Completes the run: see `finalize`.
    fn finalize_collection(&mut self)
        ensures
            final(self)@ == finalize(old(self)@),
            final(self).is_matched_on_ticker_symbol == Some(
                old(self).query_text_doc_token_ids@ == seq![old(self).ticker_symbol_token_id],
            ),
            final(self).query_text_doc_token_ids@ == old(self).query_text_doc_token_ids@,
            final(self).ticker_symbol_token_id == old(self).ticker_symbol_token_id,
    {
        proof {
            law_finalized_run_matches_only_its_ticker_token(self@);
        }
        self.update_coverage();
        self.is_matched_on_ticker_symbol = Some(
            self.query_text_doc_token_ids.len() == 1 && self.query_text_doc_token_ids[0]
                == self.ticker_symbol_token_id,
        );
        self.is_collection_finalized = true;
    }

    /// Sets the coverage to the number of tokens over the sequence length.
    fn update_coverage(&mut self)
        ensures
            final(self)@ == (RangeView {
                company_token_coverage: Ratio {
                    numerator: old(self)@.query_token_indices.len() as usize,
                    denominator: old(self)@.company_sequence_max_length,
                },
                ..old(self)@
            }),
    {
        self.company_token_coverage = Ratio {
            numerator: self.query_token_indices.len(),
            denominator: self.company_sequence_max_length,
        };
    }

    /// The first run of each (ticker symbol, query token ids, company sequence index), in
    /// order.
    pub fn get_unique(token_range_states: &[TokenRangeState]) -> (unique: Vec<TokenRangeState>)
        ensures
            range_views(unique@) == unique_ranges(range_views(token_range_states@)),
    {
        unique_runs_of(token_range_states, false)
    }

    /// The first run of each (ticker symbol, query token positions, company sequence index), in
    /// order: one run per mention of a company name, so that a name written twice counts twice.
    pub fn get_unique_mentions(token_range_states: &[TokenRangeState]) -> (unique: Vec<TokenRangeState>)
        ensures
            range_views(unique@) == unique_mentions(range_views(token_range_states@)),
    {
        unique_runs_of(token_range_states, true)
    }
}

/// The runs whose key, by token ids or by positions, has not occurred earlier, in order: see
/// `unique_runs`.
fn unique_runs_of(token_range_states: &[TokenRangeState], by_position: bool) -> (unique: Vec<TokenRangeState>)
    ensures
        range_views(unique@) == unique_runs(range_views(token_range_states@), by_position),
{
    let ghost views = range_views(token_range_states@);
    let mut unique_states: Vec<TokenRangeState> = Vec::new();
    let mut i: usize = 0;
    while i < token_range_states.len()
        invariant
            i <= token_range_states@.len(),
            views == range_views(token_range_states@),
            range_views(unique_states@) == unique_runs(views.take(i as int), by_position),
        decreases token_range_states@.len() - i,
    {
        let state = &token_range_states[i];
        let mut seen = false;
        let mut k: usize = 0;
        while k < i
            invariant
                k <= i < token_range_states@.len(),
                views == range_views(token_range_states@),
                *state == token_range_states@[i as int],
                seen == exists|m: int| 0 <= m < k && range_key(#[trigger] views[m], by_position) == range_key(
                    views[i as int],
                    by_position,
                ),
            decreases i - k,
        {
            let other = &token_range_states[k];
            let same_tokens = if by_position {
                indices_equal(&other.query_token_indices, &state.query_token_indices)
            } else {
                indices_equal(&other.query_text_doc_token_ids, &state.query_text_doc_token_ids)
            };
            if other.ticker_symbol == state.ticker_symbol && same_tokens && other.company_sequence_idx
                == state.company_sequence_idx {
                assert(range_key(views[k as int], by_position) == range_key(views[i as int], by_position));
                seen = true;
            } else {
                assert(range_key(views[k as int], by_position) != range_key(views[i as int], by_position));
            }
            k = k + 1;
        }
        let ghost next = views.take(i + 1);
        assert(next.drop_last() =~= views.take(i as int));
        assert(key_seen_before(next, i as int, by_position) == seen) by {
            if seen {
                let m = choose|m: int| 0 <= m < i && range_key(#[trigger] views[m], by_position) == range_key(
                    views[i as int],
                    by_position,
                );
                assert(next[m] == views[m]);
            }
            if key_seen_before(next, i as int, by_position) {
                let m = choose|m: int| 0 <= m < i && range_key(#[trigger] next[m], by_position) == range_key(
                    next[i as int],
                    by_position,
                );
                assert(next[m] == views[m]);
            }
        }
        if !seen {
            let ghost before = range_views(unique_states@);
            unique_states.push(state.duplicate());
            assert(range_views(unique_states@) =~= before.push(views[i as int]));
        }
        i = i + 1;
    }
    assert(views.take(token_range_states@.len() as int) =~= views);
    unique_states
}

/// The first position of `x` in `s`, where it occurs.
pub open spec fn first_position(s: Seq<usize>, x: usize) -> int
    decreases s.len(),
{
    if s.len() == 0 {
        -1
    } else if first_position(s.drop_last(), x) >= 0 {
        first_position(s.drop_last(), x)
    } else if s.last() == x {
        s.len() - 1
    } else {
        -1
    }
}

/// `first_position` finds the first occurrence, or -1 where there is none.
pub proof fn lemma_first_position(s: Seq<usize>, x: usize)
    ensures
        -1 <= first_position(s, x) < s.len(),
        first_position(s, x) >= 0 ==> s[first_position(s, x)] == x,
        first_position(s, x) >= 0 ==> forall|k: int| 0 <= k < first_position(s, x) ==> s[k] != x,
        first_position(s, x) < 0 ==> forall|k: int| 0 <= k < s.len() ==> s[k] != x,
    decreases s.len(),
{
    if s.len() > 0 {
        lemma_first_position(s.drop_last(), x);
        assert(forall|k: int| 0 <= k < s.len() - 1 ==> s.drop_last()[k] == s[k]);
    }
}

/// The score a run holds once the query token indices below `n` have been scored in order: the
/// last of them that the run holds sets the score to the run's coverage plus that index's first
/// position in the run.
pub open spec fn score_after(r: RangeView, n: nat) -> Option<RangeScore>
    decreases n,
{
    if n == 0 {
        r.range_score
    } else if first_position(r.query_token_indices, (n - 1) as usize) >= 0 {
        Some(
            RangeScore {
                continuity: first_position(r.query_token_indices, (n - 1) as usize) as usize,
                coverage: r.company_token_coverage,
            },
        )
    } else {
        score_after(r, (n - 1) as nat)
    }
}

/// A run with its score assigned over a query of `n` tokens.
pub open spec fn scored(r: RangeView, n: nat) -> RangeView {
    RangeView { range_score: score_after(r, n), ..r }
}

/// The buckets after placing run `si` under query token index `q`, or `None` where the run, or
/// the first run of the bucket, has no score.
pub open spec fn place(buckets: Seq<Seq<int>>, states: Seq<RangeView>, si: int, q: int) -> Option<
    Seq<Seq<int>>,
> {
    match states[si].range_score {
        None => None,
        Some(score) => {
            let bucket = buckets[q];
            if bucket.len() == 0 {
                Some(buckets.update(q, bucket.push(si)))
            } else {
                match states[bucket[0]].range_score {
                    None => None,
                    Some(existing) => if score_greater(score, existing) {
                        Some(buckets.update(q, seq![si]))
                    } else if score_tied(score, existing) {
                        Some(buckets.update(q, bucket.push(si)))
                    } else {
                        Some(buckets)
                    },
                }
            }
        },
    }
}

/// The buckets after placing run `si` under its first `m` query token indices.
pub open spec fn place_run(buckets: Seq<Seq<int>>, states: Seq<RangeView>, si: int, m: nat) -> Option<
    Seq<Seq<int>>,
>
    decreases m,
{
    if m == 0 {
        Some(buckets)
    } else {
        match place_run(buckets, states, si, (m - 1) as nat) {
            Some(b) => place(b, states, si, states[si].query_token_indices[m - 1] as int),
            None => None,
        }
    }
}

/// The buckets after placing the first `n` runs.
pub open spec fn place_runs(buckets: Seq<Seq<int>>, states: Seq<RangeView>, n: nat) -> Option<
    Seq<Seq<int>>,
>
    decreases n,
{
    if n == 0 {
        Some(buckets)
    } else {
        match place_runs(buckets, states, (n - 1) as nat) {
            Some(b) => place_run(b, states, n - 1, states[n - 1].query_token_indices.len()),
            None => None,
        }
    }
}

/// The top runs: for each query token index in order, the runs with the highest score there
/// (ties kept in order), or `None` where placing fails.
pub open spec fn top_ranges(query_len: nat, states: Seq<RangeView>) -> Option<Seq<RangeView>> {
    match place_runs(Seq::new(query_len, |i: int| Seq::<int>::empty()), states, states.len()) {
        Some(b) => Some(b.flatten().map_values(|si: int| states[si])),
        None => None,
    }
}

/// Whether every query token index of every run is below `n`.
pub open spec fn indices_below(states: Seq<RangeView>, n: nat) -> bool {
    forall|si: int, j: int|
        0 <= si < states.len() && 0 <= j < states[si].query_token_indices.len()
            ==> #[trigger] states[si].query_token_indices[j] < n
}

/// The number of runs that match on their ticker symbol.
pub open spec fn count_matched(states: Seq<RangeView>) -> nat
    decreases states.len(),
{
    if states.len() == 0 {
        0
    } else {
        count_matched(states.drop_last()) + if states.last().is_matched_on_ticker_symbol == Some(
            true,
        ) {
            1nat
        } else {
            0nat
        }
    }
}

/// The query token index vectors of the runs of ticker symbol `t`, in order.
pub open spec fn ranges_of(states: Seq<RangeView>, t: Seq<char>) -> Seq<Seq<QueryTokenIndex>>
    decreases states.len(),
{
    if states.len() == 0 {
        Seq::empty()
    } else if states.last().ticker_symbol == t {
        ranges_of(states.drop_last(), t).push(states.last().query_token_indices)
    } else {
        ranges_of(states.drop_last(), t)
    }
}

/// The ticker symbols of runs, in order.
pub open spec fn run_tickers(states: Seq<RangeView>) -> Seq<Seq<char>> {
    states.map_values(|r: RangeView| r.ticker_symbol)
}

impl TokenRangeState {
    /// Scores each run over a query: for each query token index in order, every run holding
    /// it gets its coverage plus the index's first position in the run.
    pub fn assign_token_range_scores(
        query_text_doc_token_ids: &[TokenId],
        token_range_states: &mut Vec<TokenRangeState>,
    )
        ensures
            range_views(final(token_range_states)@) == range_views(old(token_range_states)@).map_values(
                |r: RangeView| scored(r, query_text_doc_token_ids@.len()),
            ),
    {
        let n = query_text_doc_token_ids.len();
        let ghost old_views = range_views(token_range_states@);
        let mut updated: Vec<TokenRangeState> = Vec::new();
        let mut k: usize = 0;
        while k < token_range_states.len()
            invariant
                k <= token_range_states@.len(),
                n == query_text_doc_token_ids@.len(),
                old_views == range_views(token_range_states@),
                range_views(updated@) == old_views.take(k as int).map_values(
                    |r: RangeView| scored(r, n as nat),
                ),
            decreases token_range_states@.len() - k,
        {
            let state = &token_range_states[k];
            let ghost r = state@;
            let mut score = state.range_score;
            let mut q: usize = 0;
            while q < n
                invariant
                    q <= n,
                    r == state@,
                    score == score_after(r, q as nat),
                decreases n - q,
            {
                let mut j: usize = 0;
                let mut found = false;
                while j < state.query_token_indices.len()
                    invariant_except_break
                        j <= state.query_token_indices@.len(),
                        r == state@,
                        !found,
                        forall|m: int| 0 <= m < j ==> r.query_token_indices[m] != q,
                    ensures
                        j <= state.query_token_indices@.len(),
                        found ==> j < r.query_token_indices.len() && r.query_token_indices[j as int] == q
                            && forall|m: int| 0 <= m < j ==> r.query_token_indices[m] != q,
                        !found ==> forall|m: int|
                            0 <= m < r.query_token_indices.len() ==> r.query_token_indices[m] != q,
                    decreases state.query_token_indices@.len() - j,
                {
                    if state.query_token_indices[j] == q {
                        found = true;
                        break;
                    }
                    j = j + 1;
                }
                proof {
                    lemma_first_position(r.query_token_indices, q);
                    let fp = first_position(r.query_token_indices, q);
                    if found {
                        assert(fp == j) by {
                            if fp < j {
                                assert(r.query_token_indices[fp] == q);
                            }
                            if fp > j || fp < 0 {
                                assert(r.query_token_indices[j as int] == q);
                            }
                        }
                    } else {
                        assert(fp < 0) by {
                            if fp >= 0 {
                                assert(r.query_token_indices[fp] == q);
                            }
                        }
                    }
                }
                if found {
                    score = Some(RangeScore { continuity: j, coverage: state.company_token_coverage });
                }
                q = q + 1;
            }
            let mut next = state.duplicate();
            next.range_score = score;
            let ghost before = range_views(updated@);
            updated.push(next);
            assert(old_views.take(k + 1) =~= old_views.take(k as int).push(old_views[k as int]));
            assert(range_views(updated@) =~= before.push(scored(r, n as nat)));
            k = k + 1;
        }
        assert(old_views.take(token_range_states@.len() as int) =~= old_views);
        *token_range_states = updated;
    }

    /// The runs with the highest score at each query token index, in order of the index; runs
    /// tied for the highest score are all kept, in order.
    ///
    /// Fails with a parser error where a run that covers a query token index has no score.
    ///
    /// Every query token index of every run must be below the query length (the index would
    /// be out of bounds otherwise).
    pub fn collect_top_range_states(
        query_text_doc_token_ids: &[TokenId],
        token_range_states: &[TokenRangeState],
    ) -> (result: Result<Vec<TokenRangeState>, Error>)
        requires
            indices_below(range_views(token_range_states@), query_text_doc_token_ids@.len()),
        ensures
            match top_ranges(query_text_doc_token_ids@.len(), range_views(token_range_states@)) {
                Some(top) => result matches Ok(states) && range_views(states@) == top,
                None => result matches Err(Error::ParserError(_)),
            },
    {
        let ghost states = range_views(token_range_states@);
        let n = query_text_doc_token_ids.len();
        let mut buckets: Vec<Vec<usize>> = Vec::new();
        let mut i: usize = 0;
        while i < n
            invariant
                i <= n,
                buckets@.len() == i,
                forall|k: int| 0 <= k < i ==> (#[trigger] buckets@[k])@ == Seq::<usize>::empty(),
            decreases n - i,
        {
            buckets.push(Vec::new());
            i = i + 1;
        }
        let ghost start = Seq::new(n as nat, |i: int| Seq::<int>::empty());
        assert forall|k: int| 0 <= k < n implies #[trigger] bucket_views(buckets@)[k] == start[k] by {
            assert(bucket_views(buckets@)[k] =~= start[k]);
        }
        assert(bucket_views(buckets@) =~= start);
        let mut si: usize = 0;
        while si < token_range_states.len()
            invariant
                si <= token_range_states@.len(),
                n == query_text_doc_token_ids@.len(),
                states == range_views(token_range_states@),
                indices_below(states, n as nat),
                start == Seq::new(n as nat, |i: int| Seq::<int>::empty()),
                buckets@.len() == n,
                bucket_indices_below(bucket_views(buckets@), si as int),
                place_runs(start, states, si as nat) == Some(bucket_views(buckets@)),
            decreases token_range_states@.len() - si,
        {
            let state = &token_range_states[si];
            let mut j: usize = 0;
            let ghost at_run = bucket_views(buckets@);
            while j < state.query_token_indices.len()
                invariant
                    j <= state.query_token_indices@.len(),
                    si < token_range_states@.len(),
                    *state == token_range_states@[si as int],
                    n == query_text_doc_token_ids@.len(),
                    states == range_views(token_range_states@),
                    indices_below(states, n as nat),
                    buckets@.len() == n,
                    bucket_indices_below(bucket_views(buckets@), si + 1),
                    place_run(at_run, states, si as int, j as nat) == Some(bucket_views(buckets@)),
                    start == Seq::new(n as nat, |i: int| Seq::<int>::empty()),
                    place_runs(start, states, si as nat) == Some(at_run),
                decreases state.query_token_indices@.len() - j,
            {
                let q = state.query_token_indices[j];
                assert(states[si as int].query_token_indices[j as int] == q);
                assert(q < n);
                let ghost b = bucket_views(buckets@);
                match state.range_score {
                    None => {
                        assert(place(b, states, si as int, q as int) is None);
                        proof {
                            lemma_place_run_none_extends(
                                at_run,
                                states,
                                si as int,
                                (j + 1) as nat,
                                states[si as int].query_token_indices.len(),
                            );
                            lemma_place_runs_none_extends(start, states, (si + 1) as nat, states.len());
                        }
                        let mut msg = "Range score is not assigned for state with ticker symbol:".to_owned();
                        msg.append(state.ticker_symbol.as_str());
                        msg.append(" ");
                        return Err(Error::ParserError(msg));
                    },
                    Some(score) => {
                        if buckets[q].len() == 0 {
                            push_to_bucket(&mut buckets, q, si);
                        } else {
                            let first = buckets[q][0];
                            assert(first < si + 1);
                            match token_range_states[first].range_score {
                                None => {
                                    assert(place(b, states, si as int, q as int) is None);
                                    proof {
                                        lemma_place_run_none_extends(
                                            at_run,
                                            states,
                                            si as int,
                                            (j + 1) as nat,
                                            states[si as int].query_token_indices.len(),
                                        );
                                        lemma_place_runs_none_extends(
                                            start,
                                            states,
                                            (si + 1) as nat,
                                            states.len(),
                                        );
                                    }
                                    let mut msg = "Could not check score of existing state with ticker symbol:".to_owned();
                                    msg.append(state.ticker_symbol.as_str());
                                    msg.append(" ");
                                    return Err(Error::ParserError(msg));
                                },
                                Some(existing) => {
                                    if score_greater_exec(score, existing) {
                                        reset_bucket(&mut buckets, q, si);
                                    } else if score_tied_exec(score, existing) {
                                        push_to_bucket(&mut buckets, q, si);
                                    }
                                },
                            }
                        }
                    },
                }
                j = j + 1;
            }
            si = si + 1;
        }
        let mut top_range_states: Vec<TokenRangeState> = Vec::new();
        let ghost bs = bucket_views(buckets@);
        let mut k: usize = 0;
        while k < buckets.len()
            invariant
                k <= buckets@.len(),
                bs == bucket_views(buckets@),
                states == range_views(token_range_states@),
                bucket_indices_below(bs, states.len() as int),
                range_views(top_range_states@) == bs.take(k as int).flatten().map_values(
                    |si: int| states[si],
                ),
            decreases buckets@.len() - k,
        {
            let bucket = &buckets[k];
            let ghost before = range_views(top_range_states@);
            let mut m: usize = 0;
            while m < bucket.len()
                invariant
                    m <= bucket@.len(),
                    k < buckets@.len(),
                    *bucket == buckets@[k as int],
                    bs == bucket_views(buckets@),
                    states == range_views(token_range_states@),
                    bucket_indices_below(bs, states.len() as int),
                    range_views(top_range_states@) == before + bs[k as int].take(m as int).map_values(
                        |si: int| states[si],
                    ),
                decreases bucket@.len() - m,
            {
                let idx = bucket[m];
                assert(bs[k as int][m as int] == idx);
                let ghost prior = range_views(top_range_states@);
                top_range_states.push(token_range_states[idx].duplicate());
                assert(bs[k as int].take(m + 1) =~= bs[k as int].take(m as int).push(idx as int));
                assert(range_views(top_range_states@) =~= prior.push(states[idx as int]));
                m = m + 1;
            }
            proof {
                assert(bs[k as int].take(bucket@.len() as int) =~= bs[k as int]);
                assert(bs.take(k + 1) =~= bs.take(k as int).push(bs[k as int]));
                bs.take(k as int).lemma_flatten_push(bs[k as int]);
            }
            k = k + 1;
        }
        assert(bs.take(buckets@.len() as int) =~= bs);
        Ok(top_range_states)
    }

    /// The share of runs that match on their ticker symbol; 1 when there are no runs.
    pub fn calc_exact_ticker_symbol_match_ratio(top_token_range_states: &[TokenRangeState]) -> (ratio:
        Ratio)
        ensures
            ratio == if top_token_range_states@.len() == 0 {
                Ratio { numerator: 1, denominator: 1 }
            } else {
                Ratio {
                    numerator: count_matched(range_views(top_token_range_states@)) as usize,
                    denominator: top_token_range_states@.len() as usize,
                }
            },
    {
        if top_token_range_states.len() == 0 {
            return Ratio { numerator: 1, denominator: 1 };
        }
        let ghost views = range_views(top_token_range_states@);
        let mut exact_matches: usize = 0;
        let mut i: usize = 0;
        while i < top_token_range_states.len()
            invariant
                i <= top_token_range_states@.len(),
                views == range_views(top_token_range_states@),
                exact_matches == count_matched(views.take(i as int)),
                exact_matches <= i,
            decreases top_token_range_states@.len() - i,
        {
            assert(views.take(i + 1).drop_last() =~= views.take(i as int));
            if top_token_range_states[i].is_matched_on_ticker_symbol == Some(true) {
                exact_matches = exact_matches + 1;
            }
            i = i + 1;
        }
        assert(views.take(top_token_range_states@.len() as int) =~= views);
        Ratio { numerator: exact_matches, denominator: top_token_range_states.len() }
    }

    /// For each ticker symbol of the runs, in order of first appearance, the number of
    /// distinct query token index vectors among its runs.
    pub fn count_token_range_ticker_symbol_frequencies(range_states: &[TokenRangeState]) -> (frequencies:
        TickerSymbolFrequencyMap)
        ensures
            frequencies@.map_values(|e: (TickerSymbol, usize)| e.0@) == first_occurrences(
                run_tickers(range_views(range_states@)),
            ),
            forall|k: int|
                0 <= k < frequencies@.len() ==> #[trigger] frequencies@[k].1 == first_occurrences(
                    ranges_of(range_views(range_states@), frequencies@[k].0@),
                ).len(),
    {
        let ghost views = range_views(range_states@);
        let mut tickers: Vec<TickerSymbol> = Vec::new();
        let mut distinct: Vec<Vec<Vec<QueryTokenIndex>>> = Vec::new();
        let mut i: usize = 0;
        while i < range_states.len()
            invariant
                i <= range_states@.len(),
                views == range_views(range_states@),
                tickers@.len() == distinct@.len(),
                crate::utils::seq_facts::string_views(tickers@) == first_occurrences(
                    run_tickers(views.take(i as int)),
                ),
                forall|k: int|
                    0 <= k < distinct@.len() ==> nested_index_views((#[trigger] distinct@[k])@)
                        == first_occurrences(ranges_of(views.take(i as int), tickers@[k]@)),
            decreases range_states@.len() - i,
        {
            let state = &range_states[i];
            let ghost prefix = views.take(i as int);
            let ghost next = views.take(i + 1);
            assert(next.drop_last() =~= prefix);
            assert(next.last() == state@);
            assert(run_tickers(next) =~= run_tickers(prefix).push(state@.ticker_symbol));
            proof {
                crate::utils::seq_facts::lemma_first_occurrences(run_tickers(prefix));
            }
            let position = position_of_ticker(&tickers, &state.ticker_symbol);
            match position {
                Some(p) => {
                    assert(run_tickers(next).drop_last() =~= run_tickers(prefix));
                    let mut ranges = distinct.remove(p);
                    let ghost old_ranges = nested_index_views(ranges@);
                    if !contains_indices(&ranges, &state.query_token_indices) {
                        ranges.push(copy_indices(&state.query_token_indices));
                        assert(nested_index_views(ranges@) =~= old_ranges.push(
                            state@.query_token_indices,
                        ));
                    }
                    distinct.insert(p, ranges);
                    proof {
                        assert(run_tickers(prefix).contains(state@.ticker_symbol)) by {
                            let ts = crate::utils::seq_facts::string_views(tickers@);
                            assert(ts[p as int] == state@.ticker_symbol);
                        }
                        let rn = run_tickers(next);
                        assert(rn.drop_last() =~= run_tickers(prefix));
                        assert(rn.last() == state@.ticker_symbol);
                        assert(first_occurrences(rn) == first_occurrences(run_tickers(prefix)));
                        assert forall|k: int| 0 <= k < distinct@.len() implies nested_index_views(
                            (#[trigger] distinct@[k])@,
                        ) == first_occurrences(ranges_of(next, tickers@[k]@)) by {
                            if k != p {
                                assert(tickers@[k]@ != state@.ticker_symbol) by {
                                    let ts = crate::utils::seq_facts::string_views(tickers@);
                                    assert(ts[k] == tickers@[k]@);
                                    assert(ts[p as int] == tickers@[p as int]@);
                                }
                            } else {
                                let rs = ranges_of(prefix, tickers@[k]@);
                                assert(ranges_of(next, tickers@[k]@) == rs.push(state@.query_token_indices));
                                assert(rs.push(state@.query_token_indices).drop_last() =~= rs);
                                crate::utils::seq_facts::lemma_first_occurrences(rs);
                            }
                        }
                    }
                },
                None => {
                    let mut ranges: Vec<Vec<QueryTokenIndex>> = Vec::new();
                    ranges.push(copy_indices(&state.query_token_indices));
                    tickers.push(state.ticker_symbol.clone());
                    distinct.push(ranges);
                    proof {
                        let ts = crate::utils::seq_facts::string_views(tickers@);
                        assert(ts =~= first_occurrences(run_tickers(prefix)).push(state@.ticker_symbol));
                        assert(!run_tickers(prefix).contains(state@.ticker_symbol)) by {
                            if run_tickers(prefix).contains(state@.ticker_symbol) {
                                let f = first_occurrences(run_tickers(prefix));
                                assert(f.contains(state@.ticker_symbol));
                                let m = choose|m: int| 0 <= m < f.len() && f[m] == state@.ticker_symbol;
                                assert(ts[m] == tickers@[m]@);
                            }
                        }
                        let rn = run_tickers(next);
                        assert(rn.drop_last() =~= run_tickers(prefix));
                        assert(rn.last() == state@.ticker_symbol);
                        assert(first_occurrences(rn) == first_occurrences(run_tickers(prefix)).push(
                            state@.ticker_symbol,
                        ));
                        assert forall|k: int| 0 <= k < distinct@.len() implies nested_index_views(
                            (#[trigger] distinct@[k])@,
                        ) == first_occurrences(ranges_of(next, tickers@[k]@)) by {
                            if k < distinct@.len() - 1 {
                                assert(tickers@[k]@ != state@.ticker_symbol) by {
                                    let f = first_occurrences(run_tickers(prefix));
                                    assert(ts[k] == tickers@[k]@);
                                    assert(f[k] == ts[k]);
                                }
                            } else {
                                lemma_ranges_of_absent(prefix, state@.ticker_symbol);
                                let rs = ranges_of(prefix, state@.ticker_symbol);
                                assert(rs.push(state@.query_token_indices).drop_last() =~= rs);
                                assert(nested_index_views(ranges@) =~= seq![state@.query_token_indices]);
                                reveal_with_fuel(first_occurrences, 2);
                                assert(first_occurrences(rs.push(state@.query_token_indices)) =~= seq![
                                    state@.query_token_indices,
                                ]);
                            }
                        }
                    }
                },
            }
            i = i + 1;
        }
        assert(views.take(range_states@.len() as int) =~= views);
        let mut frequencies: TickerSymbolFrequencyMap = Vec::new();
        let mut k: usize = 0;
        while k < tickers.len()
            invariant
                k <= tickers@.len(),
                tickers@.len() == distinct@.len(),
                frequencies@.len() == k,
                forall|m: int| 0 <= m < k ==> (#[trigger] frequencies@[m]).0@ == tickers@[m]@,
                forall|m: int| 0 <= m < k ==> (#[trigger] frequencies@[m]).1 == distinct@[m]@.len(),
            decreases tickers@.len() - k,
        {
            frequencies.push((tickers[k].clone(), distinct[k].len()));
            k = k + 1;
        }
        assert(frequencies@.map_values(|e: (TickerSymbol, usize)| e.0@) =~= crate::utils::seq_facts::string_views(tickers@));
        frequencies
    }
}

/// Appends run position `si` to bucket `q`.
fn push_to_bucket(buckets: &mut Vec<Vec<usize>>, q: usize, si: usize)
    requires
        q < old(buckets)@.len(),
    ensures
        final(buckets)@.len() == old(buckets)@.len(),
        bucket_views(final(buckets)@) == bucket_views(old(buckets)@).update(
            q as int,
            bucket_views(old(buckets)@)[q as int].push(si as int),
        ),
{
    let ghost b = bucket_views(buckets@);
    let mut bucket = buckets.remove(q);
    let ghost old_bucket = bucket@;
    bucket.push(si);
    buckets.insert(q, bucket);
    assert(bucket_views(buckets@)[q as int] =~= b[q as int].push(si as int));
    assert forall|k: int| 0 <= k < b.len() && k != q implies #[trigger] bucket_views(buckets@)[k]
        == b[k] by {
    }
    assert(bucket_views(buckets@) =~= b.update(q as int, b[q as int].push(si as int)));
}

/// Replaces bucket `q` by the single run position `si`.
fn reset_bucket(buckets: &mut Vec<Vec<usize>>, q: usize, si: usize)
    requires
        q < old(buckets)@.len(),
    ensures
        final(buckets)@.len() == old(buckets)@.len(),
        bucket_views(final(buckets)@) == bucket_views(old(buckets)@).update(q as int, seq![si as int]),
{
    let ghost b = bucket_views(buckets@);
    let mut bucket = buckets.remove(q);
    bucket.clear();
    bucket.push(si);
    buckets.insert(q, bucket);
    assert(bucket_views(buckets@)[q as int] =~= seq![si as int]);
    assert forall|k: int| 0 <= k < b.len() && k != q implies #[trigger] bucket_views(buckets@)[k]
        == b[k] by {
    }
    assert(bucket_views(buckets@) =~= b.update(q as int, seq![si as int]));
}

/// The views of buckets of run positions.
pub open spec fn bucket_views(b: Seq<Vec<usize>>) -> Seq<Seq<int>> {
    b.map_values(|v: Vec<usize>| v@.map_values(|x: usize| x as int))
}

/// Whether every run position in the buckets is below `n`.
pub open spec fn bucket_indices_below(b: Seq<Seq<int>>, n: int) -> bool {
    forall|k: int, m: int| 0 <= k < b.len() && 0 <= m < b[k].len() ==> 0 <= #[trigger] b[k][m] < n
}

/// The views of vectors of query token indices.
pub open spec fn nested_index_views(v: Seq<Vec<QueryTokenIndex>>) -> Seq<Seq<QueryTokenIndex>> {
    v.map_values(|x: Vec<QueryTokenIndex>| x@)
}

/// A ticker symbol that no run has yields no index vectors.
proof fn lemma_ranges_of_absent(states: Seq<RangeView>, t: Seq<char>)
    requires
        !run_tickers(states).contains(t),
    ensures
        ranges_of(states, t) == Seq::<Seq<QueryTokenIndex>>::empty(),
    decreases states.len(),
{
    if states.len() > 0 {
        assert(run_tickers(states.drop_last()) =~= run_tickers(states).drop_last());
        assert(!run_tickers(states.drop_last()).contains(t)) by {
            if run_tickers(states.drop_last()).contains(t) {
                let m = choose|m: int| 0 <= m < states.len() - 1 && run_tickers(states.drop_last())[m] == t;
                assert(run_tickers(states)[m] == t);
            }
        }
        assert(run_tickers(states)[states.len() - 1] == states.last().ticker_symbol);
        lemma_ranges_of_absent(states.drop_last(), t);
    }
}

/// The position of `ticker` in `tickers`, if it occurs.
fn position_of_ticker(tickers: &Vec<TickerSymbol>, ticker: &TickerSymbol) -> (position: Option<usize>)
    ensures
        match position {
            Some(p) => p < tickers@.len() && tickers@[p as int]@ == ticker@,
            None => forall|k: int| 0 <= k < tickers@.len() ==> tickers@[k]@ != ticker@,
        },
{
    let mut j: usize = 0;
    while j < tickers.len()
        invariant
            j <= tickers@.len(),
            forall|k: int| 0 <= k < j ==> tickers@[k]@ != ticker@,
        decreases tickers@.len() - j,
    {
        if tickers[j] == *ticker {
            return Some(j);
        }
        j = j + 1;
    }
    None
}

/// Whether `ranges` holds an index vector equal to `indices`.
fn contains_indices(ranges: &Vec<Vec<QueryTokenIndex>>, indices: &Vec<QueryTokenIndex>) -> (found: bool)
    ensures
        found == nested_index_views(ranges@).contains(indices@),
{
    let ghost views = nested_index_views(ranges@);
    let mut j: usize = 0;
    while j < ranges.len()
        invariant
            j <= ranges@.len(),
            views == nested_index_views(ranges@),
            forall|k: int| 0 <= k < j ==> views[k] != indices@,
        decreases ranges@.len() - j,
    {
        if indices_equal(&ranges[j], indices) {
            assert(views[j as int] == indices@);
            return true;
        }
        j = j + 1;
    }
    false
}

/// Placing fails for good once it fails for a run.
proof fn lemma_place_run_none_extends(
    buckets: Seq<Seq<int>>,
    states: Seq<RangeView>,
    si: int,
    k: nat,
    m: nat,
)
    requires
        k <= m,
        place_run(buckets, states, si, k) is None,
    ensures
        place_run(buckets, states, si, m) is None,
    decreases m - k,
{
    if k < m {
        lemma_place_run_none_extends(buckets, states, si, k + 1, m);
    }
}

/// Placing fails for good once it fails for some run.
proof fn lemma_place_runs_none_extends(buckets: Seq<Seq<int>>, states: Seq<RangeView>, k: nat, n: nat)
    requires
        k <= n,
        place_runs(buckets, states, k) is None,
    ensures
        place_runs(buckets, states, n) is None,
    decreases n - k,
{
    if k < n {
        lemma_place_runs_none_extends(buckets, states, k + 1, n);
    }
}

} // verus!
