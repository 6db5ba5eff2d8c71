//! Alignments between query tokens and company name tokens.
use vstd::prelude::*;

use crate::types::{
    CompanySequenceIndex, CompanySequenceTokenIndex, QueryTokenIndex, TickerSymbolTokenId, TokenId,
};

verus! {

/// Company token sequences that may occur in a query, per ticker symbol token id: one entry per
/// ticker symbol token id (no id occurs twice), each with (sequence index, sequence) pairs.
pub type PotentialTokenSequenceMap = Vec<
    (TickerSymbolTokenId, Vec<(CompanySequenceIndex, Vec<TokenId>)>),
>;

/// The abstract form of a `PotentialTokenSequenceMap`.
pub type PotentialView = Seq<(TickerSymbolTokenId, Seq<(CompanySequenceIndex, Seq<TokenId>)>)>;

/// The view of company token sequences with their indices.
pub open spec fn sequences_view(s: Seq<(CompanySequenceIndex, Vec<TokenId>)>) -> Seq<
    (CompanySequenceIndex, Seq<TokenId>),
> {
    s.map_values(|e: (CompanySequenceIndex, Vec<TokenId>)| (e.0, e.1@))
}

/// The view of a `PotentialTokenSequenceMap`.
pub open spec fn potential_view(p: Seq<
    (TickerSymbolTokenId, Vec<(CompanySequenceIndex, Vec<TokenId>)>),
>) -> PotentialView {
    p.map_values(
        |e: (TickerSymbolTokenId, Vec<(CompanySequenceIndex, Vec<TokenId>)>)|
            (e.0, sequences_view(e.1@)),
    )
}

/// One match between a query token and a token of a company token sequence.
#[derive(Debug, Clone, Copy, PartialEq, Eq, Structural)]
pub struct TokenParityState {
    /// The token id of the company's ticker symbol.
    pub ticker_symbol_token_id: TickerSymbolTokenId,
    /// The index of the token in the query.
    pub query_token_idx: QueryTokenIndex,
    /// The token id of the query token.
    pub query_token_id: TokenId,
    /// The index of the company token sequence.
    pub company_sequence_idx: CompanySequenceIndex,
    /// The index of the token within the company token sequence.
    pub company_sequence_token_idx: CompanySequenceTokenIndex,
}

/// The matches of query token `query_idx` within the first `n` tokens of `sequence`.
pub open spec fn token_matches(
    ticker: TickerSymbolTokenId,
    sequence_idx: CompanySequenceIndex,
    sequence: Seq<TokenId>,
    query_idx: QueryTokenIndex,
    query_id: TokenId,
    n: nat,
) -> Seq<TokenParityState>
    decreases n,
{
    if n == 0 {
        Seq::empty()
    } else {
        let rest = token_matches(ticker, sequence_idx, sequence, query_idx, query_id, (n - 1) as nat);
        if sequence[n - 1] == query_id {
            rest.push(
                TokenParityState {
                    ticker_symbol_token_id: ticker,
                    query_token_idx: query_idx,
                    query_token_id: query_id,
                    company_sequence_idx: sequence_idx,
                    company_sequence_token_idx: (n - 1) as usize,
                },
            )
        } else {
            rest
        }
    }
}

/// The matches of the first `n` query tokens within `sequence`.
pub open spec fn query_matches(
    ticker: TickerSymbolTokenId,
    sequence_idx: CompanySequenceIndex,
    sequence: Seq<TokenId>,
    query: Seq<TokenId>,
    n: nat,
) -> Seq<TokenParityState>
    decreases n,
{
    if n == 0 {
        Seq::empty()
    } else {
        query_matches(ticker, sequence_idx, sequence, query, (n - 1) as nat) + token_matches(
            ticker,
            sequence_idx,
            sequence,
            (n - 1) as usize,
            query[n - 1],
            sequence.len(),
        )
    }
}

/// The matches of the query within the first `n` sequences of one company.
pub open spec fn company_matches(
    ticker: TickerSymbolTokenId,
    sequences: Seq<(CompanySequenceIndex, Seq<TokenId>)>,
    query: Seq<TokenId>,
    n: nat,
) -> Seq<TokenParityState>
    decreases n,
{
    if n == 0 {
        Seq::empty()
    } else {
        company_matches(ticker, sequences, query, (n - 1) as nat) + query_matches(
            ticker,
            sequences[n - 1].0,
            sequences[n - 1].1,
            query,
            query.len(),
        )
    }
}

/// The matches of the query within the sequences of the first `n` companies.
pub open spec fn all_matches(potential: PotentialView, query: Seq<TokenId>, n: nat) -> Seq<
    TokenParityState,
>
    decreases n,
{
    if n == 0 {
        Seq::empty()
    } else {
        all_matches(potential, query, (n - 1) as nat) + company_matches(
            potential[n - 1].0,
            potential[n - 1].1,
            query,
            potential[n - 1].1.len(),
        )
    }
}

/// The order of parity states: by ticker symbol token id, then sequence index, then query token
/// index, then sequence token index.
pub open spec fn parity_le(a: TokenParityState, b: TokenParityState) -> bool {
    if a.ticker_symbol_token_id != b.ticker_symbol_token_id {
        a.ticker_symbol_token_id < b.ticker_symbol_token_id
    } else if a.company_sequence_idx != b.company_sequence_idx {
        a.company_sequence_idx < b.company_sequence_idx
    } else if a.query_token_idx != b.query_token_idx {
        a.query_token_idx < b.query_token_idx
    } else {
        a.company_sequence_token_idx <= b.company_sequence_token_idx
    }
}

/// Whether parity states are in `parity_le` order.
pub open spec fn parity_sorted(s: Seq<TokenParityState>) -> bool {
    forall|i: int, j: int| 0 <= i < j < s.len() ==> parity_le(#[trigger] s[i], #[trigger] s[j])
}

/// `parity_le` refined by the query token id, a total order on parity states.
pub open spec fn parity_total_le(a: TokenParityState, b: TokenParityState) -> bool {
    if a.ticker_symbol_token_id != b.ticker_symbol_token_id {
        a.ticker_symbol_token_id < b.ticker_symbol_token_id
    } else if a.company_sequence_idx != b.company_sequence_idx {
        a.company_sequence_idx < b.company_sequence_idx
    } else if a.query_token_idx != b.query_token_idx {
        a.query_token_idx < b.query_token_idx
    } else if a.company_sequence_token_idx != b.company_sequence_token_idx {
        a.company_sequence_token_idx < b.company_sequence_token_idx
    } else {
        a.query_token_id <= b.query_token_id
    }
}

/// `parity_total_le` is a total order.
pub proof fn lemma_parity_total_le_total_ordering()
    ensures
        vstd::relations::total_ordering(|a: TokenParityState, b: TokenParityState| parity_total_le(a, b)),
{
}

/// A sequence in `parity_total_le` order is in `parity_le` order.
pub proof fn lemma_total_sorted_is_parity_sorted(s: Seq<TokenParityState>)
    requires
        vstd::relations::sorted_by(s, |a: TokenParityState, b: TokenParityState| parity_total_le(a, b)),
    ensures
        parity_sorted(s),
{
    let r = |a: TokenParityState, b: TokenParityState| parity_total_le(a, b);
    assert forall|i: int, j: int| 0 <= i < j < s.len() implies parity_le(#[trigger] s[i], #[trigger] s[j]) by {
        assert(r(s[i], s[j]));
    }
}

/// Whether each parity state refers to a query token that exists and carries its token id.
pub open spec fn consistent_with_query(s: Seq<TokenParityState>, query: Seq<TokenId>) -> bool {
    forall|i: int|
        0 <= i < s.len() ==> (#[trigger] s[i]).query_token_idx < query.len() && s[i].query_token_id
            == query[s[i].query_token_idx as int]
}

/// Concatenating consistent parity states keeps them consistent.
proof fn lemma_consistent_concat(a: Seq<TokenParityState>, b: Seq<TokenParityState>, query: Seq<TokenId>)
    requires
        consistent_with_query(a, query),
        consistent_with_query(b, query),
    ensures
        consistent_with_query(a + b, query),
{
    assert forall|i: int| 0 <= i < (a + b).len() implies (#[trigger] (a + b)[i]).query_token_idx
        < query.len() && (a + b)[i].query_token_id == query[(a + b)[i].query_token_idx as int] by {
        if i < a.len() {
            assert((a + b)[i] == a[i]);
        } else {
            assert((a + b)[i] == b[i - a.len()]);
        }
    }
}

/// The matches of one query token refer to that token.
proof fn lemma_token_matches_consistent(
    ticker: TickerSymbolTokenId,
    sequence_idx: CompanySequenceIndex,
    sequence: Seq<TokenId>,
    query: Seq<TokenId>,
    query_idx: QueryTokenIndex,
    n: nat,
)
    requires
        query_idx < query.len(),
    ensures
        consistent_with_query(
            token_matches(ticker, sequence_idx, sequence, query_idx, query[query_idx as int], n),
            query,
        ),
    decreases n,
{
    if n > 0 {
        lemma_token_matches_consistent(ticker, sequence_idx, sequence, query, query_idx, (n - 1) as nat);
    }
}

/// The matches of the first `n` query tokens refer to query tokens.
proof fn lemma_query_matches_consistent(
    ticker: TickerSymbolTokenId,
    sequence_idx: CompanySequenceIndex,
    sequence: Seq<TokenId>,
    query: Seq<TokenId>,
    n: nat,
)
    requires
        n <= query.len(),
        query.len() <= usize::MAX,
    ensures
        consistent_with_query(query_matches(ticker, sequence_idx, sequence, query, n), query),
    decreases n,
{
    if n > 0 {
        lemma_query_matches_consistent(ticker, sequence_idx, sequence, query, (n - 1) as nat);
        assert(((n - 1) as usize) as int == n - 1);
        lemma_token_matches_consistent(
            ticker,
            sequence_idx,
            sequence,
            query,
            (n - 1) as usize,
            sequence.len(),
        );
        lemma_consistent_concat(
            query_matches(ticker, sequence_idx, sequence, query, (n - 1) as nat),
            token_matches(
                ticker,
                sequence_idx,
                sequence,
                (n - 1) as usize,
                query[n - 1],
                sequence.len(),
            ),
            query,
        );
    }
}

/// The matches within the first `n` sequences of a company refer to query tokens.
proof fn lemma_company_matches_consistent(
    ticker: TickerSymbolTokenId,
    sequences: Seq<(CompanySequenceIndex, Seq<TokenId>)>,
    query: Seq<TokenId>,
    n: nat,
)
    requires
        n <= sequences.len(),
        query.len() <= usize::MAX,
    ensures
        consistent_with_query(company_matches(ticker, sequences, query, n), query),
    decreases n,
{
    if n > 0 {
        lemma_company_matches_consistent(ticker, sequences, query, (n - 1) as nat);
        lemma_query_matches_consistent(
            ticker,
            sequences[n - 1].0,
            sequences[n - 1].1,
            query,
            query.len(),
        );
        lemma_consistent_concat(
            company_matches(ticker, sequences, query, (n - 1) as nat),
            query_matches(ticker, sequences[n - 1].0, sequences[n - 1].1, query, query.len()),
            query,
        );
    }
}

/// Every match refers to an existing query token and carries its token id.
pub proof fn lemma_all_matches_consistent(potential: PotentialView, query: Seq<TokenId>, n: nat)
    requires
        n <= potential.len(),
        query.len() <= usize::MAX,
    ensures
        consistent_with_query(all_matches(potential, query, n), query),
    decreases n,
{
    if n > 0 {
        lemma_all_matches_consistent(potential, query, (n - 1) as nat);
        lemma_company_matches_consistent(
            potential[n - 1].0,
            potential[n - 1].1,
            query,
            potential[n - 1].1.len(),
        );
        lemma_consistent_concat(
            all_matches(potential, query, (n - 1) as nat),
            company_matches(potential[n - 1].0, potential[n - 1].1, query, potential[n - 1].1.len()),
            query,
        );
    }
}

/// Two sorted arrangements of the same consistent parity states are equal.
pub proof fn lemma_sorted_parity_unique(x: Seq<TokenParityState>, y: Seq<TokenParityState>, query: Seq<TokenId>)
    requires
        parity_sorted(x),
        parity_sorted(y),
        consistent_with_query(x, query),
        x.to_multiset() == y.to_multiset(),
    ensures
        x == y,
    decreases x.len(),
{
    broadcast use vstd::multiset::group_multiset_axioms;
    broadcast use vstd::seq_lib::group_to_multiset_ensures;

    assert(x.to_multiset().len() == x.len());
    assert(y.to_multiset().len() == y.len());
    if x.len() == 0 {
        assert(y.len() == 0);
        assert(x =~= y);
    } else if y.len() == 0 {
        assert(x.to_multiset().count(x[0]) > 0);
    } else {
        assert(x.to_multiset().contains(x[0]));
        assert(y.to_multiset().contains(x[0]));
        assert(x.to_multiset().contains(y[0]));
        let i = choose|i: int| 0 <= i < x.len() && x[i] == y[0];
        let j = choose|j: int| 0 <= j < y.len() && y[j] == x[0];
        assert(parity_le(x[0], x[i]) || i == 0);
        assert(parity_le(y[0], y[j]) || j == 0);
        assert(x[0] == y[0]);
        assert(x.remove(0) =~= x.drop_first());
        assert(y.remove(0) =~= y.drop_first());
        assert(x.remove(0).to_multiset() =~= x.to_multiset().remove(x[0]));
        assert(y.remove(0).to_multiset() =~= y.to_multiset().remove(y[0]));
        assert(consistent_with_query(x.drop_first(), query)) by {
            assert forall|k: int| 0 <= k < x.drop_first().len() implies (#[trigger] x.drop_first()[k]).query_token_idx
                < query.len() && x.drop_first()[k].query_token_id == query[x.drop_first()[k].query_token_idx as int] by {
                assert(x.drop_first()[k] == x[k + 1]);
            }
        }
        assert(parity_sorted(x.drop_first())) by {
            assert forall|a: int, b: int| 0 <= a < b < x.drop_first().len() implies parity_le(
                #[trigger] x.drop_first()[a],
                #[trigger] x.drop_first()[b],
            ) by {
                assert(x.drop_first()[a] == x[a + 1] && x.drop_first()[b] == x[b + 1]);
            }
        }
        assert(parity_sorted(y.drop_first())) by {
            assert forall|a: int, b: int| 0 <= a < b < y.drop_first().len() implies parity_le(
                #[trigger] y.drop_first()[a],
                #[trigger] y.drop_first()[b],
            ) by {
                assert(y.drop_first()[a] == y[a + 1] && y.drop_first()[b] == y[b + 1]);
            }
        }
        lemma_sorted_parity_unique(x.drop_first(), y.drop_first(), query);
        assert(x =~= seq![x[0]] + x.drop_first());
        assert(y =~= seq![y[0]] + y.drop_first());
    }
}

/// Whether `a` goes before or beside `b` in `parity_le` order.
fn parity_state_le(a: &TokenParityState, b: &TokenParityState) -> (le: bool)
    ensures
        le == parity_le(*a, *b),
{
    if a.ticker_symbol_token_id != b.ticker_symbol_token_id {
        a.ticker_symbol_token_id < b.ticker_symbol_token_id
    } else if a.company_sequence_idx != b.company_sequence_idx {
        a.company_sequence_idx < b.company_sequence_idx
    } else if a.query_token_idx != b.query_token_idx {
        a.query_token_idx < b.query_token_idx
    } else {
        a.company_sequence_token_idx <= b.company_sequence_token_idx
    }
}

/// Sorts parity states into `parity_le` order.
fn sort_parity_states(states: &Vec<TokenParityState>) -> (sorted: Vec<TokenParityState>)
    ensures
        sorted@.to_multiset() == states@.to_multiset(),
        parity_sorted(sorted@),
{
    let mut sorted: Vec<TokenParityState> = Vec::new();
    let mut i: usize = 0;
    assert(sorted@ =~= states@.take(0));
    while i < states.len()
        invariant
            i <= states@.len(),
            sorted@.to_multiset() == states@.take(i as int).to_multiset(),
            parity_sorted(sorted@),
        decreases states@.len() - i,
    {
        let ghost before = sorted@;
        let x = states[i];
        let mut p: usize = 0;
        while p < sorted.len()
            invariant_except_break
                p <= sorted@.len(),
                before == sorted@,
                forall|k: int| 0 <= k < p ==> parity_le(before[k], x),
            ensures
                p <= sorted@.len(),
                before == sorted@,
                forall|k: int| 0 <= k < p ==> parity_le(before[k], x),
                p < sorted@.len() ==> parity_le(x, before[p as int]),
            decreases sorted@.len() - p,
        {
            if parity_state_le(&x, &sorted[p]) {
                break;
            }
            p = p + 1;
        }
        sorted.insert(p, x);
        proof {
            let after = sorted@;
            assert(states@.take(i + 1) =~= states@.take(i as int).push(x));
            vstd::seq_lib::to_multiset_insert(before, p as int, x);
            vstd::seq_lib::to_multiset_build(states@.take(i as int), x);
            assert forall|a: int, b: int| 0 <= a < b < after.len() implies parity_le(
                #[trigger] after[a],
                #[trigger] after[b],
            ) by {
                if b < p {
                    assert(after[a] == before[a] && after[b] == before[b]);
                } else if b == p {
                    assert(after[a] == before[a]);
                } else if a > p {
                    assert(after[a] == before[a - 1] && after[b] == before[b - 1]);
                } else if a == p {
                    assert(after[b] == before[b - 1]);
                } else {
                    assert(after[a] == before[a] && after[b] == before[b - 1]);
                }
            }
        }
        i = i + 1;
    }
    assert(states@.take(states@.len() as int) =~= states@);
    sorted
}

impl TokenParityState {
    /// Collects every match between a query token and a token of a potential company token
    /// sequence, sorted by ticker symbol token id, sequence index, query token index and
    /// sequence token index.
    pub fn collect_token_parity_states(
        query_text_doc_token_ids: &[TokenId],
        potential_token_id_sequences: &PotentialTokenSequenceMap,
    ) -> (states: Vec<TokenParityState>)
        ensures
            states@.to_multiset() == all_matches(
                potential_view(potential_token_id_sequences@),
                query_text_doc_token_ids@,
                potential_token_id_sequences@.len(),
            ).to_multiset(),
            parity_sorted(states@),
    {
        let ghost potential = potential_view(potential_token_id_sequences@);
        let ghost query = query_text_doc_token_ids@;
        let mut token_parity_states: Vec<TokenParityState> = Vec::new();
        let mut a: usize = 0;
        while a < potential_token_id_sequences.len()
            invariant
                a <= potential_token_id_sequences@.len(),
                potential == potential_view(potential_token_id_sequences@),
                query == query_text_doc_token_ids@,
                token_parity_states@ == all_matches(potential, query, a as nat),
            decreases potential_token_id_sequences@.len() - a,
        {
            let ticker_symbol_token_id = potential_token_id_sequences[a].0;
            let company_token_sequences = &potential_token_id_sequences[a].1;
            let ghost sequences = potential[a as int].1;
            assert(sequences == sequences_view(company_token_sequences@));
            let ghost before_company = token_parity_states@;
            let mut b: usize = 0;
            while b < company_token_sequences.len()
                invariant
                    b <= company_token_sequences@.len(),
                    sequences == sequences_view(company_token_sequences@),
                    query == query_text_doc_token_ids@,
                    token_parity_states@ == before_company + company_matches(
                        ticker_symbol_token_id,
                        sequences,
                        query,
                        b as nat,
                    ),
                decreases company_token_sequences@.len() - b,
            {
                let company_sequence_idx = company_token_sequences[b].0;
                let company_sequence_token_ids = &company_token_sequences[b].1;
                let ghost sequence = company_sequence_token_ids@;
                assert(sequences[b as int] == (company_sequence_idx, sequence));
                let ghost before_sequence = token_parity_states@;
                let mut q: usize = 0;
                while q < query_text_doc_token_ids.len()
                    invariant
                        q <= query_text_doc_token_ids@.len(),
                        query == query_text_doc_token_ids@,
                        sequence == company_sequence_token_ids@,
                        token_parity_states@ == before_sequence + query_matches(
                            ticker_symbol_token_id,
                            company_sequence_idx,
                            sequence,
                            query,
                            q as nat,
                        ),
                    decreases query_text_doc_token_ids@.len() - q,
                {
                    let query_token_id = query_text_doc_token_ids[q];
                    let ghost before_query = token_parity_states@;
                    let mut c: usize = 0;
                    while c < company_sequence_token_ids.len()
                        invariant
                            c <= company_sequence_token_ids@.len(),
                            sequence == company_sequence_token_ids@,
                            token_parity_states@ == before_query + token_matches(
                                ticker_symbol_token_id,
                                company_sequence_idx,
                                sequence,
                                q,
                                query_token_id,
                                c as nat,
                            ),
                        decreases company_sequence_token_ids@.len() - c,
                    {
                        if company_sequence_token_ids[c] == query_token_id {
                            token_parity_states.push(
                                TokenParityState {
                                    ticker_symbol_token_id,
                                    query_token_idx: q,
                                    query_token_id,
                                    company_sequence_idx,
                                    company_sequence_token_idx: c,
                                },
                            );
                        }
                        c = c + 1;
                    }
                    q = q + 1;
                }
                b = b + 1;
            }
            a = a + 1;
        }
        sort_parity_states(&token_parity_states)
    }
}

} // verus!
