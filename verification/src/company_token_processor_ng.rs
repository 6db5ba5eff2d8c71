//! Token ids of company names keyed by ticker symbol, with each token id's ticker symbols.
use std::collections::HashMap;
use vstd::hash_map::StringHashMap;
use vstd::prelude::*;

use crate::company_token_processor::{contains_token_id, entry_keys, token_refs};
use crate::company_token_mapper::{
    entry_names, entry_view, list_view, nested_views, seq_or_empty, upsert_all, upsert_one,
    EntryView,
};
use crate::token_mapper::{position_in, TokenMapper};
use crate::token_range_state::copy_indices;
use crate::tokenizer::Tokenizer;
use crate::types::{CompanySymbolList, TickerSymbol, Token, TokenId, TokenRef};
use crate::utils::dedup_vector::contains_string;
use crate::utils::seq_facts::{first_occurrences, lemma_first_occurrences, string_views};
use crate::utils::sort_results::entry_views;

verus! {

broadcast use {vstd::hash_map::group_hash_map_axioms, vstd::std_specs::hash::group_hash_axioms};

/// The abstract state of a `CompanyTokenProcessorNg`.
pub struct NgModel {
    /// The known tokens, indexed by token id.
    pub tokens: Seq<Seq<char>>,
    /// Each ticker symbol to the token id sequences of its ticker symbol tokens and names.
    pub name_map: Map<Seq<char>, Seq<Seq<TokenId>>>,
    /// Each token id to the ticker symbols whose tokens or names hold it, once per holding.
    pub reverse: Map<TokenId, Seq<Seq<char>>>,
}

/// The state before ingestion: the given tokens and empty maps.
pub open spec fn ng_start(tokens: Seq<Seq<char>>) -> NgModel {
    NgModel { tokens, name_map: Map::empty(), reverse: Map::empty() }
}

/// The reverse map after recording `ticker` under each of `ids`.
pub open spec fn reverse_add(
    reverse: Map<TokenId, Seq<Seq<char>>>,
    ids: Seq<TokenId>,
    ticker: Seq<char>,
) -> Map<TokenId, Seq<Seq<char>>>
    decreases ids.len(),
{
    if ids.len() == 0 {
        reverse
    } else {
        let r = reverse_add(reverse, ids.drop_last(), ticker);
        r.insert(ids.last(), seq_or_empty(r, ids.last()).push(ticker))
    }
}

/// The value under ticker symbol `k`, or the empty sequence.
pub open spec fn name_seq_or_empty(m: Map<Seq<char>, Seq<Seq<TokenId>>>, k: Seq<char>) -> Seq<
    Seq<TokenId>,
> {
    if m.contains_key(k) {
        m[k]
    } else {
        Seq::empty()
    }
}

/// The state after adding each ticker symbol token in order, each as a one-token sequence.
pub open spec fn ng_ticker_tokens(m: NgModel, ticker: Seq<char>, ts: Seq<Seq<char>>) -> (NgModel, Seq<
    Seq<TokenId>,
>)
    decreases ts.len(),
{
    if ts.len() == 0 {
        (m, Seq::empty())
    } else {
        let (m1, all) = ng_ticker_tokens(m, ticker, ts.drop_last());
        let (tokens, id) = upsert_one(m1.tokens, ts.last());
        (NgModel { tokens, reverse: reverse_add(m1.reverse, seq![id], ticker), ..m1 }, all.push(seq![id]))
    }
}

/// The state after adding the tokens of each company name in order, and each name's ids.
pub open spec fn ng_names(m: NgModel, names: Seq<Seq<char>>, ticker: Seq<char>, tokenizer: Tokenizer) -> (
    NgModel,
    Seq<Seq<TokenId>>,
)
    decreases names.len(),
{
    if names.len() == 0 {
        (m, Seq::empty())
    } else {
        let (m1, all) = ng_names(m, names.drop_last(), ticker, tokenizer);
        let (tokens, ids) = upsert_all(m1.tokens, tokenizer.spec_tokenize(names.last()));
        (NgModel { tokens, reverse: reverse_add(m1.reverse, ids, ticker), ..m1 }, all.push(ids))
    }
}

/// The state after ingesting one entry: its ticker symbol tokens, then its names, appended to
/// the sequences of its ticker symbol.
pub open spec fn ng_entry(m: NgModel, e: EntryView, ticker_symbol_tokenizer: Tokenizer, text_doc_tokenizer: Tokenizer) -> NgModel {
    let (m1, ticker_ids) = ng_ticker_tokens(m, e.0, ticker_symbol_tokenizer.spec_tokenize(e.0));
    let (m2, name_ids) = ng_names(m1, entry_names(e), e.0, text_doc_tokenizer);
    NgModel {
        name_map: m2.name_map.insert(e.0, name_seq_or_empty(m2.name_map, e.0) + ticker_ids + name_ids),
        ..m2
    }
}

/// The state after ingesting the entries in order.
pub open spec fn ng_list(m: NgModel, entries: Seq<EntryView>, ticker_symbol_tokenizer: Tokenizer, text_doc_tokenizer: Tokenizer) -> NgModel
    decreases entries.len(),
{
    if entries.len() == 0 {
        m
    } else {
        ng_entry(
            ng_list(m, entries.drop_last(), ticker_symbol_tokenizer, text_doc_tokenizer),
            entries.last(),
            ticker_symbol_tokenizer,
            text_doc_tokenizer,
        )
    }
}

/// Whether ticker symbol `c` is recorded under token id `id`.
pub open spec fn ng_holds(reverse: Map<TokenId, Seq<Seq<char>>>, id: TokenId, c: Seq<char>) -> bool {
    reverse.contains_key(id) && reverse[id].contains(c)
}

/// The number of distinct token ids of `ids` under which ticker symbol `c` is recorded.
pub open spec fn ng_hits(reverse: Map<TokenId, Seq<Seq<char>>>, ids: Seq<TokenId>, c: Seq<char>) -> nat {
    first_occurrences(ids.filter(|id: TokenId| ng_holds(reverse, id, c))).len()
}

/// Whether `matches` lists, once each, the ticker symbols recorded under some token id of
/// `ids`, each with its number of hits, most hits first. The order among ticker symbols with
/// equally many hits is left open.
pub open spec fn is_possible_matches(
    reverse: Map<TokenId, Seq<Seq<char>>>,
    ids: Seq<TokenId>,
    matches: Seq<(Seq<char>, usize)>,
) -> bool {
    &&& entry_keys(matches).no_duplicates()
    &&& forall|c: Seq<char>| #[trigger]
        entry_keys(matches).contains(c) <==> exists|i: int| 0 <= i < ids.len() && #[trigger] ng_holds(reverse, ids[i], c)
    &&& forall|k: int| 0 <= k < matches.len() ==> #[trigger] matches[k].1 == ng_hits(reverse, ids, matches[k].0)
    &&& forall|a: int, b: int| 0 <= a < b < matches.len() ==> #[trigger] matches[a].1 >= #[trigger] matches[b].1
}

/// What processing a text document finds: its tokens, those the processor knows, their token
/// ids, and the ticker symbols recorded under those ids with their numbers of hits.
pub struct NgTextDocReport {
    pub text_doc_tokens: Vec<Token>,
    pub filtered_tokens: Vec<Token>,
    pub filtered_token_ids: Vec<TokenId>,
    pub possible_matches: Vec<(TickerSymbol, usize)>,
}

/// Whether the entries are ordered by their counts, highest first.
pub open spec fn counts_descending(s: Seq<(Seq<char>, usize)>) -> bool {
    forall|a: int, b: int| 0 <= a < b < s.len() ==> #[trigger] s[a].1 >= #[trigger] s[b].1
}

/// Inserting an entry with a new key before the first entry with a lower count keeps the
/// entries ordered by count, their keys distinct, and adds just that entry.
proof fn lemma_insert_by_count(
    sv: Seq<(Seq<char>, usize)>,
    prefix: Seq<(Seq<char>, usize)>,
    x: (Seq<char>, usize),
    pos: int,
)
    requires
        forall|y: (Seq<char>, usize)| #[trigger] sv.contains(y) <==> prefix.contains(y),
        entry_keys(sv).no_duplicates(),
        counts_descending(sv),
        !entry_keys(prefix).contains(x.0),
        0 <= pos <= sv.len(),
        forall|p: int| 0 <= p < pos ==> sv[p].1 >= x.1,
        forall|p: int| pos <= p < sv.len() ==> sv[p].1 < x.1,
    ensures
        forall|y: (Seq<char>, usize)| #[trigger] sv.insert(pos, x).contains(y) <==> prefix.push(x).contains(y),
        entry_keys(sv.insert(pos, x)).no_duplicates(),
        counts_descending(sv.insert(pos, x)),
{
    let nv = sv.insert(pos, x);
    sv.insert_ensures(pos, x);
    let k = prefix.len() as int;
    assert forall|y: (Seq<char>, usize)| #[trigger] nv.contains(y) <==> prefix.push(x).contains(y) by {
        if nv.contains(y) {
            let a = choose|a: int| 0 <= a < nv.len() && nv[a] == y;
            if a < pos {
                assert(sv[a] == y);
                assert(sv.contains(y));
            } else if a > pos {
                assert(sv[a - 1] == y);
                assert(sv.contains(y));
            }
            if y == x {
                assert(prefix.push(x)[k] == y);
            } else {
                assert(prefix.contains(y));
                let b = choose|b: int| 0 <= b < prefix.len() && prefix[b] == y;
                assert(prefix.push(x)[b] == y);
            }
        }
        if prefix.push(x).contains(y) {
            let b = choose|b: int| 0 <= b < prefix.push(x).len() && prefix.push(x)[b] == y;
            if b == k {
                assert(nv[pos] == y);
            } else {
                assert(prefix[b] == y);
                assert(prefix.contains(y));
                assert(sv.contains(y));
                let a = choose|a: int| 0 <= a < sv.len() && sv[a] == y;
                if a < pos {
                    assert(nv[a] == y);
                } else {
                    assert(nv[a + 1] == y);
                }
            }
        }
    }
    assert(!entry_keys(sv).contains(x.0)) by {
        if entry_keys(sv).contains(x.0) {
            let a = choose|a: int| 0 <= a < entry_keys(sv).len() && entry_keys(sv)[a] == x.0;
            assert(sv.contains(sv[a]));
            assert(prefix.contains(sv[a]));
            let b = choose|b: int| 0 <= b < prefix.len() && prefix[b] == sv[a];
            assert(entry_keys(prefix)[b] == x.0);
        }
    }
    assert(entry_keys(nv).no_duplicates()) by {
        assert forall|a: int, b: int|
            0 <= a < entry_keys(nv).len() && 0 <= b < entry_keys(nv).len() && a != b implies entry_keys(nv)[a]
                != entry_keys(nv)[b] by {
            if a < pos {
                assert(entry_keys(nv)[a] == entry_keys(sv)[a]);
            } else if a > pos {
                assert(entry_keys(nv)[a] == entry_keys(sv)[a - 1]);
            }
            if b < pos {
                assert(entry_keys(nv)[b] == entry_keys(sv)[b]);
            } else if b > pos {
                assert(entry_keys(nv)[b] == entry_keys(sv)[b - 1]);
            }
            if a == pos && b != pos {
                assert(entry_keys(sv).contains(entry_keys(nv)[b]));
            }
            if b == pos && a != pos {
                assert(entry_keys(sv).contains(entry_keys(nv)[a]));
            }
        }
    }
    assert forall|a: int, b: int| 0 <= a < b < nv.len() implies #[trigger] nv[a].1 >= #[trigger] nv[b].1 by {
        if a < pos {
            if b > pos {
                assert(nv[b] == sv[b - 1]);
            }
        } else if a > pos {
            assert(nv[a] == sv[a - 1]);
            assert(nv[b] == sv[b - 1]);
        }
    }
}

/// The entries ordered by count, highest first; entries with equal counts keep their order.
fn sort_by_hits(entries: Vec<(TickerSymbol, usize)>) -> (sorted: Vec<(TickerSymbol, usize)>)
    requires
        entry_keys(entry_views(entries@)).no_duplicates(),
    ensures
        sorted@.len() == entries@.len(),
        forall|x: (Seq<char>, usize)| #[trigger]
            entry_views(sorted@).contains(x) <==> entry_views(entries@).contains(x),
        entry_keys(entry_views(sorted@)).no_duplicates(),
        counts_descending(entry_views(sorted@)),
{
    let ghost ev = entry_views(entries@);
    let mut sorted: Vec<(TickerSymbol, usize)> = Vec::new();
    let mut k: usize = 0;
    while k < entries.len()
        invariant
            k <= entries@.len(),
            ev == entry_views(entries@),
            entry_keys(ev).no_duplicates(),
            sorted@.len() == k,
            forall|x: (Seq<char>, usize)| #[trigger]
                entry_views(sorted@).contains(x) <==> ev.take(k as int).contains(x),
            entry_keys(entry_views(sorted@)).no_duplicates(),
            counts_descending(entry_views(sorted@)),
        decreases entries@.len() - k,
    {
        let e = (entries[k].0.clone(), entries[k].1);
        let ghost x = ev[k as int];
        assert(x == (e.0@, e.1));
        let ghost sv = entry_views(sorted@);
        let mut pos: usize = 0;
        while pos < sorted.len() && sorted[pos].1 >= e.1
            invariant
                pos <= sorted@.len(),
                sv == entry_views(sorted@),
                forall|p: int| 0 <= p < pos ==> sv[p].1 >= e.1,
            decreases sorted@.len() - pos,
        {
            pos = pos + 1;
        }
        assert(forall|p: int| pos <= p < sv.len() ==> sv[p].1 < e.1) by {
            assert forall|p: int| pos <= p < sv.len() implies sv[p].1 < e.1 by {
                if p > pos {
                    assert(sv[pos as int].1 >= sv[p].1);
                }
            }
        }
        sorted.insert(pos, e);
        proof {
            let prefix = ev.take(k as int);
            assert(ev.take(k + 1) =~= prefix.push(x));
            assert(entry_views(sorted@) =~= sv.insert(pos as int, x)) by {
                sv.insert_ensures(pos as int, x);
            }
            assert(!entry_keys(prefix).contains(x.0)) by {
                if entry_keys(prefix).contains(x.0) {
                    let b = choose|b: int| 0 <= b < entry_keys(prefix).len() && entry_keys(prefix)[b] == x.0;
                    assert(entry_keys(ev)[b] == entry_keys(ev)[k as int]);
                }
            }
            lemma_insert_by_count(sv, prefix, x, pos as int);
        }
        k = k + 1;
    }
    assert(ev.take(entries@.len() as int) =~= ev);
    sorted
}

/// Company name token ids keyed by ticker symbol, over a company symbol list.
pub struct CompanyTokenProcessorNg<'a> {
    company_symbol_list: &'a CompanySymbolList,
    token_mapper: TokenMapper,
    ticker_symbol_tokenizer: Tokenizer,
    text_doc_tokenizer: Tokenizer,
    company_name_token_map: StringHashMap<Vec<Vec<TokenId>>>,
    reverse_token_map: HashMap<TokenId, Vec<TickerSymbol>>,
}

/// A copy of token id sequences.
fn copy_sequences(v: &Vec<Vec<TokenId>>) -> (copy: Vec<Vec<TokenId>>)
    ensures
        nested_views(copy@) == nested_views(v@),
{
    let mut copy: Vec<Vec<TokenId>> = Vec::new();
    let mut i: usize = 0;
    while i < v.len()
        invariant
            i <= v@.len(),
            nested_views(copy@) == nested_views(v@).take(i as int),
        decreases v@.len() - i,
    {
        let ghost before = nested_views(copy@);
        copy.push(copy_indices(&v[i]));
        assert(nested_views(copy@) =~= nested_views(v@).take(i + 1)) by {
            assert(nested_views(v@).take(i + 1) =~= nested_views(v@).take(i as int).push(v@[i as int]@));
            assert(nested_views(copy@) =~= before.push(v@[i as int]@));
        }
        i = i + 1;
    }
    assert(nested_views(v@).take(v@.len() as int) =~= nested_views(v@));
    copy
}

/// An upsert on the token mapper follows `upsert_one`.
proof fn lemma_upsert_matches(before: Seq<Seq<char>>, t: Seq<char>, id: TokenId, after: Seq<Seq<char>>)
    requires
        after == if before.contains(t) {
            before
        } else {
            before.push(t)
        },
        before.contains(t) ==> Some(id) == position_in(before, t),
        !before.contains(t) ==> id == before.len(),
    ensures
        upsert_one(before, t) == (after, id),
{
}

impl<'a> CompanyTokenProcessorNg<'a> {
    /// The abstract state of the processor.
    pub closed spec fn model(&self) -> NgModel {
        NgModel {
            tokens: self.token_mapper.tokens(),
            name_map: self.company_name_token_map@.map_values(
                |v: Vec<Vec<TokenId>>| nested_views(v@),
            ),
            reverse: self.reverse_token_map@.map_values(|v: Vec<TickerSymbol>| string_views(v@)),
        }
    }

    /// The company symbol list the processor is built over.
    pub closed spec fn symbol_list(&self) -> CompanySymbolList {
        *self.company_symbol_list
    }

    /// The tokenizer for text documents and company names.
    pub closed spec fn text_doc_tokenizer(&self) -> Tokenizer {
        self.text_doc_tokenizer
    }

    /// Whether the processor's tokenizers are the ones it is built with.
    spec fn wf(&self) -> bool {
        &&& self.ticker_symbol_tokenizer == Tokenizer::ticker_symbol_parser_spec()
        &&& self.text_doc_tokenizer == Tokenizer::text_doc_parser_spec(true)
    }

    /// Creates a processor over a company symbol list and ingests its tokens: see `ng_list`.
    /// Company names are tokenized as they are written, case-sensitively.
    pub fn new(company_symbol_list: &'a CompanySymbolList) -> (processor: Self)
        ensures
            processor.text_doc_tokenizer() == Tokenizer::text_doc_parser_spec(true),
            processor.symbol_list() == *company_symbol_list,
            processor.model() == ng_list(
                ng_start(Seq::empty()),
                list_view(company_symbol_list@),
                Tokenizer::ticker_symbol_parser_spec(),
                Tokenizer::text_doc_parser_spec(true),
            ),
    {
        let mut instance = CompanyTokenProcessorNg {
            company_symbol_list,
            token_mapper: TokenMapper::new(),
            ticker_symbol_tokenizer: Tokenizer::ticker_symbol_parser(),
            text_doc_tokenizer: Tokenizer::text_doc_parser(true),
            company_name_token_map: StringHashMap::with_capacity(company_symbol_list.len()),
            reverse_token_map: HashMap::new(),
        };
        instance.ingest_company_tokens();
        instance
    }

    /// Clears the maps and ingests the tokens of the company symbol list: see `ng_list`.
    fn ingest_company_tokens(&mut self)
        requires
            old(self).wf(),
        ensures
            final(self).wf(),
            final(self).company_symbol_list == old(self).company_symbol_list,
            final(self).model() == ng_list(
                ng_start(old(self).model().tokens),
                list_view(old(self).company_symbol_list@),
                Tokenizer::ticker_symbol_parser_spec(),
                Tokenizer::text_doc_parser_spec(true),
            ),
    {
        self.company_name_token_map.clear();
        self.reverse_token_map.clear();
        let ghost start = ng_start(old(self).model().tokens);
        assert(self.model() =~= start) by {
            assert(self.model().name_map =~= Map::empty());
            assert(self.model().reverse =~= Map::empty());
        }
        let list = self.company_symbol_list;
        let ghost entries = list_view(list@);
        let mut i: usize = 0;
        while i < list.len()
            invariant
                i <= list@.len(),
                self.wf(),
                self.company_symbol_list == list,
                list == old(self).company_symbol_list,
                entries == list_view(list@),
                start == ng_start(old(self).model().tokens),
                self.model() == ng_list(
                    start,
                    entries.take(i as int),
                    Tokenizer::ticker_symbol_parser_spec(),
                    Tokenizer::text_doc_parser_spec(true),
                ),
            decreases list@.len() - i,
        {
            assert(entries.take(i + 1).drop_last() =~= entries.take(i as int));
            assert(entries.take(i + 1).last() == entries[i as int]);
            let entry = &list[i];
            assert(entry_view(*entry) == entries[i as int]);
            self.ingest_entry(entry);
            i = i + 1;
        }
        assert(entries.take(list@.len() as int) =~= entries);
    }

    /// Ingests one company symbol list entry: see `ng_entry`.
    fn ingest_entry(&mut self, entry: &(TickerSymbol, Option<String>, Vec<String>))
        requires
            old(self).wf(),
        ensures
            final(self).wf(),
            final(self).company_symbol_list == old(self).company_symbol_list,
            final(self).model() == ng_entry(
                old(self).model(),
                entry_view(*entry),
                Tokenizer::ticker_symbol_parser_spec(),
                Tokenizer::text_doc_parser_spec(true),
            ),
    {
        let ticker_symbol = &entry.0;
        let ghost e = entry_view(*entry);
        let ghost m0 = self.model();
        let mut all_company_name_token_ids: Vec<Vec<TokenId>> = Vec::new();
        let ticker_symbol_tokens = self.ticker_symbol_tokenizer.tokenize(ticker_symbol.as_str());
        let ghost ts = string_views(ticker_symbol_tokens@);
        let mut t: usize = 0;
        while t < ticker_symbol_tokens.len()
            invariant
                t <= ticker_symbol_tokens@.len(),
                self.wf(),
                self.company_symbol_list == old(self).company_symbol_list,
                ts == string_views(ticker_symbol_tokens@),
                ng_ticker_tokens(m0, ticker_symbol@, ts.take(t as int)) == (
                    self.model(),
                    nested_views(all_company_name_token_ids@),
                ),
            decreases ticker_symbol_tokens@.len() - t,
        {
            assert(ts.take(t + 1).drop_last() =~= ts.take(t as int));
            assert(ts.take(t + 1).last() == ticker_symbol_tokens@[t as int]@);
            let ghost before = self.model();
            let id = self.token_mapper.upsert_token(ticker_symbol_tokens[t].as_str());
            proof {
                lemma_upsert_matches(before.tokens, ticker_symbol_tokens@[t as int]@, id, self.token_mapper.tokens());
            }
            let mut single: Vec<TokenId> = Vec::new();
            single.push(id);
            assert(single@ =~= seq![id]);
            self.push_reverse_entries(&single, ticker_symbol);
            let ghost before_ids = nested_views(all_company_name_token_ids@);
            all_company_name_token_ids.push(single);
            assert(nested_views(all_company_name_token_ids@) =~= before_ids.push(seq![id]));
            t = t + 1;
        }
        assert(ts.take(ts.len() as int) =~= ts);
        let ghost m1 = self.model();
        let ghost ticker_part = nested_views(all_company_name_token_ids@);
        let ghost names = entry_names(e);
        let mut name_ids: Vec<Vec<TokenId>> = Vec::new();
        let mut done: usize = 0;
        if let Some(company_name) = &entry.1 {
            let ids = self.process_company_name_tokens(company_name.as_str());
            self.push_reverse_entries(&ids, ticker_symbol);
            name_ids.push(ids);
            done = 1;
            proof {
                assert(names.take(1).drop_last() =~= Seq::<Seq<char>>::empty());
                assert(names.take(1).last() == company_name@);
                assert(nested_views(name_ids@) =~= seq![ids@]);
                reveal_with_fuel(ng_names, 2);
                assert(ng_names(m1, names.take(1), ticker_symbol@, self.text_doc_tokenizer) == (
                    self.model(),
                    nested_views(name_ids@),
                ));
            }
        }
        let alt_company_names = &entry.2;
        assert(forall|k: int|
            0 <= k < alt_company_names@.len() ==> #[trigger] names[done + k]
                == alt_company_names@[k]@);
        assert(ng_names(m1, names.take(done as int), ticker_symbol@, self.text_doc_tokenizer) == (
            self.model(),
            nested_views(name_ids@),
        )) by {
            if done == 0 {
                assert(nested_views(name_ids@) =~= Seq::<Seq<TokenId>>::empty());
            }
        }
        let mut j: usize = 0;
        while j < alt_company_names.len()
            invariant
                j <= alt_company_names@.len(),
                self.wf(),
                self.company_symbol_list == old(self).company_symbol_list,
                names == entry_names(e),
                e == entry_view(*entry),
                done == names.len() - alt_company_names@.len(),
                forall|k: int|
                    0 <= k < alt_company_names@.len() ==> #[trigger] names[done + k]
                        == alt_company_names@[k]@,
                ng_names(m1, names.take(done + j), ticker_symbol@, self.text_doc_tokenizer) == (
                    self.model(),
                    nested_views(name_ids@),
                ),
            decreases alt_company_names@.len() - j,
        {
            assert(names.take(done + j + 1).drop_last() =~= names.take(done + j));
            assert(names.take(done + j + 1).last() == alt_company_names@[j as int]@);
            let ids = self.process_company_name_tokens(alt_company_names[j].as_str());
            self.push_reverse_entries(&ids, ticker_symbol);
            let ghost before = nested_views(name_ids@);
            name_ids.push(ids);
            assert(nested_views(name_ids@) =~= before.push(ids@));
            j = j + 1;
        }
        assert(names.take(names.len() as int) =~= names);
        let ghost m2 = self.model();
        let mut k: usize = 0;
        while k < name_ids.len()
            invariant
                k <= name_ids@.len(),
                nested_views(all_company_name_token_ids@) == ticker_part + nested_views(name_ids@).take(
                    k as int,
                ),
            decreases name_ids@.len() - k,
        {
            let ghost before = nested_views(all_company_name_token_ids@);
            all_company_name_token_ids.push(name_ids[k].clone());
            assert(nested_views(name_ids@).take(k + 1) =~= nested_views(name_ids@).take(k as int).push(
                name_ids@[k as int]@,
            ));
            assert(nested_views(all_company_name_token_ids@) =~= before.push(name_ids@[k as int]@));
            k = k + 1;
        }
        assert(nested_views(name_ids@).take(name_ids@.len() as int) =~= nested_views(name_ids@));
        let mut sequences = match self.company_name_token_map.get(ticker_symbol.as_str()) {
            Some(v) => copy_sequences(v),
            None => Vec::new(),
        };
        let ghost existing = nested_views(sequences@);
        assert(existing == name_seq_or_empty(m2.name_map, ticker_symbol@));
        let mut a: usize = 0;
        while a < all_company_name_token_ids.len()
            invariant
                a <= all_company_name_token_ids@.len(),
                nested_views(sequences@) == existing + nested_views(all_company_name_token_ids@).take(
                    a as int,
                ),
            decreases all_company_name_token_ids@.len() - a,
        {
            let ghost before = nested_views(sequences@);
            sequences.push(all_company_name_token_ids[a].clone());
            assert(nested_views(all_company_name_token_ids@).take(a + 1) =~= nested_views(
                all_company_name_token_ids@,
            ).take(a as int).push(all_company_name_token_ids@[a as int]@));
            assert(nested_views(sequences@) =~= before.push(all_company_name_token_ids@[a as int]@));
            a = a + 1;
        }
        assert(nested_views(all_company_name_token_ids@).take(
            all_company_name_token_ids@.len() as int,
        ) =~= nested_views(all_company_name_token_ids@));
        assert(nested_views(sequences@) =~= name_seq_or_empty(m2.name_map, ticker_symbol@) + ticker_part
            + nested_views(name_ids@));
        let ghost new_sequences = nested_views(sequences@);
        self.company_name_token_map.insert(ticker_symbol.clone(), sequences);
        assert(self.model().name_map =~= m2.name_map.insert(ticker_symbol@, new_sequences));
        assert(self.model().name_map =~= m2.name_map.insert(
            ticker_symbol@,
            name_seq_or_empty(m2.name_map, ticker_symbol@) + ticker_part + nested_views(name_ids@),
        ));
    }

    /// Records `ticker_symbol` under each of `ids`: see `reverse_add`.
    fn push_reverse_entries(&mut self, ids: &Vec<TokenId>, ticker_symbol: &TickerSymbol)
        requires
            old(self).wf(),
        ensures
            final(self).wf(),
            final(self).company_symbol_list == old(self).company_symbol_list,
            final(self).model() == (NgModel {
                reverse: reverse_add(old(self).model().reverse, ids@, ticker_symbol@),
                ..old(self).model()
            }),
    {
        let mut i: usize = 0;
        while i < ids.len()
            invariant
                i <= ids@.len(),
                self.wf(),
                self.company_symbol_list == old(self).company_symbol_list,
                self.model() == (NgModel {
                    reverse: reverse_add(old(self).model().reverse, ids@.take(i as int), ticker_symbol@),
                    ..old(self).model()
                }),
            decreases ids@.len() - i,
        {
            assert(ids@.take(i + 1).drop_last() =~= ids@.take(i as int));
            assert(ids@.take(i + 1).last() == ids@[i as int]);
            let ghost before = self.model();
            let token_id = ids[i];
            let mut tickers = match self.reverse_token_map.remove(&token_id) {
                Some(v) => v,
                None => Vec::new(),
            };
            assert(string_views(tickers@) == seq_or_empty(before.reverse, token_id));
            let ghost old_views = string_views(tickers@);
            tickers.push(ticker_symbol.clone());
            assert(string_views(tickers@) =~= old_views.push(ticker_symbol@));
            self.reverse_token_map.insert(token_id, tickers);
            assert(self.model().reverse =~= before.reverse.insert(
                token_id,
                seq_or_empty(before.reverse, token_id).push(ticker_symbol@),
            ));
            i = i + 1;
        }
        assert(ids@.take(ids@.len() as int) =~= ids@);
    }

    /// The ticker symbols recorded under some token id of `ids`, once each, in order of first
    /// appearance.
    fn matched_ticker_symbols(&self, ids: &Vec<TokenId>) -> (tickers: Vec<TickerSymbol>)
        ensures
            string_views(tickers@).no_duplicates(),
            forall|c: Seq<char>| #[trigger]
                string_views(tickers@).contains(c) <==> exists|i: int|
                    0 <= i < ids@.len() && #[trigger] ng_holds(self.model().reverse, ids@[i], c),
    {
        let ghost reverse = self.model().reverse;
        let mut tickers: Vec<TickerSymbol> = Vec::new();
        let mut i: usize = 0;
        while i < ids.len()
            invariant
                i <= ids@.len(),
                reverse == self.model().reverse,
                string_views(tickers@).no_duplicates(),
                forall|c: Seq<char>| #[trigger]
                    string_views(tickers@).contains(c) <==> exists|i2: int|
                        0 <= i2 < i && #[trigger] ng_holds(reverse, ids@[i2], c),
            decreases ids@.len() - i,
        {
            let ghost seen_before = string_views(tickers@);
            match self.reverse_token_map.get(&ids[i]) {
                Some(list) => {
                    let ghost lv = string_views(list@);
                    assert(reverse.contains_key(ids@[i as int]) && reverse[ids@[i as int]] == lv);
                    let mut j: usize = 0;
                    while j < list.len()
                        invariant
                            j <= list@.len(),
                            i < ids@.len(),
                            lv == string_views(list@),
                            string_views(tickers@).no_duplicates(),
                            forall|c: Seq<char>| #[trigger]
                                string_views(tickers@).contains(c) <==> seen_before.contains(c)
                                    || lv.take(j as int).contains(c),
                        decreases list@.len() - j,
                    {
                        let ghost tv = string_views(tickers@);
                        assert(lv.take(j + 1) =~= lv.take(j as int).push(lv[j as int]));
                        if !contains_string(&tickers, &list[j]) {
                            tickers.push(list[j].clone());
                            assert(string_views(tickers@) =~= tv.push(lv[j as int]));
                            assert forall|c: Seq<char>| #[trigger]
                                string_views(tickers@).contains(c) <==> seen_before.contains(c)
                                    || lv.take(j + 1).contains(c) by {
                                if c == lv[j as int] {
                                    assert(lv.take(j + 1)[j as int] == c);
                                    assert(string_views(tickers@)[tv.len() as int] == c);
                                }
                                if seen_before.contains(c) {
                                    assert(tv.contains(c));
                                }
                                if string_views(tickers@).contains(c) && c != lv[j as int] {
                                    let a = choose|a: int| 0 <= a < string_views(tickers@).len() && string_views(tickers@)[a] == c;
                                    assert(tv[a] == c);
                                    assert(tv.contains(c));
                                    if lv.take(j as int).contains(c) {
                                        let b = choose|b: int| 0 <= b < j && #[trigger] lv.take(j as int)[b] == c;
                                        assert(lv.take(j + 1)[b] == c);
                                    }
                                }
                                if lv.take(j + 1).contains(c) {
                                    let b = choose|b: int| 0 <= b <= j && #[trigger] lv.take(j + 1)[b] == c;
                                    if b < j {
                                        assert(lv.take(j as int)[b] == c);
                                    } else {
                                        assert(string_views(tickers@)[tv.len() as int] == c);
                                    }
                                }
                                if tv.contains(c) {
                                    let a = choose|a: int| 0 <= a < tv.len() && tv[a] == c;
                                    assert(string_views(tickers@)[a] == c);
                                }
                            }
                        } else {
                            assert forall|c: Seq<char>| #[trigger]
                                string_views(tickers@).contains(c) <==> seen_before.contains(c)
                                    || lv.take(j + 1).contains(c) by {
                                if lv.take(j as int).contains(c) {
                                    let b = choose|b: int| 0 <= b < j && #[trigger] lv.take(j as int)[b] == c;
                                    assert(lv.take(j + 1)[b] == c);
                                }
                                if lv.take(j + 1).contains(c) {
                                    let b = choose|b: int| 0 <= b <= j && #[trigger] lv.take(j + 1)[b] == c;
                                    if b < j {
                                        assert(lv.take(j as int)[b] == c);
                                    }
                                }
                            }
                        }
                        j = j + 1;
                    }
                    assert(lv.take(list@.len() as int) =~= lv);
                    assert forall|c: Seq<char>| #[trigger]
                        string_views(tickers@).contains(c) <==> exists|i2: int|
                            0 <= i2 < i + 1 && #[trigger] ng_holds(reverse, ids@[i2], c) by {
                        if lv.contains(c) {
                            assert(ng_holds(reverse, ids@[i as int], c));
                        }
                        if exists|i2: int| 0 <= i2 < i + 1 && #[trigger] ng_holds(reverse, ids@[i2], c) {
                            let i2 = choose|i2: int| 0 <= i2 < i + 1 && #[trigger] ng_holds(reverse, ids@[i2], c);
                            if i2 < i {
                                assert(seen_before.contains(c));
                            } else {
                                assert(lv.contains(c));
                            }
                        }
                    }
                },
                None => {
                    assert(!reverse.contains_key(ids@[i as int]));
                    assert forall|c: Seq<char>| #[trigger]
                        string_views(tickers@).contains(c) <==> exists|i2: int|
                            0 <= i2 < i + 1 && #[trigger] ng_holds(reverse, ids@[i2], c) by {
                        if exists|i2: int| 0 <= i2 < i + 1 && #[trigger] ng_holds(reverse, ids@[i2], c) {
                            let i2 = choose|i2: int| 0 <= i2 < i + 1 && #[trigger] ng_holds(reverse, ids@[i2], c);
                            assert(i2 < i);
                        }
                    }
                },
            }
            i = i + 1;
        }
        tickers
    }

    /// The number of distinct token ids of `ids` under which `ticker_symbol` is recorded.
    fn hit_count(&self, ids: &Vec<TokenId>, ticker_symbol: &TickerSymbol) -> (hits: usize)
        ensures
            hits == ng_hits(self.model().reverse, ids@, ticker_symbol@),
    {
        let ghost reverse = self.model().reverse;
        let ghost holds = |id: TokenId| ng_holds(reverse, id, ticker_symbol@);
        let mut seen: Vec<TokenId> = Vec::new();
        let mut i: usize = 0;
        while i < ids.len()
            invariant
                i <= ids@.len(),
                reverse == self.model().reverse,
                holds == (|id: TokenId| ng_holds(reverse, id, ticker_symbol@)),
                seen@ == first_occurrences(ids@.take(i as int).filter(holds)),
                seen@.len() <= i,
            decreases ids@.len() - i,
        {
            let ghost prefix = ids@.take(i as int).filter(holds);
            proof {
                assert(ids@.take(i + 1) =~= ids@.take(i as int).push(ids@[i as int]));
                ids@.take(i as int).lemma_filter_push(ids@[i as int], holds);
                lemma_first_occurrences(prefix);
            }
            let held = match self.reverse_token_map.get(&ids[i]) {
                Some(list) => contains_string(list, ticker_symbol),
                None => false,
            };
            assert(held == holds(ids@[i as int]));
            if held {
                assert(prefix.push(ids@[i as int]).drop_last() =~= prefix);
                if !contains_token_id(&seen, ids[i]) {
                    seen.push(ids[i]);
                }
            }
            i = i + 1;
        }
        assert(ids@.take(ids@.len() as int) =~= ids@);
        seen.len()
    }

    /// Processes a text document: its tokens, those the token mapper knows with their ids, and
    /// the ticker symbols recorded under those ids with their numbers of hits, most first.
    pub fn process_text_doc(&mut self, text: &str) -> (report: NgTextDocReport)
        ensures
            *final(self) == *old(self),
            string_views(report.text_doc_tokens@) == old(self).text_doc_tokenizer().spec_tokenize(text@),
            string_views(report.filtered_tokens@) == string_views(report.text_doc_tokens@).filter(
                |t: Seq<char>| old(self).model().tokens.contains(t),
            ),
            report.filtered_token_ids@ == string_views(report.text_doc_tokens@).filter_map(
                |t: Seq<char>| position_in(old(self).model().tokens, t),
            ),
            is_possible_matches(
                old(self).model().reverse,
                report.filtered_token_ids@,
                entry_views(report.possible_matches@),
            ),
    {
        proof {
            use_type_invariant(&self.token_mapper);
        }
        let text_doc_tokens = self.text_doc_tokenizer.tokenize(text);
        let known = self.token_mapper.get_filtered_tokens(token_refs(&text_doc_tokens));
        let mut filtered_tokens: Vec<Token> = Vec::new();
        let mut i: usize = 0;
        while i < known.len()
            invariant
                i <= known@.len(),
                string_views(filtered_tokens@) == known@.map_values(|t: &TokenRef| t@).take(i as int),
            decreases known@.len() - i,
        {
            let ghost before = string_views(filtered_tokens@);
            filtered_tokens.push(known[i].to_owned());
            assert(string_views(filtered_tokens@) =~= known@.map_values(|t: &TokenRef| t@).take(i + 1)) by {
                assert(known@.map_values(|t: &TokenRef| t@).take(i + 1) =~= known@.map_values(
                    |t: &TokenRef| t@,
                ).take(i as int).push(known@[i as int]@));
                assert(string_views(filtered_tokens@) =~= before.push(known@[i as int]@));
            }
            i = i + 1;
        }
        assert(known@.map_values(|t: &TokenRef| t@).take(known@.len() as int) =~= known@.map_values(
            |t: &TokenRef| t@,
        ));
        let filtered_token_ids = self.token_mapper.get_filtered_token_ids(token_refs(&text_doc_tokens));
        assert((|t: Seq<char>| self.token_mapper.spec_token_id(t)) =~= (|t: Seq<char>| position_in(
            self.model().tokens,
            t,
        )));
        let tickers = self.matched_ticker_symbols(&filtered_token_ids);
        let ghost tv = string_views(tickers@);
        let mut entries: Vec<(TickerSymbol, usize)> = Vec::new();
        let mut k: usize = 0;
        while k < tickers.len()
            invariant
                k <= tickers@.len(),
                tv == string_views(tickers@),
                entries@.len() == k,
                forall|m: int| 0 <= m < k ==> #[trigger] entry_views(entries@)[m] == (tv[m], ng_hits(
                    self.model().reverse,
                    filtered_token_ids@,
                    tv[m],
                ) as usize),
                forall|m: int| 0 <= m < k ==> ng_hits(self.model().reverse, filtered_token_ids@, tv[m]) <= usize::MAX,
            decreases tickers@.len() - k,
        {
            let hits = self.hit_count(&filtered_token_ids, &tickers[k]);
            let ghost before = entry_views(entries@);
            entries.push((tickers[k].clone(), hits));
            assert(entry_views(entries@) =~= before.push((tv[k as int], hits)));
            k = k + 1;
        }
        proof {
            assert(entry_keys(entry_views(entries@)) =~= tv);
        }
        let possible_matches = sort_by_hits(entries);
        proof {
            let reverse = self.model().reverse;
            let ids = filtered_token_ids@;
            let ev = entry_views(entries@);
            let sv = entry_views(possible_matches@);
            assert forall|c: Seq<char>| #[trigger] entry_keys(sv).contains(c) <==> tv.contains(c) by {
                if entry_keys(sv).contains(c) {
                    let a = choose|a: int| 0 <= a < entry_keys(sv).len() && entry_keys(sv)[a] == c;
                    assert(sv.contains(sv[a]));
                    assert(ev.contains(sv[a]));
                    let b = choose|b: int| 0 <= b < ev.len() && ev[b] == sv[a];
                    assert(tv[b] == c);
                }
                if tv.contains(c) {
                    let b = choose|b: int| 0 <= b < tv.len() && tv[b] == c;
                    assert(ev.contains(ev[b]));
                    assert(sv.contains(ev[b]));
                    let a = choose|a: int| 0 <= a < sv.len() && sv[a] == ev[b];
                    assert(entry_keys(sv)[a] == c);
                }
            }
            assert forall|m: int| 0 <= m < sv.len() implies #[trigger] sv[m].1 == ng_hits(reverse, ids, sv[m].0) by {
                assert(sv.contains(sv[m]));
                assert(ev.contains(sv[m]));
                let b = choose|b: int| 0 <= b < ev.len() && ev[b] == sv[m];
                assert(ev[b] == (tv[b], ng_hits(reverse, ids, tv[b]) as usize));
            }
        }
        NgTextDocReport { text_doc_tokens, filtered_tokens, filtered_token_ids, possible_matches }
    }

    /// Tokenizes a company name and returns the ids of its tokens, adding new tokens to the
    /// token mapper.
    fn process_company_name_tokens(&mut self, company_name: &str) -> (ids: Vec<TokenId>)
        requires
            old(self).wf(),
        ensures
            final(self).wf(),
            final(self).company_symbol_list == old(self).company_symbol_list,
            (final(self).model().tokens, ids@) == upsert_all(
                old(self).model().tokens,
                Tokenizer::text_doc_parser_spec(true).spec_tokenize(company_name@),
            ),
            final(self).model() == (NgModel { tokens: final(self).model().tokens, ..old(self).model() }),
    {
        let company_name_tokens = self.text_doc_tokenizer.tokenize(company_name);
        let ghost views = string_views(company_name_tokens@);
        let mut ids: Vec<TokenId> = Vec::new();
        let mut i: usize = 0;
        while i < company_name_tokens.len()
            invariant
                i <= company_name_tokens@.len(),
                self.wf(),
                self.company_symbol_list == old(self).company_symbol_list,
                views == string_views(company_name_tokens@),
                (self.model().tokens, ids@) == upsert_all(old(self).model().tokens, views.take(i as int)),
                self.model() == (NgModel { tokens: self.model().tokens, ..old(self).model() }),
            decreases company_name_tokens@.len() - i,
        {
            assert(views.take(i + 1).drop_last() =~= views.take(i as int));
            assert(views.take(i + 1).last() == company_name_tokens@[i as int]@);
            let ghost before = self.model().tokens;
            let id = self.token_mapper.upsert_token(company_name_tokens[i].as_str());
            proof {
                lemma_upsert_matches(before, company_name_tokens@[i as int]@, id, self.token_mapper.tokens());
            }
            ids.push(id);
            i = i + 1;
        }
        assert(views.take(company_name_tokens@.len() as int) =~= views);
        ids
    }
}

} // verus!
