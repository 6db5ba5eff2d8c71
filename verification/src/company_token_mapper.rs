//! Token identifiers for ticker symbols and company names.
use std::collections::HashMap;
use vstd::hash_map::StringHashMap;
use vstd::prelude::*;

use crate::error::Error;
use crate::text::{decimal_digits, str_to_uppercase, uppercase_chars, usize_to_string};
use crate::token_mapper::{position_in, TokenMapper};
use crate::tokenizer::Tokenizer;
use crate::types::{
    CompanySequenceIndex, CompanySymbolList, TickerSymbol, TickerSymbolTokenId, TokenId,
};
use crate::utils::seq_facts::string_views;

verus! {

broadcast use {vstd::hash_map::group_hash_map_axioms, vstd::std_specs::hash::group_hash_axioms};

/// The abstract state of a `CompanyTokenMapper`.
pub struct CompanyModel {
    /// The known tokens, indexed by token id.
    pub tokens: Seq<Seq<char>>,
    /// Each ticker symbol to its token id.
    pub ticker_ids: Map<Seq<char>, TokenId>,
    /// Each ticker symbol token id to its ticker symbol.
    pub id_tickers: Map<TokenId, Seq<char>>,
    /// Each ticker symbol token id to the token id sequences of its company names.
    pub sequences: Map<TickerSymbolTokenId, Seq<Seq<TokenId>>>,
    /// Each company name token id to the ticker symbol token ids whose names hold it.
    pub reverse: Map<TokenId, Seq<TickerSymbolTokenId>>,
}

/// One entry of a company symbol list, by its views.
pub type EntryView = (Seq<char>, Option<Seq<char>>, Seq<Seq<char>>);

/// The view of one company symbol list entry.
pub open spec fn entry_view(e: (TickerSymbol, Option<String>, Vec<String>)) -> EntryView {
    (
        e.0@,
        match e.1 {
            Some(n) => Some(n@),
            None => None,
        },
        string_views(e.2@),
    )
}

/// The view of a company symbol list.
pub open spec fn list_view(list: Seq<(TickerSymbol, Option<String>, Vec<String>)>) -> Seq<EntryView> {
    list.map_values(|e: (TickerSymbol, Option<String>, Vec<String>)| entry_view(e))
}

/// The tokens after adding `t`, and the id of `t`.
pub open spec fn upsert_one(tokens: Seq<Seq<char>>, t: Seq<char>) -> (Seq<Seq<char>>, TokenId) {
    if tokens.contains(t) {
        (tokens, tokens.index_of(t) as TokenId)
    } else {
        (tokens.push(t), tokens.len() as TokenId)
    }
}

/// The tokens after adding each of `ts` in order, and their ids.
pub open spec fn upsert_all(tokens: Seq<Seq<char>>, ts: Seq<Seq<char>>) -> (Seq<Seq<char>>, Seq<TokenId>)
    decreases ts.len(),
{
    if ts.len() == 0 {
        (tokens, Seq::empty())
    } else {
        let (tokens1, ids1) = upsert_all(tokens, ts.drop_last());
        let (tokens2, id) = upsert_one(tokens1, ts.last());
        (tokens2, ids1.push(id))
    }
}

/// The state after binding `ticker` to each of its tokens in order.
pub open spec fn bind_ticker_tokens(m: CompanyModel, ticker: Seq<char>, ts: Seq<Seq<char>>) -> CompanyModel
    decreases ts.len(),
{
    if ts.len() == 0 {
        m
    } else {
        let m1 = bind_ticker_tokens(m, ticker, ts.drop_last());
        let (tokens, id) = upsert_one(m1.tokens, ts.last());
        CompanyModel {
            tokens,
            ticker_ids: m1.ticker_ids.insert(ticker, id),
            id_tickers: m1.id_tickers.insert(id, ticker),
            ..m1
        }
    }
}

/// The reverse map after recording `ticker_id` under each of `ids`.
pub open spec fn add_reverse(
    reverse: Map<TokenId, Seq<TickerSymbolTokenId>>,
    ids: Seq<TokenId>,
    ticker_id: TickerSymbolTokenId,
) -> Map<TokenId, Seq<TickerSymbolTokenId>>
    decreases ids.len(),
{
    if ids.len() == 0 {
        reverse
    } else {
        let r = add_reverse(reverse, ids.drop_last(), ticker_id);
        r.insert(ids.last(), seq_or_empty(r, ids.last()).push(ticker_id))
    }
}

/// The value under `k`, or the empty sequence.
pub open spec fn seq_or_empty<V>(m: Map<TokenId, Seq<V>>, k: TokenId) -> Seq<V> {
    if m.contains_key(k) {
        m[k]
    } else {
        Seq::empty()
    }
}

/// The state after adding the tokens of each company name in order, and each name's ids.
pub open spec fn ingest_names(
    m: CompanyModel,
    names: Seq<Seq<char>>,
    ticker_id: TickerSymbolTokenId,
    text_doc_tokenizer: Tokenizer,
) -> (CompanyModel, Seq<Seq<TokenId>>)
    decreases names.len(),
{
    if names.len() == 0 {
        (m, Seq::empty())
    } else {
        let (m1, all) = ingest_names(m, names.drop_last(), ticker_id, text_doc_tokenizer);
        let (tokens, ids) = upsert_all(
            m1.tokens,
            text_doc_tokenizer.spec_tokenize(uppercase_chars(names.last())),
        );
        (
            CompanyModel { tokens, reverse: add_reverse(m1.reverse, ids, ticker_id), ..m1 },
            all.push(ids),
        )
    }
}

/// The names of an entry: the primary name, if any, then the alternate names.
pub open spec fn entry_names(e: EntryView) -> Seq<Seq<char>> {
    match e.1 {
        Some(n) => seq![n] + e.2,
        None => e.2,
    }
}

/// The state after ingesting one entry, or `None` where its ticker symbol has no token id.
pub open spec fn ingest_entry(
    m: CompanyModel,
    e: EntryView,
    ticker_symbol_tokenizer: Tokenizer,
    text_doc_tokenizer: Tokenizer,
) -> Option<CompanyModel> {
    let m1 = bind_ticker_tokens(m, e.0, ticker_symbol_tokenizer.spec_tokenize(e.0));
    if !m1.ticker_ids.contains_key(e.0) {
        None
    } else {
        let ticker_id = m1.ticker_ids[e.0];
        let (m2, all) = ingest_names(m1, entry_names(e), ticker_id, text_doc_tokenizer);
        Some(
            CompanyModel {
                sequences: m2.sequences.insert(ticker_id, seq_or_empty(m2.sequences, ticker_id) + all),
                ..m2
            },
        )
    }
}

/// The state after ingesting the entries in order, or `None` at the first entry whose ticker
/// symbol has no token id.
pub open spec fn ingest_list(
    m: CompanyModel,
    entries: Seq<EntryView>,
    ticker_symbol_tokenizer: Tokenizer,
    text_doc_tokenizer: Tokenizer,
) -> Option<CompanyModel>
    decreases entries.len(),
{
    if entries.len() == 0 {
        Some(m)
    } else {
        match ingest_list(m, entries.drop_last(), ticker_symbol_tokenizer, text_doc_tokenizer) {
            Some(m1) => ingest_entry(m1, entries.last(), ticker_symbol_tokenizer, text_doc_tokenizer),
            None => None,
        }
    }
}

/// The state of a fresh mapper before ingestion.
pub open spec fn empty_model() -> CompanyModel {
    CompanyModel {
        tokens: Seq::empty(),
        ticker_ids: Map::empty(),
        id_tickers: Map::empty(),
        sequences: Map::empty(),
        reverse: Map::empty(),
    }
}

/// Maps ticker symbols and company names to token ids, and token ids back to companies.
pub struct CompanyTokenMapper {
    pub token_mapper: TokenMapper,
    pub ticker_symbol_tokenizer: Tokenizer,
    pub text_doc_tokenizer: Tokenizer,
    pub ticker_symbol_map: StringHashMap<TickerSymbolTokenId>,
    pub reverse_ticker_symbol_map: HashMap<TokenId, TickerSymbol>,
    pub company_token_sequences_map: HashMap<TickerSymbolTokenId, Vec<Vec<TokenId>>>,
    pub company_reverse_token_map: HashMap<TokenId, Vec<TickerSymbolTokenId>>,
}

/// The views of nested token id vectors.
pub open spec fn nested_views(v: Seq<Vec<TokenId>>) -> Seq<Seq<TokenId>> {
    v.map_values(|s: Vec<TokenId>| s@)
}

impl CompanyTokenMapper {
    /// The abstract state of the mapper.
    pub open spec fn model(&self) -> CompanyModel {
        CompanyModel {
            tokens: self.token_mapper.tokens(),
            ticker_ids: self.ticker_symbol_map@,
            id_tickers: self.reverse_ticker_symbol_map@.map_values(|t: TickerSymbol| t@),
            sequences: self.company_token_sequences_map@.map_values(
                |v: Vec<Vec<TokenId>>| nested_views(v@),
            ),
            reverse: self.company_reverse_token_map@.map_values(|v: Vec<TickerSymbolTokenId>| v@),
        }
    }

    /// Builds a mapper from a company symbol list.
    ///
    /// Fails with a parser error at the first entry whose ticker symbol yields no token and was
    /// not bound by an earlier entry.
    pub fn new(company_symbol_list: &CompanySymbolList, case_sensitive: bool) -> (mapper: Result<
        Self,
        Error,
    >)
        ensures
            match ingest_list(
                empty_model(),
                list_view(company_symbol_list@),
                Tokenizer::ticker_symbol_parser_spec(),
                Tokenizer::text_doc_parser_spec(case_sensitive),
            ) {
                Some(m) => mapper matches Ok(mapper) && mapper.model() == m
                    && mapper.ticker_symbol_tokenizer == Tokenizer::ticker_symbol_parser_spec()
                    && mapper.text_doc_tokenizer == Tokenizer::text_doc_parser_spec(case_sensitive),
                None => mapper matches Err(Error::ParserError(_)),
            },
    {
        let token_mapper = TokenMapper::new();
        let ticker_symbol_tokenizer = Tokenizer::ticker_symbol_parser();
        let text_doc_tokenizer = Tokenizer::text_doc_parser(case_sensitive);
        let mut instance = CompanyTokenMapper {
            token_mapper,
            ticker_symbol_tokenizer,
            text_doc_tokenizer,
            ticker_symbol_map: StringHashMap::with_capacity(company_symbol_list.len()),
            reverse_ticker_symbol_map: HashMap::with_capacity(company_symbol_list.len()),
            company_token_sequences_map: HashMap::with_capacity(company_symbol_list.len()),
            company_reverse_token_map: HashMap::new(),
        };
        assert(instance.model() =~= empty_model()) by {
            assert(instance.model().id_tickers =~= Map::empty());
            assert(instance.model().sequences =~= Map::empty());
            assert(instance.model().reverse =~= Map::empty());
        }
        match instance.ingest_company_tokens(company_symbol_list) {
            Ok(()) => Ok(instance),
            Err(e) => Err(e),
        }
    }

    /// Clears the ticker symbol maps and company token maps (the token mapper is kept).
    fn clear(&mut self)
        ensures
            final(self).token_mapper == old(self).token_mapper,
            final(self).ticker_symbol_tokenizer == old(self).ticker_symbol_tokenizer,
            final(self).text_doc_tokenizer == old(self).text_doc_tokenizer,
            final(self).model() == (CompanyModel { tokens: old(self).model().tokens, ..empty_model() }),
    {
        self.company_token_sequences_map.clear();
        self.company_reverse_token_map.clear();
        self.ticker_symbol_map.clear();
        self.reverse_ticker_symbol_map.clear();
        assert(self.model().id_tickers =~= Map::empty());
        assert(self.model().sequences =~= Map::empty());
        assert(self.model().reverse =~= Map::empty());
    }

    /// Ingests the company symbol list: see `ingest_list`.
    fn ingest_company_tokens(&mut self, company_symbol_list: &CompanySymbolList) -> (result: Result<
        (),
        Error,
    >)
        ensures
            final(self).ticker_symbol_tokenizer == old(self).ticker_symbol_tokenizer,
            final(self).text_doc_tokenizer == old(self).text_doc_tokenizer,
            match ingest_list(
                CompanyModel { tokens: old(self).model().tokens, ..empty_model() },
                list_view(company_symbol_list@),
                old(self).ticker_symbol_tokenizer,
                old(self).text_doc_tokenizer,
            ) {
                Some(m) => result is Ok && final(self).model() == m,
                None => result matches Err(Error::ParserError(_)),
            },
    {
        self.clear();
        let ghost start = self.model();
        let ghost entries = list_view(company_symbol_list@);
        let mut i: usize = 0;
        while i < company_symbol_list.len()
            invariant
                i <= company_symbol_list@.len(),
                entries == list_view(company_symbol_list@),
                start == (CompanyModel { tokens: old(self).model().tokens, ..empty_model() }),
                self.ticker_symbol_tokenizer == old(self).ticker_symbol_tokenizer,
                self.text_doc_tokenizer == old(self).text_doc_tokenizer,
                ingest_list(
                    start,
                    entries.take(i as int),
                    self.ticker_symbol_tokenizer,
                    self.text_doc_tokenizer,
                ) == Some(self.model()),
            decreases company_symbol_list@.len() - i,
        {
            assert(entries.take(i + 1).drop_last() =~= entries.take(i as int));
            assert(entries.take(i + 1).last() == entries[i as int]);
            let entry = &company_symbol_list[i];
            assert(entry_view(*entry) == entries[i as int]);
            let ghost before = self.model();
            match self.ingest_entry(entry) {
                Ok(()) => {},
                Err(e) => {
                    proof {
                        assert(ingest_entry(
                            before,
                            entries[i as int],
                            self.ticker_symbol_tokenizer,
                            self.text_doc_tokenizer,
                        ) is None);
                        assert(ingest_list(
                            start,
                            entries.take(i + 1),
                            self.ticker_symbol_tokenizer,
                            self.text_doc_tokenizer,
                        ) is None);
                        lemma_ingest_list_none_extends(
                            start,
                            entries,
                            i as int + 1,
                            self.ticker_symbol_tokenizer,
                            self.text_doc_tokenizer,
                        );
                    }
                    return Err(e);
                },
            }
            i = i + 1;
        }
        assert(entries.take(company_symbol_list@.len() as int) =~= entries);
        Ok(())
    }

    /// Ingests one company symbol list entry: see `ingest_entry`.
    fn ingest_entry(&mut self, entry: &(TickerSymbol, Option<String>, Vec<String>)) -> (result:
        Result<(), Error>)
        ensures
            final(self).ticker_symbol_tokenizer == old(self).ticker_symbol_tokenizer,
            final(self).text_doc_tokenizer == old(self).text_doc_tokenizer,
            match ingest_entry(
                old(self).model(),
                entry_view(*entry),
                old(self).ticker_symbol_tokenizer,
                old(self).text_doc_tokenizer,
            ) {
                Some(m) => result is Ok && final(self).model() == m,
                None => result matches Err(Error::ParserError(_)),
            },
    {
        let ticker_symbol = &entry.0;
        let ghost e = entry_view(*entry);
        let ticker_symbol_tokens = self.ticker_symbol_tokenizer.tokenize(ticker_symbol.as_str());
        self.bind_ticker_tokens(ticker_symbol, &ticker_symbol_tokens);
        let ticker_symbol_token_id = match self.ticker_symbol_map.get(ticker_symbol.as_str()) {
            Some(id) => *id,
            None => {
                return Err(Error::ParserError("Could not obtain token id".to_owned()));
            },
        };
        let ghost m1 = self.model();
        let mut all_company_name_token_ids: Vec<Vec<TokenId>> = Vec::new();
        let ghost names = entry_names(e);
        let alt_company_names = &entry.2;
        let mut done: usize = 0;
        if let Some(company_name) = &entry.1 {
            let ids = self.process_company_name_tokens(company_name.as_str());
            self.add_reverse_entries(&ids, ticker_symbol_token_id);
            all_company_name_token_ids.push(ids);
            done = 1;
            proof {
                assert(names.take(1).drop_last() =~= Seq::<Seq<char>>::empty());
                assert(names.take(1).last() == company_name@);
                assert(nested_views(all_company_name_token_ids@) =~= seq![ids@]);
                reveal_with_fuel(ingest_names, 2);
                assert(ingest_names(
                    m1,
                    names.take(1),
                    ticker_symbol_token_id,
                    self.text_doc_tokenizer,
                ) == (self.model(), nested_views(all_company_name_token_ids@)));
            }
        }
        assert(forall|k: int|
            0 <= k < alt_company_names@.len() ==> #[trigger] names[done + k]
                == alt_company_names@[k]@);
        assert(names.take(done as int).len() == done);
        assert(ingest_names(m1, names.take(done as int), ticker_symbol_token_id, self.text_doc_tokenizer)
            == (self.model(), nested_views(all_company_name_token_ids@))) by {
            if done == 0 {
                assert(nested_views(all_company_name_token_ids@) =~= Seq::<Seq<TokenId>>::empty());
            }
        }
        let mut j: usize = 0;
        while j < alt_company_names.len()
            invariant
                j <= alt_company_names@.len(),
                names == entry_names(e),
                e == entry_view(*entry),
                done == names.len() - alt_company_names@.len(),
                forall|k: int|
                    0 <= k < alt_company_names@.len() ==> #[trigger] names[done + k]
                        == alt_company_names@[k]@,
                self.ticker_symbol_tokenizer == old(self).ticker_symbol_tokenizer,
                self.text_doc_tokenizer == old(self).text_doc_tokenizer,
                ingest_names(
                    m1,
                    names.take(done + j),
                    ticker_symbol_token_id,
                    self.text_doc_tokenizer,
                ) == (self.model(), nested_views(all_company_name_token_ids@)),
            decreases alt_company_names@.len() - j,
        {
            assert(names.take(done + j + 1).drop_last() =~= names.take(done + j));
            assert(names.take(done + j + 1).last() == alt_company_names@[j as int]@);
            let ids = self.process_company_name_tokens(alt_company_names[j].as_str());
            self.add_reverse_entries(&ids, ticker_symbol_token_id);
            let ghost before = nested_views(all_company_name_token_ids@);
            all_company_name_token_ids.push(ids);
            assert(nested_views(all_company_name_token_ids@) =~= before.push(ids@));
            j = j + 1;
        }
        assert(names.take(names.len() as int) =~= names);
        let ghost m2 = self.model();
        let mut sequences = match self.company_token_sequences_map.remove(&ticker_symbol_token_id) {
            Some(v) => v,
            None => Vec::new(),
        };
        let ghost existing = nested_views(sequences@);
        assert(existing == seq_or_empty(m2.sequences, ticker_symbol_token_id));
        let mut k: usize = 0;
        while k < all_company_name_token_ids.len()
            invariant
                k <= all_company_name_token_ids@.len(),
                nested_views(sequences@) == existing + nested_views(
                    all_company_name_token_ids@,
                ).take(k as int),
            decreases all_company_name_token_ids@.len() - k,
        {
            let ghost before = nested_views(sequences@);
            sequences.push(all_company_name_token_ids[k].clone());
            assert(nested_views(all_company_name_token_ids@).take(k + 1) =~= nested_views(
                all_company_name_token_ids@,
            ).take(k as int).push(all_company_name_token_ids@[k as int]@));
            assert(nested_views(sequences@) =~= before.push(all_company_name_token_ids@[k as int]@));
            k = k + 1;
        }
        assert(nested_views(all_company_name_token_ids@).take(
            all_company_name_token_ids@.len() as int,
        ) =~= nested_views(all_company_name_token_ids@));
        self.company_token_sequences_map.insert(ticker_symbol_token_id, sequences);
        assert(self.model().sequences =~= m2.sequences.insert(
            ticker_symbol_token_id,
            seq_or_empty(m2.sequences, ticker_symbol_token_id) + nested_views(
                all_company_name_token_ids@,
            ),
        ));
        Ok(())
    }

    /// Binds `ticker_symbol` to the id of each of its tokens in order.
    fn bind_ticker_tokens(&mut self, ticker_symbol: &TickerSymbol, tokens: &Vec<String>)
        ensures
            final(self).ticker_symbol_tokenizer == old(self).ticker_symbol_tokenizer,
            final(self).text_doc_tokenizer == old(self).text_doc_tokenizer,
            final(self).model() == bind_ticker_tokens(
                old(self).model(),
                ticker_symbol@,
                string_views(tokens@),
            ),
    {
        let ghost views = string_views(tokens@);
        let mut i: usize = 0;
        while i < tokens.len()
            invariant
                i <= tokens@.len(),
                views == string_views(tokens@),
                self.ticker_symbol_tokenizer == old(self).ticker_symbol_tokenizer,
                self.text_doc_tokenizer == old(self).text_doc_tokenizer,
                self.model() == bind_ticker_tokens(
                    old(self).model(),
                    ticker_symbol@,
                    views.take(i as int),
                ),
            decreases tokens@.len() - i,
        {
            assert(views.take(i + 1).drop_last() =~= views.take(i as int));
            assert(views.take(i + 1).last() == tokens@[i as int]@);
            let ghost before = self.model();
            let id = self.token_mapper.upsert_token(tokens[i].as_str());
            proof {
                lemma_upsert_one(before.tokens, tokens@[i as int]@, id, self.token_mapper.tokens());
            }
            self.ticker_symbol_map.insert(ticker_symbol.clone(), id);
            self.reverse_ticker_symbol_map.insert(id, ticker_symbol.clone());
            assert(self.model().id_tickers =~= before.id_tickers.insert(id, ticker_symbol@));
            i = i + 1;
        }
        assert(views.take(tokens@.len() as int) =~= views);
    }

    /// Records `ticker_symbol_token_id` under each of `ids`: see `add_reverse`.
    fn add_reverse_entries(&mut self, ids: &Vec<TokenId>, ticker_symbol_token_id: TickerSymbolTokenId)
        ensures
            final(self).ticker_symbol_tokenizer == old(self).ticker_symbol_tokenizer,
            final(self).text_doc_tokenizer == old(self).text_doc_tokenizer,
            final(self).model() == (CompanyModel {
                reverse: add_reverse(old(self).model().reverse, ids@, ticker_symbol_token_id),
                ..old(self).model()
            }),
    {
        let mut i: usize = 0;
        while i < ids.len()
            invariant
                i <= ids@.len(),
                self.ticker_symbol_tokenizer == old(self).ticker_symbol_tokenizer,
                self.text_doc_tokenizer == old(self).text_doc_tokenizer,
                self.model() == (CompanyModel {
                    reverse: add_reverse(
                        old(self).model().reverse,
                        ids@.take(i as int),
                        ticker_symbol_token_id,
                    ),
                    ..old(self).model()
                }),
            decreases ids@.len() - i,
        {
            assert(ids@.take(i + 1).drop_last() =~= ids@.take(i as int));
            assert(ids@.take(i + 1).last() == ids@[i as int]);
            let ghost before = self.model();
            let token_id = ids[i];
            let mut tickers = match self.company_reverse_token_map.remove(&token_id) {
                Some(v) => v,
                None => Vec::new(),
            };
            assert(tickers@ == seq_or_empty(before.reverse, token_id));
            tickers.push(ticker_symbol_token_id);
            self.company_reverse_token_map.insert(token_id, tickers);
            assert(self.model().reverse =~= before.reverse.insert(
                token_id,
                seq_or_empty(before.reverse, token_id).push(ticker_symbol_token_id),
            ));
            i = i + 1;
        }
        assert(ids@.take(ids@.len() as int) =~= ids@);
    }

    /// Upper-cases a company name, tokenizes it and returns the ids of its tokens, adding new
    /// tokens to the token mapper.
    fn process_company_name_tokens(&mut self, company_name: &str) -> (ids: Vec<TokenId>)
        ensures
            final(self).ticker_symbol_tokenizer == old(self).ticker_symbol_tokenizer,
            final(self).text_doc_tokenizer == old(self).text_doc_tokenizer,
            (final(self).model().tokens, ids@) == upsert_all(
                old(self).model().tokens,
                old(self).text_doc_tokenizer.spec_tokenize(uppercase_chars(company_name@)),
            ),
            final(self).model() == (CompanyModel {
                tokens: final(self).model().tokens,
                ..old(self).model()
            }),
    {
        let uppercased_name = str_to_uppercase(company_name);
        let company_name_tokens = self.text_doc_tokenizer.tokenize(uppercased_name.as_str());
        let ghost views = string_views(company_name_tokens@);
        let mut ids: Vec<TokenId> = Vec::new();
        let mut i: usize = 0;
        while i < company_name_tokens.len()
            invariant
                i <= company_name_tokens@.len(),
                views == string_views(company_name_tokens@),
                self.ticker_symbol_tokenizer == old(self).ticker_symbol_tokenizer,
                self.text_doc_tokenizer == old(self).text_doc_tokenizer,
                (self.model().tokens, ids@) == upsert_all(
                    old(self).model().tokens,
                    views.take(i as int),
                ),
                self.model() == (CompanyModel { tokens: self.model().tokens, ..old(self).model() }),
            decreases company_name_tokens@.len() - i,
        {
            assert(views.take(i + 1).drop_last() =~= views.take(i as int));
            assert(views.take(i + 1).last() == company_name_tokens@[i as int]@);
            let ghost before = self.model().tokens;
            let id = self.token_mapper.upsert_token(company_name_tokens[i].as_str());
            proof {
                lemma_upsert_one(before, company_name_tokens@[i as int]@, id, self.token_mapper.tokens());
            }
            ids.push(id);
            i = i + 1;
        }
        assert(views.take(company_name_tokens@.len() as int) =~= views);
        ids
    }

    /// The ticker symbol bound to `token_id`.
    ///
    /// Fails with a parser error where no ticker symbol is bound to it.
    pub fn get_ticker_symbol_by_token_id(&self, token_id: &TokenId) -> (ticker_symbol: Result<
        &TickerSymbol,
        Error,
    >)
        ensures
            match ticker_symbol {
                Ok(t) => self.model().id_tickers.contains_key(*token_id)
                    && t@ == self.model().id_tickers[*token_id],
                Err(e) => !self.model().id_tickers.contains_key(*token_id) && (e matches Error::ParserError(msg)
                    && msg@ == "Could not ticker from token token id: "@ + decimal_digits(*token_id)),
            },
    {
        match self.reverse_ticker_symbol_map.get(token_id) {
            Some(ticker_symbol) => Ok(ticker_symbol),
            None => {
                let mut msg = "Could not ticker from token token id: ".to_owned();
                let digits = usize_to_string(*token_id);
                msg.append(digits.as_str());
                Err(Error::ParserError(msg))
            },
        }
    }

    /// The token id bound to `ticker_symbol`.
    ///
    /// Fails with a parser error where the ticker symbol is not bound.
    pub fn get_ticker_symbol_token_id(&self, ticker_symbol: &TickerSymbol) -> (token_id: Result<
        &TokenId,
        Error,
    >)
        ensures
            match token_id {
                Ok(id) => self.model().ticker_ids.contains_key(ticker_symbol@)
                    && *id == self.model().ticker_ids[ticker_symbol@],
                Err(e) => !self.model().ticker_ids.contains_key(ticker_symbol@) && (e matches Error::ParserError(msg)
                    && msg@ == "Could not obtain token id"@),
            },
    {
        match self.ticker_symbol_map.get(ticker_symbol.as_str()) {
            Some(token_id) => Ok(token_id),
            None => Err(Error::ParserError("Could not obtain token id".to_owned())),
        }
    }

    /// The length of the token sequence `company_sequence_idx` of the company with ticker
    /// symbol token id `ticker_symbol_token_id`, if both exist.
    pub fn get_company_token_sequence_max_length(
        &self,
        ticker_symbol_token_id: &TickerSymbolTokenId,
        company_sequence_idx: CompanySequenceIndex,
    ) -> (length: Option<usize>)
        ensures
            length == company_sequence_length(
                self.model().sequences,
                *ticker_symbol_token_id,
                company_sequence_idx,
            ),
    {
        match self.company_token_sequences_map.get(ticker_symbol_token_id) {
            Some(sequences) => {
                if company_sequence_idx < sequences.len() {
                    Some(sequences[company_sequence_idx].len())
                } else {
                    None
                }
            },
            None => None,
        }
    }
}

/// The length of a company's token sequence, if both the company and the sequence exist.
pub open spec fn company_sequence_length(
    sequences: Map<TickerSymbolTokenId, Seq<Seq<TokenId>>>,
    ticker_symbol_token_id: TickerSymbolTokenId,
    company_sequence_idx: CompanySequenceIndex,
) -> Option<usize> {
    if sequences.contains_key(ticker_symbol_token_id) && company_sequence_idx
        < sequences[ticker_symbol_token_id].len() {
        Some(sequences[ticker_symbol_token_id][company_sequence_idx as int].len() as usize)
    } else {
        None
    }
}

/// An upsert on the token mapper follows `upsert_one`.
proof fn lemma_upsert_one(before: Seq<Seq<char>>, t: Seq<char>, id: TokenId, after: Seq<Seq<char>>)
    requires
        after == if before.contains(t) {
            before
        } else {
            before.push(t)
        },
        before.contains(t) ==> Some(id) == position_in(before, t),
        !before.contains(t) ==> id == before.len(),
    ensures
        upsert_one(before, t) == (after, id),
{
}

/// Once ingestion fails it stays failed.
proof fn lemma_ingest_list_none_extends(
    m: CompanyModel,
    entries: Seq<EntryView>,
    i: int,
    ticker_symbol_tokenizer: Tokenizer,
    text_doc_tokenizer: Tokenizer,
)
    requires
        0 <= i <= entries.len(),
        ingest_list(m, entries.take(i), ticker_symbol_tokenizer, text_doc_tokenizer) is None,
    ensures
        ingest_list(m, entries, ticker_symbol_tokenizer, text_doc_tokenizer) is None,
    decreases entries.len() - i,
{
    if i < entries.len() {
        assert(entries.take(i + 1).drop_last() =~= entries.take(i));
        lemma_ingest_list_none_extends(m, entries, i + 1, ticker_symbol_tokenizer, text_doc_tokenizer);
    } else {
        assert(entries.take(i) =~= entries);
    }
}

/// Whether every bound ticker symbol's token id names a ticker symbol.
pub open spec fn ids_named(m: CompanyModel) -> bool {
    forall|t: Seq<char>| #[trigger] m.ticker_ids.contains_key(t) ==> m.id_tickers.contains_key(m.ticker_ids[t])
}

/// Whether `ticker` has a token id that names a ticker symbol and holds company token sequences.
pub open spec fn ticker_bound(m: CompanyModel, ticker: Seq<char>) -> bool {
    &&& m.ticker_ids.contains_key(ticker)
    &&& m.id_tickers.contains_key(m.ticker_ids[ticker])
    &&& m.sequences.contains_key(m.ticker_ids[ticker])
}

/// Binding tokens to a ticker symbol leaves the other ticker symbols, the sequences and the
/// named ids in place.
proof fn lemma_bind_keeps(m: CompanyModel, ticker: Seq<char>, ts: Seq<Seq<char>>)
    requires
        ids_named(m),
    ensures
        bind_ticker_tokens(m, ticker, ts).sequences == m.sequences,
        forall|k: TokenId| #[trigger] m.id_tickers.contains_key(k) ==> bind_ticker_tokens(m, ticker, ts).id_tickers.contains_key(k),
        forall|t: Seq<char>|
            t != ticker ==> (#[trigger] bind_ticker_tokens(m, ticker, ts).ticker_ids.contains_key(t)
                == m.ticker_ids.contains_key(t) && bind_ticker_tokens(m, ticker, ts).ticker_ids[t]
                == m.ticker_ids[t]),
        ids_named(bind_ticker_tokens(m, ticker, ts)),
    decreases ts.len(),
{
    if ts.len() > 0 {
        lemma_bind_keeps(m, ticker, ts.drop_last());
        let m1 = bind_ticker_tokens(m, ticker, ts.drop_last());
        let m2 = bind_ticker_tokens(m, ticker, ts);
        assert forall|t: Seq<char>| #[trigger] m2.ticker_ids.contains_key(t) implies m2.id_tickers.contains_key(m2.ticker_ids[t]) by {
            if t != ticker {
                assert(m1.ticker_ids.contains_key(t));
            }
        }
    }
}

/// Adding the tokens of company names leaves the ticker symbol bindings and sequences in place.
proof fn lemma_ingest_names_keeps(m: CompanyModel, names: Seq<Seq<char>>, ticker_id: TickerSymbolTokenId, text_doc_tokenizer: Tokenizer)
    ensures
        ingest_names(m, names, ticker_id, text_doc_tokenizer).0.ticker_ids == m.ticker_ids,
        ingest_names(m, names, ticker_id, text_doc_tokenizer).0.id_tickers == m.id_tickers,
        ingest_names(m, names, ticker_id, text_doc_tokenizer).0.sequences == m.sequences,
    decreases names.len(),
{
    if names.len() > 0 {
        lemma_ingest_names_keeps(m, names.drop_last(), ticker_id, text_doc_tokenizer);
    }
}

/// Ingesting an entry binds its ticker symbol and keeps the other ticker symbols bound.
proof fn lemma_ingest_entry_binds(m: CompanyModel, e: EntryView, ticker_symbol_tokenizer: Tokenizer, text_doc_tokenizer: Tokenizer)
    requires
        ids_named(m),
        ingest_entry(m, e, ticker_symbol_tokenizer, text_doc_tokenizer) is Some,
    ensures
        ids_named(ingest_entry(m, e, ticker_symbol_tokenizer, text_doc_tokenizer)->0),
        ticker_bound(ingest_entry(m, e, ticker_symbol_tokenizer, text_doc_tokenizer)->0, e.0),
        forall|t: Seq<char>|
            ticker_bound(m, t) ==> #[trigger] ticker_bound(
                ingest_entry(m, e, ticker_symbol_tokenizer, text_doc_tokenizer)->0,
                t,
            ),
{
    let ts = ticker_symbol_tokenizer.spec_tokenize(e.0);
    lemma_bind_keeps(m, e.0, ts);
    let m1 = bind_ticker_tokens(m, e.0, ts);
    let ticker_id = m1.ticker_ids[e.0];
    lemma_ingest_names_keeps(m1, entry_names(e), ticker_id, text_doc_tokenizer);
    let out = ingest_entry(m, e, ticker_symbol_tokenizer, text_doc_tokenizer)->0;
    assert(out.ticker_ids == m1.ticker_ids);
    assert(out.id_tickers == m1.id_tickers);
    assert forall|t: Seq<char>| ticker_bound(m, t) implies #[trigger] ticker_bound(out, t) by {
        if t != e.0 {
            assert(m1.ticker_ids.contains_key(t));
            assert(m.id_tickers.contains_key(m.ticker_ids[t]));
        }
    }
}

/// Ingesting entries in order binds every ticker symbol ingested.
proof fn lemma_ingest_list_binds(m: CompanyModel, entries: Seq<EntryView>, ticker_symbol_tokenizer: Tokenizer, text_doc_tokenizer: Tokenizer)
    requires
        ids_named(m),
        ingest_list(m, entries, ticker_symbol_tokenizer, text_doc_tokenizer) is Some,
    ensures
        ids_named(ingest_list(m, entries, ticker_symbol_tokenizer, text_doc_tokenizer)->0),
        forall|i: int|
            0 <= i < entries.len() ==> ticker_bound(
                ingest_list(m, entries, ticker_symbol_tokenizer, text_doc_tokenizer)->0,
                #[trigger] entries[i].0,
            ),
    decreases entries.len(),
{
    if entries.len() > 0 {
        let p = entries.drop_last();
        lemma_ingest_list_binds(m, p, ticker_symbol_tokenizer, text_doc_tokenizer);
        let m1 = ingest_list(m, p, ticker_symbol_tokenizer, text_doc_tokenizer)->0;
        lemma_ingest_entry_binds(m1, entries.last(), ticker_symbol_tokenizer, text_doc_tokenizer);
        let out = ingest_list(m, entries, ticker_symbol_tokenizer, text_doc_tokenizer)->0;
        assert forall|i: int| 0 <= i < entries.len() implies ticker_bound(out, #[trigger] entries[i].0) by {
            if i < entries.len() - 1 {
                assert(p[i] == entries[i]);
                assert(ticker_bound(m1, p[i].0));
            }
        }
    }
}

/// Once a company token mapper is built over a company symbol list, every ticker symbol of the
/// list has a token id (`get_ticker_symbol_token_id` succeeds), that id names a ticker symbol
/// (`get_ticker_symbol_by_token_id` succeeds) and holds the company's token sequences.
pub proof fn law_built_mapper_binds_every_ticker_symbol(entries: Seq<EntryView>, case_sensitive: bool)
    ensures
        match ingest_list(
            empty_model(),
            entries,
            Tokenizer::ticker_symbol_parser_spec(),
            Tokenizer::text_doc_parser_spec(case_sensitive),
        ) {
            Some(m) => forall|i: int| 0 <= i < entries.len() ==> ticker_bound(m, #[trigger] entries[i].0),
            None => true,
        },
{
    if ingest_list(
        empty_model(),
        entries,
        Tokenizer::ticker_symbol_parser_spec(),
        Tokenizer::text_doc_parser_spec(case_sensitive),
    ) is Some {
        lemma_ingest_list_binds(
            empty_model(),
            entries,
            Tokenizer::ticker_symbol_parser_spec(),
            Tokenizer::text_doc_parser_spec(case_sensitive),
        );
    }
}

/// Whether every token id that holds company token sequences names a ticker symbol, and every
/// named ticker symbol has a token id.
pub open spec fn model_consistent(m: CompanyModel) -> bool {
    &&& forall|id: TokenId| #[trigger] m.sequences.contains_key(id) ==> m.id_tickers.contains_key(id)
    &&& forall|id: TokenId| #[trigger]
        m.id_tickers.contains_key(id) ==> m.ticker_ids.contains_key(m.id_tickers[id])
}

/// Binding tokens to a ticker symbol keeps the state consistent.
proof fn lemma_bind_consistent(m: CompanyModel, ticker: Seq<char>, ts: Seq<Seq<char>>)
    requires
        model_consistent(m),
    ensures
        model_consistent(bind_ticker_tokens(m, ticker, ts)),
        bind_ticker_tokens(m, ticker, ts).sequences == m.sequences,
    decreases ts.len(),
{
    if ts.len() > 0 {
        lemma_bind_consistent(m, ticker, ts.drop_last());
        let m1 = bind_ticker_tokens(m, ticker, ts.drop_last());
        let m2 = bind_ticker_tokens(m, ticker, ts);
        let (tokens, new_id) = upsert_one(m1.tokens, ts.last());
        assert(m2.id_tickers == m1.id_tickers.insert(new_id, ticker));
        assert(m2.ticker_ids == m1.ticker_ids.insert(ticker, new_id));
        assert forall|id: TokenId| #[trigger] m2.id_tickers.contains_key(id) implies m2.ticker_ids.contains_key(
            m2.id_tickers[id],
        ) by {
            if id != new_id {
                assert(m1.id_tickers.contains_key(id));
            }
        }
        assert forall|id: TokenId| #[trigger] m2.sequences.contains_key(id) implies m2.id_tickers.contains_key(id) by {
            assert(m1.id_tickers.contains_key(id));
        }
    }
}

/// Ingesting entries in order keeps the state consistent.
proof fn lemma_ingest_list_consistent(
    m: CompanyModel,
    entries: Seq<EntryView>,
    ticker_symbol_tokenizer: Tokenizer,
    text_doc_tokenizer: Tokenizer,
)
    requires
        ids_named(m),
        model_consistent(m),
        ingest_list(m, entries, ticker_symbol_tokenizer, text_doc_tokenizer) is Some,
    ensures
        model_consistent(ingest_list(m, entries, ticker_symbol_tokenizer, text_doc_tokenizer)->0),
    decreases entries.len(),
{
    if entries.len() > 0 {
        let p = entries.drop_last();
        let e = entries.last();
        lemma_ingest_list_consistent(m, p, ticker_symbol_tokenizer, text_doc_tokenizer);
        lemma_ingest_list_binds(m, p, ticker_symbol_tokenizer, text_doc_tokenizer);
        let m1 = ingest_list(m, p, ticker_symbol_tokenizer, text_doc_tokenizer)->0;
        let ts = ticker_symbol_tokenizer.spec_tokenize(e.0);
        lemma_bind_consistent(m1, e.0, ts);
        lemma_bind_keeps(m1, e.0, ts);
        let b = bind_ticker_tokens(m1, e.0, ts);
        let ticker_id = b.ticker_ids[e.0];
        lemma_ingest_names_keeps(b, entry_names(e), ticker_id, text_doc_tokenizer);
        let out = ingest_list(m, entries, ticker_symbol_tokenizer, text_doc_tokenizer)->0;
        assert(out.id_tickers == b.id_tickers);
        assert(out.ticker_ids == b.ticker_ids);
        assert(b.id_tickers.contains_key(ticker_id));
        assert forall|id: TokenId| #[trigger] out.sequences.contains_key(id) implies out.id_tickers.contains_key(id) by {
            if id != ticker_id {
                assert(b.sequences.contains_key(id));
            }
        }
    }
}

/// A state built over a company symbol list is consistent.
pub proof fn lemma_built_model_consistent(entries: Seq<EntryView>, case_sensitive: bool)
    ensures
        ingest_list(
            empty_model(),
            entries,
            Tokenizer::ticker_symbol_parser_spec(),
            Tokenizer::text_doc_parser_spec(case_sensitive),
        ) matches Some(m) ==> model_consistent(m),
{
    if ingest_list(
        empty_model(),
        entries,
        Tokenizer::ticker_symbol_parser_spec(),
        Tokenizer::text_doc_parser_spec(case_sensitive),
    ) is Some {
        lemma_ingest_list_consistent(
            empty_model(),
            entries,
            Tokenizer::ticker_symbol_parser_spec(),
            Tokenizer::text_doc_parser_spec(case_sensitive),
        );
    }
}

/// Whether every token id of every company token sequence has, in the reverse map, the ticker
/// symbol token id that holds the sequence.
pub open spec fn sequences_reversed(m: CompanyModel) -> bool {
    forall|t: TickerSymbolTokenId, j: int, k: int|
        m.sequences.contains_key(t) && 0 <= j < m.sequences[t].len() && 0 <= k < m.sequences[t][j].len()
            ==> m.reverse.contains_key(#[trigger] m.sequences[t][j][k]) && m.reverse[m.sequences[t][j][k]].contains(
            t,
        )
}

/// Whether every entry of reverse map `a` is kept in reverse map `b`.
pub open spec fn reverse_kept(a: Map<TokenId, Seq<TickerSymbolTokenId>>, b: Map<TokenId, Seq<TickerSymbolTokenId>>) -> bool {
    forall|id: TokenId, x: TickerSymbolTokenId|
        #![trigger a[id].contains(x)]
        a.contains_key(id) && a[id].contains(x) ==> b.contains_key(id) && b[id].contains(x)
}

/// Recording a ticker symbol token id under token ids keeps what was recorded and records it
/// under each of them.
proof fn lemma_add_reverse(reverse: Map<TokenId, Seq<TickerSymbolTokenId>>, ids: Seq<TokenId>, ticker_id: TickerSymbolTokenId)
    ensures
        reverse_kept(reverse, add_reverse(reverse, ids, ticker_id)),
        forall|k: int|
            0 <= k < ids.len() ==> add_reverse(reverse, ids, ticker_id).contains_key(#[trigger] ids[k])
                && add_reverse(reverse, ids, ticker_id)[ids[k]].contains(ticker_id),
    decreases ids.len(),
{
    if ids.len() > 0 {
        lemma_add_reverse(reverse, ids.drop_last(), ticker_id);
        let r = add_reverse(reverse, ids.drop_last(), ticker_id);
        let last = ids.last();
        let out = add_reverse(reverse, ids, ticker_id);
        let pushed = seq_or_empty(r, last).push(ticker_id);
        assert(out == r.insert(last, pushed));
        assert(pushed[pushed.len() - 1] == ticker_id);
        assert(reverse_kept(r, out)) by {
            assert forall|id: TokenId, x: TickerSymbolTokenId| #![trigger r[id].contains(x)]
                r.contains_key(id) && r[id].contains(x) implies out.contains_key(id) && out[id].contains(x) by {
                if id == last {
                    let a = choose|a: int| 0 <= a < r[id].len() && r[id][a] == x;
                    assert(pushed[a] == x);
                }
            }
        }
        assert forall|id: TokenId, x: TickerSymbolTokenId| #![trigger reverse[id].contains(x)]
            reverse.contains_key(id) && reverse[id].contains(x) implies out.contains_key(id) && out[id].contains(x) by {
            assert(r.contains_key(id) && r[id].contains(x));
        }
        assert forall|k: int| 0 <= k < ids.len() implies out.contains_key(#[trigger] ids[k]) && out[ids[k]].contains(ticker_id) by {
            if k < ids.len() - 1 {
                assert(ids.drop_last()[k] == ids[k]);
                assert(r.contains_key(ids[k]) && r[ids[k]].contains(ticker_id));
            }
        }
    }
}

/// Adding the tokens of company names keeps the reverse map and records the ticker symbol token
/// id under every id of the names.
proof fn lemma_ingest_names_reversed(
    m: CompanyModel,
    names: Seq<Seq<char>>,
    ticker_id: TickerSymbolTokenId,
    text_doc_tokenizer: Tokenizer,
)
    ensures
        reverse_kept(m.reverse, ingest_names(m, names, ticker_id, text_doc_tokenizer).0.reverse),
        forall|j: int, k: int|
            0 <= j < ingest_names(m, names, ticker_id, text_doc_tokenizer).1.len() && 0 <= k < ingest_names(
                m,
                names,
                ticker_id,
                text_doc_tokenizer,
            ).1[j].len() ==> ingest_names(m, names, ticker_id, text_doc_tokenizer).0.reverse.contains_key(
                #[trigger] ingest_names(m, names, ticker_id, text_doc_tokenizer).1[j][k],
            ) && ingest_names(m, names, ticker_id, text_doc_tokenizer).0.reverse[ingest_names(
                m,
                names,
                ticker_id,
                text_doc_tokenizer,
            ).1[j][k]].contains(ticker_id),
    decreases names.len(),
{
    if names.len() > 0 {
        lemma_ingest_names_reversed(m, names.drop_last(), ticker_id, text_doc_tokenizer);
        let (m1, all) = ingest_names(m, names.drop_last(), ticker_id, text_doc_tokenizer);
        let (tokens, ids) = upsert_all(m1.tokens, text_doc_tokenizer.spec_tokenize(uppercase_chars(names.last())));
        lemma_add_reverse(m1.reverse, ids, ticker_id);
        let (m2, all2) = ingest_names(m, names, ticker_id, text_doc_tokenizer);
        assert(m2.reverse == add_reverse(m1.reverse, ids, ticker_id));
        assert(all2 == all.push(ids));
        assert forall|id: TokenId, x: TickerSymbolTokenId| #![trigger m.reverse[id].contains(x)]
            m.reverse.contains_key(id) && m.reverse[id].contains(x) implies m2.reverse.contains_key(id) && m2.reverse[id].contains(x) by {
            assert(m1.reverse.contains_key(id) && m1.reverse[id].contains(x));
        }
        assert forall|j: int, k: int| 0 <= j < all2.len() && 0 <= k < all2[j].len() implies m2.reverse.contains_key(
            #[trigger] all2[j][k],
        ) && m2.reverse[all2[j][k]].contains(ticker_id) by {
            if j < all.len() {
                assert(all2[j] == all[j]);
                assert(m1.reverse.contains_key(all[j][k]) && m1.reverse[all[j][k]].contains(ticker_id));
            } else {
                assert(all2[j] == ids);
                assert(ids[k] == all2[j][k]);
            }
        }
    }
}

/// Binding tokens to a ticker symbol leaves the reverse map and the sequences as they are.
proof fn lemma_bind_keeps_reverse(m: CompanyModel, ticker: Seq<char>, ts: Seq<Seq<char>>)
    ensures
        bind_ticker_tokens(m, ticker, ts).reverse == m.reverse,
        bind_ticker_tokens(m, ticker, ts).sequences == m.sequences,
    decreases ts.len(),
{
    if ts.len() > 0 {
        lemma_bind_keeps_reverse(m, ticker, ts.drop_last());
    }
}

/// Ingesting entries in order keeps every sequence's token ids recorded in the reverse map.
proof fn lemma_ingest_list_reversed(
    m: CompanyModel,
    entries: Seq<EntryView>,
    ticker_symbol_tokenizer: Tokenizer,
    text_doc_tokenizer: Tokenizer,
)
    requires
        sequences_reversed(m),
        ingest_list(m, entries, ticker_symbol_tokenizer, text_doc_tokenizer) is Some,
    ensures
        sequences_reversed(ingest_list(m, entries, ticker_symbol_tokenizer, text_doc_tokenizer)->0),
    decreases entries.len(),
{
    if entries.len() > 0 {
        let p = entries.drop_last();
        let e = entries.last();
        lemma_ingest_list_reversed(m, p, ticker_symbol_tokenizer, text_doc_tokenizer);
        let m0 = ingest_list(m, p, ticker_symbol_tokenizer, text_doc_tokenizer)->0;
        let ts = ticker_symbol_tokenizer.spec_tokenize(e.0);
        lemma_bind_keeps_reverse(m0, e.0, ts);
        let b = bind_ticker_tokens(m0, e.0, ts);
        let ticker_id = b.ticker_ids[e.0];
        lemma_ingest_names_keeps(b, entry_names(e), ticker_id, text_doc_tokenizer);
        lemma_ingest_names_reversed(b, entry_names(e), ticker_id, text_doc_tokenizer);
        let (m2, all) = ingest_names(b, entry_names(e), ticker_id, text_doc_tokenizer);
        let out = ingest_list(m, entries, ticker_symbol_tokenizer, text_doc_tokenizer)->0;
        let before = seq_or_empty(m2.sequences, ticker_id);
        assert(out.sequences == m2.sequences.insert(ticker_id, before + all));
        assert(out.reverse == m2.reverse);
        assert(m2.sequences == m0.sequences);
        assert forall|t: TickerSymbolTokenId, j: int, k: int|
            out.sequences.contains_key(t) && 0 <= j < out.sequences[t].len() && 0 <= k < out.sequences[t][j].len()
                implies out.reverse.contains_key(#[trigger] out.sequences[t][j][k]) && out.reverse[out.sequences[t][j][k]].contains(t) by {
            let id = out.sequences[t][j][k];
            if t != ticker_id {
                assert(out.sequences[t] == m0.sequences[t]);
                assert(m0.reverse.contains_key(m0.sequences[t][j][k]) && m0.reverse[m0.sequences[t][j][k]].contains(t));
                assert(m2.reverse.contains_key(id) && m2.reverse[id].contains(t));
            } else if j < before.len() {
                assert(out.sequences[t][j] == before[j]);
                assert(m0.sequences.contains_key(t));
                assert(before[j] == m0.sequences[t][j]);
                assert(m0.reverse.contains_key(m0.sequences[t][j][k]) && m0.reverse[m0.sequences[t][j][k]].contains(t));
                assert(m2.reverse.contains_key(id) && m2.reverse[id].contains(t));
            } else {
                assert(out.sequences[t][j] == all[j - before.len()]);
                assert(all[j - before.len()][k] == id);
                assert(m2.reverse.contains_key(all[j - before.len()][k]) && m2.reverse[all[j - before.len()][k]].contains(ticker_id));
            }
        }
    }
}

/// A company token mapper built over a company symbol list records, for every token id of every
/// company token sequence, the ticker symbol token id that holds the sequence in its reverse
/// map (`company_reverse_token_map`).
pub proof fn law_built_mapper_reverse_map_covers_sequences(entries: Seq<EntryView>, case_sensitive: bool)
    ensures
        ingest_list(
            empty_model(),
            entries,
            Tokenizer::ticker_symbol_parser_spec(),
            Tokenizer::text_doc_parser_spec(case_sensitive),
        ) matches Some(m) ==> sequences_reversed(m),
{
    if ingest_list(
        empty_model(),
        entries,
        Tokenizer::ticker_symbol_parser_spec(),
        Tokenizer::text_doc_parser_spec(case_sensitive),
    ) is Some {
        lemma_ingest_list_reversed(
            empty_model(),
            entries,
            Tokenizer::ticker_symbol_parser_spec(),
            Tokenizer::text_doc_parser_spec(case_sensitive),
        );
    }
}

/// Whether every ticker symbol that the state names is the ticker symbol of one of `entries`.
pub open spec fn names_listed(m: CompanyModel, entries: Seq<EntryView>) -> bool {
    forall|id: TokenId|
        #[trigger] m.id_tickers.contains_key(id) ==> exists|i: int|
            0 <= i < entries.len() && #[trigger] entries[i].0 == m.id_tickers[id]
}

/// Binding tokens to `ticker` names only `ticker` anew.
proof fn lemma_bind_names(m: CompanyModel, ticker: Seq<char>, ts: Seq<Seq<char>>)
    ensures
        forall|id: TokenId|
            #[trigger] bind_ticker_tokens(m, ticker, ts).id_tickers.contains_key(id) ==> bind_ticker_tokens(
                m,
                ticker,
                ts,
            ).id_tickers[id] == ticker || (m.id_tickers.contains_key(id) && bind_ticker_tokens(
                m,
                ticker,
                ts,
            ).id_tickers[id] == m.id_tickers[id]),
    decreases ts.len(),
{
    if ts.len() > 0 {
        lemma_bind_names(m, ticker, ts.drop_last());
        let m1 = bind_ticker_tokens(m, ticker, ts.drop_last());
        let m2 = bind_ticker_tokens(m, ticker, ts);
        let (tokens, new_id) = upsert_one(m1.tokens, ts.last());
        assert(m2.id_tickers == m1.id_tickers.insert(new_id, ticker));
        assert forall|id: TokenId| #[trigger] m2.id_tickers.contains_key(id) implies m2.id_tickers[id] == ticker
            || (m.id_tickers.contains_key(id) && m2.id_tickers[id] == m.id_tickers[id]) by {
            if id != new_id {
                assert(m1.id_tickers.contains_key(id));
            }
        }
    }
}

/// Ingesting the entries of a list names only the list's ticker symbols.
proof fn lemma_ingest_list_names(m: CompanyModel, entries: Seq<EntryView>, ticker_symbol_tokenizer: Tokenizer, text_doc_tokenizer: Tokenizer)
    requires
        m.id_tickers == Map::<TokenId, Seq<char>>::empty(),
        ingest_list(m, entries, ticker_symbol_tokenizer, text_doc_tokenizer) is Some,
    ensures
        names_listed(ingest_list(m, entries, ticker_symbol_tokenizer, text_doc_tokenizer)->0, entries),
    decreases entries.len(),
{
    if entries.len() > 0 {
        let p = entries.drop_last();
        let e = entries.last();
        lemma_ingest_list_names(m, p, ticker_symbol_tokenizer, text_doc_tokenizer);
        let m1 = ingest_list(m, p, ticker_symbol_tokenizer, text_doc_tokenizer)->0;
        let ts = ticker_symbol_tokenizer.spec_tokenize(e.0);
        lemma_bind_names(m1, e.0, ts);
        let b = bind_ticker_tokens(m1, e.0, ts);
        lemma_ingest_names_keeps(b, entry_names(e), b.ticker_ids[e.0], text_doc_tokenizer);
        let out = ingest_list(m, entries, ticker_symbol_tokenizer, text_doc_tokenizer)->0;
        assert(out.id_tickers == b.id_tickers);
        assert forall|id: TokenId| #[trigger] out.id_tickers.contains_key(id) implies exists|i: int|
            0 <= i < entries.len() && #[trigger] entries[i].0 == out.id_tickers[id] by {
            if out.id_tickers[id] == e.0 {
                assert(entries[entries.len() - 1].0 == out.id_tickers[id]);
            } else {
                assert(m1.id_tickers.contains_key(id));
                let i = choose|i: int| 0 <= i < p.len() && #[trigger] p[i].0 == m1.id_tickers[id];
                assert(entries[i] == p[i]);
            }
        }
    }
}

/// A mapper built over a company symbol list names only the list's ticker symbols: every
/// ticker symbol that `get_ticker_symbol_by_token_id` gives is one of the list.
pub proof fn law_built_mapper_names_only_listed_symbols(entries: Seq<EntryView>, case_sensitive: bool)
    ensures
        match ingest_list(
            empty_model(),
            entries,
            Tokenizer::ticker_symbol_parser_spec(),
            Tokenizer::text_doc_parser_spec(case_sensitive),
        ) {
            Some(m) => names_listed(m, entries),
            None => true,
        },
{
    if ingest_list(
        empty_model(),
        entries,
        Tokenizer::ticker_symbol_parser_spec(),
        Tokenizer::text_doc_parser_spec(case_sensitive),
    ) is Some {
        lemma_ingest_list_names(
            empty_model(),
            entries,
            Tokenizer::ticker_symbol_parser_spec(),
            Tokenizer::text_doc_parser_spec(case_sensitive),
        );
    }
}


/// Whether `longer` starts with `shorter`.
pub open spec fn extends(shorter: Seq<Seq<char>>, longer: Seq<Seq<char>>) -> bool {
    &&& shorter.len() <= longer.len()
    &&& forall|i: int| 0 <= i < shorter.len() ==> #[trigger] longer[i] == shorter[i]
}

/// The positions in `tokens` of the tokens `ts`.
pub open spec fn ids_in(tokens: Seq<Seq<char>>, ts: Seq<Seq<char>>) -> Seq<TokenId> {
    ts.map_values(|x: Seq<char>| tokens.index_of(x) as TokenId)
}

/// The ids, in `tokens`, of the tokens of company name `name`.
pub open spec fn name_ids(tokens: Seq<Seq<char>>, name: Seq<char>, text_doc_tokenizer: Tokenizer) -> Seq<TokenId> {
    ids_in(tokens, text_doc_tokenizer.spec_tokenize(uppercase_chars(name)))
}

/// The ids, in `tokens`, of company names, one sequence per name.
pub open spec fn names_ids(tokens: Seq<Seq<char>>, names: Seq<Seq<char>>, text_doc_tokenizer: Tokenizer) -> Seq<Seq<TokenId>> {
    names.map_values(|n: Seq<char>| name_ids(tokens, n, text_doc_tokenizer))
}

/// The ids, in `tokens`, of the names of an entry, one sequence per name.
pub open spec fn entry_name_ids(tokens: Seq<Seq<char>>, e: EntryView, text_doc_tokenizer: Tokenizer) -> Seq<Seq<TokenId>> {
    names_ids(tokens, entry_names(e), text_doc_tokenizer)
}

/// The company token sequences of ticker symbol token id `t`: for each entry, in list order,
/// whose ticker symbol has id `t` in `ticker_ids`, the ids in `tokens` of its names.
pub open spec fn listed_sequences(
    tokens: Seq<Seq<char>>,
    ticker_ids: Map<Seq<char>, TokenId>,
    entries: Seq<EntryView>,
    text_doc_tokenizer: Tokenizer,
    t: TickerSymbolTokenId,
) -> Seq<Seq<TokenId>>
    decreases entries.len(),
{
    if entries.len() == 0 {
        Seq::empty()
    } else {
        listed_sequences(tokens, ticker_ids, entries.drop_last(), text_doc_tokenizer, t) + if ticker_ids[entries.last().0]
            == t {
            entry_name_ids(tokens, entries.last(), text_doc_tokenizer)
        } else {
            Seq::empty()
        }
    }
}

/// In a sequence without repetitions that starts with `a`, an element of `a` is found where
/// `a` holds it.
proof fn lemma_index_of_extends(a: Seq<Seq<char>>, longer: Seq<Seq<char>>, k: int)
    requires
        extends(a, longer),
        longer.no_duplicates(),
        0 <= k < a.len(),
    ensures
        longer.index_of(a[k]) == k,
{
    assert(longer[k] == a[k]);
    assert(longer.contains(a[k]));
    let j = longer.index_of(a[k]);
    assert(longer[j] == a[k]);
}

/// Adding one token keeps the tokens free of repetitions, only appends, and gives the token's
/// position in every longer sequence without repetitions.
proof fn lemma_upsert_one_extends(tokens: Seq<Seq<char>>, t: Seq<char>)
    requires
        tokens.no_duplicates(),
    ensures
        upsert_one(tokens, t).0.no_duplicates(),
        extends(tokens, upsert_one(tokens, t).0),
        upsert_one(tokens, t).0.contains(t),
        forall|longer: Seq<Seq<char>>|
            extends(upsert_one(tokens, t).0, longer) && longer.no_duplicates() ==> #[trigger] longer.index_of(t)
                as TokenId == upsert_one(tokens, t).1,
{
    let (tokens2, id) = upsert_one(tokens, t);
    if tokens.contains(t) {
        let k = tokens.index_of(t);
        assert(tokens[k] == t);
        assert forall|longer: Seq<Seq<char>>| extends(tokens2, longer) && longer.no_duplicates() implies #[trigger] longer.index_of(t)
            as TokenId == id by {
            lemma_index_of_extends(tokens2, longer, k);
        }
    } else {
        assert(tokens2 == tokens.push(t));
        assert(tokens2[tokens.len() as int] == t);
        assert forall|a: int, b: int| 0 <= a < tokens2.len() && 0 <= b < tokens2.len() && a != b implies tokens2[a]
            != tokens2[b] by {
            if a < tokens.len() && b < tokens.len() {
                assert(tokens2[a] == tokens[a] && tokens2[b] == tokens[b]);
            } else if a < tokens.len() {
                assert(tokens2[a] == tokens[a]);
                assert(tokens.contains(tokens[a]));
            } else if b < tokens.len() {
                assert(tokens2[b] == tokens[b]);
                assert(tokens.contains(tokens[b]));
            }
        }
        assert forall|longer: Seq<Seq<char>>| extends(tokens2, longer) && longer.no_duplicates() implies #[trigger] longer.index_of(t)
            as TokenId == id by {
            lemma_index_of_extends(tokens2, longer, tokens.len() as int);
        }
    }
}

/// `extends` is transitive.
proof fn lemma_extends_trans(a: Seq<Seq<char>>, b: Seq<Seq<char>>, c: Seq<Seq<char>>)
    requires
        extends(a, b),
        extends(b, c),
    ensures
        extends(a, c),
{
    assert forall|i: int| 0 <= i < a.len() implies #[trigger] c[i] == a[i] by {
        assert(c[i] == b[i]);
    }
}

/// Adding tokens keeps the tokens free of repetitions, only appends, and gives the tokens'
/// positions in every longer sequence without repetitions.
proof fn lemma_upsert_all_extends(tokens: Seq<Seq<char>>, ts: Seq<Seq<char>>)
    requires
        tokens.no_duplicates(),
    ensures
        upsert_all(tokens, ts).0.no_duplicates(),
        extends(tokens, upsert_all(tokens, ts).0),
        forall|longer: Seq<Seq<char>>|
            extends(upsert_all(tokens, ts).0, longer) && longer.no_duplicates() ==> #[trigger] ids_in(longer, ts)
                == upsert_all(tokens, ts).1,
    decreases ts.len(),
{
    if ts.len() > 0 {
        let p = ts.drop_last();
        lemma_upsert_all_extends(tokens, p);
        let (tokens1, ids1) = upsert_all(tokens, p);
        lemma_upsert_one_extends(tokens1, ts.last());
        let (tokens2, id) = upsert_one(tokens1, ts.last());
        lemma_extends_trans(tokens, tokens1, tokens2);
        assert forall|longer: Seq<Seq<char>>| extends(tokens2, longer) && longer.no_duplicates() implies #[trigger] ids_in(longer, ts)
            == upsert_all(tokens, ts).1 by {
            lemma_extends_trans(tokens1, tokens2, longer);
            assert(ids_in(longer, p) == ids1);
            assert(longer.index_of(ts.last()) as TokenId == id);
            assert(ids_in(longer, ts) =~= ids1.push(id));
        }
    }
}

/// Adding the tokens of company names keeps the tokens free of repetitions, only appends, and
/// gives each name the ids of its tokens in every longer sequence without repetitions.
proof fn lemma_ingest_names_extends(
    m: CompanyModel,
    names: Seq<Seq<char>>,
    ticker_id: TickerSymbolTokenId,
    text_doc_tokenizer: Tokenizer,
)
    requires
        m.tokens.no_duplicates(),
    ensures
        ingest_names(m, names, ticker_id, text_doc_tokenizer).0.tokens.no_duplicates(),
        extends(m.tokens, ingest_names(m, names, ticker_id, text_doc_tokenizer).0.tokens),
        forall|longer: Seq<Seq<char>>|
            extends(ingest_names(m, names, ticker_id, text_doc_tokenizer).0.tokens, longer) && longer.no_duplicates()
                ==> #[trigger] names_ids(longer, names, text_doc_tokenizer) == ingest_names(
                m,
                names,
                ticker_id,
                text_doc_tokenizer,
            ).1,
    decreases names.len(),
{
    if names.len() > 0 {
        let p = names.drop_last();
        lemma_ingest_names_extends(m, p, ticker_id, text_doc_tokenizer);
        let (m1, all) = ingest_names(m, p, ticker_id, text_doc_tokenizer);
        let ts = text_doc_tokenizer.spec_tokenize(uppercase_chars(names.last()));
        lemma_upsert_all_extends(m1.tokens, ts);
        let (tokens2, ids) = upsert_all(m1.tokens, ts);
        lemma_extends_trans(m.tokens, m1.tokens, tokens2);
        assert forall|longer: Seq<Seq<char>>| extends(tokens2, longer) && longer.no_duplicates() implies #[trigger] names_ids(
            longer,
            names,
            text_doc_tokenizer,
        ) == ingest_names(m, names, ticker_id, text_doc_tokenizer).1 by {
            lemma_extends_trans(m1.tokens, tokens2, longer);
            assert(names_ids(longer, p, text_doc_tokenizer) == all);
            assert(ids_in(longer, ts) == ids);
            assert(names_ids(longer, names, text_doc_tokenizer) =~= all.push(ids));
        }
    }
}

/// Whether every bound ticker symbol's token id is the position of the last token of the
/// ticker symbol, and the tokens hold no repetition.
pub open spec fn ticker_ids_positioned(m: CompanyModel, ticker_symbol_tokenizer: Tokenizer) -> bool {
    &&& m.tokens.no_duplicates()
    &&& forall|s: Seq<char>|
        #[trigger] m.ticker_ids.contains_key(s) ==> ticker_symbol_tokenizer.spec_tokenize(s).len() > 0
            && m.tokens.contains(ticker_symbol_tokenizer.spec_tokenize(s).last()) && m.ticker_ids[s]
            == m.tokens.index_of(ticker_symbol_tokenizer.spec_tokenize(s).last()) as TokenId
}

/// Binding the tokens of `ticker` keeps the tokens free of repetitions, only appends, keeps
/// the other bindings, and binds `ticker` to the position of its last token.
proof fn lemma_bind_extends(m: CompanyModel, ticker: Seq<char>, ts: Seq<Seq<char>>)
    requires
        m.tokens.no_duplicates(),
    ensures
        bind_ticker_tokens(m, ticker, ts).tokens.no_duplicates(),
        extends(m.tokens, bind_ticker_tokens(m, ticker, ts).tokens),
        bind_ticker_tokens(m, ticker, ts).sequences == m.sequences,
        forall|s: Seq<char>|
            s != ticker ==> (#[trigger] bind_ticker_tokens(m, ticker, ts).ticker_ids.contains_key(s)
                == m.ticker_ids.contains_key(s) && bind_ticker_tokens(m, ticker, ts).ticker_ids[s]
                == m.ticker_ids[s]),
        ts.len() > 0 ==> bind_ticker_tokens(m, ticker, ts).ticker_ids.contains_key(ticker)
            && bind_ticker_tokens(m, ticker, ts).tokens.contains(ts.last()) && bind_ticker_tokens(
            m,
            ticker,
            ts,
        ).ticker_ids[ticker] == bind_ticker_tokens(m, ticker, ts).tokens.index_of(ts.last()) as TokenId,
        ts.len() == 0 ==> bind_ticker_tokens(m, ticker, ts) == m,
    decreases ts.len(),
{
    if ts.len() > 0 {
        lemma_bind_extends(m, ticker, ts.drop_last());
        let m1 = bind_ticker_tokens(m, ticker, ts.drop_last());
        lemma_upsert_one_extends(m1.tokens, ts.last());
        let (tokens2, id) = upsert_one(m1.tokens, ts.last());
        lemma_extends_trans(m.tokens, m1.tokens, tokens2);
        assert(extends(tokens2, tokens2));
        assert(tokens2.index_of(ts.last()) as TokenId == id);
    }
}

/// Ingesting an entry keeps the bound ticker symbols' token ids and positions them, and adds
/// the ids of the entry's names to the sequences of its ticker symbol token id.
proof fn lemma_ingest_entry_extends(
    m: CompanyModel,
    e: EntryView,
    ticker_symbol_tokenizer: Tokenizer,
    text_doc_tokenizer: Tokenizer,
)
    requires
        ticker_ids_positioned(m, ticker_symbol_tokenizer),
        ingest_entry(m, e, ticker_symbol_tokenizer, text_doc_tokenizer) is Some,
    ensures
        ({
            let out = ingest_entry(m, e, ticker_symbol_tokenizer, text_doc_tokenizer)->0;
            &&& ticker_ids_positioned(out, ticker_symbol_tokenizer)
            &&& extends(m.tokens, out.tokens)
            &&& forall|s: Seq<char>| #[trigger]
                m.ticker_ids.contains_key(s) ==> out.ticker_ids.contains_key(s) && out.ticker_ids[s]
                    == m.ticker_ids[s]
            &&& out.ticker_ids.contains_key(e.0)
            &&& forall|longer: Seq<Seq<char>>|
                extends(out.tokens, longer) && longer.no_duplicates() ==> #[trigger] out.sequences
                    == m.sequences.insert(
                    out.ticker_ids[e.0],
                    seq_or_empty(m.sequences, out.ticker_ids[e.0]) + entry_name_ids(
                        longer,
                        e,
                        text_doc_tokenizer,
                    ),
                )
        }),
{
    let ts = ticker_symbol_tokenizer.spec_tokenize(e.0);
    lemma_bind_extends(m, e.0, ts);
    let b = bind_ticker_tokens(m, e.0, ts);
    let ticker_id = b.ticker_ids[e.0];
    lemma_ingest_names_keeps(b, entry_names(e), ticker_id, text_doc_tokenizer);
    lemma_ingest_names_extends(b, entry_names(e), ticker_id, text_doc_tokenizer);
    let (m2, all) = ingest_names(b, entry_names(e), ticker_id, text_doc_tokenizer);
    let out = ingest_entry(m, e, ticker_symbol_tokenizer, text_doc_tokenizer)->0;
    assert(out.tokens == m2.tokens);
    assert(out.ticker_ids == b.ticker_ids);
    lemma_extends_trans(m.tokens, b.tokens, m2.tokens);
    assert forall|s: Seq<char>| #[trigger] out.ticker_ids.contains_key(s) implies ticker_symbol_tokenizer.spec_tokenize(s).len() > 0
        && out.tokens.contains(ticker_symbol_tokenizer.spec_tokenize(s).last()) && out.ticker_ids[s]
        == out.tokens.index_of(ticker_symbol_tokenizer.spec_tokenize(s).last()) as TokenId by {
        let x = ticker_symbol_tokenizer.spec_tokenize(s).last();
        assert(extends(b.tokens, out.tokens));
        assert(out.tokens.no_duplicates());
        if s == e.0 && ts.len() > 0 {
            assert(b.tokens.contains(x));
            let k = b.tokens.index_of(x);
            assert(b.tokens[k] == x);
            lemma_index_of_extends(b.tokens, out.tokens, k);
            assert(out.tokens[k] == x);
            assert(out.ticker_ids[s] == b.ticker_ids[s]);
        } else {
            assert(s != e.0 || b == m);
            assert(b.ticker_ids.contains_key(s) == m.ticker_ids.contains_key(s));
            assert(m.ticker_ids.contains_key(s));
            assert(b.ticker_ids[s] == m.ticker_ids[s]);
            assert(m.tokens.contains(x));
            let k = m.tokens.index_of(x);
            assert(m.tokens[k] == x);
            lemma_index_of_extends(m.tokens, out.tokens, k);
            assert(out.tokens[k] == x);
        }
    }
    assert forall|s: Seq<char>| #[trigger] m.ticker_ids.contains_key(s) implies out.ticker_ids.contains_key(s)
        && out.ticker_ids[s] == m.ticker_ids[s] by {
        if s == e.0 && ts.len() > 0 {
            let x = ts.last();
            assert(m.tokens.contains(x));
            let k = m.tokens.index_of(x);
            assert(m.tokens[k] == x);
            lemma_index_of_extends(m.tokens, b.tokens, k);
            assert(b.ticker_ids[s] == b.tokens.index_of(x) as TokenId);
        } else {
            assert(s != e.0 || b == m);
            assert(b.ticker_ids.contains_key(s) == m.ticker_ids.contains_key(s));
        }
    }
    assert forall|longer: Seq<Seq<char>>| extends(out.tokens, longer) && longer.no_duplicates() implies #[trigger] out.sequences
        == m.sequences.insert(
        out.ticker_ids[e.0],
        seq_or_empty(m.sequences, out.ticker_ids[e.0]) + entry_name_ids(longer, e, text_doc_tokenizer),
    ) by {
        assert(names_ids(longer, entry_names(e), text_doc_tokenizer) == all);
    }
}

/// The sequences of a state built over `entries` are the listed sequences of its entries,
/// taken over any longer tokens without repetitions and the final ticker symbol token ids.
proof fn lemma_ingest_list_sequences(
    entries: Seq<EntryView>,
    ticker_symbol_tokenizer: Tokenizer,
    text_doc_tokenizer: Tokenizer,
)
    requires
        ingest_list(empty_model(), entries, ticker_symbol_tokenizer, text_doc_tokenizer) is Some,
    ensures
        ({
            let m = ingest_list(empty_model(), entries, ticker_symbol_tokenizer, text_doc_tokenizer)->0;
            &&& ticker_ids_positioned(m, ticker_symbol_tokenizer)
            &&& forall|i: int| 0 <= i < entries.len() ==> m.ticker_ids.contains_key(#[trigger] entries[i].0)
            &&& forall|longer: Seq<Seq<char>>, ticker_ids: Map<Seq<char>, TokenId>, t: TickerSymbolTokenId|
                extends(m.tokens, longer) && longer.no_duplicates() && (forall|i: int|
                    0 <= i < entries.len() ==> ticker_ids[#[trigger] entries[i].0] == m.ticker_ids[entries[i].0])
                    ==> #[trigger] listed_sequences(longer, ticker_ids, entries, text_doc_tokenizer, t)
                    == seq_or_empty(m.sequences, t)
        }),
    decreases entries.len(),
{
    let m = ingest_list(empty_model(), entries, ticker_symbol_tokenizer, text_doc_tokenizer)->0;
    if entries.len() == 0 {
        assert(ticker_ids_positioned(m, ticker_symbol_tokenizer)) by {
            assert(m.tokens.no_duplicates());
        }
        assert forall|longer: Seq<Seq<char>>, ticker_ids: Map<Seq<char>, TokenId>, t: TickerSymbolTokenId|
            extends(m.tokens, longer) && longer.no_duplicates() && (forall|i: int|
                0 <= i < entries.len() ==> ticker_ids[#[trigger] entries[i].0] == m.ticker_ids[entries[i].0])
                implies #[trigger] listed_sequences(longer, ticker_ids, entries, text_doc_tokenizer, t)
            == seq_or_empty(m.sequences, t) by {
            assert(seq_or_empty(m.sequences, t) =~= Seq::<Seq<TokenId>>::empty());
        }
    } else {
        let p = entries.drop_last();
        let e = entries.last();
        lemma_ingest_list_sequences(p, ticker_symbol_tokenizer, text_doc_tokenizer);
        let m1 = ingest_list(empty_model(), p, ticker_symbol_tokenizer, text_doc_tokenizer)->0;
        lemma_ingest_entry_extends(m1, e, ticker_symbol_tokenizer, text_doc_tokenizer);
        assert(m == ingest_entry(m1, e, ticker_symbol_tokenizer, text_doc_tokenizer)->0);
        assert forall|i: int| 0 <= i < entries.len() implies m.ticker_ids.contains_key(#[trigger] entries[i].0) by {
            if i < p.len() {
                assert(p[i] == entries[i]);
                assert(m1.ticker_ids.contains_key(p[i].0));
            }
        }
        assert forall|longer: Seq<Seq<char>>, ticker_ids: Map<Seq<char>, TokenId>, t: TickerSymbolTokenId|
            extends(m.tokens, longer) && longer.no_duplicates() && (forall|i: int|
                0 <= i < entries.len() ==> ticker_ids[#[trigger] entries[i].0] == m.ticker_ids[entries[i].0])
                implies #[trigger] listed_sequences(longer, ticker_ids, entries, text_doc_tokenizer, t)
            == seq_or_empty(m.sequences, t) by {
            lemma_extends_trans(m1.tokens, m.tokens, longer);
            assert forall|i: int| 0 <= i < p.len() implies ticker_ids[#[trigger] p[i].0] == m1.ticker_ids[p[i].0] by {
                assert(p[i] == entries[i]);
                assert(m1.ticker_ids.contains_key(p[i].0));
                assert(ticker_ids[entries[i].0] == m.ticker_ids[entries[i].0]);
            }
            assert(listed_sequences(longer, ticker_ids, p, text_doc_tokenizer, t) == seq_or_empty(m1.sequences, t));
            assert(ticker_ids[entries[entries.len() - 1].0] == m.ticker_ids[entries[entries.len() - 1].0]);
            assert(entries[entries.len() - 1] == e);
            let tid = m.ticker_ids[e.0];
            assert(m.sequences == m1.sequences.insert(tid, seq_or_empty(m1.sequences, tid) + entry_name_ids(longer, e, text_doc_tokenizer)));
            if t == tid {
                assert(seq_or_empty(m.sequences, t) == seq_or_empty(m1.sequences, tid) + entry_name_ids(longer, e, text_doc_tokenizer));
            } else {
                assert(seq_or_empty(m.sequences, t) == seq_or_empty(m1.sequences, t));
                assert(listed_sequences(longer, ticker_ids, entries, text_doc_tokenizer, t) =~= listed_sequences(
                    longer,
                    ticker_ids,
                    p,
                    text_doc_tokenizer,
                    t,
                ));
            }
        }
    }
}

/// A company token mapper built over a company symbol list holds, for each ticker symbol token
/// id, exactly the token id sequences of the names of the entries whose ticker symbol has that
/// id, in list order: for each such entry its primary name, then its alternate names, each
/// upper-cased, tokenized and mapped to the ids of its tokens. Every listed ticker symbol has a
/// token id.
pub proof fn law_built_mapper_sequences_are_the_listed_names(entries: Seq<EntryView>, case_sensitive: bool)
    ensures
        ingest_list(
            empty_model(),
            entries,
            Tokenizer::ticker_symbol_parser_spec(),
            Tokenizer::text_doc_parser_spec(case_sensitive),
        ) matches Some(m) ==> (forall|i: int| 0 <= i < entries.len() ==> m.ticker_ids.contains_key(#[trigger] entries[i].0))
            && forall|t: TickerSymbolTokenId| #[trigger]
            seq_or_empty(m.sequences, t) == listed_sequences(
                m.tokens,
                m.ticker_ids,
                entries,
                Tokenizer::text_doc_parser_spec(case_sensitive),
                t,
            ),
{
    let tk = Tokenizer::ticker_symbol_parser_spec();
    let tdk = Tokenizer::text_doc_parser_spec(case_sensitive);
    if ingest_list(empty_model(), entries, tk, tdk) is Some {
        lemma_ingest_list_sequences(entries, tk, tdk);
        let m = ingest_list(empty_model(), entries, tk, tdk)->0;
        assert(extends(m.tokens, m.tokens));
        assert forall|t: TickerSymbolTokenId| #[trigger] seq_or_empty(m.sequences, t) == listed_sequences(
            m.tokens,
            m.ticker_ids,
            entries,
            tdk,
            t,
        ) by {
            assert(listed_sequences(m.tokens, m.ticker_ids, entries, tdk, t) == seq_or_empty(m.sequences, t));
        }
    }
}

/// A company token mapper built over a company symbol list has ingested the whole list: every
/// listed ticker symbol is bound to a token id that names a ticker symbol and holds sequences,
/// each token id's sequences are the listed names of the entries bound to it, in list order, and
/// every token id of those sequences has the ticker symbol token id in the reverse map.
pub proof fn law_built_mapper_ingests_the_list(entries: Seq<EntryView>, case_sensitive: bool)
    ensures
        ingest_list(
            empty_model(),
            entries,
            Tokenizer::ticker_symbol_parser_spec(),
            Tokenizer::text_doc_parser_spec(case_sensitive),
        ) matches Some(m) ==> (forall|i: int| 0 <= i < entries.len() ==> ticker_bound(m, #[trigger] entries[i].0))
            && (forall|t: TickerSymbolTokenId| #[trigger]
            seq_or_empty(m.sequences, t) == listed_sequences(
                m.tokens,
                m.ticker_ids,
                entries,
                Tokenizer::text_doc_parser_spec(case_sensitive),
                t,
            )) && sequences_reversed(m),
{
    law_built_mapper_binds_every_ticker_symbol(entries, case_sensitive);
    law_built_mapper_sequences_are_the_listed_names(entries, case_sensitive);
    law_built_mapper_reverse_map_covers_sequences(entries, case_sensitive);
}

} // verus!
