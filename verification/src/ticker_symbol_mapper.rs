//! Maps between ticker symbols, their token ids and their company names' token sequences.
use std::collections::HashMap;
use vstd::hash_map::StringHashMap;
use vstd::prelude::*;

use crate::types::{
    CompanySymbolList, CompanyTokenSequencesMap, ReverseTickerSymbolMap, TickerSymbol,
    TickerSymbolMap, TokenId,
};

verus! {

broadcast use {vstd::hash_map::group_hash_map_axioms, vstd::std_specs::hash::group_hash_axioms};

/// The maps between ticker symbols, token ids and company token sequences.
pub struct TickerSymbolMapper {
    pub ticker_symbol_map: TickerSymbolMap,
    pub reverse_ticker_symbol_map: ReverseTickerSymbolMap,
    pub company_token_sequences: CompanyTokenSequencesMap,
    pub company_reverse_token_map: HashMap<TokenId, Vec<TickerSymbol>>,
}

impl TickerSymbolMapper {
    /// Whether every map is empty.
    pub open spec fn is_empty(&self) -> bool {
        &&& self.ticker_symbol_map@ == Map::<Seq<char>, TokenId>::empty()
        &&& self.reverse_ticker_symbol_map@ == Map::<TokenId, TickerSymbol>::empty()
        &&& self.company_token_sequences@ == Map::<Seq<char>, Vec<Vec<TokenId>>>::empty()
        &&& self.company_reverse_token_map@ == Map::<TokenId, Vec<TickerSymbol>>::empty()
    }

    /// Creates a mapper with empty maps, sized for the company symbol list.
    pub fn new(company_symbol_list: &CompanySymbolList) -> (mapper: Self)
        ensures
            mapper.is_empty(),
    {
        TickerSymbolMapper {
            ticker_symbol_map: StringHashMap::with_capacity(company_symbol_list.len()),
            reverse_ticker_symbol_map: HashMap::with_capacity(company_symbol_list.len()),
            company_token_sequences: StringHashMap::with_capacity(company_symbol_list.len()),
            company_reverse_token_map: HashMap::new(),
        }
    }

    /// Empties every map.
    pub fn clear(&mut self)
        ensures
            final(self).is_empty(),
    {
        self.company_token_sequences.clear();
        self.company_reverse_token_map.clear();
        self.ticker_symbol_map.clear();
        self.reverse_ticker_symbol_map.clear();
    }
}

} // verus!
