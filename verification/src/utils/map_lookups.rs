//! Lookups in the ticker symbol maps.
use vstd::prelude::*;

use crate::types::{
    CompanySequenceIndex, CompanyTokenSequencesMap, ReverseTickerSymbolMap, TickerSymbol,
    TickerSymbolMap, TokenId,
};

verus! {

broadcast use {vstd::hash_map::group_hash_map_axioms, vstd::std_specs::hash::group_hash_axioms};

/// The length of token sequence `company_sequence_idx` of the company with `ticker_symbol`, if
/// both exist.
pub fn get_company_token_sequence_max_length(
    company_token_sequences_map: &CompanyTokenSequencesMap,
    ticker_symbol: &TickerSymbol,
    company_sequence_idx: CompanySequenceIndex,
) -> (length: Option<usize>)
    ensures
        length == if company_token_sequences_map@.contains_key(ticker_symbol@)
            && company_sequence_idx < company_token_sequences_map@[ticker_symbol@]@.len() {
            Some(company_token_sequences_map@[ticker_symbol@]@[company_sequence_idx as int]@.len() as usize)
        } else {
            None::<usize>
        },
{
    match company_token_sequences_map.get(ticker_symbol.as_str()) {
        Some(sequences) => {
            if company_sequence_idx < sequences.len() {
                Some(sequences[company_sequence_idx].len())
            } else {
                None
            }
        },
        None => None,
    }
}

/// The ticker symbol of `token_id`.
///
/// Fails with a message where no ticker symbol has that token id.
pub fn get_ticker_symbol_by_token_id<'a>(
    reverse_ticker_symbol_map: &'a ReverseTickerSymbolMap,
    token_id: &'a TokenId,
) -> (ticker_symbol: Result<&'a TickerSymbol, String>)
    ensures
        match ticker_symbol {
            Ok(t) => reverse_ticker_symbol_map@.contains_key(*token_id) && *t
                == reverse_ticker_symbol_map@[*token_id],
            Err(msg) => !reverse_ticker_symbol_map@.contains_key(*token_id) && msg@
                == "Could not obtain token id"@,
        },
{
    match reverse_ticker_symbol_map.get(token_id) {
        Some(ticker_symbol) => Ok(ticker_symbol),
        None => Err("Could not obtain token id".to_owned()),
    }
}

/// The token id of `ticker_symbol`.
///
/// Fails with a message where the ticker symbol has no token id.
pub fn get_ticker_symbol_token_id<'a>(
    ticker_symbol_map: &'a TickerSymbolMap,
    ticker_symbol: &'a TickerSymbol,
) -> (token_id: Result<&'a TokenId, String>)
    ensures
        match token_id {
            Ok(id) => ticker_symbol_map@.contains_key(ticker_symbol@) && *id
                == ticker_symbol_map@[ticker_symbol@],
            Err(msg) => !ticker_symbol_map@.contains_key(ticker_symbol@) && msg@
                == "Could not obtain token id"@,
        },
{
    match ticker_symbol_map.get(ticker_symbol.as_str()) {
        Some(token_id) => Ok(token_id),
        None => Err("Could not obtain token id".to_owned()),
    }
}

} // verus!
