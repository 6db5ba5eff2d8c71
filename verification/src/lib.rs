//! Finds the companies that a text mentions, by ticker symbol or by company name, and counts
//! how often each is mentioned.
use vstd::prelude::*;

pub mod company_symbol_list_preprocessor;
pub mod company_token_mapper;
pub mod company_token_processor;
pub mod company_token_processor_ng;
pub mod error;
pub mod ratio;
pub mod text;
pub mod ticker_symbol_mapper;
pub mod token_mapper;
pub mod token_parity_state;
pub mod token_range_state;
pub mod tokenizer;
pub mod types;
pub mod utils;

pub use company_symbol_list_preprocessor::CompanySymbolListPreprocessor;
pub use company_token_mapper::CompanyTokenMapper;
pub use company_token_processor::{CompanyTokenProcessor, CompanyTokenProcessorConfig};
pub use company_token_processor_ng::CompanyTokenProcessorNg;
pub use error::Error;
pub use ratio::Ratio;
pub use ticker_symbol_mapper::TickerSymbolMapper;
pub use token_mapper::TokenMapper;
pub use token_parity_state::TokenParityState;
pub use token_range_state::TokenRangeState;
pub use tokenizer::Tokenizer;
pub use utils::sort_results;
pub use types::{
    AlternateCompanyName, CompanyName, CompanySymbolList, TickerSymbol, TickerSymbolFrequencyMap,
    Token, TokenId, TokenRef, TokenVector,
};

use company_symbol_list_preprocessor::company_list_from_gzip;
use company_token_mapper::{empty_model, ingest_list};
use company_token_processor::{distinct_positive, extraction_from_list};
use utils::sort_results::entry_views;

verus! {

/// The gzip-compressed CSV company symbol list bundled with the library. No list is bundled in
/// this build, so it is empty and the two functions below that read it fail; pass a list to
/// `extract_tickers_from_text_with_company_symbol_list` instead.
pub const COMPRESSED_COMPANY_SYMBOL_LIST_BYTE_ARRAY: [u8; 0] = [];

/// Extracts ticker symbols, with their frequencies, from `text`, using the default
/// configuration and the bundled company symbol list.
pub fn extract_tickers_from_text(text: &str, case_sensitive: bool) -> (result: Result<
    TickerSymbolFrequencyMap,
    Error,
>)
    ensures
        match company_list_from_gzip(COMPRESSED_COMPANY_SYMBOL_LIST_BYTE_ARRAY@) {
            Ok(entries) => match extraction_from_list(
                entries,
                (
                    Ratio { numerator: 50, denominator: 100 },
                    Ratio { numerator: 60, denominator: 100 },
                ),
                case_sensitive,
                text@,
            ) {
                Some(frequencies) => result matches Ok(f) && entry_views(f@) == frequencies,
                None => result matches Err(Error::ParserError(_)),
            },
            Err(m) => result matches Err(Error::ParserError(msg)) && msg@ == m,
        },
        result matches Ok(f) ==> distinct_positive(entry_views(f@)),
        company_list_from_gzip(COMPRESSED_COMPANY_SYMBOL_LIST_BYTE_ARRAY@) matches Ok(entries) && ingest_list(
            empty_model(),
            entries,
            Tokenizer::ticker_symbol_parser_spec(),
            Tokenizer::text_doc_parser_spec(case_sensitive),
        ) is Some ==> result is Ok,
{
    let config = CompanyTokenProcessorConfig::default();
    extract_tickers_from_text_with_custom_config(&config, text, case_sensitive)
}

/// Extracts ticker symbols, with their frequencies, from `text`, using the given configuration
/// and the bundled company symbol list.
///
/// Fails with a parser error where the bundled list cannot be read (its message is the
/// reader's) or where the processor cannot be built over it; processing itself never fails.
pub fn extract_tickers_from_text_with_custom_config(
    document_token_processor_config: &CompanyTokenProcessorConfig,
    text: &str,
    case_sensitive: bool,
) -> (result: Result<TickerSymbolFrequencyMap, Error>)
    ensures
        match company_list_from_gzip(COMPRESSED_COMPANY_SYMBOL_LIST_BYTE_ARRAY@) {
            Ok(entries) => match extraction_from_list(
                entries,
                (
                    document_token_processor_config.threshold_ratio_exact_matches,
                    document_token_processor_config.threshold_min_company_token_coverage,
                ),
                case_sensitive,
                text@,
            ) {
                Some(frequencies) => result matches Ok(f) && entry_views(f@) == frequencies,
                None => result matches Err(Error::ParserError(_)),
            },
            Err(m) => result matches Err(Error::ParserError(msg)) && msg@ == m,
        },
        result matches Ok(f) ==> distinct_positive(entry_views(f@)),
        company_list_from_gzip(COMPRESSED_COMPANY_SYMBOL_LIST_BYTE_ARRAY@) matches Ok(entries) && ingest_list(
            empty_model(),
            entries,
            Tokenizer::ticker_symbol_parser_spec(),
            Tokenizer::text_doc_parser_spec(case_sensitive),
        ) is Some ==> result is Ok,
{
    extract_tickers_from_text_with_company_symbol_list(
        &COMPRESSED_COMPANY_SYMBOL_LIST_BYTE_ARRAY,
        document_token_processor_config,
        text,
        case_sensitive,
    )
}

/// Extracts ticker symbols, with their frequencies, from `text`, using the given configuration
/// and the company symbol list held, as gzip-compressed CSV, in
/// `compressed_company_symbol_list`.
///
/// Fails with a parser error where the list cannot be read (its message is the reader's) or
/// where the processor cannot be built over it; processing itself never fails.
pub fn extract_tickers_from_text_with_company_symbol_list(
    compressed_company_symbol_list: &[u8],
    document_token_processor_config: &CompanyTokenProcessorConfig,
    text: &str,
    case_sensitive: bool,
) -> (result: Result<TickerSymbolFrequencyMap, Error>)
    ensures
        match company_list_from_gzip(compressed_company_symbol_list@) {
            Ok(entries) => match extraction_from_list(
                entries,
                (
                    document_token_processor_config.threshold_ratio_exact_matches,
                    document_token_processor_config.threshold_min_company_token_coverage,
                ),
                case_sensitive,
                text@,
            ) {
                Some(frequencies) => result matches Ok(f) && entry_views(f@) == frequencies,
                None => result matches Err(Error::ParserError(_)),
            },
            Err(m) => result matches Err(Error::ParserError(msg)) && msg@ == m,
        },
        result matches Ok(f) ==> distinct_positive(entry_views(f@)),
        company_list_from_gzip(compressed_company_symbol_list@) matches Ok(entries) && ingest_list(
            empty_model(),
            entries,
            Tokenizer::ticker_symbol_parser_spec(),
            Tokenizer::text_doc_parser_spec(case_sensitive),
        ) is Some ==> result is Ok,
{
    let company_symbol_list = match CompanySymbolListPreprocessor::extract_company_symbol_list_from_bytes(
        compressed_company_symbol_list,
    ) {
        Ok(list) => list,
        Err(e) => {
            return Err(e);
        },
    };
    let mut company_token_processor = match CompanyTokenProcessor::new(
        document_token_processor_config,
        &company_symbol_list,
        case_sensitive,
    ) {
        Ok(processor) => processor,
        Err(e) => {
            return Err(e);
        },
    };
    company_token_processor.process_text_doc(text)
}

} // verus!
