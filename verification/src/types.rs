//! Type aliases shared across the library.
use std::collections::HashMap;
use vstd::hash_map::StringHashMap;
use vstd::prelude::*;

verus! {

/// A token as an owned string; tokens are the basic units of text processing.
pub type Token = String;

/// A borrowed view of a token.
pub type TokenRef = str;

/// The numeric Unicode scalar value of one character of a token.
pub type TokenCharCode = u32;

/// The character codes of a token, in order.
pub type TokenVector = Vec<TokenCharCode>;

/// A unique identifier for a token.
pub type TokenId = usize;

/// The name of a company.
pub type CompanyName = String;

/// An alternate name (alias) of a company.
pub type AlternateCompanyName = String;

/// A stock ticker symbol.
pub type TickerSymbol = String;

/// The number of occurrences of a ticker symbol within a text document.
pub type TickerSymbolFrequency = usize;

/// One entry per company: its ticker symbol, its optional primary name and its alternate names.
pub type CompanySymbolList = Vec<(TickerSymbol, Option<CompanyName>, Vec<AlternateCompanyName>)>;

/// Ticker symbols with their frequencies, one entry per ticker symbol (no symbol occurs twice).
pub type TickerSymbolFrequencyMap = Vec<(TickerSymbol, TickerSymbolFrequency)>;

/// The index of a token within the filtered tokens of a query text document.
pub type QueryTokenIndex = usize;

/// The index of a token sequence (primary or alternate name) of a company.
pub type CompanySequenceIndex = usize;

/// The index of a token within a company token sequence.
pub type CompanySequenceTokenIndex = usize;

/// The token id of a ticker symbol.
pub type TickerSymbolTokenId = TokenId;

/// Each ticker symbol to its token id.
pub type TickerSymbolMap = StringHashMap<TokenId>;

/// Each token id to its ticker symbol.
pub type ReverseTickerSymbolMap = HashMap<TokenId, TickerSymbol>;

/// Each ticker symbol to the token id sequences of its company names.
pub type CompanyTokenSequencesMap = StringHashMap<Vec<Vec<TokenId>>>;

} // verus!
