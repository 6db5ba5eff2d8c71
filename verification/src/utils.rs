//! Small verified helpers used by the token processing pipeline.
pub mod count_ticker_symbol_frequencies;
pub mod dedup_vector;
pub mod map_lookups;
pub mod pad_vector;
pub mod seq_facts;

pub use count_ticker_symbol_frequencies::count_ticker_symbol_frequencies;
pub use dedup_vector::dedup_vector;
pub use map_lookups::{
    get_company_token_sequence_max_length, get_ticker_symbol_by_token_id, get_ticker_symbol_token_id,
};
pub use pad_vector::{pad_vector, pad_vectors_to_match};
pub mod sort_results;
pub use sort_results::sort_results;
