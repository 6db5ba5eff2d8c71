# ticker_sniffer

Finds the companies that a text mentions, by ticker symbol (`AAPL`) or by company name
(`Apple Inc.`), and counts how often each is mentioned. The library is written in Verus: its
functions carry contracts that the verifier proves, except for a few trusted wrappers whose
contracts are taken on trust: `read_csv_headers`, `read_csv_records` and `gunzip_to_string` in
`src/company_symbol_list_preprocessor.rs` (calls into `csv` and `flate2`), and the wrappers of
`src/text.rs` around std's `char` and `str` functions (`chars_to_string`, `char_is_alphanumeric`,
`char_is_uppercase`, `char_is_lowercase`, `str_to_uppercase`, `char_from_code`). Their doc
comments say what each contract claims; on ASCII characters the character classes and upper
casing are stated outright, elsewhere they are named.

## Layout

- `src/tokenizer.rs`: splitting text into normalised upper-case tokens.
- `src/token_mapper.rs`: dense token ids and their tokens.
- `src/company_symbol_list_preprocessor.rs`: reading the company symbol list from gzip-compressed
  CSV (through `flate2` and `csv`).
- `src/company_token_mapper.rs`: token ids of ticker symbols and of company names.
- `src/token_parity_state.rs`, `src/token_range_state.rs`, `src/ratio.rs`: aligning query tokens
  with company names, scoring the aligned runs with exact ratios, and picking the best runs.
- `src/company_token_processor.rs`: the extraction pipeline and its specification (`extraction`).
- `src/company_token_processor_ng.rs`, `src/ticker_symbol_mapper.rs`: simpler company token maps.
- `src/utils/`: counting, de-duplicating, padding and sorting helpers.
- `src/text.rs`: the trusted wrappers around `char` and `str` functions of std, and the
  string conversions proved here.
- `app/main.rs`: a program that reads the company symbol list (gzip-compressed CSV) from the
  path given as its argument, or `data/company_symbol_list.csv.gz`, reads a text on standard
  input and prints what it finds; with `--possible-matches`, `app/ng_report.rs` prints what
  `CompanyTokenProcessorNg::process_text_doc` finds instead.

No company symbol list is bundled in this build: `COMPRESSED_COMPANY_SYMBOL_LIST_BYTE_ARRAY` is
empty, so `extract_tickers_from_text` and `extract_tickers_from_text_with_custom_config` report
the decompression error. `extract_tickers_from_text_with_company_symbol_list` takes the
compressed list as an argument and does the same extraction over it.
