use ticker_sniffer::Tokenizer;

#[test]
fn text_doc_tokens_drop_possessives_and_trailing_punctuation() {
    let tokenizer = Tokenizer::text_doc_parser(false);
    assert_eq!(
        tokenizer.tokenize("Nvidia's chips, Apple’s phones!"),
        vec!["NVIDIA", "CHIPS", "APPLE", "PHONES"]
    );
}

#[test]
fn text_doc_tokens_drop_stop_words_in_any_case() {
    let tokenizer = Tokenizer::text_doc_parser(false);
    assert_eq!(tokenizer.tokenize("THE and Of"), Vec::<&str>::new());
}

#[test]
fn case_sensitive_tokens_need_an_upper_case_start() {
    let tokenizer = Tokenizer::text_doc_parser(true);
    assert_eq!(tokenizer.tokenize("alpha Beta gAMMA"), vec!["BETA"]);
}

#[test]
fn ticker_tokens_keep_stop_word_symbols() {
    let tokenizer = Tokenizer::ticker_symbol_parser();
    assert_eq!(tokenizer.tokenize("A IT ALL"), vec!["A", "IT", "ALL"]);
}

#[test]
fn ticker_tokens_ignore_words_without_letters() {
    let tokenizer = Tokenizer::ticker_symbol_parser();
    assert_eq!(tokenizer.tokenize("... 2024 -- X1"), vec!["X1"]);
}

#[test]
fn whitespace_only_text_has_no_tokens() {
    let tokenizer = Tokenizer::text_doc_parser(false);
    assert_eq!(tokenizer.tokenize(" \t\n "), Vec::<&str>::new());
}

#[test]
fn word_token_normalises_one_word() {
    let tokenizer = Tokenizer::text_doc_parser(false);
    assert_eq!(tokenizer.word_token(&"Tesla's".chars().collect()), Some("TESLA".to_string()));
    assert_eq!(tokenizer.word_token(&"the".chars().collect()), None);
}

#[test]
fn the_kind_of_whitespace_does_not_matter() {
    let tokenizer = Tokenizer::text_doc_parser(true);
    assert_eq!(
        tokenizer.tokenize("Apple\tand\nMicrosoft Boeing"),
        tokenizer.tokenize("Apple and Microsoft\u{2003}Boeing")
    );
}

#[test]
fn repeated_whitespace_counts_once() {
    let tokenizer = Tokenizer::ticker_symbol_parser();
    assert_eq!(
        tokenizer.tokenize("AAPL \t\n  MSFT"),
        tokenizer.tokenize("AAPL MSFT")
    );
}

#[test]
fn unicode_white_space_separates_tokens() {
    let tokenizer = Tokenizer::ticker_symbol_parser();
    assert_eq!(
        tokenizer.tokenize("AAPL\u{3000}MSFT\u{2003}TSLA\u{85}NVDA\u{A0}GOOG"),
        vec!["AAPL", "MSFT", "TSLA", "NVDA", "GOOG"]
    );
}

#[test]
fn zero_width_space_is_not_white_space() {
    let tokenizer = Tokenizer::text_doc_parser(false);
    assert_eq!(tokenizer.tokenize("Apple\u{200B}Inc").len(), 1);
}
