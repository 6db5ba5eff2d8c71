use std::io::Write;

use ticker_sniffer::{
    extract_tickers_from_text_with_company_symbol_list, CompanySymbolList,
    CompanySymbolListPreprocessor, CompanyTokenMapper, CompanyTokenProcessor,
    CompanyTokenProcessorConfig, Error, Ratio,
};

fn entry(symbol: &str, name: Option<&str>, alternates: &[&str]) -> (String, Option<String>, Vec<String>) {
    (
        symbol.to_string(),
        name.map(|n| n.to_string()),
        alternates.iter().map(|a| a.to_string()).collect(),
    )
}

fn apple_and_microsoft() -> CompanySymbolList {
    vec![
        entry("AAPL", Some("Apple Inc."), &[]),
        entry("MSFT", Some("Microsoft Corporation"), &[]),
    ]
}

fn frequencies(items: &[(&str, usize)]) -> Vec<(String, usize)> {
    items.iter().map(|(s, f)| (s.to_string(), *f)).collect()
}

#[test]
fn company_names_are_found() {
    let config = CompanyTokenProcessorConfig::default();
    let list = apple_and_microsoft();
    let mut processor = CompanyTokenProcessor::new(&config, &list, true).unwrap();
    let result = processor
        .process_text_doc("Apple Inc. and Microsoft Corporation reported AAPL earnings")
        .unwrap();
    assert_eq!(result, frequencies(&[("AAPL", 1), ("MSFT", 1)]));
}

#[test]
fn a_ticker_symbol_alone_is_found() {
    let config = CompanyTokenProcessorConfig::default();
    let list = apple_and_microsoft();
    let mut processor = CompanyTokenProcessor::new(&config, &list, true).unwrap();
    assert_eq!(
        processor.process_text_doc("AAPL is up").unwrap(),
        frequencies(&[("AAPL", 1)])
    );
}

#[test]
fn ticker_symbols_beside_a_name_count_once() {
    let config = CompanyTokenProcessorConfig::default();
    let list = apple_and_microsoft();
    let mut processor = CompanyTokenProcessor::new(&config, &list, true).unwrap();
    assert_eq!(
        processor.process_text_doc("Apple Inc. AAPL").unwrap(),
        frequencies(&[("AAPL", 1)])
    );
}

#[test]
fn too_little_of_a_name_is_not_enough() {
    let config = CompanyTokenProcessorConfig::default();
    let list = vec![entry("BRK.A", Some("Berkshire Hathaway Inc."), &[])];
    let mut processor = CompanyTokenProcessor::new(&config, &list, true).unwrap();
    assert_eq!(
        processor.process_text_doc("Berkshire is great").unwrap(),
        Vec::<(String, usize)>::new()
    );
}

#[test]
fn text_without_companies_gives_nothing() {
    let config = CompanyTokenProcessorConfig::default();
    let list = apple_and_microsoft();
    let mut processor = CompanyTokenProcessor::new(&config, &list, true).unwrap();
    assert_eq!(
        processor.process_text_doc("").unwrap(),
        Vec::<(String, usize)>::new()
    );
    assert_eq!(
        processor.process_text_doc("nothing to see here").unwrap(),
        Vec::<(String, usize)>::new()
    );
}

#[test]
fn ticker_symbols_of_the_text_and_of_runs_combine() {
    let config = CompanyTokenProcessorConfig::default();
    let list = vec![
        entry("AAPL", None, &["AAPL"]),
        entry("MSFT", None, &[]),
        entry("ZZZ", Some("MSFT Partners"), &[]),
    ];
    let mut processor = CompanyTokenProcessor::new(&config, &list, true).unwrap();
    assert_eq!(
        processor.process_text_doc("AAPL MSFT").unwrap(),
        frequencies(&[("AAPL", 1), ("MSFT", 1)])
    );
}

#[test]
fn ticker_symbols_inside_a_company_name_are_not_counted_again() {
    let config = CompanyTokenProcessorConfig {
        threshold_ratio_exact_matches: Ratio { numerator: 0, denominator: 1 },
        threshold_min_company_token_coverage: Ratio { numerator: 60, denominator: 100 },
    };
    let list = vec![
        entry("AAPL", None, &["AAPL"]),
        entry("MSFT", None, &[]),
        entry("ZZZ", Some("MSFT Partners"), &[]),
    ];
    let mut processor = CompanyTokenProcessor::new(&config, &list, true).unwrap();
    assert_eq!(
        processor.process_text_doc("AAPL MSFT Partners").unwrap(),
        frequencies(&[("AAPL", 1), ("ZZZ", 1)])
    );
}

#[test]
fn an_exact_ticker_symbol_run_is_found() {
    let config = CompanyTokenProcessorConfig::default();
    let list = vec![entry("AAPL", Some("Apple"), &["AAPL"])];
    let mut processor = CompanyTokenProcessor::new(&config, &list, true).unwrap();
    assert_eq!(
        processor.process_text_doc("AAPL").unwrap(),
        frequencies(&[("AAPL", 1)])
    );
}

#[test]
fn a_lower_case_ticker_symbol_cannot_be_mapped() {
    let config = CompanyTokenProcessorConfig::default();
    let list = vec![entry("aapl", Some("Apple"), &[])];
    assert!(matches!(
        CompanyTokenProcessor::new(&config, &list, true),
        Err(Error::ParserError(_))
    ));
    assert!(matches!(
        CompanyTokenMapper::new(&list, true),
        Err(Error::ParserError(_))
    ));
}

#[test]
fn mapper_binds_ticker_symbols_and_company_tokens() {
    let list = apple_and_microsoft();
    let mapper = CompanyTokenMapper::new(&list, true).unwrap();
    let msft_id = *mapper
        .get_ticker_symbol_token_id(&"MSFT".to_string())
        .unwrap();
    assert_eq!(msft_id, 3);
    assert_eq!(mapper.get_ticker_symbol_by_token_id(&3).unwrap(), "MSFT");
    assert_eq!(mapper.get_company_token_sequence_max_length(&3, 0), Some(2));
    assert_eq!(mapper.get_company_token_sequence_max_length(&3, 1), None);
    assert_eq!(mapper.get_company_token_sequence_max_length(&1, 0), None);
    assert_eq!(mapper.token_mapper.get_token_id("CORPORATION"), Some(5));
}

#[test]
fn mapper_lookups_fail_with_parser_errors() {
    let list = apple_and_microsoft();
    let mapper = CompanyTokenMapper::new(&list, true).unwrap();
    match mapper.get_ticker_symbol_by_token_id(&42) {
        Err(Error::ParserError(msg)) => {
            assert_eq!(msg, "Could not ticker from token token id: 42")
        }
        _ => panic!("expected a parser error"),
    }
    match mapper.get_ticker_symbol_by_token_id(&1_234_567_890) {
        Err(Error::ParserError(msg)) => {
            assert_eq!(msg, "Could not ticker from token token id: 1234567890")
        }
        _ => panic!("expected a parser error"),
    }
    match mapper.get_ticker_symbol_by_token_id(&0) {
        Ok(symbol) => assert_eq!(symbol, "AAPL"),
        _ => panic!("expected the first ticker symbol"),
    }
    match mapper.get_ticker_symbol_token_id(&"GOOG".to_string()) {
        Err(Error::ParserError(msg)) => assert_eq!(msg, "Could not obtain token id"),
        _ => panic!("expected a parser error"),
    }
}

#[test]
fn error_messages_name_their_kind() {
    assert_eq!(
        Error::ParserError("bad".to_string()).message(),
        "Parser Error: bad"
    );
    assert_eq!(
        Error::TokenFilterError("odd".to_string()).message(),
        "Token Filter Error: odd"
    );
}

#[test]
fn csv_lists_are_read() {
    let csv = "Symbol,Company Name,Alternate Names\naapl,Apple Inc.,\"Apple, Apple Computer \"\nMSFT,Microsoft Corporation,\n";
    let list = CompanySymbolListPreprocessor::read_company_symbol_list_from_string(csv).unwrap();
    assert_eq!(
        list,
        vec![
            entry("AAPL", Some("Apple Inc."), &["Apple", "Apple Computer"]),
            entry("MSFT", Some("Microsoft Corporation"), &[""]),
        ]
    );
}

#[test]
fn csv_columns_may_come_in_any_order() {
    let csv = "Alternate Names,Symbol,Company Name\nAlphabet,goog,Google\n";
    let list = CompanySymbolListPreprocessor::read_company_symbol_list_from_string(csv).unwrap();
    assert_eq!(list, vec![entry("GOOG", Some("Google"), &["Alphabet"])]);
}

#[test]
fn csv_with_only_headers_is_an_empty_list() {
    let list = CompanySymbolListPreprocessor::read_company_symbol_list_from_string(
        "Symbol,Company Name,Alternate Names\n",
    )
    .unwrap();
    assert!(list.is_empty());
    let list = CompanySymbolListPreprocessor::read_company_symbol_list_from_string("").unwrap();
    assert!(list.is_empty());
}

#[test]
fn csv_records_of_the_wrong_length_are_refused() {
    let result = CompanySymbolListPreprocessor::read_company_symbol_list_from_string(
        "Symbol,Company Name,Alternate Names\nAAPL,Apple\n",
    );
    match result {
        Err(Error::ParserError(msg)) => assert!(msg.starts_with("Failed to read record: ")),
        _ => panic!("expected a parser error"),
    }
}

#[test]
fn csv_without_the_required_headers_is_refused() {
    let result = CompanySymbolListPreprocessor::read_company_symbol_list_from_string(
        "Ticker,Name\nAAPL,Apple\n",
    );
    match result {
        Err(Error::ParserError(msg)) => assert_eq!(msg, "Missing a required column header"),
        _ => panic!("expected a parser error"),
    }
}

#[test]
fn records_without_a_symbol_field_are_refused() {
    let headers = vec!["Company Name".to_string(), "Alternate Names".to_string(), "Symbol".to_string()];
    let records = vec![vec!["Apple".to_string(), "".to_string()]];
    match CompanySymbolListPreprocessor::company_symbol_list_from_records(&headers, &records) {
        Err(Error::ParserError(msg)) => assert_eq!(msg, "Missing 'Symbol' field"),
        _ => panic!("expected a parser error"),
    }
}

fn gzip(text: &str) -> Vec<u8> {
    let mut encoder = flate2::write::GzEncoder::new(Vec::new(), flate2::Compression::default());
    encoder.write_all(text.as_bytes()).unwrap();
    encoder.finish().unwrap()
}

#[test]
fn compressed_lists_are_read() {
    let bytes = gzip("Symbol,Company Name,Alternate Names\ntsla,Tesla Inc.,Tesla Motors\n");
    let list = CompanySymbolListPreprocessor::extract_company_symbol_list_from_bytes(&bytes).unwrap();
    assert_eq!(list, vec![entry("TSLA", Some("Tesla Inc."), &["Tesla Motors"])]);
}

#[test]
fn bytes_that_are_not_gzip_are_refused() {
    assert!(matches!(
        CompanySymbolListPreprocessor::extract_company_symbol_list_from_bytes(b"plain text"),
        Err(Error::ParserError(_))
    ));
    assert!(matches!(
        CompanySymbolListPreprocessor::extract_company_symbol_list_from_bytes(&[]),
        Err(Error::ParserError(_))
    ));
}

fn listed_companies_csv() -> &'static str {
    "Symbol,Company Name,Alternate Names\nAAPL,Apple Inc.,\nMSFT,Microsoft Corporation,\nGOOGL,Alphabet Inc.,Google\n"
}

#[test]
fn extraction_reads_a_given_compressed_list() {
    let bytes = gzip(listed_companies_csv());
    let config = CompanyTokenProcessorConfig::default();
    let result = extract_tickers_from_text_with_company_symbol_list(
        &bytes,
        &config,
        "AAPL and MSFT are leading companies.",
        true,
    )
    .unwrap();
    assert_eq!(result, frequencies(&[("AAPL", 1), ("MSFT", 1)]));
    let result = extract_tickers_from_text_with_company_symbol_list(
        &bytes,
        &config,
        "GOOGL is a tech giant.",
        false,
    )
    .unwrap();
    assert_eq!(result, frequencies(&[("GOOGL", 1)]));
}

#[test]
fn extraction_refuses_a_list_that_is_not_compressed() {
    let config = CompanyTokenProcessorConfig::default();
    assert!(matches!(
        extract_tickers_from_text_with_company_symbol_list(
            listed_companies_csv().as_bytes(),
            &config,
            "AAPL",
            true,
        ),
        Err(Error::ParserError(_))
    ));
}

#[test]
fn repeated_ticker_symbols_count_each_time() {
    let config = CompanyTokenProcessorConfig::default();
    let list = vec![entry("AAPL", Some("Apple Inc."), &[])];
    let mut processor = CompanyTokenProcessor::new(&config, &list, true).unwrap();
    assert_eq!(
        processor.process_text_doc("AAPL AAPL").unwrap(),
        frequencies(&[("AAPL", 2)])
    );
}

#[test]
fn repeated_company_names_count_each_time() {
    let config = CompanyTokenProcessorConfig::default();
    let list = vec![entry("AAPL", Some("Apple Inc."), &[])];
    let mut processor = CompanyTokenProcessor::new(&config, &list, true).unwrap();
    assert_eq!(
        processor.process_text_doc("Apple Inc. Apple Inc.").unwrap(),
        frequencies(&[("AAPL", 2)])
    );
}

#[test]
fn default_config_thresholds() {
    let config = CompanyTokenProcessorConfig::default();
    assert_eq!(config.threshold_ratio_exact_matches, Ratio { numerator: 50, denominator: 100 });
    assert_eq!(
        config.threshold_min_company_token_coverage,
        Ratio { numerator: 60, denominator: 100 }
    );
}

#[test]
fn every_listed_ticker_symbol_is_bound_after_building() {
    let list = vec![
        entry("BRK.A", Some("Berkshire Hathaway"), &[]),
        entry("AAPL", Some("Apple Inc."), &["Apple Computer"]),
        entry("MSFT", None, &[]),
    ];
    let mapper = CompanyTokenMapper::new(&list, false).unwrap();
    for (symbol, _, _) in &list {
        let id = *mapper.get_ticker_symbol_token_id(symbol).unwrap();
        assert_eq!(mapper.get_ticker_symbol_by_token_id(&id).unwrap(), symbol);
        assert_eq!(mapper.get_company_token_sequence_max_length(&id, 0).is_some(), symbol != "MSFT");
    }
}

#[test]
fn results_name_each_symbol_once_with_a_positive_frequency() {
    let config = CompanyTokenProcessorConfig::default();
    let list = apple_and_microsoft();
    let mut processor = CompanyTokenProcessor::new(&config, &list, false).unwrap();
    let result = processor
        .process_text_doc("apple inc. said apple inc. and microsoft corporation and AAPL and MSFT")
        .unwrap();
    let names: std::collections::HashSet<&String> = result.iter().map(|(s, _)| s).collect();
    assert_eq!(names.len(), result.len());
    assert!(!result.is_empty());
    assert!(result.iter().all(|(_, f)| *f > 0));
}

#[test]
fn ng_processor_builds_over_a_list() {
    let list = apple_and_microsoft();
    let processor = ticker_sniffer::CompanyTokenProcessorNg::new(&list);
    let _ = processor;
}

#[test]
fn ng_processor_counts_distinct_hits_per_ticker_symbol() {
    let list = apple_and_microsoft();
    let mut processor = ticker_sniffer::CompanyTokenProcessorNg::new(&list);
    let report = processor.process_text_doc("Microsoft Corporation and Microsoft and Apple");
    assert_eq!(
        report.filtered_tokens,
        vec!["MICROSOFT", "CORPORATION", "MICROSOFT", "APPLE"]
    );
    assert_eq!(report.filtered_token_ids.len(), 4);
    assert_eq!(report.filtered_token_ids[0], report.filtered_token_ids[2]);
    assert_eq!(report.possible_matches, frequencies(&[("MSFT", 2), ("AAPL", 1)]));
}

#[test]
fn ng_processor_finds_nothing_in_unknown_text() {
    let list = apple_and_microsoft();
    let mut processor = ticker_sniffer::CompanyTokenProcessorNg::new(&list);
    let report = processor.process_text_doc("Nothing here at all");
    assert!(report.filtered_tokens.is_empty());
    assert!(report.filtered_token_ids.is_empty());
    assert!(report.possible_matches.is_empty());
}

#[test]
fn reported_symbols_come_from_the_list() {
    let config = CompanyTokenProcessorConfig::default();
    let list = vec![
        entry("AAPL", Some("Apple Inc."), &["Apple"]),
        entry("MSFT", Some("Microsoft Corporation"), &[]),
        entry("NVDA", Some("Nvidia"), &[]),
    ];
    let mut processor = CompanyTokenProcessor::new(&config, &list, true).unwrap();
    let result = processor
        .process_text_doc("Apple and Nvidia beat GOOG, TSLA and MSFT; Apple Inc. rose.")
        .unwrap();
    assert!(!result.is_empty());
    for (symbol, _) in &result {
        assert!(list.iter().any(|(listed, _, _)| listed == symbol));
    }
}

#[test]
fn processing_twice_gives_the_same_result() {
    let config = CompanyTokenProcessorConfig::default();
    let list = apple_and_microsoft();
    let mut processor = CompanyTokenProcessor::new(&config, &list, true).unwrap();
    let text = "Apple Inc. and MSFT, then Microsoft Corporation and AAPL AAPL";
    let first = processor.process_text_doc(text).unwrap();
    let _ = processor.process_text_doc("Something else entirely: Microsoft").unwrap();
    let second = processor.process_text_doc(text).unwrap();
    assert_eq!(first, second);
    let mut fresh = CompanyTokenProcessor::new(&config, &list, true).unwrap();
    assert_eq!(fresh.process_text_doc(text).unwrap(), first);
}

#[test]
fn processing_succeeds_on_any_text() {
    let config = CompanyTokenProcessorConfig::default();
    let list = vec![
        entry("AAPL", Some("Apple Inc."), &["Apple", "Apple Computer Inc."]),
        entry("A", Some("Agilent Technologies Inc."), &[]),
        entry("MSFT", Some("Microsoft Corporation"), &["Microsoft"]),
    ];
    let mut processor = CompanyTokenProcessor::new(&config, &list, false).unwrap();
    for text in [
        "",
        "   ",
        "!!! ??? ...",
        "Apple Apple Apple Inc. Inc. Computer",
        "A a A. Agilent Technologies Apple Computer Inc. Microsoft",
        "\u{3000}MSFT\u{85}AAPL's",
    ] {
        assert!(processor.process_text_doc(text).is_ok(), "failed on {:?}", text);
    }
}

#[test]
fn reverse_map_holds_every_sequence_token() {
    let list = vec![
        entry("AAPL", Some("Apple Inc."), &["Apple Computer"]),
        entry("MSFT", Some("Microsoft Corporation"), &["Microsoft"]),
        entry("AAPL", None, &["Apple Records"]),
    ];
    let mapper = CompanyTokenMapper::new(&list, true).unwrap();
    assert!(!mapper.company_token_sequences_map.is_empty());
    for (ticker_symbol_token_id, sequences) in &mapper.company_token_sequences_map {
        for sequence in sequences {
            for token_id in sequence {
                let holders = &mapper.company_reverse_token_map[token_id];
                assert!(holders.contains(ticker_symbol_token_id));
            }
        }
    }
}

#[test]
fn mapper_sequences_are_the_listed_names_in_order() {
    let list = vec![
        entry("AAPL", Some("Apple Inc."), &["Apple Computer"]),
        entry("MSFT", Some("Microsoft Corporation"), &[]),
        entry("AAPL", None, &["Apple Records"]),
    ];
    let mapper = CompanyTokenMapper::new(&list, true).unwrap();
    let tok = |name: &str| -> Vec<usize> {
        mapper
            .text_doc_tokenizer
            .tokenize(&name.to_uppercase())
            .iter()
            .map(|t| mapper.token_mapper.get_token_id(t).unwrap())
            .collect()
    };
    let aapl = *mapper.get_ticker_symbol_token_id(&"AAPL".to_string()).unwrap();
    let msft = *mapper.get_ticker_symbol_token_id(&"MSFT".to_string()).unwrap();
    assert_eq!(
        mapper.company_token_sequences_map[&aapl],
        vec![tok("Apple Inc."), tok("Apple Computer"), tok("Apple Records")]
    );
    assert_eq!(mapper.company_token_sequences_map[&msft], vec![tok("Microsoft Corporation")]);
    assert_eq!(mapper.company_token_sequences_map.len(), 2);
}
