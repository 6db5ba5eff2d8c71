use std::collections::HashMap;
use ticker_sniffer::types::{CompanyTokenSequencesMap, ReverseTickerSymbolMap, TickerSymbolMap};
use ticker_sniffer::utils::{
    count_ticker_symbol_frequencies, dedup_vector, get_company_token_sequence_max_length,
    get_ticker_symbol_by_token_id, get_ticker_symbol_token_id, pad_vector, pad_vectors_to_match,
    sort_results,
};
use ticker_sniffer::TickerSymbolMapper;

fn symbols(items: &[&str]) -> Vec<String> {
    items.iter().map(|s| s.to_string()).collect()
}

#[test]
fn dedup_keeps_first_occurrences_in_order() {
    let unique = dedup_vector(&symbols(&["MSFT", "AAPL", "MSFT", "TSLA", "AAPL"]));
    assert_eq!(unique, symbols(&["MSFT", "AAPL", "TSLA"]));
}

#[test]
fn dedup_of_nothing_is_nothing() {
    assert_eq!(dedup_vector(&[]), Vec::<String>::new());
}

#[test]
fn frequencies_count_each_symbol_in_order_of_appearance() {
    let frequencies =
        count_ticker_symbol_frequencies(&symbols(&["AAPL", "MSFT", "AAPL", "AAPL", "TSLA"]));
    assert_eq!(
        frequencies,
        vec![
            ("AAPL".to_string(), 3),
            ("MSFT".to_string(), 1),
            ("TSLA".to_string(), 1)
        ]
    );
}

#[test]
fn frequencies_of_nothing_are_empty() {
    assert!(count_ticker_symbol_frequencies(&[]).is_empty());
}

#[test]
fn pad_vector_extends_with_zeros() {
    assert_eq!(pad_vector(&[1, 2], 5), vec![1, 2, 0, 0, 0]);
}

#[test]
fn pad_vector_never_shortens() {
    assert_eq!(pad_vector(&[1, 2, 3], 2), vec![1, 2, 3]);
    assert_eq!(pad_vector(&[], 0), Vec::<u32>::new());
}

#[test]
fn pad_vectors_to_match_pads_the_shorter_one() {
    assert_eq!(
        pad_vectors_to_match(&[7], &[1, 2, 3]),
        (vec![7, 0, 0], vec![1, 2, 3])
    );
    assert_eq!(
        pad_vectors_to_match(&[4, 5], &[]),
        (vec![4, 5], vec![0, 0])
    );
}

#[test]
fn sort_results_orders_by_frequency_then_symbol() {
    let sorted = sort_results(vec![
        ("MSFT".to_string(), 1),
        ("AAPL".to_string(), 3),
        ("TSLA".to_string(), 3),
        ("AMZN".to_string(), 1),
    ]);
    assert_eq!(
        sorted,
        vec![
            ("AAPL".to_string(), 3),
            ("TSLA".to_string(), 3),
            ("AMZN".to_string(), 1),
            ("MSFT".to_string(), 1)
        ]
    );
}

#[test]
fn sort_results_orders_symbols_by_scalar_value() {
    let sorted = sort_results(vec![
        ("b".to_string(), 2),
        ("B".to_string(), 2),
        ("BA".to_string(), 2),
    ]);
    assert_eq!(
        sorted,
        vec![
            ("B".to_string(), 2),
            ("BA".to_string(), 2),
            ("b".to_string(), 2)
        ]
    );
}

#[test]
fn sequence_length_lookup() {
    let mut map = CompanyTokenSequencesMap::new();
    map.insert("AAPL".to_string(), vec![vec![1, 2, 3], vec![4]]);
    let aapl = "AAPL".to_string();
    assert_eq!(get_company_token_sequence_max_length(&map, &aapl, 0), Some(3));
    assert_eq!(get_company_token_sequence_max_length(&map, &aapl, 1), Some(1));
    assert_eq!(get_company_token_sequence_max_length(&map, &aapl, 2), None);
    assert_eq!(
        get_company_token_sequence_max_length(&map, &"MSFT".to_string(), 0),
        None
    );
}

#[test]
fn ticker_symbol_by_token_id_lookup() {
    let mut map: ReverseTickerSymbolMap = HashMap::new();
    map.insert(4, "TSLA".to_string());
    assert_eq!(get_ticker_symbol_by_token_id(&map, &4), Ok(&"TSLA".to_string()));
    assert_eq!(
        get_ticker_symbol_by_token_id(&map, &5),
        Err("Could not obtain token id".to_string())
    );
}

#[test]
fn ticker_symbol_token_id_lookup() {
    let mut map = TickerSymbolMap::new();
    map.insert("TSLA".to_string(), 4);
    assert_eq!(get_ticker_symbol_token_id(&map, &"TSLA".to_string()), Ok(&4));
    assert_eq!(
        get_ticker_symbol_token_id(&map, &"GM".to_string()),
        Err("Could not obtain token id".to_string())
    );
}

#[test]
fn ticker_symbol_mapper_starts_and_clears_empty() {
    let list = vec![("AAPL".to_string(), Some("Apple".to_string()), vec![])];
    let mut mapper = TickerSymbolMapper::new(&list);
    assert!(mapper.ticker_symbol_map.is_empty());
    mapper.ticker_symbol_map.insert("AAPL".to_string(), 0);
    mapper.reverse_ticker_symbol_map.insert(0, "AAPL".to_string());
    mapper.company_token_sequences.insert("AAPL".to_string(), vec![vec![1]]);
    mapper.company_reverse_token_map.insert(1, vec!["AAPL".to_string()]);
    mapper.clear();
    assert!(mapper.ticker_symbol_map.is_empty());
    assert!(mapper.reverse_ticker_symbol_map.is_empty());
    assert!(mapper.company_token_sequences.is_empty());
    assert!(mapper.company_reverse_token_map.is_empty());
}

#[test]
fn sorting_does_not_depend_on_input_order() {
    let forward = sort_results(vec![
        ("AAPL".to_string(), 10),
        ("TSLA".to_string(), 15),
        ("GOOGL".to_string(), 10),
    ]);
    let backward = sort_results(vec![
        ("GOOGL".to_string(), 10),
        ("TSLA".to_string(), 15),
        ("AAPL".to_string(), 10),
    ]);
    assert_eq!(
        forward,
        vec![
            ("TSLA".to_string(), 15),
            ("AAPL".to_string(), 10),
            ("GOOGL".to_string(), 10)
        ]
    );
    assert_eq!(forward, backward);
}

#[test]
fn frequencies_add_up_to_the_number_of_symbols() {
    let input = symbols(&["A", "B", "A", "C", "B", "A"]);
    let frequencies = count_ticker_symbol_frequencies(&input);
    let total: usize = frequencies.iter().map(|(_, f)| *f).sum();
    assert_eq!(total, input.len());
    assert!(frequencies.iter().all(|(_, f)| *f > 0));
}

#[test]
fn deduplicating_twice_is_deduplicating_once() {
    let once = dedup_vector(&symbols(&["B", "A", "B", "C", "A"]));
    let twice = dedup_vector(&once);
    assert_eq!(once, twice);
}
