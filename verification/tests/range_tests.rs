use ticker_sniffer::ratio::RangeScore;
use ticker_sniffer::{Ratio, TokenParityState, TokenRangeState};

fn run(ticker: &str, ticker_id: usize, indices: &[usize], ids: &[usize]) -> TokenRangeState {
    let mut state = TokenRangeState::new(ticker.to_string(), ticker_id, 0, indices.len());
    for (k, (index, id)) in indices.iter().zip(ids.iter()).enumerate() {
        state.add_partial_state(*index, *id, k);
    }
    state
}

#[test]
fn parity_states_are_collected_in_order() {
    let potential = vec![(5, vec![(0, vec![1, 2])])];
    let states = TokenParityState::collect_token_parity_states(&[1, 2, 1], &potential);
    let expected = vec![
        TokenParityState {
            ticker_symbol_token_id: 5,
            query_token_idx: 0,
            query_token_id: 1,
            company_sequence_idx: 0,
            company_sequence_token_idx: 0,
        },
        TokenParityState {
            ticker_symbol_token_id: 5,
            query_token_idx: 1,
            query_token_id: 2,
            company_sequence_idx: 0,
            company_sequence_token_idx: 1,
        },
        TokenParityState {
            ticker_symbol_token_id: 5,
            query_token_idx: 2,
            query_token_id: 1,
            company_sequence_idx: 0,
            company_sequence_token_idx: 0,
        },
    ];
    assert_eq!(states, expected);
}

#[test]
fn parity_states_are_sorted_across_companies() {
    let potential = vec![(9, vec![(1, vec![7])]), (2, vec![(0, vec![7])])];
    let states = TokenParityState::collect_token_parity_states(&[7], &potential);
    let tickers: Vec<usize> = states.iter().map(|s| s.ticker_symbol_token_id).collect();
    assert_eq!(tickers, vec![2, 9]);
}

#[test]
fn no_potential_sequences_means_no_parity_states() {
    assert!(TokenParityState::collect_token_parity_states(&[1, 2], &vec![]).is_empty());
}

#[test]
fn a_new_run_is_empty() {
    let state = TokenRangeState::new("AAPL".to_string(), 3, 1, 4);
    assert!(state.query_token_indices.is_empty());
    assert_eq!(state.company_sequence_idx, 1);
    assert_eq!(state.company_sequence_max_length, 4);
    assert_eq!(state.is_matched_on_ticker_symbol, None);
    assert_eq!(state.range_score, None);
    assert!(!state.is_collection_finalized);
}

#[test]
fn partial_states_extend_a_run() {
    let state = run("AAPL", 0, &[4, 5], &[1, 2]);
    assert_eq!(state.query_token_indices, vec![4, 5]);
    assert_eq!(state.query_text_doc_token_ids, vec![1, 2]);
    assert_eq!(state.company_sequence_token_indices, vec![0, 1]);
}

#[test]
fn repeated_runs_are_removed() {
    let states = vec![
        run("AAPL", 0, &[0], &[1]),
        run("AAPL", 0, &[0], &[1]),
        run("MSFT", 2, &[0], &[1]),
        run("AAPL", 0, &[3], &[1]),
        run("AAPL", 0, &[4], &[5]),
    ];
    let unique = TokenRangeState::get_unique(&states);
    let keys: Vec<(String, Vec<usize>)> = unique
        .iter()
        .map(|s| (s.ticker_symbol.clone(), s.query_token_indices.clone()))
        .collect();
    assert_eq!(
        keys,
        vec![
            ("AAPL".to_string(), vec![0]),
            ("MSFT".to_string(), vec![0]),
            ("AAPL".to_string(), vec![4]),
        ]
    );
}

#[test]
fn repeated_mentions_at_other_positions_are_kept() {
    let states = vec![
        run("AAPL", 0, &[0], &[1]),
        run("AAPL", 0, &[0], &[1]),
        run("MSFT", 2, &[0], &[1]),
        run("AAPL", 0, &[3], &[1]),
    ];
    let unique = TokenRangeState::get_unique_mentions(&states);
    let keys: Vec<(String, Vec<usize>)> = unique
        .iter()
        .map(|s| (s.ticker_symbol.clone(), s.query_token_indices.clone()))
        .collect();
    assert_eq!(
        keys,
        vec![
            ("AAPL".to_string(), vec![0]),
            ("MSFT".to_string(), vec![0]),
            ("AAPL".to_string(), vec![3]),
        ]
    );
    let twice = TokenRangeState::get_unique_mentions(&unique);
    assert_eq!(twice.len(), unique.len());
}

#[test]
fn exact_match_ratio_counts_matched_runs() {
    assert_eq!(
        TokenRangeState::calc_exact_ticker_symbol_match_ratio(&[]),
        Ratio { numerator: 1, denominator: 1 }
    );
    let mut matched = run("AAPL", 0, &[0], &[0]);
    matched.is_matched_on_ticker_symbol = Some(true);
    let mut unmatched = run("MSFT", 1, &[1, 2], &[4, 5]);
    unmatched.is_matched_on_ticker_symbol = Some(false);
    let other = run("TSLA", 2, &[3], &[6]);
    assert_eq!(
        TokenRangeState::calc_exact_ticker_symbol_match_ratio(&[matched, unmatched, other]),
        Ratio { numerator: 1, denominator: 3 }
    );
}

#[test]
fn range_frequencies_count_distinct_runs() {
    let states = vec![
        run("A", 0, &[0, 1], &[1, 2]),
        run("A", 0, &[0, 1], &[1, 2]),
        run("B", 3, &[2], &[4]),
        run("A", 0, &[3], &[1]),
    ];
    assert_eq!(
        TokenRangeState::count_token_range_ticker_symbol_frequencies(&states),
        vec![("A".to_string(), 2), ("B".to_string(), 1)]
    );
}

#[test]
fn scores_and_top_runs() {
    let mut first = run("AAPL", 0, &[0, 1], &[10, 11]);
    first.company_token_coverage = Ratio { numerator: 2, denominator: 2 };
    let mut second = run("MSFT", 1, &[1, 2], &[11, 12]);
    second.company_token_coverage = Ratio { numerator: 1, denominator: 2 };
    let mut states = vec![first, second];
    let query = [10, 11, 12];
    TokenRangeState::assign_token_range_scores(&query, &mut states);
    assert_eq!(
        states[0].range_score,
        Some(RangeScore { continuity: 1, coverage: Ratio { numerator: 2, denominator: 2 } })
    );
    assert_eq!(
        states[1].range_score,
        Some(RangeScore { continuity: 1, coverage: Ratio { numerator: 1, denominator: 2 } })
    );
    let top = TokenRangeState::collect_top_range_states(&query, &states).unwrap();
    let tickers: Vec<&str> = top.iter().map(|s| s.ticker_symbol.as_str()).collect();
    assert_eq!(tickers, vec!["AAPL", "AAPL", "MSFT"]);
}

#[test]
fn unscored_runs_are_refused() {
    let states = vec![run("AAPL", 0, &[0], &[10])];
    assert!(TokenRangeState::collect_top_range_states(&[10], &states).is_err());
}

#[test]
fn removing_repeated_runs_twice_is_removing_them_once() {
    let states = vec![
        run("AAPL", 0, &[0], &[1]),
        run("AAPL", 0, &[0], &[1]),
        run("MSFT", 2, &[1], &[1]),
        run("MSFT", 2, &[1], &[1]),
    ];
    let once = TokenRangeState::get_unique(&states);
    let twice = TokenRangeState::get_unique(&once);
    let indices = |v: &Vec<TokenRangeState>| -> Vec<Vec<usize>> {
        v.iter().map(|s| s.query_token_indices.clone()).collect()
    };
    assert_eq!(indices(&once), vec![vec![0], vec![1]]);
    assert_eq!(indices(&once), indices(&twice));
}

#[test]
fn collected_runs_are_consecutive_and_one_per_mention() {
    let list = vec![(
        "AAPL".to_string(),
        Some("Apple Computer Inc.".to_string()),
        Vec::<String>::new(),
    )];
    let mapper = ticker_sniffer::CompanyTokenMapper::new(&list, true).unwrap();
    let aapl = *mapper.get_ticker_symbol_token_id(&"AAPL".to_string()).unwrap();
    let sequence = mapper.company_token_sequences_map[&aapl][0].clone();
    assert_eq!(sequence.len(), 3);
    let (apple, computer, inc) = (sequence[0], sequence[1], sequence[2]);
    let query = vec![apple, computer, inc, apple, computer, inc, inc];
    let potential = vec![(aapl, vec![(0usize, sequence.clone())])];
    let parity = TokenParityState::collect_token_parity_states(&query, &potential);
    let runs = TokenRangeState::collect_token_range_states(&mapper, &potential, &parity).unwrap();
    for run in &runs {
        assert_eq!(run.query_token_indices.len(), run.company_sequence_token_indices.len());
        for x in 1..run.query_token_indices.len() {
            assert_eq!(run.query_token_indices[x], run.query_token_indices[x - 1] + 1);
            assert_eq!(
                run.company_sequence_token_indices[x],
                run.company_sequence_token_indices[x - 1] + 1
            );
        }
    }
    let indices: Vec<Vec<usize>> = runs.iter().map(|r| r.query_token_indices.clone()).collect();
    assert!(indices.contains(&vec![0, 1, 2]));
    assert!(indices.contains(&vec![3, 4, 5]));
}

#[test]
fn top_runs_have_the_best_score_where_they_stand() {
    let mut strong = run("AAPL", 0, &[0, 1], &[10, 11]);
    strong.company_token_coverage = Ratio { numerator: 2, denominator: 2 };
    let mut weak = run("MSFT", 1, &[1], &[11]);
    weak.company_token_coverage = Ratio { numerator: 1, denominator: 3 };
    let mut states = vec![weak, strong];
    let query = [10, 11];
    TokenRangeState::assign_token_range_scores(&query, &mut states);
    let top = TokenRangeState::collect_top_range_states(&query, &states).unwrap();
    let tickers: Vec<&str> = top.iter().map(|s| s.ticker_symbol.as_str()).collect();
    assert_eq!(tickers, vec!["AAPL", "AAPL"]);
}
