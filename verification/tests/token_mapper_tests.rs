use ticker_sniffer::{TokenMapper, Tokenizer};

#[test]
fn upsert_assigns_ids_in_order_and_reuses_them() {
    let mut mapper = TokenMapper::new();
    assert_eq!(mapper.upsert_token("APPLE"), 0);
    assert_eq!(mapper.upsert_token("MICROSOFT"), 1);
    assert_eq!(mapper.upsert_token("APPLE"), 0);
    assert_eq!(mapper.get_token_count(), 2);
}

#[test]
fn get_token_id_finds_known_tokens_only() {
    let mut mapper = TokenMapper::new();
    mapper.upsert_token("APPLE");
    mapper.upsert_token("INC");
    assert_eq!(mapper.get_token_id("INC"), Some(1));
    assert_eq!(mapper.get_token_id("APPLE"), Some(0));
    assert_eq!(mapper.get_token_id("ORANGE"), None);
}

#[test]
fn token_by_id_gives_back_what_was_upserted() {
    let mut mapper = TokenMapper::new();
    let id = mapper.upsert_token("NVIDIA");
    assert_eq!(mapper.get_token_by_id(id), Some("NVIDIA".to_string()));
    assert_eq!(mapper.get_token_by_id(id + 1), None);
}

#[test]
fn tokens_by_ids_marks_unknown_ids() {
    let mut mapper = TokenMapper::new();
    mapper.upsert_token("A");
    mapper.upsert_token("B");
    let tokens = mapper.get_tokens_by_ids(&[1, 7, 0]);
    assert_eq!(
        tokens,
        vec![Some("B".to_string()), None, Some("A".to_string())]
    );
}

#[test]
fn filtered_tokens_keep_known_ones_in_order() {
    let mut mapper = TokenMapper::new();
    mapper.upsert_token("TESLA");
    mapper.upsert_token("FORD");
    let known = mapper.get_filtered_tokens(vec!["FORD", "GM", "TESLA", "FORD"]);
    assert_eq!(known, vec!["FORD", "TESLA", "FORD"]);
}

#[test]
fn filtered_token_ids_keep_known_ones_in_order() {
    let mut mapper = TokenMapper::new();
    mapper.upsert_token("TESLA");
    mapper.upsert_token("FORD");
    let ids = mapper.get_filtered_token_ids(vec!["FORD", "GM", "TESLA", "FORD"]);
    assert_eq!(ids, vec![1, 0, 1]);
}

#[test]
fn empty_mapper_knows_nothing() {
    let mapper = TokenMapper::new();
    assert_eq!(mapper.get_token_count(), 0);
    assert_eq!(mapper.get_token_id("X"), None);
    assert_eq!(mapper.get_filtered_token_ids(vec!["X"]), Vec::<usize>::new());
}

#[test]
fn non_ascii_tokens_round_trip() {
    let mut mapper = TokenMapper::new();
    let id = mapper.upsert_token("NESTLÉ");
    assert_eq!(mapper.get_token_by_id(id), Some("NESTLÉ".to_string()));
}

#[test]
fn charcode_vectors_hold_scalar_values() {
    assert_eq!(Tokenizer::token_to_charcode_vector("AB"), vec![65, 66]);
    assert_eq!(Tokenizer::token_to_charcode_vector("É"), vec![0xC9]);
    assert_eq!(Tokenizer::token_to_charcode_vector(""), Vec::<u32>::new());
}

#[test]
fn charcode_vector_round_trip() {
    let codes = Tokenizer::token_to_charcode_vector("BRKA€");
    assert_eq!(Tokenizer::charcode_vector_to_token(&codes), "BRKA€");
}

#[test]
fn charcode_vector_skips_codes_that_are_not_characters() {
    assert_eq!(Tokenizer::charcode_vector_to_token(&vec![65, 0xD800, 66]), "AB");
}

#[test]
fn filtered_ids_are_the_ids_of_filtered_tokens() {
    let mut mapper = TokenMapper::new();
    mapper.upsert_token("X");
    mapper.upsert_token("Y");
    let input = vec!["Y", "Z", "X", "Y"];
    let ids: Vec<usize> = mapper
        .get_filtered_tokens(input.clone())
        .iter()
        .map(|t| mapper.get_token_id(t).unwrap())
        .collect();
    assert_eq!(mapper.get_filtered_token_ids(input), ids);
}

#[test]
fn adding_tokens_keeps_earlier_ids() {
    let mut mapper = TokenMapper::new();
    let a = mapper.upsert_token("A");
    let b = mapper.upsert_token("B");
    mapper.upsert_token("C");
    mapper.upsert_token("A");
    assert_eq!(mapper.get_token_id("A"), Some(a));
    assert_eq!(mapper.get_token_id("B"), Some(b));
    assert_eq!(mapper.get_token_count(), 3);
}
