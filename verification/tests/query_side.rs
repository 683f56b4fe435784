use warcse::fixed::cosine_score;
use warcse::fixed::isqrt;
use warcse::fixed::mixed_score;
use warcse::fixed::neglog2;
use warcse::fixed::SCALE;
use warcse::routes::query::FormData;
use warcse::services::search::calculate_tf_idf_for_query_word;
use warcse::services::search::is_stopword;
use warcse::services::search::tokenize;
use warcse::services::search::QueryWord;
use warcse::services::stats::StatsResponse;

#[test]
fn stopword_boundary_is_strict() {
    // Frequency exactly 0.9 is not a stopword; anything above is.
    assert!(!is_stopword(Some(900_000)));
    assert!(is_stopword(Some(900_010)));
    assert!(is_stopword(Some(950_000)));
    assert!(!is_stopword(Some(899_999)));
}

#[test]
fn unknown_words_are_not_stopwords() {
    assert!(!is_stopword(None));
}

#[test]
fn tokenize_splits_on_whitespace_and_lowercases() {
    let tokens = tokenize("The  CAT\tsat\n");
    assert_eq!(tokens.len(), 3);
    assert_eq!(tokens[0], "the");
    assert_eq!(tokens[1], "cat");
    assert_eq!(tokens[2], "sat");
}

#[test]
fn tokenize_empty_query_gives_no_tokens() {
    assert_eq!(tokenize("").len(), 0);
    assert_eq!(tokenize("   \t\n ").len(), 0);
}

#[test]
fn weights_divide_idf_by_query_length() {
    let mut word = QueryWord::new(String::from("cat"));
    let idfs = vec![(1, Some(600_000u64)), (2, None), (3, Some(901_000u64))];
    calculate_tf_idf_for_query_word(&mut word, 2, &idfs);
    assert_eq!(word.tfidf, vec![(1, 300_000u64), (2, 0u64), (3, 450_500u64)]);
    assert_eq!(word.word, "cat");
}

#[test]
fn isqrt_is_exact_floor() {
    assert_eq!(isqrt(0), 0);
    assert_eq!(isqrt(1), 1);
    assert_eq!(isqrt(3), 1);
    assert_eq!(isqrt(4), 2);
    assert_eq!(isqrt(250_000_000_000), 500_000);
    assert_eq!(isqrt(u64::MAX), 4_294_967_295);
}

#[test]
fn cosine_score_handles_degenerate_norms() {
    assert_eq!(cosine_score(123, 0, 456), 0);
    assert_eq!(cosine_score(123, 456, 0), 0);
    // aligned one-dimensional vectors score exactly 1.0
    let w: u64 = 300_000;
    let t: u64 = 700_000;
    assert_eq!(cosine_score(w * t, w * w, t * t), SCALE);
}

#[test]
fn neglog2_is_exact_on_powers_of_two() {
    // -log2(1.0) = 0, -log2(0.5) = 1.0, -log2(0.25) = 2.0
    assert_eq!(neglog2(SCALE), 0);
    assert_eq!(neglog2(SCALE / 2), SCALE);
    assert_eq!(neglog2(SCALE / 4), 2 * SCALE);
}

#[test]
fn mixed_score_matches_the_formula() {
    // (1 - 0) * log2(0.5) = -1.0
    assert_eq!(mixed_score(0, SCALE / 2), -(SCALE as i64));
    // (1 - 0.5) * log2(0.25) = -1.0
    assert_eq!(mixed_score(SCALE / 2, SCALE / 4), -(SCALE as i64));
    // (1 - 1) * log2(1) = 0
    assert_eq!(mixed_score(SCALE, SCALE), 0);
    // a zero corpus score sorts below everything
    assert!(mixed_score(0, 0) < mixed_score(0, 1));
}

#[test]
fn form_data_and_stats_shapes() {
    let form = FormData::new(String::from("the cat sat"));
    assert_eq!(form.query, "the cat sat");
    let stats = StatsResponse { corpus_count: Some(3), record_count: Some(10), word_count: None };
    assert_eq!(stats.corpus_count, Some(3));
    assert_eq!(stats.word_count, None);
}
