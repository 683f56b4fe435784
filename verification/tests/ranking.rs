use warcse::domain::response::build_result;
use warcse::domain::response::merge;
use warcse::domain::response::CorpusRanking;
use warcse::domain::response::RecordRanking;
use warcse::domain::response::ResponseContainer;
use warcse::domain::response::SearchError;
use warcse::fixed::SCALE;
use warcse::services::search::QueryWord;
use warcse::services::search::QueryWordCorpusInfo;
use warcse::services::search::QueryWordRecordInfo;

fn corpus_row(corpus_id: i32, name: &str, tf_idf: Option<u64>) -> QueryWordCorpusInfo {
    QueryWordCorpusInfo {
        corpus_id,
        corpus_name: String::from(name),
        appearances_c: 1,
        total_words_c: Some(100),
        word: String::from("w"),
        tf_idf,
    }
}

fn record_row(
    record_id: i32,
    trec: &str,
    url: &str,
    corpus_id: i32,
    corpus_name: &str,
    tf_idf: Option<u64>,
) -> QueryWordRecordInfo {
    QueryWordRecordInfo {
        record_id,
        word: String::from("w"),
        trec_id: String::from(trec),
        corpus_name: String::from(corpus_name),
        corpus_id,
        tf_idf,
        url: String::from(url),
        appearances_r: 1,
        total_words_r: Some(50),
    }
}

fn word_with(
    word: &str,
    weights: Vec<(i32, u64)>,
    corpus: Vec<QueryWordCorpusInfo>,
    records: Vec<QueryWordRecordInfo>,
) -> QueryWord {
    let mut w = QueryWord::new(String::from(word));
    w.tfidf = weights;
    w.word_corpus_tf_idf = corpus;
    w.word_record_tf_idf = records;
    w
}

#[test]
fn empty_query_gives_empty_result() {
    let result = build_result(vec![]).expect("empty query must rank");
    assert_eq!(result.len(), 0);
    let container = ResponseContainer::new(result, 7);
    assert_eq!(container.result_count, 0);
    assert_eq!(container.duration, 7);
}

#[test]
fn single_token_single_corpus_single_record_scores_one() {
    // One token, weight 0.3, in one corpus and one record with tf-idf 0.3:
    // both cosine scores are exactly 1.0 and the combined score is 0.
    let w = word_with(
        "cat",
        vec![(1, 300_000)],
        vec![corpus_row(1, "news", Some(300_000))],
        vec![record_row(10, "t-10", "http://a", 1, "news", Some(300_000))],
    );
    let result = build_result(vec![w]).expect("must rank");
    assert_eq!(result.len(), 1);
    assert_eq!(result[0].corpus_score, SCALE);
    assert_eq!(result[0].record_score, SCALE);
    assert_eq!(result[0].score_mixed, 0);
    assert_eq!(result[0].corpus, "news");
    assert_eq!(result[0].trec_id, "t-10");
    assert_eq!(result[0].url, "http://a");
}

#[test]
fn two_token_query_aligned_scores_one() {
    // Query "the cat sat" after stopword filtering: "cat" and "sat", each in
    // the same corpus and record, weights equal to the tf-idf values 0.3 and
    // 0.4, so the two-dimensional weight vector is aligned with itself:
    // norms are sqrt(0.25) = 0.5 exactly and both scores are 1.0.
    let cat = word_with(
        "cat",
        vec![(1, 300_000)],
        vec![corpus_row(1, "news", Some(300_000))],
        vec![record_row(10, "t-10", "http://a", 1, "news", Some(300_000))],
    );
    let sat = word_with(
        "sat",
        vec![(1, 400_000)],
        vec![corpus_row(1, "news", Some(400_000))],
        vec![record_row(10, "t-10", "http://a", 1, "news", Some(400_000))],
    );
    let result = build_result(vec![cat, sat]).expect("must rank");
    assert_eq!(result.len(), 1);
    assert_eq!(result[0].corpus_score, SCALE);
    assert_eq!(result[0].record_score, SCALE);
    assert_eq!(result[0].score_mixed, 0);
}

#[test]
fn results_sorted_by_mixed_score_descending() {
    // Three records with different record scores in one corpus: the output
    // must be ordered by non-increasing combined score.
    let w = word_with(
        "cat",
        vec![(1, 500_000)],
        vec![corpus_row(1, "news", Some(500_000))],
        vec![
            record_row(10, "t-10", "http://a", 1, "news", Some(500_000)),
            record_row(11, "t-11", "http://b", 1, "news", Some(100_000)),
            record_row(12, "t-12", "http://c", 1, "news", Some(300_000)),
        ],
    );
    let result = build_result(vec![w]).expect("must rank");
    assert_eq!(result.len(), 3);
    for i in 1..result.len() {
        assert!(result[i - 1].score_mixed >= result[i].score_mixed);
    }
    // the aligned record scores 1.0 and sorts first
    assert_eq!(result[0].trec_id, "t-10");
}

#[test]
fn search_is_deterministic() {
    // Running the same ranking twice over unchanged statistics yields the
    // identical ordered output.
    let make = || {
        word_with(
            "cat",
            vec![(1, 500_000)],
            vec![corpus_row(1, "news", Some(500_000))],
            vec![
                record_row(10, "t-10", "http://a", 1, "news", Some(200_000)),
                record_row(11, "t-11", "http://b", 1, "news", Some(400_000)),
            ],
        )
    };
    let r1 = build_result(vec![make()]).expect("must rank");
    let r2 = build_result(vec![make()]).expect("must rank");
    assert_eq!(r1.len(), r2.len());
    for i in 0..r1.len() {
        assert_eq!(r1[i].trec_id, r2[i].trec_id);
        assert_eq!(r1[i].corpus_score, r2[i].corpus_score);
        assert_eq!(r1[i].record_score, r2[i].record_score);
        assert_eq!(r1[i].score_mixed, r2[i].score_mixed);
    }
}

#[test]
fn missing_corpus_is_an_explicit_error() {
    // A record whose owning corpus has no corpus-level row cannot silently
    // default: the merge step fails with an explicit error.
    let w = word_with(
        "cat",
        vec![(1, 300_000)],
        vec![corpus_row(1, "news", Some(300_000))],
        vec![record_row(10, "t-10", "http://a", 2, "other", Some(300_000))],
    );
    let err = build_result(vec![w]).expect_err("corpus score is missing");
    assert_eq!(err, SearchError::CorpusScoreMissing);
}

#[test]
fn overflowing_statistics_are_an_explicit_error() {
    // A tf-idf so large that its square leaves the fixed-point range must
    // surface as an arithmetic overflow, never as a wrapped value.
    let w = word_with(
        "cat",
        vec![(1, 300_000)],
        vec![corpus_row(1, "news", Some(u64::MAX))],
        vec![record_row(10, "t-10", "http://a", 1, "news", Some(300_000))],
    );
    let err = build_result(vec![w]).expect_err("sums overflow");
    assert_eq!(err, SearchError::ArithmeticOverflow);
}

#[test]
fn absent_tf_idf_counts_as_zero() {
    // A missing statistic is zero contribution, not a crash: the record's
    // norm degenerates and its score is 0.
    let w = word_with(
        "cat",
        vec![(1, 300_000)],
        vec![corpus_row(1, "news", Some(300_000))],
        vec![record_row(10, "t-10", "http://a", 1, "news", None)],
    );
    let result = build_result(vec![w]).expect("must rank");
    assert_eq!(result.len(), 1);
    assert_eq!(result[0].record_score, 0);
    assert_eq!(result[0].corpus_score, SCALE);
}

#[test]
fn degenerate_corpus_norm_scores_zero_and_sorts_last() {
    // A corpus whose tf-idf rows are all absent has a zero norm: its score
    // is 0, and its records sort below every genuinely scored record.
    let scored = word_with(
        "cat",
        vec![(1, 300_000), (2, 300_000)],
        vec![
            corpus_row(1, "news", Some(300_000)),
            corpus_row(2, "empty", None),
        ],
        vec![
            record_row(10, "t-10", "http://a", 1, "news", Some(300_000)),
            record_row(20, "t-20", "http://b", 2, "empty", Some(300_000)),
        ],
    );
    let result = build_result(vec![scored]).expect("must rank");
    assert_eq!(result.len(), 2);
    assert_eq!(result[0].trec_id, "t-10");
    assert_eq!(result[1].trec_id, "t-20");
    assert_eq!(result[1].corpus_score, 0);
}

#[test]
fn identity_fields_come_from_first_row() {
    // Identity fields are captured the first time a record is encountered
    // and never overwritten by later rows.
    let first = word_with(
        "cat",
        vec![(1, 300_000)],
        vec![corpus_row(1, "news", Some(300_000))],
        vec![record_row(10, "t-first", "http://first", 1, "news", Some(300_000))],
    );
    let second = word_with(
        "sat",
        vec![(1, 300_000)],
        vec![corpus_row(1, "news", Some(300_000))],
        vec![record_row(10, "t-other", "http://other", 1, "news", Some(300_000))],
    );
    let result = build_result(vec![first, second]).expect("must rank");
    assert_eq!(result.len(), 1);
    assert_eq!(result[0].trec_id, "t-first");
    assert_eq!(result[0].url, "http://first");
}

#[test]
fn the_cat_sat_scenario() {
    // Query "the cat sat": "the" has frequency 0.95 and is filtered as a
    // stopword; "cat" and "sat" each appear in one corpus and one record
    // with weights equal to their tf-idf, so the single result scores 1.0
    // on both levels and 0 combined.
    let tokens = warcse::services::search::tokenize("The cat sat");
    assert_eq!(tokens, vec!["the", "cat", "sat"]);
    let frequency_of = |token: &str| -> Option<u64> {
        if token == "the" {
            Some(950_000)
        } else {
            Some(10_000)
        }
    };
    let mut words: Vec<QueryWord> = vec![];
    for token in tokens {
        if !warcse::services::search::is_stopword(frequency_of(&token)) {
            words.push(QueryWord::new(token));
        }
    }
    assert_eq!(words.len(), 2);
    let total = words.len() as u64;
    let idfs: Vec<Vec<(i32, Option<u64>)>> =
        vec![vec![(1, Some(600_000))], vec![(1, Some(800_000))]];
    for (word, idf) in words.iter_mut().zip(idfs.iter()) {
        warcse::services::search::calculate_tf_idf_for_query_word(word, total, idf);
    }
    assert_eq!(words[0].tfidf, vec![(1, 300_000u64)]);
    assert_eq!(words[1].tfidf, vec![(1, 400_000u64)]);
    words[0].word_corpus_tf_idf = vec![corpus_row(1, "news", Some(300_000))];
    words[0].word_record_tf_idf =
        vec![record_row(10, "t-10", "http://a", 1, "news", Some(300_000))];
    words[1].word_corpus_tf_idf = vec![corpus_row(1, "news", Some(400_000))];
    words[1].word_record_tf_idf =
        vec![record_row(10, "t-10", "http://a", 1, "news", Some(400_000))];
    let result = build_result(words).expect("must rank");
    assert_eq!(result.len(), 1);
    assert_eq!(result[0].corpus_score, SCALE);
    assert_eq!(result[0].record_score, SCALE);
    assert_eq!(result[0].score_mixed, 0);
}

#[test]
fn merge_joins_records_with_their_corpus() {
    let rr = vec![RecordRanking {
        corpus_name: String::from("news"),
        corpus_id: 1,
        url: String::from("http://a"),
        trec_id: String::from("t-10"),
        record_id: 10,
        rank: 0,
        x: 0,
        y: 0,
    }];
    let cr = vec![CorpusRanking {
        corpus_name: String::from("news"),
        corpus_id: 1,
        rank: 500_000,
        x: 0,
        y: 0,
    }];
    let merged = merge(rr, cr).expect("corpus is present");
    assert_eq!(merged.len(), 1);
    assert_eq!(merged[0].corpus_score, 500_000);
    assert_eq!(merged[0].record_score, 0);
    // (1 - 0) * log2(0.5) = -1.0
    assert_eq!(merged[0].score_mixed, -(SCALE as i64));
}
