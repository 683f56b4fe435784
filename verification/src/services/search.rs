//! The query side of the ranking engine: tokenizing a query, filtering
//! stopwords, and computing the per-corpus weight of each query word.
//!
//! Statistics arrive as plain values fetched by the caller from the external
//! index; everything here is a pure function of those values. All frequency,
//! IDF and tf-idf figures are fixed point (see [`crate::fixed::SCALE`]).

use vstd::prelude::*;
use convert_case::Case;
use convert_case::Casing;

verus! {

/// The query record information: one (word, record) statistic row.
pub struct QueryWordRecordInfo {
    /// The record's id.
    pub record_id: i32,
    /// The word.
    pub word: String,
    /// The trec id of the record.
    pub trec_id: String,
    /// The linked corpus name.
    pub corpus_name: String,
    /// The corpus id.
    pub corpus_id: i32,
    /// The tf-idf of the word in the record; absent when the index has none.
    pub tf_idf: Option<u64>,
    /// The linked URL.
    pub url: String,
    /// The appearances of the word in the record.
    pub appearances_r: i32,
    /// Total words in the record.
    pub total_words_r: Option<i32>,
}

/// The query word corpus information: one (word, corpus) statistic row.
pub struct QueryWordCorpusInfo {
    /// The corpus id.
    pub corpus_id: i32,
    /// The corpus name.
    pub corpus_name: String,
    /// The number of appearances of the word in the corpus.
    pub appearances_c: i32,
    /// The total number of words in the corpus.
    pub total_words_c: Option<i64>,
    /// The word.
    pub word: String,
    /// The tf-idf of the word in the corpus; absent when the index has none.
    pub tf_idf: Option<u64>,
}

/// A storage place for a query word: its per-corpus weights and the two
/// statistic lists supplied by the index.
pub struct QueryWord {
    /// The query word.
    pub word: String,
    /// The weight of the word for each corpus, keyed by corpus id.
    pub tfidf: Vec<(i32, u64)>,
    /// The vector of tf-idf rows against each corpus.
    pub word_corpus_tf_idf: Vec<QueryWordCorpusInfo>,
    /// The vector of tf-idf rows against each record.
    pub word_record_tf_idf: Vec<QueryWordRecordInfo>,
}

/// The weight recorded for `cid` in a weight list: the value of the first
/// entry with that corpus id, and `0` when there is none. A missing weight
/// is a missing statistic and counts as zero, never as an error.
pub open spec fn lookup_weight(ws: Seq<(i32, u64)>, cid: int) -> int
    decreases ws.len(),
{
    if ws.len() == 0 {
        0
    } else if ws[0].0 as int == cid {
        ws[0].1 as int
    } else {
        lookup_weight(ws.drop_first(), cid)
    }
}

pub proof fn lemma_lookup_weight_nonneg(ws: Seq<(i32, u64)>, cid: int)
    ensures
        0 <= lookup_weight(ws, cid) <= u64::MAX,
    decreases ws.len(),
{
    if ws.len() > 0 && ws[0].0 as int != cid {
        lemma_lookup_weight_nonneg(ws.drop_first(), cid);
    }
}

impl QueryWord {
    /// Create a new `QueryWord` instance with no statistics yet.
    pub fn new(word: String) -> (q: QueryWord)
        ensures
            q.word == word,
            q.tfidf@.len() == 0,
            q.word_corpus_tf_idf@.len() == 0,
            q.word_record_tf_idf@.len() == 0,
    {
        QueryWord { word, tfidf: Vec::new(), word_corpus_tf_idf: Vec::new(), word_record_tf_idf: Vec::new() }
    }
}

/// Frequency bound above which a known word is a stopword.
pub const STOPWORD_THRESHOLD: u64 = 900_000;

/// Decide whether a word is a stopword, from the frequency the index records
/// for it: `None` when the index does not know the word at all.
///
/// A word is a stopword exactly when it is known and its frequency is
/// strictly above the threshold `0.9`; the boundary value itself is not a
/// stopword, and unknown words must still be scored.
pub fn is_stopword(frequency: Option<u64>) -> (r: bool)
    ensures
        r <==> (frequency matches Some(f) && f > STOPWORD_THRESHOLD),
{
    match frequency {
        Some(f) => f > STOPWORD_THRESHOLD,
        None => false,
    }
}

/// The weight a query word gets in one corpus: `(1 / total_words) * idf`,
/// and `0` when the index has no IDF value for that corpus.
pub open spec fn spec_weight(idf: Option<u64>, total_words: int) -> int {
    match idf {
        Some(v) => (v as int) / total_words,
        None => 0,
    }
}

/// Calculate the per-corpus weights of the given query word from the IDF
/// values the index reports, normalized by the total number of scored words
/// in the query. A corpus without an IDF value gets weight `0`.
pub fn calculate_tf_idf_for_query_word(
    query_word: &mut QueryWord,
    total_words: u64,
    corpus_idfs: &Vec<(i32, Option<u64>)>,
)
    requires
        total_words >= 1,
    ensures
        final(query_word).tfidf@.len() == corpus_idfs@.len(),
        forall|i: int|
            0 <= i < corpus_idfs@.len() ==> #[trigger] final(query_word).tfidf@[i] == (
            corpus_idfs@[i].0,
            spec_weight(corpus_idfs@[i].1, total_words as int) as u64,
            ),
        final(query_word).word == old(query_word).word,
        final(query_word).word_corpus_tf_idf == old(query_word).word_corpus_tf_idf,
        final(query_word).word_record_tf_idf == old(query_word).word_record_tf_idf,
{
    let mut weights: Vec<(i32, u64)> = Vec::new();
    let mut i: usize = 0;
    while i < corpus_idfs.len()
        invariant
            i <= corpus_idfs@.len(),
            weights@.len() == i,
            total_words >= 1,
            forall|j: int|
                0 <= j < i ==> #[trigger] weights@[j] == (
                corpus_idfs@[j].0,
                spec_weight(corpus_idfs@[j].1, total_words as int) as u64,
                ),
        decreases corpus_idfs@.len() - i,
    {
        let (cid, idf) = corpus_idfs[i];
        let w: u64 = match idf {
            Some(v) => v / total_words,
            None => 0,
        };
        weights.push((cid, w));
        i = i + 1;
    }
    query_word.tfidf = weights;
}

/// Everything `char::is_whitespace` accepts: the Unicode white-space
/// characters, on which the query is split into tokens.
pub open spec fn is_ws(c: char) -> bool {
    c == ' ' || c == '\t' || c == '\n' || c == '\u{0b}' || c == '\u{0c}' || c == '\r' || c
        == '\u{85}' || c == '\u{a0}' || c == '\u{1680}' || c == '\u{2000}' || c == '\u{2001}' || c
        == '\u{2002}' || c == '\u{2003}' || c == '\u{2004}' || c == '\u{2005}' || c == '\u{2006}'
        || c == '\u{2007}' || c == '\u{2008}' || c == '\u{2009}' || c == '\u{200a}' || c
        == '\u{2028}' || c == '\u{2029}' || c == '\u{202f}' || c == '\u{205f}' || c == '\u{3000}'
}

fn char_is_ws(c: char) -> (r: bool)
    ensures
        r == is_ws(c),
{
    c == ' ' || c == '\t' || c == '\n' || c == '\u{0b}' || c == '\u{0c}' || c == '\r' || c
        == '\u{85}' || c == '\u{a0}' || c == '\u{1680}' || c == '\u{2000}' || c == '\u{2001}' || c
        == '\u{2002}' || c == '\u{2003}' || c == '\u{2004}' || c == '\u{2005}' || c == '\u{2006}'
        || c == '\u{2007}' || c == '\u{2008}' || c == '\u{2009}' || c == '\u{200a}' || c
        == '\u{2028}' || c == '\u{2029}' || c == '\u{202f}' || c == '\u{205f}' || c == '\u{3000}'
}

/// The maximal runs of non-white-space characters of `s`, after the partial
/// token `cur` already read: the white-space split of `cur + s`.
pub open spec fn split_from(s: Seq<char>, cur: Seq<char>) -> Seq<Seq<char>>
    decreases s.len(),
{
    if s.len() == 0 {
        if cur.len() == 0 {
            Seq::empty()
        } else {
            seq![cur]
        }
    } else if is_ws(s[0]) {
        (if cur.len() == 0 {
            Seq::<Seq<char>>::empty()
        } else {
            seq![cur]
        }) + split_from(s.drop_first(), Seq::empty())
    } else {
        split_from(s.drop_first(), cur.push(s[0]))
    }
}

/// The white-space split of `s`: its maximal runs of non-white-space
/// characters, in order.
pub open spec fn tokens_spec(s: Seq<char>) -> Seq<Seq<char>> {
    split_from(s, Seq::empty())
}

/// What convert_case's lower-casing returns for a token: a pure function of
/// the characters alone.
pub uninterp spec fn lower_of(s: Seq<char>) -> Seq<char>;

/// Relies on convert_case's `Casing::to_case` with `Case::Lower`, which
/// rewrites a token into lower-cased words: the result depends on the input
/// characters alone.
#[verifier::external_body]
fn to_lower(w: &str) -> (r: String)
    ensures
        r@ == lower_of(w@),
{
    w.to_case(Case::Lower)
}

/// Split the query into white-space separated tokens and lower-case each,
/// exactly as the search pipeline normalizes query words.
pub fn tokenize(query: &str) -> (tokens: Vec<String>)
    ensures
        tokens@.len() == tokens_spec(query@).len(),
        forall|i: int|
            0 <= i < tokens@.len() ==> #[trigger] tokens@[i]@ == lower_of(tokens_spec(query@)[i]),
{
    let n = query.unicode_len();
    let mut toks: Vec<String> = Vec::new();
    let ghost mut raw: Seq<Seq<char>> = Seq::empty();
    let mut i: usize = 0;
    let mut start: usize = 0;
    proof {
        assert(query@.skip(0) =~= query@);
        assert(query@.subrange(0, 0) =~= Seq::<char>::empty());
        assert(Seq::<Seq<char>>::empty() + split_from(query@, Seq::empty()) =~= split_from(
            query@,
            Seq::empty(),
        ));
    }
    while i < n
        invariant
            start <= i <= n,
            n == query@.len(),
            toks@.len() == raw.len(),
            forall|j: int| 0 <= j < raw.len() ==> #[trigger] toks@[j]@ == lower_of(raw[j]),
            tokens_spec(query@) == raw + split_from(
                query@.skip(i as int),
                query@.subrange(start as int, i as int),
            ),
            forall|j: int| start <= j < i ==> !is_ws(query@[j]),
        decreases n - i,
    {
        let c = query.get_char(i);
        proof {
            assert(query@.skip(i as int).drop_first() =~= query@.skip(i as int + 1));
            assert(query@.skip(i as int)[0] == query@[i as int]);
        }
        if char_is_ws(c) {
            proof {
                assert(query@.subrange(i as int + 1, i as int + 1) =~= Seq::<char>::empty());
            }
            if start < i {
                let t = query.substring_char(start, i);
                toks.push(to_lower(t));
                proof {
                    raw = raw.push(query@.subrange(start as int, i as int));
                    assert(raw + (seq![query@.subrange(start as int, i as int)].drop_first())
                        =~= raw);
                    assert((raw.drop_last() + seq![raw.last()]) + split_from(
                        query@.skip(i as int + 1),
                        Seq::empty(),
                    ) =~= raw.drop_last() + (seq![raw.last()] + split_from(
                        query@.skip(i as int + 1),
                        Seq::empty(),
                    )));
                }
            } else {
                proof {
                    assert(query@.subrange(start as int, i as int) =~= Seq::<char>::empty());
                    assert(raw + Seq::<Seq<char>>::empty() =~= raw);
                }
            }
            start = i + 1;
        } else {
            proof {
                assert(query@.subrange(start as int, i as int).push(query@[i as int])
                    =~= query@.subrange(start as int, i as int + 1));
            }
        }
        i = i + 1;
    }
    proof {
        assert(query@.skip(n as int) =~= Seq::<char>::empty());
    }
    if start < n {
        let t = query.substring_char(start, n);
        toks.push(to_lower(t));
        proof {
            raw = raw.push(query@.subrange(start as int, n as int));
            assert(tokens_spec(query@) =~= raw);
        }
    } else {
        proof {
            assert(query@.subrange(start as int, n as int) =~= Seq::<char>::empty());
            assert(tokens_spec(query@) =~= raw);
        }
    }
    toks
}

} // verus!
