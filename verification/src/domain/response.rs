//! Building and ranking the result list.
//!
//! The rank accumulator folds every query word's weighted statistic rows
//! into per-corpus and per-record sums; the normalizer turns the sums into
//! cosine-similarity scores; the merger joins each record's score with its
//! owning corpus's score and sorts the list by the combined score.
//!
//! Every accumulator value is stated as a mathematical sum over the flat
//! sequence of (query word, statistic row) pairs, and the final list is
//! pinned to a single specification function of the input words.

use vstd::prelude::*;
use crate::fixed::SCALE;
use crate::fixed::score_of;
use crate::fixed::mixed_of;
use crate::fixed::cosine_score;
use crate::fixed::mixed_score;
use crate::fixed::lemma_score_of_range;
use crate::services::search::QueryWord;
use crate::services::search::QueryWordCorpusInfo;
use crate::services::search::QueryWordRecordInfo;
use crate::services::search::lookup_weight;
use crate::services::search::lemma_lookup_weight_nonneg;
use crate::sums::sum;
use crate::sums::lemma_sum_push;
use crate::sums::lemma_sum_concat;
use crate::sums::lemma_sum_nonneg;
use vstd::multiset::Multiset;

verus! {

/// A simple response container: the ordered results, their count, and the
/// search duration measured by the caller.
pub struct ResponseContainer {
    /// The result container.
    pub result: Vec<SearchResult>,
    /// The total size of the response.
    pub result_count: usize,
    /// The search duration.
    pub duration: u128,
}

impl ResponseContainer {
    /// Wrap a ranked result list for presentation.
    pub fn new(result: Vec<SearchResult>, duration: u128) -> (r: ResponseContainer)
        ensures
            r.result == result,
            r.result_count == result@.len(),
            r.duration == duration,
    {
        let result_count = result.len();
        ResponseContainer { result, result_count, duration }
    }
}

/// Simple search result structure: one ranked record.
#[derive(Debug)]
pub struct SearchResult {
    /// The name of the corpus owning the record.
    pub corpus: String,
    /// The trec id of the related document.
    pub trec_id: String,
    /// The linked URL.
    pub url: String,
    /// The corpus score.
    pub corpus_score: u64,
    /// The record score.
    pub record_score: u64,
    /// The combined score of corpus and record.
    pub score_mixed: i64,
}

/// A record ranking accumulator, keyed by record id.
pub struct RecordRanking {
    /// The related corpus name.
    pub corpus_name: String,
    /// The corpus id.
    pub corpus_id: i32,
    /// The related url.
    pub url: String,
    /// The trec id of the document.
    pub trec_id: String,
    /// The record id.
    pub record_id: i32,
    /// The final rank.
    pub rank: u64,
    /// The numerator.
    pub x: u64,
    /// The denominator.
    pub y: u64,
}

/// A corpus ranking accumulator, keyed by corpus id.
pub struct CorpusRanking {
    /// Name of the corpus.
    pub corpus_name: String,
    /// Corpus id.
    pub corpus_id: i32,
    /// The final rank.
    pub rank: u64,
    /// The numerator.
    pub x: u64,
    /// The denominator.
    pub y: u64,
}

/// Why a search could not produce a ranking.
#[derive(Debug, PartialEq, Eq, Structural)]
pub enum SearchError {
    /// An accumulated sum does not fit the fixed-point range.
    ArithmeticOverflow,
    /// A record's owning corpus has no computed corpus score.
    CorpusScoreMissing,
}

/// The (query word, corpus row) pairs of one word.
pub open spec fn word_cpairs(w: QueryWord) -> Seq<(QueryWord, QueryWordCorpusInfo)> {
    w.word_corpus_tf_idf@.map_values(|c: QueryWordCorpusInfo| (w, c))
}

/// All (query word, corpus row) pairs of the query, in order.
pub open spec fn cpairs(words: Seq<QueryWord>) -> Seq<(QueryWord, QueryWordCorpusInfo)>
    decreases words.len(),
{
    if words.len() == 0 {
        Seq::empty()
    } else {
        cpairs(words.drop_last()) + word_cpairs(words.last())
    }
}

/// The (query word, record row) pairs of one word.
pub open spec fn word_rpairs(w: QueryWord) -> Seq<(QueryWord, QueryWordRecordInfo)> {
    w.word_record_tf_idf@.map_values(|c: QueryWordRecordInfo| (w, c))
}

/// All (query word, record row) pairs of the query, in order.
pub open spec fn rpairs(words: Seq<QueryWord>) -> Seq<(QueryWord, QueryWordRecordInfo)>
    decreases words.len(),
{
    if words.len() == 0 {
        Seq::empty()
    } else {
        rpairs(words.drop_last()) + word_rpairs(words.last())
    }
}

/// A possibly absent statistic counts as zero, never as an error.
pub open spec fn opt0(o: Option<u64>) -> int {
    match o {
        Some(v) => v as int,
        None => 0,
    }
}

/// Contribution of one corpus row to corpus `cid`'s numerator:
/// query weight times corpus tf-idf.
pub open spec fn cx_term(p: (QueryWord, QueryWordCorpusInfo), cid: int) -> int {
    if p.1.corpus_id as int == cid {
        lookup_weight(p.0.tfidf@, cid) * opt0(p.1.tf_idf)
    } else {
        0
    }
}

/// Contribution of one corpus row to corpus `cid`'s document norm:
/// squared corpus tf-idf.
pub open spec fn cy_term(p: (QueryWord, QueryWordCorpusInfo), cid: int) -> int {
    if p.1.corpus_id as int == cid {
        opt0(p.1.tf_idf) * opt0(p.1.tf_idf)
    } else {
        0
    }
}

/// Contribution of one corpus row to corpus `cid`'s shared query-norm
/// denominator: squared query weight.
pub open spec fn cden_term(p: (QueryWord, QueryWordCorpusInfo), cid: int) -> int {
    if p.1.corpus_id as int == cid {
        lookup_weight(p.0.tfidf@, cid) * lookup_weight(p.0.tfidf@, cid)
    } else {
        0
    }
}

/// Contribution of one record row to record `rid`'s numerator: the word's
/// weight in the row's own corpus times the record tf-idf.
pub open spec fn rx_term(p: (QueryWord, QueryWordRecordInfo), rid: int) -> int {
    if p.1.record_id as int == rid {
        lookup_weight(p.0.tfidf@, p.1.corpus_id as int) * opt0(p.1.tf_idf)
    } else {
        0
    }
}

/// Contribution of one record row to record `rid`'s document norm:
/// squared record tf-idf.
pub open spec fn ry_term(p: (QueryWord, QueryWordRecordInfo), rid: int) -> int {
    if p.1.record_id as int == rid {
        opt0(p.1.tf_idf) * opt0(p.1.tf_idf)
    } else {
        0
    }
}

/// Corpus `cid`'s accumulated numerator over the whole query.
pub open spec fn corpus_x(words: Seq<QueryWord>, cid: int) -> int {
    sum(cpairs(words).map_values(|p: (QueryWord, QueryWordCorpusInfo)| cx_term(p, cid)))
}

/// Corpus `cid`'s accumulated document norm over the whole query.
pub open spec fn corpus_y(words: Seq<QueryWord>, cid: int) -> int {
    sum(cpairs(words).map_values(|p: (QueryWord, QueryWordCorpusInfo)| cy_term(p, cid)))
}

/// Corpus `cid`'s accumulated shared denominator over the whole query.
pub open spec fn corpus_den(words: Seq<QueryWord>, cid: int) -> int {
    sum(cpairs(words).map_values(|p: (QueryWord, QueryWordCorpusInfo)| cden_term(p, cid)))
}

/// Record `rid`'s accumulated numerator over the whole query.
pub open spec fn record_x(words: Seq<QueryWord>, rid: int) -> int {
    sum(rpairs(words).map_values(|p: (QueryWord, QueryWordRecordInfo)| rx_term(p, rid)))
}

/// Record `rid`'s accumulated document norm over the whole query.
pub open spec fn record_y(words: Seq<QueryWord>, rid: int) -> int {
    sum(rpairs(words).map_values(|p: (QueryWord, QueryWordRecordInfo)| ry_term(p, rid)))
}

/// Some corpus row of the query mentions corpus `cid`.
pub open spec fn has_corpus(words: Seq<QueryWord>, cid: int) -> bool {
    exists|j: int| 0 <= j < cpairs(words).len() && cpairs(words)[j].1.corpus_id as int == cid
}

proof fn lemma_cterms_nonneg(p: (QueryWord, QueryWordCorpusInfo), cid: int)
    ensures
        cx_term(p, cid) >= 0,
        cy_term(p, cid) >= 0,
        cden_term(p, cid) >= 0,
{
    lemma_lookup_weight_nonneg(p.0.tfidf@, cid);
    let w = lookup_weight(p.0.tfidf@, cid);
    let t = opt0(p.1.tf_idf);
    assert(w * t >= 0) by (nonlinear_arith)
        requires
            w >= 0,
            t >= 0,
    ;
    assert(t * t >= 0) by (nonlinear_arith);
    assert(w * w >= 0) by (nonlinear_arith);
}

proof fn lemma_rterms_nonneg(p: (QueryWord, QueryWordRecordInfo), rid: int)
    ensures
        rx_term(p, rid) >= 0,
        ry_term(p, rid) >= 0,
{
    lemma_lookup_weight_nonneg(p.0.tfidf@, p.1.corpus_id as int);
    let w = lookup_weight(p.0.tfidf@, p.1.corpus_id as int);
    let t = opt0(p.1.tf_idf);
    assert(w * t >= 0) by (nonlinear_arith)
        requires
            w >= 0,
            t >= 0,
    ;
    assert(t * t >= 0) by (nonlinear_arith);
}

proof fn lemma_cpairs_push(words: Seq<QueryWord>, w: QueryWord)
    ensures
        cpairs(words.push(w)) == cpairs(words) + word_cpairs(w),
        rpairs(words.push(w)) == rpairs(words) + word_rpairs(w),
{
    assert(words.push(w).drop_last() =~= words);
    assert(words.push(w).last() == w);
}

/// The flat pair sequence splits around loop position (i, j): what was
/// processed, the current word's remaining rows, and the remaining words.
proof fn lemma_cpairs_split(words: Seq<QueryWord>, i: int, j: int)
    requires
        0 <= i < words.len(),
        0 <= j <= words[i].word_corpus_tf_idf@.len(),
    ensures
        cpairs(words) == (cpairs(words.take(i)) + word_cpairs(words[i]).take(j)) + (word_cpairs(
            words[i],
        ).skip(j) + cpairs(words.skip(i + 1))),
    decreases words.len(),
{
    if i == words.len() - 1 {
        assert(words.take(i).push(words[i]) =~= words);
        lemma_cpairs_push(words.take(i), words[i]);
        assert(cpairs(words.skip(i + 1)) =~= Seq::<(QueryWord, QueryWordCorpusInfo)>::empty());
        assert(word_cpairs(words[i]).take(j) + word_cpairs(words[i]).skip(j) =~= word_cpairs(
            words[i],
        ));
        assert(cpairs(words) =~= (cpairs(words.take(i)) + word_cpairs(words[i]).take(j)) + (
        word_cpairs(words[i]).skip(j) + cpairs(words.skip(i + 1))));
    } else {
        lemma_cpairs_split(words.drop_last(), i, j);
        assert(words.drop_last().take(i) =~= words.take(i));
        assert(words.drop_last()[i] == words[i]);
        assert(words.drop_last().skip(i + 1).push(words.last()) =~= words.skip(i + 1));
        lemma_cpairs_push(words.drop_last().skip(i + 1), words.last());
        assert(cpairs(words) =~= (cpairs(words.take(i)) + word_cpairs(words[i]).take(j)) + (
        word_cpairs(words[i]).skip(j) + cpairs(words.skip(i + 1))));
    }
}

proof fn lemma_rpairs_split(words: Seq<QueryWord>, i: int, j: int)
    requires
        0 <= i < words.len(),
        0 <= j <= words[i].word_record_tf_idf@.len(),
    ensures
        rpairs(words) == (rpairs(words.take(i)) + word_rpairs(words[i]).take(j)) + (word_rpairs(
            words[i],
        ).skip(j) + rpairs(words.skip(i + 1))),
    decreases words.len(),
{
    if i == words.len() - 1 {
        assert(words.take(i).push(words[i]) =~= words);
        lemma_cpairs_push(words.take(i), words[i]);
        assert(rpairs(words.skip(i + 1)) =~= Seq::<(QueryWord, QueryWordRecordInfo)>::empty());
        assert(word_rpairs(words[i]).take(j) + word_rpairs(words[i]).skip(j) =~= word_rpairs(
            words[i],
        ));
        assert(rpairs(words) =~= (rpairs(words.take(i)) + word_rpairs(words[i]).take(j)) + (
        word_rpairs(words[i]).skip(j) + rpairs(words.skip(i + 1))));
    } else {
        lemma_rpairs_split(words.drop_last(), i, j);
        assert(words.drop_last().take(i) =~= words.take(i));
        assert(words.drop_last()[i] == words[i]);
        assert(words.drop_last().skip(i + 1).push(words.last()) =~= words.skip(i + 1));
        lemma_cpairs_push(words.drop_last().skip(i + 1), words.last());
        assert(rpairs(words) =~= (rpairs(words.take(i)) + word_rpairs(words[i]).take(j)) + (
        word_rpairs(words[i]).skip(j) + rpairs(words.skip(i + 1))));
    }
}

/// Some record row of the query mentions record `rid`.
pub open spec fn has_rid(ps: Seq<(QueryWord, QueryWordRecordInfo)>, rid: int) -> bool {
    exists|j: int| 0 <= j < ps.len() && ps[j].1.record_id as int == rid
}

/// Index of the first record row for record `rid`.
pub open spec fn first_idx_r(ps: Seq<(QueryWord, QueryWordRecordInfo)>, rid: int) -> int
    decreases ps.len(),
{
    if ps.len() == 0 {
        0
    } else if ps[0].1.record_id as int == rid {
        0
    } else {
        1 + first_idx_r(ps.drop_first(), rid)
    }
}

/// The first record row of the query that mentions record `rid`: its
/// identity fields (trec id, URL, owning corpus) are the ones the ranking
/// keeps, captured at first encounter and never overwritten.
pub open spec fn first_rrow(words: Seq<QueryWord>, rid: int) -> QueryWordRecordInfo {
    rpairs(words)[first_idx_r(rpairs(words), rid)].1
}

/// The distinct record ids of the query, in order of first appearance.
pub open spec fn rids_in_order(ps: Seq<(QueryWord, QueryWordRecordInfo)>) -> Seq<int>
    decreases ps.len(),
{
    if ps.len() == 0 {
        Seq::empty()
    } else {
        let rest = rids_in_order(ps.drop_last());
        let rid = ps.last().1.record_id as int;
        if rest.contains(rid) {
            rest
        } else {
            rest.push(rid)
        }
    }
}

proof fn lemma_rids_contains(ps: Seq<(QueryWord, QueryWordRecordInfo)>, rid: int)
    ensures
        rids_in_order(ps).contains(rid) <==> has_rid(ps, rid),
    decreases ps.len(),
{
    if ps.len() == 0 {
    } else {
        lemma_rids_contains(ps.drop_last(), rid);
        let rest = rids_in_order(ps.drop_last());
        let last_rid = ps.last().1.record_id as int;
        if has_rid(ps.drop_last(), rid) {
            let j = choose|j: int|
                0 <= j < ps.drop_last().len() && ps.drop_last()[j].1.record_id as int == rid;
            assert(ps[j].1.record_id as int == rid);
            if !rest.contains(rid) {
                assert(rest.push(last_rid).contains(rid)) by {
                    assert(rest.push(rid).last() == rid);
                }
            }
            assert(rids_in_order(ps).contains(rid)) by {
                if rest.contains(rid) {
                    let k = choose|k: int| 0 <= k < rest.len() && rest[k] == rid;
                    if rids_in_order(ps) != rest {
                        assert(rids_in_order(ps) == rest.push(last_rid));
                        assert(rest.push(last_rid)[k] == rid);
                    }
                }
            }
        } else if last_rid == rid {
            assert(ps[ps.len() - 1].1.record_id as int == rid);
            if rest.contains(rid) {
            } else {
                assert(rest.push(rid)[rest.len() as int] == rid);
            }
        } else {
            if rids_in_order(ps).contains(rid) {
                if rest.contains(rid) {
                    assert(has_rid(ps.drop_last(), rid));
                } else {
                    let k = choose|k: int|
                        0 <= k < rest.push(last_rid).len() && rest.push(last_rid)[k] == rid;
                    assert(k < rest.len());
                    assert(rest[k] == rid);
                }
            }
            if has_rid(ps, rid) {
                let j = choose|j: int| 0 <= j < ps.len() && ps[j].1.record_id as int == rid;
                assert(j < ps.len() - 1);
                assert(ps.drop_last()[j].1.record_id as int == rid);
            }
        }
    }
}

proof fn lemma_first_idx_r_concat(
    a: Seq<(QueryWord, QueryWordRecordInfo)>,
    p: (QueryWord, QueryWordRecordInfo),
    b: Seq<(QueryWord, QueryWordRecordInfo)>,
    rid: int,
)
    requires
        !has_rid(a, rid),
        p.1.record_id as int == rid,
    ensures
        first_idx_r(a + seq![p] + b, rid) == a.len(),
        (a + seq![p] + b)[a.len() as int] == p,
    decreases a.len(),
{
    let s = a + seq![p] + b;
    if a.len() == 0 {
        assert(s[0] == p);
    } else {
        assert(s[0] == a[0]);
        assert(a[0].1.record_id as int != rid);
        assert(!has_rid(a.drop_first(), rid)) by {
            if has_rid(a.drop_first(), rid) {
                let j = choose|j: int|
                    0 <= j < a.drop_first().len() && a.drop_first()[j].1.record_id as int == rid;
                assert(a[j + 1].1.record_id as int == rid);
            }
        }
        lemma_first_idx_r_concat(a.drop_first(), p, b, rid);
        assert(s.drop_first() =~= a.drop_first() + seq![p] + b);
    }
}

/// No row mentions the corpus: every contribution is zero, so all its sums
/// are zero, and its cosine score degenerates to zero.
proof fn lemma_no_corpus_sums_zero(words: Seq<QueryWord>, cid: int)
    requires
        !has_corpus(words, cid),
    ensures
        corpus_x(words, cid) == 0,
        corpus_y(words, cid) == 0,
        corpus_den(words, cid) == 0,
{
    let fx = |q: (QueryWord, QueryWordCorpusInfo)| cx_term(q, cid);
    let fy = |q: (QueryWord, QueryWordCorpusInfo)| cy_term(q, cid);
    let fd = |q: (QueryWord, QueryWordCorpusInfo)| cden_term(q, cid);
    let ps = cpairs(words);
    assert forall|k: int| 0 <= k < ps.len() implies ps.map_values(fx)[k] == 0 && ps.map_values(fy)[k]
        == 0 && ps.map_values(fd)[k] == 0 by {
        assert(ps[k].1.corpus_id as int != cid);
    }
    crate::sums::lemma_sum_zero(ps.map_values(fx));
    crate::sums::lemma_sum_zero(ps.map_values(fy));
    crate::sums::lemma_sum_zero(ps.map_values(fd));
}

/// The corpus rank recorded by the first corpus ranking entry for `cid`,
/// `0` when there is none.
pub open spec fn crank_of(crs: Seq<CorpusRanking>, cid: int) -> int
    decreases crs.len(),
{
    if crs.len() == 0 {
        0
    } else if crs[0].corpus_id as int == cid {
        crs[0].rank as int
    } else {
        crank_of(crs.drop_first(), cid)
    }
}

/// Some corpus ranking entry is for `cid`.
pub open spec fn has_crank(crs: Seq<CorpusRanking>, cid: int) -> bool {
    exists|j: int| 0 <= j < crs.len() && crs[j].corpus_id as int == cid
}

/// When every entry's rank is correct for its own corpus id, the first
/// matching entry's rank is the correct rank for `cid`.
proof fn lemma_crank_of_correct(crs: Seq<CorpusRanking>, cid: int, words: Seq<QueryWord>)
    requires
        forall|k: int|
            0 <= k < crs.len() ==> (#[trigger] crs[k]).rank as int == score_of(
                corpus_x(words, crs[k].corpus_id as int),
                corpus_den(words, crs[k].corpus_id as int),
                corpus_y(words, crs[k].corpus_id as int),
            ),
        has_crank(crs, cid),
    ensures
        crank_of(crs, cid) == score_of(
            corpus_x(words, cid),
            corpus_den(words, cid),
            corpus_y(words, cid),
        ),
    decreases crs.len(),
{
    if crs[0].corpus_id as int == cid {
    } else {
        assert(has_crank(crs.drop_first(), cid)) by {
            let j = choose|j: int| 0 <= j < crs.len() && crs[j].corpus_id as int == cid;
            assert(crs.drop_first()[j - 1].corpus_id as int == cid);
        }
        assert(forall|k: int|
            0 <= k < crs.drop_first().len() ==> crs.drop_first()[k] == crs[k + 1]);
        lemma_crank_of_correct(crs.drop_first(), cid, words);
    }
}

/// The result the merger builds for one ranked record, with the corpus
/// score looked up by the record's owning corpus id.
pub open spec fn merge_entry(rec: RecordRanking, crs: Seq<CorpusRanking>) -> SearchResult {
    SearchResult {
        corpus: rec.corpus_name,
        trec_id: rec.trec_id,
        url: rec.url,
        corpus_score: crank_of(crs, rec.corpus_id as int) as u64,
        record_score: rec.rank,
        score_mixed: mixed_of(rec.rank as int, crank_of(crs, rec.corpus_id as int)) as i64,
    }
}

/// The unsorted merged list: one result per ranked record, in order.
pub open spec fn merged_of(rr: Seq<RecordRanking>, crs: Seq<CorpusRanking>) -> Seq<SearchResult> {
    rr.map_values(|rec: RecordRanking| merge_entry(rec, crs))
}

/// Insert a result into a list sorted by non-increasing combined score,
/// after every result that scores at least as high: a stable insertion.
pub open spec fn insert_desc(s: Seq<SearchResult>, x: SearchResult) -> Seq<SearchResult>
    decreases s.len(),
{
    if s.len() == 0 {
        seq![x]
    } else if s[0].score_mixed >= x.score_mixed {
        seq![s[0]] + insert_desc(s.drop_first(), x)
    } else {
        seq![x] + s
    }
}

/// Stable insertion sort by non-increasing combined score: the descending
/// order of the result list, with ties kept in discovery order.
pub open spec fn sort_desc(s: Seq<SearchResult>) -> Seq<SearchResult>
    decreases s.len(),
{
    if s.len() == 0 {
        Seq::empty()
    } else {
        insert_desc(sort_desc(s.drop_last()), s.last())
    }
}

/// Combined scores never increase along the list.
pub open spec fn sorted_desc(s: Seq<SearchResult>) -> bool {
    forall|a: int, b: int| 0 <= a < b < s.len() ==> s[a].score_mixed >= s[b].score_mixed
}

proof fn lemma_insert_desc_sorted(s: Seq<SearchResult>, x: SearchResult)
    requires
        sorted_desc(s),
    ensures
        sorted_desc(insert_desc(s, x)),
        insert_desc(s, x).len() == s.len() + 1,
        insert_desc(s, x).to_multiset() == s.to_multiset().insert(x),
    decreases s.len(),
{
    broadcast use vstd::seq_lib::group_seq_properties;

    if s.len() == 0 {
        assert(seq![x].to_multiset() =~= s.to_multiset().insert(x)) by {
            assert(seq![x] =~= s.push(x));
        }
    } else if s[0].score_mixed >= x.score_mixed {
        assert(sorted_desc(s.drop_first()));
        lemma_insert_desc_sorted(s.drop_first(), x);
        let t = insert_desc(s.drop_first(), x);
        let r = seq![s[0]] + t;
        assert forall|a: int, b: int| 0 <= a < b < r.len() implies r[a].score_mixed
            >= r[b].score_mixed by {
            if a > 0 {
                assert(r[a] == t[a - 1] && r[b] == t[b - 1]);
            } else {
                assert(r[b] == t[b - 1]);
                assert(t.to_multiset().contains(t[b - 1]));
                assert(t.to_multiset() == s.drop_first().to_multiset().insert(x));
                if t[b - 1] == x {
                } else {
                    assert(s.drop_first().to_multiset().contains(t[b - 1]));
                    let j = choose|j: int|
                        0 <= j < s.drop_first().len() && s.drop_first()[j] == t[b - 1];
                    assert(s[j + 1] == t[b - 1]);
                }
            }
        }
        assert(r.to_multiset() == s.to_multiset().insert(x)) by {
            assert(r =~= t.insert(0, s[0]));
            assert(s =~= s.drop_first().insert(0, s[0]));
            vstd::seq_lib::lemma_multiset_commutative(seq![s[0]], t);
            vstd::seq_lib::lemma_multiset_commutative(seq![s[0]], s.drop_first());
            assert(s =~= seq![s[0]] + s.drop_first());
            assert(r.to_multiset() == seq![s[0]].to_multiset().add(t.to_multiset()));
            assert(s.to_multiset() == seq![s[0]].to_multiset().add(s.drop_first().to_multiset()));
            assert(seq![s[0]].to_multiset().add(
                s.drop_first().to_multiset().insert(x),
            ) =~= seq![s[0]].to_multiset().add(s.drop_first().to_multiset()).insert(x));
        }
    } else {
        let r = seq![x] + s;
        assert forall|a: int, b: int| 0 <= a < b < r.len() implies r[a].score_mixed
            >= r[b].score_mixed by {
            if a > 0 {
                assert(r[a] == s[a - 1] && r[b] == s[b - 1]);
            } else {
                assert(r[b] == s[b - 1]);
                if b - 1 > 0 {
                    assert(s[0].score_mixed >= s[b - 1].score_mixed);
                }
            }
        }
        assert(r.to_multiset() == s.to_multiset().insert(x)) by {
            vstd::seq_lib::lemma_multiset_commutative(seq![x], s);
            assert(seq![x].to_multiset() =~= Multiset::empty().insert(x)) by {
                assert(seq![x] =~= Seq::<SearchResult>::empty().push(x));
            }
            assert(Multiset::empty().insert(x).add(s.to_multiset()) =~= s.to_multiset().insert(x));
        }
    }
}

/// The sorted list is sorted, has the same length, and is a permutation of
/// what went in.
pub proof fn lemma_sort_desc_properties(s: Seq<SearchResult>)
    ensures
        sorted_desc(sort_desc(s)),
        sort_desc(s).len() == s.len(),
        sort_desc(s).to_multiset() == s.to_multiset(),
    decreases s.len(),
{
    broadcast use vstd::seq_lib::group_seq_properties;

    if s.len() == 0 {
    } else {
        lemma_sort_desc_properties(s.drop_last());
        lemma_insert_desc_sorted(sort_desc(s.drop_last()), s.last());
        assert(s =~= s.drop_last().push(s.last()));
        assert(s.drop_last().push(s.last()).to_multiset() == s.drop_last().to_multiset().insert(
            s.last(),
        ));
    }
}

proof fn lemma_insert_desc_at(s: Seq<SearchResult>, x: SearchResult, p: int)
    requires
        0 <= p <= s.len(),
        forall|q: int| 0 <= q < p ==> s[q].score_mixed >= x.score_mixed,
        p < s.len() ==> s[p].score_mixed < x.score_mixed,
    ensures
        insert_desc(s, x) == s.insert(p, x),
    decreases s.len(),
{
    if s.len() == 0 {
        assert(insert_desc(s, x) =~= s.insert(0, x));
    } else if p == 0 {
        assert(s[0].score_mixed < x.score_mixed);
        assert(insert_desc(s, x) =~= s.insert(0, x));
    } else {
        assert(s[0].score_mixed >= x.score_mixed);
        assert(forall|q: int|
            0 <= q < p - 1 ==> s.drop_first()[q].score_mixed >= x.score_mixed) by {
            assert(forall|q: int| 0 <= q < p - 1 ==> s.drop_first()[q] == s[q + 1]);
        }
        if p - 1 < s.drop_first().len() {
            assert(s.drop_first()[p - 1] == s[p]);
        }
        lemma_insert_desc_at(s.drop_first(), x, p - 1);
        assert(seq![s[0]] + s.drop_first().insert(p - 1, x) =~= s.insert(p, x));
    }
}

/// The word's recorded weight for a corpus, by linear search: the first
/// matching entry, `0` when the corpus has no recorded weight.
pub fn lookup_weight_exec(ws: &Vec<(i32, u64)>, cid: i32) -> (r: u64)
    ensures
        r as int == lookup_weight(ws@, cid as int),
{
    let mut i: usize = 0;
    proof {
        assert(ws@.skip(0) =~= ws@);
    }
    while i < ws.len()
        invariant
            i <= ws@.len(),
            lookup_weight(ws@, cid as int) == lookup_weight(ws@.skip(i as int), cid as int),
        decreases ws@.len() - i,
    {
        proof {
            assert(ws@.skip(i as int)[0] == ws@[i as int]);
            assert(ws@.skip(i as int).drop_first() =~= ws@.skip(i as int + 1));
        }
        if ws[i].0 == cid {
            return ws[i].1;
        }
        i = i + 1;
    }
    proof {
        assert(ws@.skip(ws@.len() as int).len() == 0);
    }
    0
}

proof fn lemma_ctotals_decompose(words: Seq<QueryWord>, i: int, j: int, cid: int)
    requires
        0 <= i < words.len(),
        0 <= j < words[i].word_corpus_tf_idf@.len(),
    ensures
        ({
            let p = (words[i], words[i].word_corpus_tf_idf@[j]);
            let pre = cpairs(words.take(i)) + word_cpairs(words[i]).take(j);
            corpus_x(words, cid) >= sum(
                pre.map_values(|q: (QueryWord, QueryWordCorpusInfo)| cx_term(q, cid)),
            ) + cx_term(p, cid) && corpus_y(words, cid) >= sum(
                pre.map_values(|q: (QueryWord, QueryWordCorpusInfo)| cy_term(q, cid)),
            ) + cy_term(p, cid) && corpus_den(words, cid) >= sum(
                pre.map_values(|q: (QueryWord, QueryWordCorpusInfo)| cden_term(q, cid)),
            ) + cden_term(p, cid)
        }),
{
    let p = (words[i], words[i].word_corpus_tf_idf@[j]);
    let pre = cpairs(words.take(i)) + word_cpairs(words[i]).take(j);
    let rest2 = word_cpairs(words[i]).skip(j + 1) + cpairs(words.skip(i + 1));
    lemma_cpairs_split(words, i, j);
    assert(word_cpairs(words[i]).skip(j) =~= seq![p] + word_cpairs(words[i]).skip(j + 1));
    assert(cpairs(words) =~= pre + (seq![p] + rest2)) by {
        assert((seq![p] + word_cpairs(words[i]).skip(j + 1)) + cpairs(words.skip(i + 1)) =~= seq![p]
            + rest2);
    }
    let fx = |q: (QueryWord, QueryWordCorpusInfo)| cx_term(q, cid);
    let fy = |q: (QueryWord, QueryWordCorpusInfo)| cy_term(q, cid);
    let fd = |q: (QueryWord, QueryWordCorpusInfo)| cden_term(q, cid);
    assert forall|k: int| 0 <= k < rest2.len() implies rest2.map_values(fx)[k] >= 0
        && rest2.map_values(fy)[k] >= 0 && rest2.map_values(fd)[k] >= 0 by {
        lemma_cterms_nonneg(rest2[k], cid);
    }
    lemma_sum_nonneg(rest2.map_values(fx));
    lemma_sum_nonneg(rest2.map_values(fy));
    lemma_sum_nonneg(rest2.map_values(fd));
    assert(cpairs(words).map_values(fx) =~= pre.map_values(fx) + (seq![fx(p)] + rest2.map_values(
        fx,
    )));
    assert(cpairs(words).map_values(fy) =~= pre.map_values(fy) + (seq![fy(p)] + rest2.map_values(
        fy,
    )));
    assert(cpairs(words).map_values(fd) =~= pre.map_values(fd) + (seq![fd(p)] + rest2.map_values(
        fd,
    )));
    lemma_sum_concat(pre.map_values(fx), seq![fx(p)] + rest2.map_values(fx));
    lemma_sum_concat(seq![fx(p)], rest2.map_values(fx));
    lemma_sum_concat(pre.map_values(fy), seq![fy(p)] + rest2.map_values(fy));
    lemma_sum_concat(seq![fy(p)], rest2.map_values(fy));
    lemma_sum_concat(pre.map_values(fd), seq![fd(p)] + rest2.map_values(fd));
    lemma_sum_concat(seq![fd(p)], rest2.map_values(fd));
    assert(sum(seq![fx(p)]) == fx(p)) by {
        assert(seq![fx(p)].drop_last() =~= Seq::<int>::empty());
        assert(sum(Seq::<int>::empty()) == 0);
    }
    assert(sum(seq![fy(p)]) == fy(p)) by {
        assert(seq![fy(p)].drop_last() =~= Seq::<int>::empty());
        assert(sum(Seq::<int>::empty()) == 0);
    }
    assert(sum(seq![fd(p)]) == fd(p)) by {
        assert(seq![fd(p)].drop_last() =~= Seq::<int>::empty());
        assert(sum(Seq::<int>::empty()) == 0);
    }
}

/// Accumulate corpus `cid`'s numerator, document norm and shared
/// denominator over every query word's corpus rows, with checked
/// arithmetic: `None` exactly when a sum leaves the fixed-point range.
#[verifier::loop_isolation(false)]
fn corpus_totals(words: &Vec<QueryWord>, cid: i32) -> (r: Option<(u64, u64, u64)>)
    ensures
        r matches Some(t) ==> t.0 as int == corpus_x(words@, cid as int) && t.1 as int == corpus_y(
            words@,
            cid as int,
        ) && t.2 as int == corpus_den(words@, cid as int),
        r is None ==> corpus_x(words@, cid as int) > u64::MAX || corpus_y(words@, cid as int)
            > u64::MAX || corpus_den(words@, cid as int) > u64::MAX,
{
    let ghost cidg = cid as int;
    let ghost fx = |q: (QueryWord, QueryWordCorpusInfo)| cx_term(q, cidg);
    let ghost fy = |q: (QueryWord, QueryWordCorpusInfo)| cy_term(q, cidg);
    let ghost fd = |q: (QueryWord, QueryWordCorpusInfo)| cden_term(q, cidg);
    let mut x: u64 = 0;
    let mut y: u64 = 0;
    let mut den: u64 = 0;
    let mut i: usize = 0;
    proof {
        assert(cpairs(words@.take(0)).map_values(fx) =~= Seq::<int>::empty());
        assert(cpairs(words@.take(0)).map_values(fy) =~= Seq::<int>::empty());
        assert(cpairs(words@.take(0)).map_values(fd) =~= Seq::<int>::empty());
    }
    while i < words.len()
        invariant
            i <= words@.len(),
            x as int == sum(cpairs(words@.take(i as int)).map_values(fx)),
            y as int == sum(cpairs(words@.take(i as int)).map_values(fy)),
            den as int == sum(cpairs(words@.take(i as int)).map_values(fd)),
        decreases words@.len() - i,
    {
        let w = &words[i];
        let mut j: usize = 0;
        proof {
            assert(cpairs(words@.take(i as int)) + word_cpairs(words@[i as int]).take(0)
                =~= cpairs(words@.take(i as int)));
        }
        while j < w.word_corpus_tf_idf.len()
            invariant
                j <= w.word_corpus_tf_idf@.len(),
                i < words@.len(),
                w == words@[i as int],
                x as int == sum(
                    (cpairs(words@.take(i as int)) + word_cpairs(words@[i as int]).take(
                        j as int,
                    )).map_values(fx),
                ),
                y as int == sum(
                    (cpairs(words@.take(i as int)) + word_cpairs(words@[i as int]).take(
                        j as int,
                    )).map_values(fy),
                ),
                den as int == sum(
                    (cpairs(words@.take(i as int)) + word_cpairs(words@[i as int]).take(
                        j as int,
                    )).map_values(fd),
                ),
            decreases w.word_corpus_tf_idf@.len() - j,
        {
            let ghost pre = cpairs(words@.take(i as int)) + word_cpairs(words@[i as int]).take(
                j as int,
            );
            let ghost p = (words@[i as int], words@[i as int].word_corpus_tf_idf@[j as int]);
            proof {
                lemma_ctotals_decompose(words@, i as int, j as int, cidg);
                assert(pre.push(p) =~= cpairs(words@.take(i as int)) + word_cpairs(
                    words@[i as int],
                ).take(j as int + 1)) by {
                    assert(word_cpairs(words@[i as int]).take(j as int + 1) =~= word_cpairs(
                        words@[i as int],
                    ).take(j as int).push(p));
                }
                assert(pre.push(p).map_values(fx) =~= pre.map_values(fx).push(fx(p)));
                assert(pre.push(p).map_values(fy) =~= pre.map_values(fy).push(fy(p)));
                assert(pre.push(p).map_values(fd) =~= pre.map_values(fd).push(fd(p)));
                lemma_sum_push(pre.map_values(fx), fx(p));
                lemma_sum_push(pre.map_values(fy), fy(p));
                lemma_sum_push(pre.map_values(fd), fd(p));
            }
            let row = &w.word_corpus_tf_idf[j];
            if row.corpus_id == cid {
                let wt = lookup_weight_exec(&w.tfidf, cid);
                let t = match row.tf_idf {
                    Some(v) => v,
                    None => 0,
                };
                let xterm = match wt.checked_mul(t) {
                    Some(v) => v,
                    None => {
                        proof {
                            assert(cx_term(p, cidg) > u64::MAX);
                        }
                        return None;
                    },
                };
                let yterm = match t.checked_mul(t) {
                    Some(v) => v,
                    None => {
                        return None;
                    },
                };
                let dterm = match wt.checked_mul(wt) {
                    Some(v) => v,
                    None => {
                        return None;
                    },
                };
                x = match x.checked_add(xterm) {
                    Some(v) => v,
                    None => {
                        return None;
                    },
                };
                y = match y.checked_add(yterm) {
                    Some(v) => v,
                    None => {
                        return None;
                    },
                };
                den = match den.checked_add(dterm) {
                    Some(v) => v,
                    None => {
                        return None;
                    },
                };
            } else {
                proof {
                    assert(cx_term(p, cidg) == 0);
                    assert(cy_term(p, cidg) == 0);
                    assert(cden_term(p, cidg) == 0);
                }
            }
            j = j + 1;
        }
        proof {
            assert(words@.take(i as int).push(words@[i as int]) =~= words@.take(i as int + 1));
            lemma_cpairs_push(words@.take(i as int), words@[i as int]);
            assert(word_cpairs(words@[i as int]).take(w.word_corpus_tf_idf@.len() as int)
                =~= word_cpairs(words@[i as int]));
        }
        i = i + 1;
    }
    proof {
        assert(words@.take(words@.len() as int) =~= words@);
    }
    Some((x, y, den))
}

/// Accumulate record `rid`'s numerator and document norm over every query
/// word's record rows, with checked arithmetic: `None` exactly when a sum
/// leaves the fixed-point range.
#[verifier::loop_isolation(false)]
fn record_totals(words: &Vec<QueryWord>, rid: i32) -> (r: Option<(u64, u64)>)
    ensures
        r matches Some(t) ==> t.0 as int == record_x(words@, rid as int) && t.1 as int == record_y(
            words@,
            rid as int,
        ),
        r is None ==> record_x(words@, rid as int) > u64::MAX || record_y(words@, rid as int)
            > u64::MAX,
{
    let ghost ridg = rid as int;
    let ghost fx = |q: (QueryWord, QueryWordRecordInfo)| rx_term(q, ridg);
    let ghost fy = |q: (QueryWord, QueryWordRecordInfo)| ry_term(q, ridg);
    let mut x: u64 = 0;
    let mut y: u64 = 0;
    let mut i: usize = 0;
    proof {
        assert(rpairs(words@.take(0)).map_values(fx) =~= Seq::<int>::empty());
        assert(rpairs(words@.take(0)).map_values(fy) =~= Seq::<int>::empty());
    }
    while i < words.len()
        invariant
            i <= words@.len(),
            x as int == sum(rpairs(words@.take(i as int)).map_values(fx)),
            y as int == sum(rpairs(words@.take(i as int)).map_values(fy)),
        decreases words@.len() - i,
    {
        let w = &words[i];
        let mut j: usize = 0;
        proof {
            assert(rpairs(words@.take(i as int)) + word_rpairs(words@[i as int]).take(0)
                =~= rpairs(words@.take(i as int)));
        }
        while j < w.word_record_tf_idf.len()
            invariant
                j <= w.word_record_tf_idf@.len(),
                i < words@.len(),
                w == words@[i as int],
                x as int == sum(
                    (rpairs(words@.take(i as int)) + word_rpairs(words@[i as int]).take(
                        j as int,
                    )).map_values(fx),
                ),
                y as int == sum(
                    (rpairs(words@.take(i as int)) + word_rpairs(words@[i as int]).take(
                        j as int,
                    )).map_values(fy),
                ),
            decreases w.word_record_tf_idf@.len() - j,
        {
            let ghost pre = rpairs(words@.take(i as int)) + word_rpairs(words@[i as int]).take(
                j as int,
            );
            let ghost p = (words@[i as int], words@[i as int].word_record_tf_idf@[j as int]);
            proof {
                lemma_rtotals_decompose(words@, i as int, j as int, ridg);
                assert(pre.push(p) =~= rpairs(words@.take(i as int)) + word_rpairs(
                    words@[i as int],
                ).take(j as int + 1)) by {
                    assert(word_rpairs(words@[i as int]).take(j as int + 1) =~= word_rpairs(
                        words@[i as int],
                    ).take(j as int).push(p));
                }
                assert(pre.push(p).map_values(fx) =~= pre.map_values(fx).push(fx(p)));
                assert(pre.push(p).map_values(fy) =~= pre.map_values(fy).push(fy(p)));
                lemma_sum_push(pre.map_values(fx), fx(p));
                lemma_sum_push(pre.map_values(fy), fy(p));
            }
            let row = &w.word_record_tf_idf[j];
            if row.record_id == rid {
                let wt = lookup_weight_exec(&w.tfidf, row.corpus_id);
                let t = match row.tf_idf {
                    Some(v) => v,
                    None => 0,
                };
                let xterm = match wt.checked_mul(t) {
                    Some(v) => v,
                    None => {
                        return None;
                    },
                };
                let yterm = match t.checked_mul(t) {
                    Some(v) => v,
                    None => {
                        return None;
                    },
                };
                x = match x.checked_add(xterm) {
                    Some(v) => v,
                    None => {
                        return None;
                    },
                };
                y = match y.checked_add(yterm) {
                    Some(v) => v,
                    None => {
                        return None;
                    },
                };
            } else {
                proof {
                    assert(rx_term(p, ridg) == 0);
                    assert(ry_term(p, ridg) == 0);
                }
            }
            j = j + 1;
        }
        proof {
            assert(words@.take(i as int).push(words@[i as int]) =~= words@.take(i as int + 1));
            lemma_cpairs_push(words@.take(i as int), words@[i as int]);
            assert(word_rpairs(words@[i as int]).take(w.word_record_tf_idf@.len() as int)
                =~= word_rpairs(words@[i as int]));
        }
        i = i + 1;
    }
    proof {
        assert(words@.take(words@.len() as int) =~= words@);
    }
    Some((x, y))
}

/// Every corpus a row mentions has sums inside the fixed-point range.
pub open spec fn corpus_sums_fit(words: Seq<QueryWord>) -> bool {
    forall|k: int|
        0 <= k < cpairs(words).len() ==> corpus_x(
            words,
            (#[trigger] cpairs(words)[k]).1.corpus_id as int,
        ) <= u64::MAX && corpus_y(words, cpairs(words)[k].1.corpus_id as int) <= u64::MAX
            && corpus_den(words, cpairs(words)[k].1.corpus_id as int) <= u64::MAX
}

/// Every record a row mentions has sums inside the fixed-point range.
pub open spec fn record_sums_fit(words: Seq<QueryWord>) -> bool {
    forall|k: int|
        0 <= k < rpairs(words).len() ==> record_x(
            words,
            (#[trigger] rpairs(words)[k]).1.record_id as int,
        ) <= u64::MAX && record_y(words, rpairs(words)[k].1.record_id as int) <= u64::MAX
}

/// Every ranked record's owning corpus (as captured from its first row) is
/// mentioned by some corpus row, so its corpus score exists.
pub open spec fn corpora_covered(words: Seq<QueryWord>) -> bool {
    forall|k: int|
        0 <= k < rids_in_order(rpairs(words)).len() ==> has_corpus(
            words,
            first_rrow(words, #[trigger] rids_in_order(rpairs(words))[k]).corpus_id as int,
        )
}

/// The one result the ranking owes record `rid`: identity from the
/// record's first row, both cosine scores from the accumulated sums, and
/// the combined score from the two.
pub open spec fn result_for(words: Seq<QueryWord>, rid: int) -> SearchResult {
    let row = first_rrow(words, rid);
    let cid = row.corpus_id as int;
    let cs = score_of(corpus_x(words, cid), corpus_den(words, cid), corpus_y(words, cid));
    let rs = score_of(record_x(words, rid), corpus_den(words, cid), record_y(words, rid));
    SearchResult {
        corpus: row.corpus_name,
        trec_id: row.trec_id,
        url: row.url,
        corpus_score: cs as u64,
        record_score: rs as u64,
        score_mixed: mixed_of(rs, cs) as i64,
    }
}

/// The unsorted result list: one result per distinct record, in order of
/// first appearance.
pub open spec fn merged_spec(words: Seq<QueryWord>) -> Seq<SearchResult> {
    rids_in_order(rpairs(words)).map_values(|rid: int| result_for(words, rid))
}

/// The entire ranking, as a function of the query words and their
/// statistics alone: the merged results sorted by non-increasing combined
/// score, ties kept in order of first appearance.
pub open spec fn search_rank_spec(words: Seq<QueryWord>) -> Seq<SearchResult> {
    sort_desc(merged_spec(words))
}

proof fn lemma_rtotals_decompose(words: Seq<QueryWord>, i: int, j: int, rid: int)
    requires
        0 <= i < words.len(),
        0 <= j < words[i].word_record_tf_idf@.len(),
    ensures
        ({
            let p = (words[i], words[i].word_record_tf_idf@[j]);
            let pre = rpairs(words.take(i)) + word_rpairs(words[i]).take(j);
            record_x(words, rid) >= sum(
                pre.map_values(|q: (QueryWord, QueryWordRecordInfo)| rx_term(q, rid)),
            ) + rx_term(p, rid) && record_y(words, rid) >= sum(
                pre.map_values(|q: (QueryWord, QueryWordRecordInfo)| ry_term(q, rid)),
            ) + ry_term(p, rid)
        }),
{
    let p = (words[i], words[i].word_record_tf_idf@[j]);
    let pre = rpairs(words.take(i)) + word_rpairs(words[i]).take(j);
    let rest2 = word_rpairs(words[i]).skip(j + 1) + rpairs(words.skip(i + 1));
    lemma_rpairs_split(words, i, j);
    assert(word_rpairs(words[i]).skip(j) =~= seq![p] + word_rpairs(words[i]).skip(j + 1));
    assert(rpairs(words) =~= pre + (seq![p] + rest2)) by {
        assert((seq![p] + word_rpairs(words[i]).skip(j + 1)) + rpairs(words.skip(i + 1)) =~= seq![p]
            + rest2);
    }
    let fx = |q: (QueryWord, QueryWordRecordInfo)| rx_term(q, rid);
    let fy = |q: (QueryWord, QueryWordRecordInfo)| ry_term(q, rid);
    assert forall|k: int| 0 <= k < rest2.len() implies rest2.map_values(fx)[k] >= 0
        && rest2.map_values(fy)[k] >= 0 by {
        lemma_rterms_nonneg(rest2[k], rid);
    }
    lemma_sum_nonneg(rest2.map_values(fx));
    lemma_sum_nonneg(rest2.map_values(fy));
    assert(rpairs(words).map_values(fx) =~= pre.map_values(fx) + (seq![fx(p)] + rest2.map_values(
        fx,
    )));
    assert(rpairs(words).map_values(fy) =~= pre.map_values(fy) + (seq![fy(p)] + rest2.map_values(
        fy,
    )));
    lemma_sum_concat(pre.map_values(fx), seq![fx(p)] + rest2.map_values(fx));
    lemma_sum_concat(seq![fx(p)], rest2.map_values(fx));
    lemma_sum_concat(pre.map_values(fy), seq![fy(p)] + rest2.map_values(fy));
    lemma_sum_concat(seq![fy(p)], rest2.map_values(fy));
    assert(sum(seq![fx(p)]) == fx(p)) by {
        assert(seq![fx(p)].drop_last() =~= Seq::<int>::empty());
        assert(sum(Seq::<int>::empty()) == 0);
    }
    assert(sum(seq![fy(p)]) == fy(p)) by {
        assert(seq![fy(p)].drop_last() =~= Seq::<int>::empty());
        assert(sum(Seq::<int>::empty()) == 0);
    }
}

/// Some collected id entry is for `cid`.
pub open spec fn has_entry_id(ids: Seq<(i32, String)>, cid: int) -> bool {
    exists|k: int| 0 <= k < ids.len() && ids[k].0 as int == cid
}

fn contains_entry_id(ids: &Vec<(i32, String)>, cid: i32) -> (r: bool)
    ensures
        r == has_entry_id(ids@, cid as int),
{
    let mut i: usize = 0;
    while i < ids.len()
        invariant
            i <= ids@.len(),
            forall|k: int| 0 <= k < i ==> (#[trigger] ids@[k]).0 != cid,
        decreases ids@.len() - i,
    {
        if ids[i].0 == cid {
            return true;
        }
        i = i + 1;
    }
    proof {
        if has_entry_id(ids@, cid as int) {
            let k = choose|k: int| 0 <= k < ids@.len() && ids@[k].0 as int == cid as int;
            assert(ids@[k].0 != cid);
        }
    }
    false
}

/// Collect each corpus id some corpus row mentions, with the corpus name
/// captured at first encounter.
#[verifier::loop_isolation(false)]
fn collect_corpus_ids(words: &Vec<QueryWord>) -> (ids: Vec<(i32, String)>)
    ensures
        forall|pi: int|
            0 <= pi < cpairs(words@).len() ==> has_entry_id(
                ids@,
                (#[trigger] cpairs(words@)[pi]).1.corpus_id as int,
            ),
        forall|k: int| 0 <= k < ids@.len() ==> has_corpus(words@, (#[trigger] ids@[k]).0 as int),
{
    let mut ids: Vec<(i32, String)> = Vec::new();
    let mut i: usize = 0;
    proof {
        assert(cpairs(words@.take(0)) =~= Seq::<(QueryWord, QueryWordCorpusInfo)>::empty());
    }
    while i < words.len()
        invariant
            i <= words@.len(),
            forall|pi: int|
                0 <= pi < cpairs(words@.take(i as int)).len() ==> has_entry_id(
                    ids@,
                    (#[trigger] cpairs(words@.take(i as int))[pi]).1.corpus_id as int,
                ),
            forall|k: int| 0 <= k < ids@.len() ==> has_corpus(words@, (#[trigger] ids@[k]).0 as int),
        decreases words@.len() - i,
    {
        let w = &words[i];
        let mut j: usize = 0;
        proof {
            assert(cpairs(words@.take(i as int)) + word_cpairs(words@[i as int]).take(0)
                =~= cpairs(words@.take(i as int)));
        }
        while j < w.word_corpus_tf_idf.len()
            invariant
                j <= w.word_corpus_tf_idf@.len(),
                i < words@.len(),
                w == words@[i as int],
                forall|pi: int|
                    0 <= pi < (cpairs(words@.take(i as int)) + word_cpairs(words@[i as int]).take(
                        j as int,
                    )).len() ==> has_entry_id(
                        ids@,
                        (#[trigger] (cpairs(words@.take(i as int)) + word_cpairs(
                            words@[i as int],
                        ).take(j as int))[pi]).1.corpus_id as int,
                    ),
                forall|k: int|
                    0 <= k < ids@.len() ==> has_corpus(words@, (#[trigger] ids@[k]).0 as int),
            decreases w.word_corpus_tf_idf@.len() - j,
        {
            let ghost pre = cpairs(words@.take(i as int)) + word_cpairs(words@[i as int]).take(
                j as int,
            );
            let ghost p = (words@[i as int], words@[i as int].word_corpus_tf_idf@[j as int]);
            proof {
                assert(pre.push(p) =~= cpairs(words@.take(i as int)) + word_cpairs(
                    words@[i as int],
                ).take(j as int + 1)) by {
                    assert(word_cpairs(words@[i as int]).take(j as int + 1) =~= word_cpairs(
                        words@[i as int],
                    ).take(j as int).push(p));
                }
                lemma_cpairs_split(words@, i as int, j as int);
                assert(cpairs(words@)[pre.len() as int] == p) by {
                    assert(word_cpairs(words@[i as int]).skip(j as int)[0] == p);
                }
            }
            let row = &w.word_corpus_tf_idf[j];
            if !contains_entry_id(&ids, row.corpus_id) {
                let ghost old_ids = ids@;
                ids.push((row.corpus_id, row.corpus_name.clone()));
                proof {
                    assert forall|k: int| 0 <= k < ids@.len() implies has_corpus(
                        words@,
                        (#[trigger] ids@[k]).0 as int,
                    ) by {
                        if k < old_ids.len() {
                            assert(ids@[k] == old_ids[k]);
                        } else {
                            assert(ids@[k].0 == p.1.corpus_id);
                            assert(cpairs(words@)[pre.len() as int].1.corpus_id as int
                                == p.1.corpus_id as int);
                        }
                    }
                    assert forall|pi: int| 0 <= pi < pre.push(p).len() implies has_entry_id(
                        ids@,
                        (#[trigger] pre.push(p)[pi]).1.corpus_id as int,
                    ) by {
                        if pi < pre.len() {
                            assert(pre.push(p)[pi] == pre[pi]);
                            let k = choose|k: int|
                                0 <= k < old_ids.len() && old_ids[k].0 as int
                                    == pre[pi].1.corpus_id as int;
                            assert(ids@[k].0 as int == pre[pi].1.corpus_id as int);
                        } else {
                            assert(ids@[old_ids.len() as int].0 as int == p.1.corpus_id as int);
                        }
                    }
                }
            } else {
                proof {
                    assert forall|pi: int| 0 <= pi < pre.push(p).len() implies has_entry_id(
                        ids@,
                        (#[trigger] pre.push(p)[pi]).1.corpus_id as int,
                    ) by {
                        if pi < pre.len() {
                            assert(pre.push(p)[pi] == pre[pi]);
                        }
                    }
                }
            }
            j = j + 1;
        }
        proof {
            assert(words@.take(i as int).push(words@[i as int]) =~= words@.take(i as int + 1));
            lemma_cpairs_push(words@.take(i as int), words@[i as int]);
            assert(word_cpairs(words@[i as int]).take(w.word_corpus_tf_idf@.len() as int)
                =~= word_cpairs(words@[i as int]));
        }
        i = i + 1;
    }
    proof {
        assert(words@.take(words@.len() as int) =~= words@);
    }
    ids
}

/// Rank every corpus some row mentions: its cosine score from the
/// accumulated sums, with checked accumulation.
#[verifier::loop_isolation(false)]
#[verifier::rlimit(30)]
fn build_corpus_ranking(words: &Vec<QueryWord>) -> (r: Result<Vec<CorpusRanking>, SearchError>)
    ensures
        r matches Ok(cr) ==> (forall|k: int|
            0 <= k < cr@.len() ==> (#[trigger] cr@[k]).rank as int == score_of(
                corpus_x(words@, cr@[k].corpus_id as int),
                corpus_den(words@, cr@[k].corpus_id as int),
                corpus_y(words@, cr@[k].corpus_id as int),
            ) && cr@[k].rank <= SCALE && has_corpus(words@, cr@[k].corpus_id as int)) && (
        forall|pi: int|
            0 <= pi < cpairs(words@).len() ==> has_crank(
                cr@,
                (#[trigger] cpairs(words@)[pi]).1.corpus_id as int,
            )) && corpus_sums_fit(words@),
        r is Err ==> r == Err::<Vec<CorpusRanking>, SearchError>(SearchError::ArithmeticOverflow)
            && !corpus_sums_fit(words@),
{
    let ids = collect_corpus_ids(words);
    let mut cr: Vec<CorpusRanking> = Vec::new();
    let mut k: usize = 0;
    while k < ids.len()
        invariant
            k <= ids@.len(),
            cr@.len() == k,
            forall|k2: int|
                0 <= k2 < k ==> (#[trigger] cr@[k2]).corpus_id == ids@[k2].0 && cr@[k2].rank as int
                    == score_of(
                    corpus_x(words@, ids@[k2].0 as int),
                    corpus_den(words@, ids@[k2].0 as int),
                    corpus_y(words@, ids@[k2].0 as int),
                ) && cr@[k2].rank <= SCALE && cr@[k2].x as int == corpus_x(
                    words@,
                    ids@[k2].0 as int,
                ) && cr@[k2].y as int == corpus_y(words@, ids@[k2].0 as int) && corpus_den(
                    words@,
                    ids@[k2].0 as int,
                ) <= u64::MAX && has_corpus(words@, cr@[k2].corpus_id as int),
        decreases ids@.len() - k,
    {
        let cid = ids[k].0;
        let name = ids[k].1.clone();
        match corpus_totals(words, cid) {
            Some(t) => {
                let rank = cosine_score(t.0, t.2, t.1);
                let ghost old_cr = cr@;
                cr.push(CorpusRanking { corpus_name: name, corpus_id: cid, rank, x: t.0, y: t.1 });
                proof {
                    assert(forall|k2: int| 0 <= k2 < old_cr.len() ==> cr@[k2] == old_cr[k2]);
                    assert(cr@[k as int].corpus_id == ids@[k as int].0);
                    assert(cr@[k as int].rank == rank);
                    assert(cr@[k as int].x == t.0 && cr@[k as int].y == t.1);
                    assert(rank as int == score_of(
                        corpus_x(words@, ids@[k as int].0 as int),
                        corpus_den(words@, ids@[k as int].0 as int),
                        corpus_y(words@, ids@[k as int].0 as int),
                    ));
                    assert(corpus_den(words@, ids@[k as int].0 as int) <= u64::MAX);
                    assert(has_corpus(words@, ids@[k as int].0 as int));
                }
            },
            None => {
                proof {
                    if corpus_sums_fit(words@) {
                        let cidg = cid as int;
                        assert(has_corpus(words@, cidg));
                        let pi = choose|j: int|
                            0 <= j < cpairs(words@).len() && cpairs(words@)[j].1.corpus_id as int
                                == cidg;
                        assert(cpairs(words@)[pi].1.corpus_id as int == cidg);
                        assert(false);
                    }
                }
                return Err(SearchError::ArithmeticOverflow);
            },
        }
        k = k + 1;
    }
    proof {
        assert forall|pi: int| 0 <= pi < cpairs(words@).len() implies has_crank(
            cr@,
            (#[trigger] cpairs(words@)[pi]).1.corpus_id as int,
        ) by {
            let cidg = cpairs(words@)[pi].1.corpus_id as int;
            let k2 = choose|k2: int| 0 <= k2 < ids@.len() && ids@[k2].0 as int == cidg;
            assert(cr@[k2].corpus_id as int == cidg);
        }
        assert forall|pi: int| 0 <= pi < cpairs(words@).len() implies corpus_x(
            words@,
            (#[trigger] cpairs(words@)[pi]).1.corpus_id as int,
        ) <= u64::MAX && corpus_y(words@, cpairs(words@)[pi].1.corpus_id as int) <= u64::MAX
            && corpus_den(words@, cpairs(words@)[pi].1.corpus_id as int) <= u64::MAX by {
            let cidg = cpairs(words@)[pi].1.corpus_id as int;
            let k2 = choose|k2: int| 0 <= k2 < ids@.len() && ids@[k2].0 as int == cidg;
            assert(cr@[k2].x as int == corpus_x(words@, cidg));
            assert(cr@[k2].y as int == corpus_y(words@, cidg));
        }
    }
    Ok(cr)
}

fn contains_record_key(keys: &Vec<RecordRanking>, rid: i32) -> (r: bool)
    ensures
        r == exists|k: int| 0 <= k < keys@.len() && (#[trigger] keys@[k]).record_id == rid,
{
    let mut i: usize = 0;
    while i < keys.len()
        invariant
            i <= keys@.len(),
            forall|k: int| 0 <= k < i ==> (#[trigger] keys@[k]).record_id != rid,
        decreases keys@.len() - i,
    {
        if keys[i].record_id == rid {
            return true;
        }
        i = i + 1;
    }
    false
}

/// Collect the distinct record ids of the query in order of first
/// appearance, with each record's identity fields captured from its first
/// row and never overwritten.
#[verifier::loop_isolation(false)]
fn collect_record_keys(words: &Vec<QueryWord>) -> (keys: Vec<RecordRanking>)
    ensures
        keys@.map_values(|e: RecordRanking| e.record_id as int) == rids_in_order(rpairs(words@)),
        forall|k: int|
            0 <= k < keys@.len() ==> (#[trigger] keys@[k]).corpus_name == first_rrow(
                words@,
                keys@[k].record_id as int,
            ).corpus_name && keys@[k].trec_id == first_rrow(
                words@,
                keys@[k].record_id as int,
            ).trec_id && keys@[k].url == first_rrow(words@, keys@[k].record_id as int).url
                && keys@[k].corpus_id == first_rrow(words@, keys@[k].record_id as int).corpus_id,
{
    let mut keys: Vec<RecordRanking> = Vec::new();
    let mut i: usize = 0;
    proof {
        assert(rpairs(words@.take(0)) =~= Seq::<(QueryWord, QueryWordRecordInfo)>::empty());
        assert(keys@.map_values(|e: RecordRanking| e.record_id as int) =~= rids_in_order(
            rpairs(words@.take(0)),
        ));
    }
    while i < words.len()
        invariant
            i <= words@.len(),
            keys@.map_values(|e: RecordRanking| e.record_id as int) == rids_in_order(
                rpairs(words@.take(i as int)),
            ),
            forall|k: int|
                0 <= k < keys@.len() ==> (#[trigger] keys@[k]).corpus_name == first_rrow(
                    words@,
                    keys@[k].record_id as int,
                ).corpus_name && keys@[k].trec_id == first_rrow(
                    words@,
                    keys@[k].record_id as int,
                ).trec_id && keys@[k].url == first_rrow(words@, keys@[k].record_id as int).url
                    && keys@[k].corpus_id == first_rrow(
                    words@,
                    keys@[k].record_id as int,
                ).corpus_id,
        decreases words@.len() - i,
    {
        let w = &words[i];
        let mut j: usize = 0;
        proof {
            assert(rpairs(words@.take(i as int)) + word_rpairs(words@[i as int]).take(0)
                =~= rpairs(words@.take(i as int)));
        }
        while j < w.word_record_tf_idf.len()
            invariant
                j <= w.word_record_tf_idf@.len(),
                i < words@.len(),
                w == words@[i as int],
                keys@.map_values(|e: RecordRanking| e.record_id as int) == rids_in_order(
                    rpairs(words@.take(i as int)) + word_rpairs(words@[i as int]).take(j as int),
                ),
                forall|k: int|
                    0 <= k < keys@.len() ==> (#[trigger] keys@[k]).corpus_name == first_rrow(
                        words@,
                        keys@[k].record_id as int,
                    ).corpus_name && keys@[k].trec_id == first_rrow(
                        words@,
                        keys@[k].record_id as int,
                    ).trec_id && keys@[k].url == first_rrow(words@, keys@[k].record_id as int).url
                        && keys@[k].corpus_id == first_rrow(
                        words@,
                        keys@[k].record_id as int,
                    ).corpus_id,
            decreases w.word_record_tf_idf@.len() - j,
        {
            let ghost pre = rpairs(words@.take(i as int)) + word_rpairs(words@[i as int]).take(
                j as int,
            );
            let ghost p = (words@[i as int], words@[i as int].word_record_tf_idf@[j as int]);
            let ghost mapped = keys@.map_values(|e: RecordRanking| e.record_id as int);
            proof {
                assert(pre.push(p) =~= rpairs(words@.take(i as int)) + word_rpairs(
                    words@[i as int],
                ).take(j as int + 1)) by {
                    assert(word_rpairs(words@[i as int]).take(j as int + 1) =~= word_rpairs(
                        words@[i as int],
                    ).take(j as int).push(p));
                }
                assert(pre.push(p).drop_last() =~= pre);
                lemma_rids_contains(pre, p.1.record_id as int);
            }
            let row = &w.word_record_tf_idf[j];
            if !contains_record_key(&keys, row.record_id) {
                proof {
                    // the exec check decides membership in the collected rid
                    // sequence, which is membership among the processed rows
                    assert(!mapped.contains(p.1.record_id as int)) by {
                        if mapped.contains(p.1.record_id as int) {
                            let k = choose|k: int|
                                0 <= k < mapped.len() && mapped[k] == p.1.record_id as int;
                            assert(keys@[k].record_id == row.record_id);
                        }
                    }
                    assert(!has_rid(pre, p.1.record_id as int));
                    // the current row is the first one for this record id
                    let rest = word_rpairs(words@[i as int]).skip(j as int + 1) + rpairs(
                        words@.skip(i as int + 1),
                    );
                    lemma_rpairs_split(words@, i as int, j as int);
                    assert(word_rpairs(words@[i as int]).skip(j as int) =~= seq![p] + word_rpairs(
                        words@[i as int],
                    ).skip(j as int + 1));
                    assert(rpairs(words@) =~= pre + seq![p] + rest) by {
                        assert((seq![p] + word_rpairs(words@[i as int]).skip(j as int + 1)) + rpairs(
                            words@.skip(i as int + 1),
                        ) =~= seq![p] + rest);
                        assert(pre + (seq![p] + rest) =~= pre + seq![p] + rest);
                    }
                    lemma_first_idx_r_concat(pre, p, rest, p.1.record_id as int);
                    assert(first_rrow(words@, p.1.record_id as int) == p.1);
                }
                let ghost old_keys = keys@;
                keys.push(
                    RecordRanking {
                        corpus_name: row.corpus_name.clone(),
                        corpus_id: row.corpus_id,
                        url: row.url.clone(),
                        trec_id: row.trec_id.clone(),
                        record_id: row.record_id,
                        rank: 0,
                        x: 0,
                        y: 0,
                    },
                );
                proof {
                    assert(forall|k: int| 0 <= k < old_keys.len() ==> keys@[k] == old_keys[k]);
                    assert(keys@[old_keys.len() as int].record_id == row.record_id);
                    assert(keys@.map_values(|e: RecordRanking| e.record_id as int) =~= mapped.push(
                        p.1.record_id as int,
                    ));
                    assert(rids_in_order(pre.push(p)) == mapped.push(p.1.record_id as int));
                }
            } else {
                proof {
                    assert(mapped.contains(p.1.record_id as int)) by {
                        let k = choose|k: int|
                            0 <= k < keys@.len() && keys@[k].record_id == row.record_id;
                        assert(mapped[k] == p.1.record_id as int);
                    }
                    assert(rids_in_order(pre.push(p)) == mapped);
                }
            }
            j = j + 1;
        }
        proof {
            assert(words@.take(i as int).push(words@[i as int]) =~= words@.take(i as int + 1));
            lemma_cpairs_push(words@.take(i as int), words@[i as int]);
            assert(word_rpairs(words@[i as int]).take(w.word_record_tf_idf@.len() as int)
                =~= word_rpairs(words@[i as int]));
        }
        i = i + 1;
    }
    proof {
        assert(words@.take(words@.len() as int) =~= words@);
    }
    keys
}

/// Rank every record some row mentions: its cosine score against the
/// shared denominator of its owning corpus, with checked accumulation.
#[verifier::loop_isolation(false)]
fn build_record_ranking(words: &Vec<QueryWord>) -> (r: Result<Vec<RecordRanking>, SearchError>)
    ensures
        r matches Ok(rr) ==> rr@.map_values(|e: RecordRanking| e.record_id as int)
            == rids_in_order(rpairs(words@)) && (forall|k: int|
            0 <= k < rr@.len() ==> (#[trigger] rr@[k]).corpus_name == first_rrow(
                words@,
                rr@[k].record_id as int,
            ).corpus_name && rr@[k].trec_id == first_rrow(words@, rr@[k].record_id as int).trec_id
                && rr@[k].url == first_rrow(words@, rr@[k].record_id as int).url && rr@[k].corpus_id
                == first_rrow(words@, rr@[k].record_id as int).corpus_id && rr@[k].rank as int
                == score_of(
                record_x(words@, rr@[k].record_id as int),
                corpus_den(words@, rr@[k].corpus_id as int),
                record_y(words@, rr@[k].record_id as int),
            ) && rr@[k].rank <= SCALE && rr@[k].x as int == record_x(
                words@,
                rr@[k].record_id as int,
            ) && rr@[k].y as int == record_y(words@, rr@[k].record_id as int)) && record_sums_fit(
            words@,
        ),
        r is Err ==> r == Err::<Vec<RecordRanking>, SearchError>(SearchError::ArithmeticOverflow)
            && !(corpus_sums_fit(words@) && record_sums_fit(words@)),
{
    let keys = collect_record_keys(words);
    let ghost mapped = keys@.map_values(|e: RecordRanking| e.record_id as int);
    let mut rr: Vec<RecordRanking> = Vec::new();
    let mut k: usize = 0;
    while k < keys.len()
        invariant
            k <= keys@.len(),
            rr@.len() == k,
            forall|k2: int|
                0 <= k2 < k ==> (#[trigger] rr@[k2]).record_id == keys@[k2].record_id
                    && rr@[k2].corpus_name == keys@[k2].corpus_name && rr@[k2].trec_id
                    == keys@[k2].trec_id && rr@[k2].url == keys@[k2].url && rr@[k2].corpus_id
                    == keys@[k2].corpus_id && rr@[k2].rank as int == score_of(
                    record_x(words@, rr@[k2].record_id as int),
                    corpus_den(words@, rr@[k2].corpus_id as int),
                    record_y(words@, rr@[k2].record_id as int),
                ) && rr@[k2].rank <= SCALE && rr@[k2].x as int == record_x(
                    words@,
                    rr@[k2].record_id as int,
                ) && rr@[k2].y as int == record_y(words@, rr@[k2].record_id as int),
        decreases keys@.len() - k,
    {
        let rid = keys[k].record_id;
        let cid = keys[k].corpus_id;
        let rt = match record_totals(words, rid) {
            Some(t) => t,
            None => {
                proof {
                    if record_sums_fit(words@) {
                        let ridg = rid as int;
                        assert(mapped[k as int] == ridg);
                        assert(rids_in_order(rpairs(words@)).contains(ridg));
                        lemma_rids_contains(rpairs(words@), ridg);
                        let pi = choose|j: int|
                            0 <= j < rpairs(words@).len() && rpairs(words@)[j].1.record_id as int
                                == ridg;
                        assert(rpairs(words@)[pi].1.record_id as int == ridg);
                        assert(false);
                    }
                }
                return Err(SearchError::ArithmeticOverflow);
            },
        };
        let ct = match corpus_totals(words, cid) {
            Some(t) => t,
            None => {
                proof {
                    let cidg = cid as int;
                    if !has_corpus(words@, cidg) {
                        lemma_no_corpus_sums_zero(words@, cidg);
                        assert(false);
                    }
                    if corpus_sums_fit(words@) {
                        let pi = choose|j: int|
                            0 <= j < cpairs(words@).len() && cpairs(words@)[j].1.corpus_id as int
                                == cidg;
                        assert(cpairs(words@)[pi].1.corpus_id as int == cidg);
                        assert(false);
                    }
                }
                return Err(SearchError::ArithmeticOverflow);
            },
        };
        let rank = cosine_score(rt.0, ct.2, rt.1);
        let ghost old_rr = rr@;
        rr.push(
            RecordRanking {
                corpus_name: keys[k].corpus_name.clone(),
                corpus_id: cid,
                url: keys[k].url.clone(),
                trec_id: keys[k].trec_id.clone(),
                record_id: rid,
                rank,
                x: rt.0,
                y: rt.1,
            },
        );
        proof {
            assert(forall|k2: int| 0 <= k2 < old_rr.len() ==> rr@[k2] == old_rr[k2]);
            assert(rr@[k as int].record_id == keys@[k as int].record_id);
        }
        k = k + 1;
    }
    proof {
        assert(rr@.map_values(|e: RecordRanking| e.record_id as int) =~= mapped);
        assert forall|pi: int| 0 <= pi < rpairs(words@).len() implies record_x(
            words@,
            (#[trigger] rpairs(words@)[pi]).1.record_id as int,
        ) <= u64::MAX && record_y(words@, rpairs(words@)[pi].1.record_id as int) <= u64::MAX by {
            let ridg = rpairs(words@)[pi].1.record_id as int;
            lemma_rids_contains(rpairs(words@), ridg);
            assert(rids_in_order(rpairs(words@)).contains(ridg));
            let k2 = choose|k2: int| 0 <= k2 < mapped.len() && mapped[k2] == ridg;
            assert(keys@[k2].record_id as int == ridg);
            assert(rr@[k2].x as int == record_x(words@, ridg));
            assert(rr@[k2].y as int == record_y(words@, ridg));
        }
    }
    Ok(rr)
}

#[verifier::loop_isolation(false)]
fn find_rank(corpus_ranking: &Vec<CorpusRanking>, cid: i32) -> (r: Option<u64>)
    requires
        forall|k: int| 0 <= k < corpus_ranking@.len() ==> (#[trigger] corpus_ranking@[k]).rank
            <= SCALE,
    ensures
        r matches Some(v) ==> has_crank(corpus_ranking@, cid as int) && v as int == crank_of(
            corpus_ranking@,
            cid as int,
        ) && v <= SCALE,
        r is None ==> !has_crank(corpus_ranking@, cid as int),
{
    let mut i: usize = 0;
    proof {
        assert(corpus_ranking@.skip(0) =~= corpus_ranking@);
    }
    while i < corpus_ranking.len()
        invariant
            i <= corpus_ranking@.len(),
            crank_of(corpus_ranking@, cid as int) == crank_of(
                corpus_ranking@.skip(i as int),
                cid as int,
            ),
            has_crank(corpus_ranking@, cid as int) == has_crank(
                corpus_ranking@.skip(i as int),
                cid as int,
            ),
        decreases corpus_ranking@.len() - i,
    {
        proof {
            assert(corpus_ranking@.skip(i as int)[0] == corpus_ranking@[i as int]);
            assert(corpus_ranking@.skip(i as int).drop_first() =~= corpus_ranking@.skip(
                i as int + 1,
            ));
        }
        if corpus_ranking[i].corpus_id == cid {
            proof {
                assert(has_crank(corpus_ranking@.skip(i as int), cid as int)) by {
                    assert(corpus_ranking@.skip(i as int)[0].corpus_id as int == cid as int);
                }
                assert(crank_of(corpus_ranking@.skip(i as int), cid as int)
                    == corpus_ranking@[i as int].rank as int);
            }
            return Some(corpus_ranking[i].rank);
        }
        proof {
            let s = corpus_ranking@.skip(i as int);
            let t = corpus_ranking@.skip(i as int + 1);
            assert(has_crank(s, cid as int) == has_crank(t, cid as int)) by {
                if has_crank(s, cid as int) {
                    let j = choose|j: int| 0 <= j < s.len() && s[j].corpus_id as int == cid as int;
                    assert(j > 0);
                    assert(t[j - 1].corpus_id as int == cid as int);
                }
                if has_crank(t, cid as int) {
                    let j = choose|j: int| 0 <= j < t.len() && t[j].corpus_id as int == cid as int;
                    assert(s[j + 1].corpus_id as int == cid as int);
                }
            }
        }
        i = i + 1;
    }
    proof {
        assert(corpus_ranking@.skip(corpus_ranking@.len() as int).len() == 0);
    }
    None
}

fn copy_result(x: &SearchResult) -> (r: SearchResult)
    ensures
        r == *x,
{
    SearchResult {
        corpus: x.corpus.clone(),
        trec_id: x.trec_id.clone(),
        url: x.url.clone(),
        corpus_score: x.corpus_score,
        record_score: x.record_score,
        score_mixed: x.score_mixed,
    }
}

/// Sort the merged results by non-increasing combined score, keeping ties
/// in discovery order: a stable insertion sort.
#[verifier::loop_isolation(false)]
fn sort_results(unsorted: &Vec<SearchResult>) -> (r: Vec<SearchResult>)
    ensures
        r@ == sort_desc(unsorted@),
{
    let mut out: Vec<SearchResult> = Vec::new();
    let mut k: usize = 0;
    proof {
        assert(unsorted@.take(0) =~= Seq::<SearchResult>::empty());
    }
    while k < unsorted.len()
        invariant
            k <= unsorted@.len(),
            out@ == sort_desc(unsorted@.take(k as int)),
        decreases unsorted@.len() - k,
    {
        let x = copy_result(&unsorted[k]);
        proof {
            lemma_sort_desc_properties(unsorted@.take(k as int));
        }
        let mut p: usize = 0;
        while p < out.len() && out[p].score_mixed >= x.score_mixed
            invariant
                p <= out@.len(),
                forall|q: int| 0 <= q < p ==> (#[trigger] out@[q]).score_mixed >= x.score_mixed,
            decreases out@.len() - p,
        {
            p = p + 1;
        }
        proof {
            lemma_insert_desc_at(out@, x, p as int);
            assert(unsorted@.take(k as int + 1).drop_last() =~= unsorted@.take(k as int));
            assert(unsorted@.take(k as int + 1).last() == unsorted@[k as int]);
        }
        out.insert(p, x);
        k = k + 1;
    }
    proof {
        assert(unsorted@.take(unsorted@.len() as int) =~= unsorted@);
    }
    out
}

/// Result merger: join each ranked record with its owning corpus's score,
/// looked up by corpus id, and sort by non-increasing combined score.
///
/// A record whose corpus has no computed score is an explicit failure, not
/// a silent fallback: the merge returns [`SearchError::CorpusScoreMissing`].
pub fn merge(record_ranking: Vec<RecordRanking>, corpus_ranking: Vec<CorpusRanking>) -> (r: Result<
    Vec<SearchResult>,
    SearchError,
>)
    requires
        forall|k: int| 0 <= k < record_ranking@.len() ==> (#[trigger] record_ranking@[k]).rank
            <= SCALE,
        forall|k: int| 0 <= k < corpus_ranking@.len() ==> (#[trigger] corpus_ranking@[k]).rank
            <= SCALE,
    ensures
        r matches Ok(res) ==> res@ == sort_desc(merged_of(record_ranking@, corpus_ranking@)),
        r is Ok <==> (forall|k: int|
            0 <= k < record_ranking@.len() ==> has_crank(
                corpus_ranking@,
                (#[trigger] record_ranking@[k]).corpus_id as int,
            )),
        r is Err ==> r == Err::<Vec<SearchResult>, SearchError>(SearchError::CorpusScoreMissing),
{
    let mut unsorted: Vec<SearchResult> = Vec::new();
    let mut k: usize = 0;
    proof {
        assert(merged_of(record_ranking@.take(0), corpus_ranking@) =~= Seq::<
            SearchResult,
        >::empty());
    }
    while k < record_ranking.len()
        invariant
            k <= record_ranking@.len(),
            unsorted@ == merged_of(record_ranking@.take(k as int), corpus_ranking@),
            forall|k2: int|
                0 <= k2 < k ==> has_crank(
                    corpus_ranking@,
                    (#[trigger] record_ranking@[k2]).corpus_id as int,
                ),
            forall|k2: int| 0 <= k2 < record_ranking@.len() ==> (
            #[trigger] record_ranking@[k2]).rank <= SCALE,
            forall|k2: int| 0 <= k2 < corpus_ranking@.len() ==> (#[trigger] corpus_ranking@[k2]).rank
                <= SCALE,
        decreases record_ranking@.len() - k,
    {
        let rec = &record_ranking[k];
        let corpus_rank = match find_rank(&corpus_ranking, rec.corpus_id) {
            Some(v) => v,
            None => {
                return Err(SearchError::CorpusScoreMissing);
            },
        };
        let mixed = mixed_score(rec.rank, corpus_rank);
        let entry = SearchResult {
            corpus: rec.corpus_name.clone(),
            trec_id: rec.trec_id.clone(),
            url: rec.url.clone(),
            corpus_score: corpus_rank,
            record_score: rec.rank,
            score_mixed: mixed,
        };
        proof {
            assert(entry == merge_entry(record_ranking@[k as int], corpus_ranking@));
        }
        unsorted.push(entry);
        proof {
            assert(record_ranking@.take(k as int + 1) =~= record_ranking@.take(k as int).push(
                record_ranking@[k as int],
            ));
            assert(merged_of(record_ranking@.take(k as int + 1), corpus_ranking@) =~= merged_of(
                record_ranking@.take(k as int),
                corpus_ranking@,
            ).push(merge_entry(record_ranking@[k as int], corpus_ranking@)));
        }
        k = k + 1;
    }
    proof {
        assert(record_ranking@.take(record_ranking@.len() as int) =~= record_ranking@);
    }
    Ok(sort_results(&unsorted))
}

/// Build and calculate the rank of the returned results: accumulate every
/// query word's statistics, normalize to cosine scores, merge and sort.
///
/// The result is pinned to [`search_rank_spec`]: a pure function of the
/// query words and their statistics, so an unchanged index always yields
/// the identical ordered list. Success is owed exactly when every
/// accumulated sum fits the fixed-point range and every ranked record's
/// owning corpus has a corpus score.
pub fn build_result(word_idx: Vec<QueryWord>) -> (r: Result<Vec<SearchResult>, SearchError>)
    ensures
        r matches Ok(res) ==> res@ == search_rank_spec(word_idx@),
        r is Ok <==> corpus_sums_fit(word_idx@) && record_sums_fit(word_idx@) && corpora_covered(
            word_idx@,
        ),
        r == Err::<Vec<SearchResult>, SearchError>(SearchError::ArithmeticOverflow) <==> !(
        corpus_sums_fit(word_idx@) && record_sums_fit(word_idx@)),
        r == Err::<Vec<SearchResult>, SearchError>(SearchError::CorpusScoreMissing) <==> (
        corpus_sums_fit(word_idx@) && record_sums_fit(word_idx@) && !corpora_covered(word_idx@)),
{
    let corpus_ranking = match build_corpus_ranking(&word_idx) {
        Ok(v) => v,
        Err(e) => {
            return Err(e);
        },
    };
    let record_ranking = match build_record_ranking(&word_idx) {
        Ok(v) => v,
        Err(e) => {
            return Err(e);
        },
    };
    let ghost words = word_idx@;
    let ghost rr = record_ranking@;
    let ghost crs = corpus_ranking@;
    let ghost rids = rids_in_order(rpairs(words));
    proof {
        assert(rr.map_values(|e: RecordRanking| e.record_id as int) == rids);
        assert(rr.len() == rids.len());
        // each record's owning corpus is covered exactly when the merge
        // can find its rank
        assert forall|k: int| 0 <= k < rr.len() implies (#[trigger] rr[k]).record_id as int
            == rids[k] && rr[k].corpus_id == first_rrow(words, rids[k]).corpus_id by {
            assert(rr.map_values(|e: RecordRanking| e.record_id as int)[k] == rids[k]);
        }
        assert forall|k: int|
            0 <= k < rr.len() && has_corpus(
                words,
                first_rrow(words, rids[k]).corpus_id as int,
            ) implies has_crank(crs, (#[trigger] rr[k]).corpus_id as int) by {
            let cidg = first_rrow(words, rids[k]).corpus_id as int;
            let pi = choose|j: int|
                0 <= j < cpairs(words).len() && cpairs(words)[j].1.corpus_id as int == cidg;
            assert(cpairs(words)[pi].1.corpus_id as int == cidg);
        }
    }
    match merge(record_ranking, corpus_ranking) {
        Ok(res) => {
            proof {
                assert(corpora_covered(words)) by {
                    assert forall|k: int| 0 <= k < rids.len() implies has_corpus(
                        words,
                        first_rrow(words, #[trigger] rids[k]).corpus_id as int,
                    ) by {
                        assert(has_crank(crs, rr[k].corpus_id as int));
                        let j = choose|j: int|
                            0 <= j < crs.len() && crs[j].corpus_id as int == rr[k].corpus_id as int;
                        assert(has_corpus(words, crs[j].corpus_id as int));
                    }
                }
                assert(merged_of(rr, crs) =~= merged_spec(words)) by {
                    assert forall|k: int| 0 <= k < rr.len() implies merged_of(rr, crs)[k]
                        == merged_spec(words)[k] by {
                        let rid = rids[k];
                        let row = first_rrow(words, rid);
                        let cidg = row.corpus_id as int;
                        lemma_crank_of_correct(crs, cidg, words);
                        lemma_score_of_range(
                            record_x(words, rid),
                            corpus_den(words, cidg),
                            record_y(words, rid),
                        );
                        let fx = |q: (QueryWord, QueryWordRecordInfo)| rx_term(q, rid);
                        assert forall|j: int|
                            0 <= j < rpairs(words).len() implies rpairs(words).map_values(fx)[j]
                            >= 0 by {
                            lemma_rterms_nonneg(rpairs(words)[j], rid);
                        }
                        lemma_sum_nonneg(rpairs(words).map_values(fx));
                        assert(merge_entry(rr[k], crs) == result_for(words, rid));
                    }
                }
            }
            Ok(res)
        },
        Err(e) => {
            proof {
                assert(!corpora_covered(words)) by {
                    let k = choose|k: int|
                        0 <= k < rr.len() && !has_crank(crs, (#[trigger] rr[k]).corpus_id as int);
                    if has_corpus(words, first_rrow(words, rids[k]).corpus_id as int) {
                        assert(has_crank(crs, rr[k].corpus_id as int));
                    }
                }
            }
            Err(e)
        },
    }
}

/// For every result list the ranking can return, the combined scores are
/// in non-increasing order, and the list is a permutation of the merged
/// results.
pub proof fn lemma_search_results_sorted(words: Seq<QueryWord>)
    ensures
        sorted_desc(search_rank_spec(words)),
        search_rank_spec(words).len() == merged_spec(words).len(),
        search_rank_spec(words).to_multiset() == merged_spec(words).to_multiset(),
{
    lemma_sort_desc_properties(merged_spec(words));
}

/// Idempotence: the ranking is a pure function of the query words and
/// their statistics, so two searches against an unmodified statistical
/// index return the identical ordered list.
pub proof fn lemma_search_deterministic(
    words: Seq<QueryWord>,
    r1: Seq<SearchResult>,
    r2: Seq<SearchResult>,
)
    requires
        r1 == search_rank_spec(words),
        r2 == search_rank_spec(words),
    ensures
        r1 == r2,
{
}

/// A query of a single token that appears in exactly one corpus and one
/// record reduces both cosine scores to exactly `1.0`, and the combined
/// score to `0`: each vector is one-dimensional and aligned with itself.
pub proof fn lemma_single_token_unit_scores(words: Seq<QueryWord>)
    requires
        words.len() == 1,
        words[0].word_corpus_tf_idf@.len() == 1,
        words[0].word_record_tf_idf@.len() == 1,
        words[0].word_record_tf_idf@[0].corpus_id == words[0].word_corpus_tf_idf@[0].corpus_id,
        1 <= lookup_weight(
            words[0].tfidf@,
            words[0].word_corpus_tf_idf@[0].corpus_id as int,
        ),
        1 <= opt0(words[0].word_corpus_tf_idf@[0].tf_idf),
        1 <= opt0(words[0].word_record_tf_idf@[0].tf_idf),
    ensures
        merged_spec(words).len() == 1,
        merged_spec(words)[0].corpus_score == SCALE,
        merged_spec(words)[0].record_score == SCALE,
        merged_spec(words)[0].score_mixed == 0,
        search_rank_spec(words) == merged_spec(words),
{
    let w0 = words[0];
    let crow = w0.word_corpus_tf_idf@[0];
    let rrow = w0.word_record_tf_idf@[0];
    let cid = crow.corpus_id as int;
    let rid = rrow.record_id as int;
    let wt = lookup_weight(w0.tfidf@, cid);
    let tc = opt0(crow.tf_idf);
    let tr = opt0(rrow.tf_idf);
    let cp = (w0, crow);
    let rp = (w0, rrow);
    assert(words.drop_last() =~= Seq::<QueryWord>::empty());
    assert(words.last() == w0);
    assert(cpairs(Seq::<QueryWord>::empty()).len() == 0);
    assert(rpairs(Seq::<QueryWord>::empty()).len() == 0);
    assert(cpairs(words) =~= seq![cp]) by {
        assert(cpairs(words) == cpairs(words.drop_last()) + word_cpairs(words.last()));
        assert(cpairs(words.drop_last()) == cpairs(Seq::<QueryWord>::empty()));
        assert(word_cpairs(w0) =~= seq![cp]);
    }
    assert(rpairs(words) =~= seq![rp]) by {
        assert(rpairs(words) == rpairs(words.drop_last()) + word_rpairs(words.last()));
        assert(rpairs(words.drop_last()) == rpairs(Seq::<QueryWord>::empty()));
        assert(word_rpairs(w0) =~= seq![rp]);
    }
    let fx = |q: (QueryWord, QueryWordCorpusInfo)| cx_term(q, cid);
    let fy = |q: (QueryWord, QueryWordCorpusInfo)| cy_term(q, cid);
    let fd = |q: (QueryWord, QueryWordCorpusInfo)| cden_term(q, cid);
    let gx = |q: (QueryWord, QueryWordRecordInfo)| rx_term(q, rid);
    let gy = |q: (QueryWord, QueryWordRecordInfo)| ry_term(q, rid);
    assert(sum(seq![cp].map_values(fx)) == fx(cp)) by {
        assert(seq![cp].map_values(fx) =~= seq![fx(cp)]);
        assert(seq![fx(cp)].drop_last() =~= Seq::<int>::empty());
        assert(sum(Seq::<int>::empty()) == 0);
    }
    assert(sum(seq![cp].map_values(fy)) == fy(cp)) by {
        assert(seq![cp].map_values(fy) =~= seq![fy(cp)]);
        assert(seq![fy(cp)].drop_last() =~= Seq::<int>::empty());
        assert(sum(Seq::<int>::empty()) == 0);
    }
    assert(sum(seq![cp].map_values(fd)) == fd(cp)) by {
        assert(seq![cp].map_values(fd) =~= seq![fd(cp)]);
        assert(seq![fd(cp)].drop_last() =~= Seq::<int>::empty());
        assert(sum(Seq::<int>::empty()) == 0);
    }
    assert(sum(seq![rp].map_values(gx)) == gx(rp)) by {
        assert(seq![rp].map_values(gx) =~= seq![gx(rp)]);
        assert(seq![gx(rp)].drop_last() =~= Seq::<int>::empty());
        assert(sum(Seq::<int>::empty()) == 0);
    }
    assert(sum(seq![rp].map_values(gy)) == gy(rp)) by {
        assert(seq![rp].map_values(gy) =~= seq![gy(rp)]);
        assert(seq![gy(rp)].drop_last() =~= Seq::<int>::empty());
        assert(sum(Seq::<int>::empty()) == 0);
    }
    assert(corpus_x(words, cid) == wt * tc);
    assert(corpus_y(words, cid) == tc * tc);
    assert(corpus_den(words, cid) == wt * wt);
    assert(record_x(words, rid) == wt * tr);
    assert(record_y(words, rid) == tr * tr);
    assert(rids_in_order(rpairs(words)) =~= seq![rid]) by {
        assert(rpairs(words).drop_last() =~= Seq::<(QueryWord, QueryWordRecordInfo)>::empty());
        assert(rids_in_order(Seq::<(QueryWord, QueryWordRecordInfo)>::empty()).len() == 0);
        assert(rids_in_order(rpairs(words).drop_last()) == rids_in_order(
            Seq::<(QueryWord, QueryWordRecordInfo)>::empty(),
        ));
        assert(rpairs(words).last() == rp);
    }
    assert(first_idx_r(rpairs(words), rid) == 0);
    assert(first_rrow(words, rid) == rrow);
    crate::fixed::lemma_self_alignment_unit(wt, tc);
    crate::fixed::lemma_self_alignment_unit(wt, tr);
    let cs = score_of(corpus_x(words, cid), corpus_den(words, cid), corpus_y(words, cid));
    let rs = score_of(record_x(words, rid), corpus_den(words, cid), record_y(words, rid));
    assert(cs == SCALE as int);
    assert(rs == SCALE as int);
    assert(mixed_of(rs, cs) == 0) by {
        assert((SCALE as int - SCALE as int) * crate::fixed::neglog2_of(SCALE as int) == 0)
            by (nonlinear_arith);
        vstd::arithmetic::div_mod::lemma_div_multiples_vanish(0, SCALE as int);
        assert((SCALE as int) * 0 == 0) by (nonlinear_arith);
    }
    assert(merged_spec(words) =~= seq![result_for(words, rid)]);
    assert(merged_spec(words)[0].corpus_score == SCALE);
    assert(merged_spec(words)[0].record_score == SCALE);
    assert(merged_spec(words)[0].score_mixed == 0);
    assert(search_rank_spec(words) =~= merged_spec(words)) by {
        let m = merged_spec(words);
        assert(m.drop_last() =~= Seq::<SearchResult>::empty());
        assert(sort_desc(m) == insert_desc(sort_desc(Seq::<SearchResult>::empty()), m.last()));
        assert(insert_desc(Seq::<SearchResult>::empty(), m.last()) =~= seq![m.last()]);
        assert(seq![m.last()] =~= m);
    }
}

/// The empty query, or one whose every token is a stopword, yields the
/// empty result list.
pub proof fn lemma_empty_query_empty_result(words: Seq<QueryWord>)
    requires
        words.len() == 0,
    ensures
        search_rank_spec(words).len() == 0,
        corpus_sums_fit(words) && record_sums_fit(words) && corpora_covered(words),
{
    assert(rpairs(words) =~= Seq::<(QueryWord, QueryWordRecordInfo)>::empty());
    assert(cpairs(words) =~= Seq::<(QueryWord, QueryWordCorpusInfo)>::empty());
    assert(merged_spec(words) =~= Seq::<SearchResult>::empty());
}

} // verus!
