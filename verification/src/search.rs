//! The search: from a query to its terms, and from the terms to the ranked
//! records.

use vstd::prelude::*;
use vstd::string::*;
use crate::corpus::Corpus;
use crate::data::FeatureData;
use crate::ngram::window_count;
use crate::score::{
    hits, is_match, lemma_hits_bound, lemma_no_cover, lemma_take_next, lemma_total_weight_prefix,
    lemma_window_hits_bound, misses_term, score_windows, term_bytes, term_hits, term_weight,
    total_weight, window_hits,
};
use crate::sort::{key_order, sort_keys};
use crate::text::bytes_of;

verus! {

/// The query holds a character that is neither whitespace nor a printable
/// ASCII character other than the backtick.
#[derive(Debug)]
pub struct InvalidSearchQuery;

/// Whether `c` separates the words of a query: the characters that Unicode
/// gives the property `White_Space`.
pub open spec fn is_whitespace(c: char) -> bool {
    let u = c as u32;
    ||| 0x09 <= u <= 0x0d
    ||| u == 0x20
    ||| u == 0x85
    ||| u == 0xa0
    ||| u == 0x1680
    ||| 0x2000 <= u <= 0x200a
    ||| u == 0x2028
    ||| u == 0x2029
    ||| u == 0x202f
    ||| u == 0x205f
    ||| u == 0x3000
}

/// Whether `c` may stand in a search term: printable ASCII, no space, no
/// backtick.
pub open spec fn is_term_char(c: char) -> bool {
    let u = c as u32;
    0x21 <= u <= 0x7e && u != 0x60
}

/// The number of characters before the first whitespace of `s`.
pub open spec fn word_len(s: Seq<char>) -> nat
    decreases s.len(),
{
    if s.len() == 0 || is_whitespace(s[0]) {
        0
    } else {
        1 + word_len(s.drop_first())
    }
}

/// A word is no longer than the text that it starts.
pub proof fn lemma_word_len_bound(s: Seq<char>)
    ensures
        word_len(s) <= s.len(),
    decreases s.len(),
{
    if s.len() > 0 && !is_whitespace(s[0]) {
        lemma_word_len_bound(s.drop_first());
    }
}

/// The words of `s`: its maximal runs of characters that are not whitespace,
/// in the order in which they stand, repetitions kept.
pub open spec fn split_words(s: Seq<char>) -> Seq<Seq<char>>
    decreases s.len(),
{
    if s.len() == 0 {
        Seq::empty()
    } else if is_whitespace(s[0]) {
        split_words(s.drop_first())
    } else {
        let n = word_len(s) as int;
        proof {
            lemma_word_len_bound(s);
        }
        seq![s.take(n)] + split_words(s.skip(n))
    }
}

/// A query is valid when each of its characters is whitespace or may stand
/// in a term, which is to say when each of its words is a valid term.
pub open spec fn valid_query(s: Seq<char>) -> bool {
    forall|i: int| 0 <= i < s.len() ==> is_whitespace(#[trigger] s[i]) || is_term_char(s[i])
}

/// The search terms of a query, as bytes: the words of the query, each in
/// its UTF-8 encoding.
pub open spec fn query_terms(query: Seq<char>) -> Seq<Seq<u8>> {
    Seq::new(split_words(query).len(), |i: int| bytes_of(split_words(query)[i]))
}

/// The character sequences of a list of terms.
pub open spec fn term_chars(terms: Seq<String>) -> Seq<Seq<char>> {
    Seq::new(terms.len(), |i: int| terms[i]@)
}

fn char_is_whitespace(c: char) -> (b: bool)
    ensures
        b == is_whitespace(c),
{
    let u: u32 = c as u32;
    (0x09 <= u && u <= 0x0d) || u == 0x20 || u == 0x85 || u == 0xa0 || u == 0x1680 || (0x2000 <= u
        && u <= 0x200a) || u == 0x2028 || u == 0x2029 || u == 0x202f || u == 0x205f || u == 0x3000
}

fn char_is_term_char(c: char) -> (b: bool)
    ensures
        b == is_term_char(c),
{
    let u: u32 = c as u32;
    0x21 <= u && u <= 0x7e && u != 0x60
}

/// A run of `k` characters without whitespace, followed by whitespace or by
/// the end, is a whole word.
proof fn lemma_word_len(s: Seq<char>, k: int)
    requires
        0 <= k <= s.len(),
        forall|j: int| 0 <= j < k ==> !is_whitespace(#[trigger] s[j]),
        k == s.len() || is_whitespace(s[k]),
    ensures
        word_len(s) == k,
    decreases k,
{
    if k > 0 {
        let t = s.drop_first();
        assert forall|j: int| 0 <= j < k - 1 implies !is_whitespace(#[trigger] t[j]) by {
            assert(t[j] == s[j + 1]);
        }
        lemma_word_len(t, k - 1);
    }
}

/// The word that starts at `st` and ends before `i` is the first word of what
/// follows `st`.
proof fn lemma_split_word(s: Seq<char>, st: int, i: int)
    requires
        0 <= st < i <= s.len(),
        forall|j: int| st <= j < i ==> !is_whitespace(#[trigger] s[j]),
        i == s.len() || is_whitespace(s[i]),
    ensures
        split_words(s.skip(st)) == seq![s.subrange(st, i)] + split_words(s.skip(i)),
{
    let t = s.skip(st);
    assert forall|j: int| 0 <= j < i - st implies !is_whitespace(#[trigger] t[j]) by {
        assert(t[j] == s[st + j]);
    }
    assert(t[0] == s[st]);
    lemma_word_len(t, i - st);
    assert(t.take(i - st) == s.subrange(st, i));
    assert(t.skip(i - st) == s.skip(i));
}

/// Whitespace at `i` adds no word.
proof fn lemma_split_whitespace(s: Seq<char>, i: int)
    requires
        0 <= i < s.len(),
        is_whitespace(s[i]),
    ensures
        split_words(s.skip(i)) == split_words(s.skip(i + 1)),
{
    let t = s.skip(i);
    assert(t[0] == s[i]);
    assert(t.drop_first() == s.skip(i + 1));
}

/// No character of a word is whitespace.
proof fn lemma_word_chars(s: Seq<char>, j: int)
    requires
        0 <= j < word_len(s),
    ensures
        j < s.len(),
        !is_whitespace(s[j]),
    decreases s.len(),
{
    if j > 0 {
        lemma_word_chars(s.drop_first(), j - 1);
    }
}

/// The words of a valid query are terms: none is empty, and every
/// character of each is printable ASCII other than the backtick.
pub proof fn lemma_words_are_terms(s: Seq<char>, k: int)
    requires
        valid_query(s),
        0 <= k < split_words(s).len(),
    ensures
        split_words(s)[k].len() > 0,
        forall|j: int| 0 <= j < split_words(s)[k].len() ==> is_term_char(#[trigger] split_words(s)[k][j]),
    decreases s.len(),
{
    if is_whitespace(s[0]) {
        let rest = s.drop_first();
        assert forall|i: int| 0 <= i < rest.len() implies is_whitespace(#[trigger] rest[i])
            || is_term_char(rest[i]) by {
            assert(rest[i] == s[i + 1]);
        }
        lemma_words_are_terms(rest, k);
    } else {
        let n = word_len(s) as int;
        lemma_word_len_bound(s);
        let word = s.take(n);
        let rest = s.skip(n);
        assert(split_words(s) == seq![word] + split_words(rest));
        if k == 0 {
            assert forall|j: int| 0 <= j < word.len() implies is_term_char(#[trigger] word[j]) by {
                lemma_word_chars(s, j);
                assert(word[j] == s[j]);
            }
        } else {
            assert forall|i: int| 0 <= i < rest.len() implies is_whitespace(#[trigger] rest[i])
                || is_term_char(rest[i]) by {
                assert(rest[i] == s[i + n]);
            }
            lemma_words_are_terms(rest, k - 1);
            assert(split_words(s)[k] == split_words(rest)[k - 1]);
        }
    }
}

/// Splits a raw query into its search terms.
///
/// The query is cut at whitespace; the words come back in their order, with
/// repetitions. One character that is neither whitespace nor printable ASCII
/// other than the backtick rejects the whole query.
pub fn extract_search_terms(query: &str) -> (res: Result<Vec<String>, InvalidSearchQuery>)
    ensures
        res is Ok <==> valid_query(query@),
        res is Ok ==> term_chars(res->Ok_0@) == split_words(query@),
        res is Ok ==> term_bytes(res->Ok_0@) == query_terms(query@),
{
    let n = query.unicode_len();
    let mut terms: Vec<String> = Vec::new();
    let mut word_start: Option<usize> = None;
    let mut pos: usize = 0;
    let ghost s = query@;
    proof {
        assert(s.skip(0) == s);
        assert(term_chars(terms@) + split_words(s) == split_words(s));
    }
    for c in it: query.chars()
        invariant
            it.seq() == s,
            s == query@,
            s.len() == n,
            pos == it.index(),
            forall|j: int| 0 <= j < pos ==> is_whitespace(#[trigger] s[j]) || is_term_char(s[j]),
            match word_start {
                Some(st) => {
                    &&& st < pos
                    &&& forall|j: int| st <= j < pos ==> !is_whitespace(#[trigger] s[j])
                    &&& split_words(s) == term_chars(terms@) + split_words(s.skip(st as int))
                },
                None => split_words(s) == term_chars(terms@) + split_words(s.skip(pos as int)),
            },
    {
        let ghost i = pos as int;
        assert(c == s[i]);
        if char_is_whitespace(c) {
            if let Some(st) = word_start {
                let word = query.substring_char(st, pos).to_owned();
                proof {
                    lemma_split_word(s, st as int, i);
                    assert(term_chars(terms@.push(word)) == term_chars(terms@) + seq![word@]);
                    assert((term_chars(terms@) + seq![word@]) + split_words(s.skip(i)) == term_chars(
                        terms@,
                    ) + (seq![word@] + split_words(s.skip(i))));
                }
                terms.push(word);
                word_start = None;
            }
            proof {
                lemma_split_whitespace(s, i);
            }
        } else {
            if !char_is_term_char(c) {
                return Err(InvalidSearchQuery);
            }
            if word_start.is_none() {
                word_start = Some(pos);
            }
        }
        pos = pos + 1;
    }
    if let Some(st) = word_start {
        let word = query.substring_char(st, n).to_owned();
        proof {
            lemma_split_word(s, st as int, n as int);
            assert(s.skip(n as int).len() == 0);
            assert(term_chars(terms@.push(word)) == term_chars(terms@) + seq![word@]);
            assert((term_chars(terms@) + seq![word@]) + split_words(s.skip(n as int)) == term_chars(
                terms@,
            ) + seq![word@]);
            assert(seq![word@] + split_words(s.skip(n as int)) == seq![word@]);
        }
        terms.push(word);
    } else {
        proof {
            assert(s.skip(n as int).len() == 0);
            assert(term_chars(terms@) + split_words(s.skip(n as int)) == term_chars(terms@));
        }
    }
    proof {
        assert forall|i: int| 0 <= i < terms@.len() implies terms@[i]@ == split_words(s)[i] by {
            assert(term_chars(terms@)[i] == terms@[i]@);
        }
        assert(term_bytes(terms@) =~= query_terms(s));
    }
    Ok(terms)
}

/// Whether the record `a` stands before the record `b` in the ranking for
/// `terms`: the higher score first; of two with one score, the shorter
/// title; of two with titles of one length, the lower id.
pub open spec fn ranks_before(features: Seq<FeatureData>, terms: Seq<Seq<u8>>, a: int, b: int) -> bool {
    let hits_a = hits(features[a], terms);
    let hits_b = hits(features[b], terms);
    let len_a = bytes_of(features[a].title@).len();
    let len_b = bytes_of(features[b].title@).len();
    hits_a > hits_b || (hits_a == hits_b && (len_a < len_b || (len_a == len_b && a < b)))
}

/// Whether the record `id` has a place in `scores`.
pub open spec fn is_ranked(scores: Seq<(u16, u64)>, id: int) -> bool {
    exists|i: int| 0 <= i < scores.len() && (#[trigger] scores[i]).0 == id
}

/// Whether `scores` is the ranking of `features` for `terms`: each record
/// once, with what it gets for the terms, in the order of `ranks_before`.
pub open spec fn is_ranking(
    features: Seq<FeatureData>,
    terms: Seq<Seq<u8>>,
    scores: Seq<(u16, u64)>,
) -> bool {
    &&& scores.len() == features.len()
    &&& forall|i: int|
        0 <= i < scores.len() ==> (#[trigger] scores[i]).0 < features.len() && scores[i].1 == hits(
            features[scores[i].0 as int],
            terms,
        )
    &&& forall|i: int, j: int|
        0 <= i < j < scores.len() ==> ranks_before(
            features,
            terms,
            (#[trigger] scores[i]).0 as int,
            (#[trigger] scores[j]).0 as int,
        )
    &&& forall|id: int| 0 <= id < features.len() ==> #[trigger] is_ranked(scores, id)
}

/// Whether `found` holds the ids at the head of the ranking `scores` whose
/// score reaches the threshold, and all of them.
pub open spec fn is_result(terms: Seq<Seq<u8>>, scores: Seq<(u16, u64)>, found: Seq<u16>) -> bool {
    &&& found.len() <= scores.len()
    &&& forall|i: int| 0 <= i < found.len() ==> #[trigger] found[i] == scores[i].0
    &&& forall|i: int|
        0 <= i < scores.len() ==> (i < found.len() <==> is_match(
            (#[trigger] scores[i]).1 as nat,
            total_weight(terms),
        ))
}

/// The divisor of the scores for `search_terms`, unless it is too large
/// for a `u64`.
pub fn score_divisor(search_terms: &[String]) -> (res: Option<u64>)
    ensures
        match res {
            Some(divisor) => divisor == total_weight(term_bytes(search_terms@)),
            None => total_weight(term_bytes(search_terms@)) > u64::MAX,
        },
{
    let ghost terms = term_bytes(search_terms@);
    let mut total: u64 = 0;
    let mut t: usize = 0;
    proof {
        assert(terms.take(0) == Seq::<Seq<u8>>::empty());
    }
    while t < search_terms.len()
        invariant
            0 <= t <= search_terms@.len(),
            terms == term_bytes(search_terms@),
            total == total_weight(terms.take(t as int)),
        decreases search_terms@.len() - t,
    {
        let len = search_terms[t].as_str().as_bytes().len() as u128;
        let twos: u128 = if len >= 2 {
            len - 1
        } else {
            0
        };
        let threes: u128 = if len >= 3 {
            len - 2
        } else {
            0
        };
        let weight: u128 = len + 4 * twos + 12 * threes;
        proof {
            lemma_take_next(arbitrary(), terms, t as int);
            lemma_total_weight_prefix(terms, t + 1);
            assert(terms[t as int] == bytes_of(search_terms@[t as int]@));
            assert(len == terms[t as int].len());
            assert(weight == term_weight(terms[t as int]));
        }
        if weight > (u64::MAX - total) as u128 {
            return None;
        }
        total = total + (weight as u64);
        t = t + 1;
    }
    proof {
        assert(terms.take(t as int) == terms);
    }
    Some(total)
}

/// Gives each record its id and the score zero.
fn reset_scores(search_scores: &mut Vec<(u16, u64)>)
    requires
        old(search_scores)@.len() <= 65536,
    ensures
        final(search_scores)@.len() == old(search_scores)@.len(),
        forall|i: int|
            0 <= i < final(search_scores)@.len() ==> #[trigger] final(search_scores)@[i] == (
                i as u16,
                0u64,
            ),
{
    let mut i: usize = 0;
    while i < search_scores.len()
        invariant
            0 <= i <= search_scores@.len(),
            search_scores@.len() == old(search_scores)@.len(),
            search_scores@.len() <= 65536,
            forall|j: int| 0 <= j < i ==> #[trigger] search_scores@[j] == (j as u16, 0u64),
        decreases search_scores@.len() - i,
    {
        search_scores[i] = (i as u16, 0);
        i = i + 1;
    }
}

/// Adds up, for each record, what it gets for the terms.
fn accumulate(search_terms: &[String], search_scores: &mut Vec<(u16, u64)>, corpus: &Corpus)
    requires
        corpus.wf(),
        old(search_scores)@.len() == corpus@.len(),
        total_weight(term_bytes(search_terms@)) <= u64::MAX,
        forall|i: int|
            0 <= i < old(search_scores)@.len() ==> #[trigger] old(search_scores)@[i] == (i as u16, 0u64),
    ensures
        final(search_scores)@.len() == old(search_scores)@.len(),
        forall|i: int|
            0 <= i < final(search_scores)@.len() ==> (#[trigger] final(search_scores)@[i]).0 == i
                && final(search_scores)@[i].1 == hits(corpus@[i], term_bytes(search_terms@)),
{
    let ghost terms = term_bytes(search_terms@);
    let ghost features = corpus@;
    let index = corpus.index();
    let mut t: usize = 0;
    proof {
        assert(terms.take(0) == Seq::<Seq<u8>>::empty());
    }
    while t < search_terms.len()
        invariant
            corpus.wf(),
            features == corpus@,
            *index == corpus.search_index(),
            terms == term_bytes(search_terms@),
            total_weight(terms) <= u64::MAX,
            0 <= t <= search_terms@.len(),
            search_scores@.len() == features.len(),
            search_scores@.len() == old(search_scores)@.len(),
            forall|i: int|
                0 <= i < search_scores@.len() ==> (#[trigger] search_scores@[i]).0 == i
                    && search_scores@[i].1 == hits(features[i], terms.take(t as int)),
        decreases search_terms@.len() - t,
    {
        let term = search_terms[t].as_str().as_bytes();
        let ghost prev = search_scores@;
        proof {
            assert(terms[t as int] == term@);
            lemma_total_weight_prefix(terms, t + 1);
            let len = term@.len() as int;
            assert forall|i: int| 0 <= i < features.len() implies prev[i].1 + term_weight(term@)
                <= u64::MAX && hits(features[i], terms.take(t + 1)) == prev[i].1 + term_hits(
                features[i],
                term@,
            ) by {
                lemma_take_next(features[i], terms, t as int);
                lemma_hits_bound(features[i], terms.take(t as int));
            }
            assert forall|i: int, w: int| 0 <= i < features.len() && 1 <= w <= 3 implies window_hits(
                features[i],
                term@,
                w,
                window_count(len, w),
            ) <= window_count(len, w) by {
                lemma_window_hits_bound(features[i], term@, w, window_count(len, w));
            }
            assert(index.table(1).indexes(features));
            assert(index.table(2).indexes(features));
            assert(index.table(3).indexes(features));
        }
        score_windows(search_scores, term, index.monograms(), 1, Ghost(features));
        score_windows(search_scores, term, index.bigrams(), 4, Ghost(features));
        score_windows(search_scores, term, index.trigrams(), 12, Ghost(features));
        t = t + 1;
    }
    proof {
        assert(terms.take(t as int) == terms);
    }
}

/// The triple by which the record `id` with `hits` is ranked: ascending
/// triples are descending scores, then ascending title lengths, then
/// ascending ids.
pub open spec fn rank_key(features: Seq<FeatureData>, id: int, hits: u64) -> (u64, u64, u64) {
    ((u64::MAX - hits) as u64, bytes_of(features[id].title@).len() as u64, id as u64)
}

/// Puts the scores in the order of the ranking.
fn rank(search_scores: &mut Vec<(u16, u64)>, corpus: &Corpus, Ghost(terms): Ghost<Seq<Seq<u8>>>)
    requires
        corpus.wf(),
        old(search_scores)@.len() == corpus@.len(),
        forall|i: int|
            0 <= i < old(search_scores)@.len() ==> (#[trigger] old(search_scores)@[i]).0 == i && old(
                search_scores,
            )@[i].1 == hits(corpus@[i], terms),
    ensures
        is_ranking(corpus@, terms, final(search_scores)@),
{
    broadcast use vstd::seq_lib::group_to_multiset_ensures;

    let ghost features = corpus@;
    let ghost start = search_scores@;
    let n = search_scores.len();
    let records = corpus.features();
    let mut keys: Vec<(u64, u64, u64)> = Vec::new();
    let mut i: usize = 0;
    while i < n
        invariant
            0 <= i <= n,
            n == features.len(),
            n <= 65536,
            records@ == features,
            search_scores@ == start,
            start.len() == n,
            keys@.len() == i,
            forall|j: int| 0 <= j < i ==> #[trigger] keys@[j] == rank_key(features, j, start[j].1),
            forall|j: int| 0 <= j < i ==> bytes_of((#[trigger] features[j]).title@).len() <= u64::MAX,
        decreases n - i,
    {
        let title_len = records[i].title.as_str().as_bytes().len();
        keys.push((u64::MAX - search_scores[i].1, title_len as u64, i as u64));
        i = i + 1;
    }
    let ghost unsorted = keys@;
    sort_keys(&mut keys);
    let ghost ranked = keys@;
    proof {
        assert(unsorted.no_duplicates()) by {
            assert forall|a: int, b: int|
                0 <= a < unsorted.len() && 0 <= b < unsorted.len() && a != b implies unsorted[a]
                != unsorted[b] by {
                assert(unsorted[a].2 == a);
                assert(unsorted[b].2 == b);
            }
        }
        unsorted.lemma_multiset_has_no_duplicates();
        ranked.lemma_multiset_has_no_duplicates_conv();
        vstd::seq_lib::to_multiset_len(ranked);
        vstd::seq_lib::to_multiset_len(unsorted);
        assert forall|p: int| 0 <= p < n implies (#[trigger] ranked[p]).2 < n && ranked[p]
            == unsorted[ranked[p].2 as int] by {
            assert(ranked.contains(ranked[p]));
            assert(unsorted.to_multiset().count(ranked[p]) > 0);
            assert(unsorted.contains(ranked[p]));
            let j = choose|j: int| 0 <= j < unsorted.len() && unsorted[j] == ranked[p];
            assert(unsorted[j].2 == j);
        }
    }
    let mut i: usize = 0;
    while i < n
        invariant
            0 <= i <= n,
            n == features.len(),
            n <= 65536,
            keys@ == ranked,
            ranked.len() == n,
            unsorted.len() == n,
            start.len() == n,
            search_scores@.len() == n,
            forall|p: int|
                0 <= p < n ==> (#[trigger] ranked[p]).2 < n && ranked[p] == unsorted[ranked[p].2 as int],
            forall|j: int| 0 <= j < n ==> #[trigger] unsorted[j] == rank_key(features, j, start[j].1),
            forall|p: int|
                0 <= p < i ==> (#[trigger] search_scores@[p]).0 == ranked[p].2 && search_scores@[p].1
                    == start[ranked[p].2 as int].1,
        decreases n - i,
    {
        let key = keys[i];
        assert(key == unsorted[key.2 as int]);
        search_scores[i] = (key.2 as u16, u64::MAX - key.0);
        i = i + 1;
    }
    proof {
        let scores = search_scores@;
        assert forall|p: int, q: int| 0 <= p < q < n implies ranks_before(
            features,
            terms,
            (#[trigger] scores[p]).0 as int,
            (#[trigger] scores[q]).0 as int,
        ) by {
            let a = ranked[p].2 as int;
            let b = ranked[q].2 as int;
            assert(key_order()(ranked[p], ranked[q]));
            assert(ranked[p] != ranked[q]);
            assert(ranked[p] == unsorted[a]);
            assert(ranked[q] == unsorted[b]);
            assert(unsorted[a] == rank_key(features, a, start[a].1));
            assert(unsorted[b] == rank_key(features, b, start[b].1));
            assert(bytes_of(features[a].title@).len() <= u64::MAX);
            assert(bytes_of(features[b].title@).len() <= u64::MAX);
            assert(scores[p].0 == a && scores[q].0 == b);
            assert(start[a].1 == hits(features[a], terms));
            assert(start[b].1 == hits(features[b], terms));
        }
        assert forall|id: int| 0 <= id < n implies #[trigger] is_ranked(scores, id) by {
            assert(unsorted.contains(unsorted[id]));
            assert(ranked.to_multiset().count(unsorted[id]) > 0);
            assert(ranked.contains(unsorted[id]));
            let p = choose|p: int| 0 <= p < ranked.len() && ranked[p] == unsorted[id];
            assert(scores[p].0 == id);
        }
    }
}

/// The ids at the head of the ranking whose score reaches the threshold.
fn matching_head(
    search_scores: &Vec<(u16, u64)>,
    divisor: u64,
    Ghost(features): Ghost<Seq<FeatureData>>,
    Ghost(terms): Ghost<Seq<Seq<u8>>>,
) -> (found: Vec<u16>)
    requires
        is_ranking(features, terms, search_scores@),
        divisor == total_weight(terms),
    ensures
        is_result(terms, search_scores@, found@),
{
    let mut found: Vec<u16> = Vec::new();
    let mut i: usize = 0;
    while i < search_scores.len()
        invariant
            0 <= i <= search_scores@.len(),
            is_ranking(features, terms, search_scores@),
            divisor == total_weight(terms),
            found@.len() == i,
            forall|j: int| 0 <= j < i ==> #[trigger] found@[j] == search_scores@[j].0,
            forall|j: int| 0 <= j < i ==> is_match((#[trigger] search_scores@[j]).1 as nat, divisor as nat),
        decreases search_scores@.len() - i,
    {
        let entry = search_scores[i];
        if divisor == 0 || (entry.1 as u128) * 4 < divisor as u128 {
            proof {
                assert forall|j: int| i <= j < search_scores@.len() implies !is_match(
                    (#[trigger] search_scores@[j]).1 as nat,
                    divisor as nat,
                ) by {
                    if j > i {
                        assert(ranks_before(
                            features,
                            terms,
                            search_scores@[i as int].0 as int,
                            search_scores@[j].0 as int,
                        ));
                    }
                }
            }
            return found;
        }
        found.push(entry.0);
        i = i + 1;
    }
    found
}

/// Ranks the records of the corpus for the search terms and returns the
/// ids of those whose score is a quarter or more, the best first.
///
/// The score of a record is what it gets for the terms (`hits`) divided by
/// the most that a record can get (`total_weight`); `search_scores` holds
/// the dividend. Afterwards it holds the whole ranking: each record once,
/// the higher score first, of equal scores the shorter title first, of
/// equal title lengths the lower id first. What is returned is the head
/// of that ranking: the ids of the records whose score reaches the
/// threshold, and of no others. No score is above one.
pub fn run_search(
    search_terms: &[String],
    search_scores: &mut Vec<(u16, u64)>,
    corpus: &Corpus,
) -> (found: Vec<u16>)
    requires
        corpus.wf(),
        old(search_scores)@.len() == corpus@.len(),
        total_weight(term_bytes(search_terms@)) <= u64::MAX,
    ensures
        is_ranking(corpus@, term_bytes(search_terms@), final(search_scores)@),
        is_result(term_bytes(search_terms@), final(search_scores)@, found@),
        forall|i: int|
            0 <= i < final(search_scores)@.len() ==> (#[trigger] final(search_scores)@[i]).1
                <= total_weight(term_bytes(search_terms@)),
        forall|id: u16|
            found@.contains(id) <==> id < corpus@.len() && is_match(
                hits(corpus@[id as int], term_bytes(search_terms@)),
                total_weight(term_bytes(search_terms@)),
            ),
{
    let divisor = match score_divisor(search_terms) {
        Some(divisor) => divisor,
        None => 0,
    };
    reset_scores(search_scores);
    accumulate(search_terms, search_scores, corpus);
    rank(search_scores, corpus, Ghost(term_bytes(search_terms@)));
    let found = matching_head(search_scores, divisor, Ghost(corpus@), Ghost(term_bytes(search_terms@)));
    proof {
        let terms = term_bytes(search_terms@);
        assert forall|i: int| 0 <= i < search_scores@.len() implies (#[trigger] search_scores@[i]).1
            <= total_weight(terms) by {
            lemma_scores_bounded(corpus@, terms, search_scores@, i);
        }
        assert forall|id: u16|
            found@.contains(id) <==> id < corpus@.len() && is_match(
                hits(corpus@[id as int], terms),
                total_weight(terms),
            ) by {
            lemma_result_members(corpus@, terms, search_scores@, found@, id);
        }
    }
    found
}

/// As `run_search`, for any terms: `None`, and the scores as they were,
/// where the divisor of the scores is too large for a `u64`.
pub fn try_run_search(
    search_terms: &[String],
    search_scores: &mut Vec<(u16, u64)>,
    corpus: &Corpus,
) -> (res: Option<Vec<u16>>)
    requires
        corpus.wf(),
        old(search_scores)@.len() == corpus@.len(),
    ensures
        res is Some <==> total_weight(term_bytes(search_terms@)) <= u64::MAX,
        res is Some ==> is_ranking(corpus@, term_bytes(search_terms@), final(search_scores)@)
            && is_result(term_bytes(search_terms@), final(search_scores)@, res->0@),
        res is None ==> final(search_scores)@ == old(search_scores)@,
{
    match score_divisor(search_terms) {
        Some(_) => Some(run_search(search_terms, search_scores, corpus)),
        None => None,
    }
}

/// A ranking is determined by the corpus and the terms: two rankings of
/// the same records for the same terms are equal, and so are the results
/// taken from them. Searching again gives the same answer.
pub proof fn lemma_search_is_deterministic(
    features: Seq<FeatureData>,
    terms: Seq<Seq<u8>>,
    scores1: Seq<(u16, u64)>,
    found1: Seq<u16>,
    scores2: Seq<(u16, u64)>,
    found2: Seq<u16>,
)
    requires
        is_ranking(features, terms, scores1),
        is_result(terms, scores1, found1),
        is_ranking(features, terms, scores2),
        is_result(terms, scores2, found2),
    ensures
        scores1 == scores2,
        found1 == found2,
{
    lemma_ranking_prefix(features, terms, scores1, scores2, features.len() as int);
    assert(scores1.take(features.len() as int) == scores1);
    assert(scores2.take(features.len() as int) == scores2);
    if found1.len() < found2.len() {
        assert(is_match(scores1[found1.len() as int].1 as nat, total_weight(terms)));
    }
    if found2.len() < found1.len() {
        assert(is_match(scores1[found2.len() as int].1 as nat, total_weight(terms)));
    }
    assert(found1 =~= found2);
}

/// Two rankings agree on their first `k` places.
proof fn lemma_ranking_prefix(
    features: Seq<FeatureData>,
    terms: Seq<Seq<u8>>,
    scores1: Seq<(u16, u64)>,
    scores2: Seq<(u16, u64)>,
    k: int,
)
    requires
        is_ranking(features, terms, scores1),
        is_ranking(features, terms, scores2),
        0 <= k <= features.len(),
    ensures
        scores1.take(k) == scores2.take(k),
    decreases k,
{
    if k == 0 {
        assert(scores1.take(0) =~= scores2.take(0));
    } else {
        let m = k - 1;
        lemma_ranking_prefix(features, terms, scores1, scores2, m);
        assert forall|i: int| 0 <= i < m implies scores1[i] == scores2[i] by {
            assert(scores1.take(m)[i] == scores2.take(m)[i]);
        }
        let a = scores1[m].0 as int;
        let b = scores2[m].0 as int;
        assert(is_ranked(scores2, a));
        let p = choose|p: int| 0 <= p < scores2.len() && (#[trigger] scores2[p]).0 == a;
        assert(is_ranked(scores1, b));
        let q = choose|q: int| 0 <= q < scores1.len() && (#[trigger] scores1[q]).0 == b;
        if p < m {
            assert(scores1[p] == scores2[p]);
            assert(ranks_before(features, terms, scores1[p].0 as int, scores1[m].0 as int));
        }
        if q < m {
            assert(scores1[q] == scores2[q]);
            assert(ranks_before(features, terms, scores2[q].0 as int, scores2[m].0 as int));
        }
        if p > m {
            assert(ranks_before(features, terms, scores2[m].0 as int, scores2[p].0 as int));
        }
        if q > m {
            assert(ranks_before(features, terms, scores1[m].0 as int, scores1[q].0 as int));
        }
        assert(a == b);
        assert(scores1[m] == scores2[m]);
        assert(scores1.take(k) =~= scores2.take(k));
    }
}

/// The ids that a search returns are those of the records whose score
/// reaches the threshold, and no others.
pub proof fn lemma_result_members(
    features: Seq<FeatureData>,
    terms: Seq<Seq<u8>>,
    scores: Seq<(u16, u64)>,
    found: Seq<u16>,
    id: u16,
)
    requires
        is_ranking(features, terms, scores),
        is_result(terms, scores, found),
    ensures
        found.contains(id) <==> id < features.len() && is_match(
            hits(features[id as int], terms),
            total_weight(terms),
        ),
{
    if found.contains(id) {
        let i = choose|i: int| 0 <= i < found.len() && found[i] == id;
        assert(scores[i].0 == id);
        assert(is_match(scores[i].1 as nat, total_weight(terms)));
    }
    if id < features.len() && is_match(hits(features[id as int], terms), total_weight(terms)) {
        assert(is_ranked(scores, id as int));
        let i = choose|i: int| 0 <= i < scores.len() && (#[trigger] scores[i]).0 == id;
        assert(is_match(scores[i].1 as nat, total_weight(terms)));
        assert(found[i] == id);
    }
}

/// A record that shares no n-gram with any term is not among the ids that
/// a search returns.
pub proof fn lemma_no_shared_ngram_excluded(
    features: Seq<FeatureData>,
    terms: Seq<Seq<u8>>,
    scores: Seq<(u16, u64)>,
    found: Seq<u16>,
    id: u16,
)
    requires
        is_ranking(features, terms, scores),
        is_result(terms, scores, found),
        id < features.len(),
        forall|t: int| 0 <= t < terms.len() ==> misses_term(features[id as int], #[trigger] terms[t]),
    ensures
        hits(features[id as int], terms) == 0,
        !found.contains(id),
{
    lemma_no_cover(features[id as int], terms);
    lemma_result_members(features, terms, scores, found, id);
}

/// Of two records with one score the one with the shorter title stands
/// first in the ranking; where the titles are equally long, the one with
/// the lower id.
pub proof fn lemma_tie_break(
    features: Seq<FeatureData>,
    terms: Seq<Seq<u8>>,
    scores: Seq<(u16, u64)>,
    i: int,
    j: int,
)
    requires
        is_ranking(features, terms, scores),
        0 <= i < j < scores.len(),
        scores[i].1 == scores[j].1,
    ensures
        ({
            let len_i = bytes_of(features[scores[i].0 as int].title@).len();
            let len_j = bytes_of(features[scores[j].0 as int].title@).len();
            len_i < len_j || (len_i == len_j && scores[i].0 < scores[j].0)
        }),
{
    assert(ranks_before(features, terms, scores[i].0 as int, scores[j].0 as int));
}

/// Every score is between zero and one: what a record gets is no more
/// than the divisor.
pub proof fn lemma_scores_bounded(
    features: Seq<FeatureData>,
    terms: Seq<Seq<u8>>,
    scores: Seq<(u16, u64)>,
    i: int,
)
    requires
        is_ranking(features, terms, scores),
        0 <= i < scores.len(),
    ensures
        0 <= scores[i].1 <= total_weight(terms),
{
    lemma_hits_bound(features[scores[i].0 as int], terms);
}

} // verus!
