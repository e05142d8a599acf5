//! What a record gets for search terms: the weighted number of the n-grams
//! of the terms that it holds.

use vstd::prelude::*;
use crate::data::FeatureData;
use crate::index::{strictly_increasing, NGramIndex};
use crate::ngram::window_count;
use crate::text::bytes_of;

verus! {

/// What one n-gram of `width` bytes counts for: 1 for a single byte, 4 for a
/// pair, 12 for a triple.
pub open spec fn ngram_weight(width: int) -> nat {
    if width == 1 {
        1
    } else if width == 2 {
        4
    } else if width == 3 {
        12
    } else {
        0
    }
}

/// `count` n-grams of `width` bytes, weighted.
pub open spec fn weighted(width: int, count: nat) -> nat {
    if width == 1 {
        count
    } else if width == 2 {
        4 * count
    } else if width == 3 {
        12 * count
    } else {
        0
    }
}

/// The bytes of each of `terms`.
pub open spec fn term_bytes(terms: Seq<String>) -> Seq<Seq<u8>> {
    Seq::new(terms.len(), |i: int| bytes_of(terms[i]@))
}

/// How many of the first `upto` windows of `width` bytes of `term` the
/// feature holds as indexed n-grams. A window that stands twice in the term
/// counts twice.
pub open spec fn window_hits(feature: FeatureData, term: Seq<u8>, width: int, upto: int) -> nat
    decreases upto,
{
    if upto <= 0 {
        0
    } else {
        window_hits(feature, term, width, upto - 1) + if feature.has_ngram(
            term.subrange(upto - 1, upto - 1 + width),
        ) {
            1nat
        } else {
            0nat
        }
    }
}

/// The weighted number of the windows of `term`, of one, two and three
/// bytes, that the feature holds.
pub open spec fn term_hits(feature: FeatureData, term: Seq<u8>) -> nat {
    let len = term.len() as int;
    window_hits(feature, term, 1, window_count(len, 1)) + 4 * window_hits(
        feature,
        term,
        2,
        window_count(len, 2),
    ) + 12 * window_hits(feature, term, 3, window_count(len, 3))
}

/// The weighted number of all windows of `term`: what a feature that holds
/// each of them gets for it.
pub open spec fn term_weight(term: Seq<u8>) -> nat {
    let len = term.len() as int;
    (window_count(len, 1) + 4 * window_count(len, 2) + 12 * window_count(len, 3)) as nat
}

/// What the feature gets for `terms`: the sum of what it gets for each. A
/// term that is there twice counts twice.
pub open spec fn hits(feature: FeatureData, terms: Seq<Seq<u8>>) -> nat
    decreases terms.len(),
{
    if terms.len() == 0 {
        0
    } else {
        hits(feature, terms.drop_last()) + term_hits(feature, terms.last())
    }
}

/// The divisor of the scores: what a feature that holds every window of
/// every term gets.
pub open spec fn total_weight(terms: Seq<Seq<u8>>) -> nat
    decreases terms.len(),
{
    if terms.len() == 0 {
        0
    } else {
        total_weight(terms.drop_last()) + term_weight(terms.last())
    }
}

/// The score `hits / divisor` reaches the threshold of a quarter. Without
/// windows there is nothing to reach it with.
pub open spec fn is_match(hits: nat, divisor: nat) -> bool {
    divisor > 0 && 4 * hits >= divisor
}

/// Whether the feature holds every window of `term`, of one, two and three
/// bytes, as an indexed n-gram.
pub open spec fn covers_term(feature: FeatureData, term: Seq<u8>) -> bool {
    forall|width: int, at: int|
        1 <= width <= 3 && 0 <= at && at + width <= term.len() ==> feature.has_ngram(
            #[trigger] term.subrange(at, at + width),
        )
}

/// Whether the feature holds no window of `term` as an indexed n-gram.
pub open spec fn misses_term(feature: FeatureData, term: Seq<u8>) -> bool {
    forall|width: int, at: int|
        1 <= width <= 3 && 0 <= at && at + width <= term.len() ==> !feature.has_ngram(
            #[trigger] term.subrange(at, at + width),
        )
}

/// Of `upto` windows at most `upto` are held.
pub proof fn lemma_window_hits_bound(feature: FeatureData, term: Seq<u8>, width: int, upto: int)
    requires
        0 <= upto,
    ensures
        window_hits(feature, term, width, upto) <= upto,
    decreases upto,
{
    if upto > 0 {
        lemma_window_hits_bound(feature, term, width, upto - 1);
    }
}

/// A feature that holds each of the first `upto` windows is counted for each.
pub proof fn lemma_window_hits_all(feature: FeatureData, term: Seq<u8>, width: int, upto: int)
    requires
        0 <= upto,
        forall|at: int| 0 <= at < upto ==> feature.has_ngram(#[trigger] term.subrange(at, at + width)),
    ensures
        window_hits(feature, term, width, upto) == upto,
    decreases upto,
{
    if upto > 0 {
        lemma_window_hits_all(feature, term, width, upto - 1);
    }
}

/// A feature that holds none of the first `upto` windows is counted for none.
pub proof fn lemma_window_hits_none(feature: FeatureData, term: Seq<u8>, width: int, upto: int)
    requires
        0 <= upto,
        forall|at: int| 0 <= at < upto ==> !feature.has_ngram(#[trigger] term.subrange(at, at + width)),
    ensures
        window_hits(feature, term, width, upto) == 0,
    decreases upto,
{
    if upto > 0 {
        lemma_window_hits_none(feature, term, width, upto - 1);
    }
}

/// No term gives a feature more than its weight.
pub proof fn lemma_term_hits_bound(feature: FeatureData, term: Seq<u8>)
    ensures
        term_hits(feature, term) <= term_weight(term),
{
    let len = term.len() as int;
    lemma_window_hits_bound(feature, term, 1, window_count(len, 1));
    lemma_window_hits_bound(feature, term, 2, window_count(len, 2));
    lemma_window_hits_bound(feature, term, 3, window_count(len, 3));
}

/// The weight of the first terms is no more than that of all.
pub proof fn lemma_total_weight_prefix(terms: Seq<Seq<u8>>, n: int)
    requires
        0 <= n <= terms.len(),
    ensures
        total_weight(terms.take(n)) <= total_weight(terms),
    decreases terms.len(),
{
    if n == terms.len() {
        assert(terms.take(n) == terms);
    } else {
        lemma_total_weight_prefix(terms.drop_last(), n);
        assert(terms.drop_last().take(n) == terms.take(n));
    }
}

/// Adding a term adds its hits and its weight.
pub proof fn lemma_take_next(feature: FeatureData, terms: Seq<Seq<u8>>, n: int)
    requires
        0 <= n < terms.len(),
    ensures
        hits(feature, terms.take(n + 1)) == hits(feature, terms.take(n)) + term_hits(feature, terms[n]),
        total_weight(terms.take(n + 1)) == total_weight(terms.take(n)) + term_weight(terms[n]),
{
    assert(terms.take(n + 1).drop_last() == terms.take(n));
    assert(terms.take(n + 1).last() == terms[n]);
}

/// A score is at most one: a feature gets no more than the divisor.
pub proof fn lemma_hits_bound(feature: FeatureData, terms: Seq<Seq<u8>>)
    ensures
        hits(feature, terms) <= total_weight(terms),
    decreases terms.len(),
{
    if terms.len() > 0 {
        lemma_hits_bound(feature, terms.drop_last());
        lemma_term_hits_bound(feature, terms.last());
    }
}

/// A feature that holds every window of every term has the score one: it
/// gets the divisor.
pub proof fn lemma_full_cover(feature: FeatureData, terms: Seq<Seq<u8>>)
    requires
        forall|t: int| 0 <= t < terms.len() ==> covers_term(feature, #[trigger] terms[t]),
    ensures
        hits(feature, terms) == total_weight(terms),
    decreases terms.len(),
{
    if terms.len() > 0 {
        let rest = terms.drop_last();
        assert forall|t: int| 0 <= t < rest.len() implies covers_term(feature, #[trigger] rest[t]) by {
            assert(rest[t] == terms[t]);
        }
        lemma_full_cover(feature, rest);
        let term = terms.last();
        assert(covers_term(feature, term));
        let len = term.len() as int;
        lemma_window_hits_all(feature, term, 1, window_count(len, 1));
        lemma_window_hits_all(feature, term, 2, window_count(len, 2));
        lemma_window_hits_all(feature, term, 3, window_count(len, 3));
    }
}

/// A feature that shares no n-gram with any term has the score zero, and
/// does not reach the threshold.
pub proof fn lemma_no_cover(feature: FeatureData, terms: Seq<Seq<u8>>)
    requires
        forall|t: int| 0 <= t < terms.len() ==> misses_term(feature, #[trigger] terms[t]),
    ensures
        hits(feature, terms) == 0,
        !is_match(hits(feature, terms), total_weight(terms)),
    decreases terms.len(),
{
    if terms.len() > 0 {
        let rest = terms.drop_last();
        assert forall|t: int| 0 <= t < rest.len() implies misses_term(feature, #[trigger] rest[t]) by {
            assert(rest[t] == terms[t]);
        }
        lemma_no_cover(feature, rest);
        let term = terms.last();
        assert(misses_term(feature, term));
        let len = term.len() as int;
        lemma_window_hits_none(feature, term, 1, window_count(len, 1));
        lemma_window_hits_none(feature, term, 2, window_count(len, 2));
        lemma_window_hits_none(feature, term, 3, window_count(len, 3));
    }
}

/// Adds `weight` to the score of each record in `ids`.
fn add_postings(scores: &mut Vec<(u16, u64)>, ids: &Vec<u16>, weight: u64)
    requires
        strictly_increasing(ids@),
        old(scores)@.len() <= 65536,
        forall|k: int| 0 <= k < ids@.len() ==> ids@[k] < old(scores)@.len(),
        forall|i: int| 0 <= i < old(scores)@.len() ==> old(scores)@[i].1 + weight <= u64::MAX,
    ensures
        final(scores)@.len() == old(scores)@.len(),
        forall|i: int|
            0 <= i < old(scores)@.len() ==> (#[trigger] final(scores)@[i]).0 == old(scores)@[i].0
                && final(scores)@[i].1 == old(scores)@[i].1 + (if ids@.contains(i as u16) {
                weight as int
            } else {
                0
            }),
{
    let mut k: usize = 0;
    while k < ids.len()
        invariant
            0 <= k <= ids@.len(),
            strictly_increasing(ids@),
            scores@.len() == old(scores)@.len(),
            scores@.len() <= 65536,
            forall|j: int| 0 <= j < ids@.len() ==> ids@[j] < scores@.len(),
            forall|i: int| 0 <= i < old(scores)@.len() ==> old(scores)@[i].1 + weight <= u64::MAX,
            forall|i: int|
                0 <= i < scores@.len() ==> (#[trigger] scores@[i]).0 == old(scores)@[i].0 && scores@[i].1
                    == old(scores)@[i].1 + (if ids@.take(k as int).contains(i as u16) {
                    weight as int
                } else {
                    0
                }),
        decreases ids@.len() - k,
    {
        let id = ids[k] as usize;
        let ghost prev = scores@;
        proof {
            if ids@.take(k as int).contains(id as u16) {
                let j = choose|j: int| 0 <= j < k && ids@.take(k as int)[j] == id as u16;
                assert(ids@[j] < ids@[k as int]);
            }
        }
        let entry = scores[id];
        scores[id] = (entry.0, entry.1 + weight);
        proof {
            assert forall|i: int| 0 <= i < scores@.len() implies (#[trigger] scores@[i]).0
                == old(scores)@[i].0 && scores@[i].1 == old(scores)@[i].1 + (if ids@.take(
                k + 1,
            ).contains(i as u16) {
                weight as int
            } else {
                0
            }) by {
                let before = ids@.take(k as int);
                let after = ids@.take(k + 1);
                assert(after == before.push(ids@[k as int]));
                if before.contains(i as u16) {
                    let j = choose|j: int| 0 <= j < before.len() && before[j] == i as u16;
                    assert(after[j] == i as u16);
                }
                if after.contains(i as u16) {
                    let j = choose|j: int| 0 <= j < after.len() && after[j] == i as u16;
                    if j < k {
                        assert(before[j] == i as u16);
                    }
                }
                if i == id {
                    assert(after[k as int] == i as u16);
                }
            }
        }
        k = k + 1;
    }
    proof {
        assert(ids@.take(k as int) == ids@);
    }
}

/// Adds to each score what the record gets for the windows of `term` of
/// the width of `index`.
pub(crate) fn score_windows(
    scores: &mut Vec<(u16, u64)>,
    term: &[u8],
    index: &NGramIndex,
    weight: u64,
    Ghost(features): Ghost<Seq<FeatureData>>,
)
    requires
        index.indexes(features),
        weight == ngram_weight(index.width()),
        old(scores)@.len() == features.len(),
        features.len() <= 65536,
        forall|i: int|
            0 <= i < features.len() ==> old(scores)@[i].1 + weighted(
                index.width(),
                window_count(term@.len() as int, index.width()) as nat,
            ) <= u64::MAX,
    ensures
        final(scores)@.len() == old(scores)@.len(),
        forall|i: int|
            0 <= i < features.len() ==> (#[trigger] final(scores)@[i]).0 == old(scores)@[i].0
                && final(scores)@[i].1 == old(scores)@[i].1 + weighted(
                index.width(),
                window_hits(
                    features[i],
                    term@,
                    index.width(),
                    window_count(term@.len() as int, index.width()),
                ),
            ),
{
    proof {
        index.lemma_wf(Seq::empty());
    }
    let ghost width = index.width();
    let len = term.len();
    let count: usize = if weight == 1 {
        len
    } else if weight == 4 {
        if len >= 2 {
            len - 1
        } else {
            0
        }
    } else {
        if len >= 3 {
            len - 2
        } else {
            0
        }
    };
    assert(count == window_count(len as int, width));
    let mut at: usize = 0;
    while at < count
        invariant
            index.indexes(features),
            width == index.width(),
            1 <= width <= 3,
            weight == ngram_weight(width),
            len == term@.len(),
            count == window_count(len as int, width),
            0 <= at <= count,
            scores@.len() == features.len(),
            scores@.len() == old(scores)@.len(),
            features.len() <= 65536,
            forall|i: int|
                0 <= i < features.len() ==> old(scores)@[i].1 + weighted(width, count as nat)
                    <= u64::MAX,
            forall|i: int|
                0 <= i < features.len() ==> (#[trigger] scores@[i]).0 == old(scores)@[i].0 && scores@[i].1
                    == old(scores)@[i].1 + weighted(
                    width,
                    window_hits(features[i], term@, width, at as int),
                ),
        decreases count - at,
    {
        let ghost gram = term@.subrange(at as int, at + width);
        let ghost prev = scores@;
        proof {
            assert forall|i: int| 0 <= i < features.len() implies prev[i].1 + weight <= u64::MAX by {
                lemma_window_hits_bound(features[i], term@, width, at as int);
            }
        }
        match index.lookup(term, at) {
            Some(ids) => {
                proof {
                    index.lemma_wf(gram);
                    assert forall|k: int| 0 <= k < ids@.len() implies ids@[k] < scores@.len() by {
                        assert(index.postings(gram).contains(ids@[k]));
                    }
                }
                add_postings(scores, ids, weight);
                proof {
                    assert forall|i: int| 0 <= i < features.len() implies (ids@.contains(i as u16)
                        <==> features[i].has_ngram(gram)) by {
                        if features[i].has_ngram(gram) {
                            assert(index.postings(gram).contains(i as u16));
                        }
                    }
                }
            },
            None => {
                proof {
                    assert forall|i: int| 0 <= i < features.len() implies !features[i].has_ngram(
                        gram,
                    ) by {
                        if features[i].has_ngram(gram) {
                            assert(index.postings(gram).contains(i as u16));
                        }
                    }
                }
            },
        }
        at = at + 1;
    }
}

} // verus!
