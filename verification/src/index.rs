//! The index of the n-grams of one width: for each n-gram the ascending list
//! of the ids of the records that hold it.

use std::collections::HashMap;
use vstd::prelude::*;
use crate::data::FeatureData;
use crate::ngram::{
    gram_key, is_indexable, lemma_gram_key_injective, occurs_at, occurs_in, text_has_ngram,
    window_key,
};
use crate::text::bytes_of;

verus! {

broadcast use vstd::std_specs::hash::group_hash_axioms;

/// Whether `ids` ascends without repetition.
pub open spec fn strictly_increasing(ids: Seq<u16>) -> bool {
    forall|i: int, j: int| 0 <= i < j < ids.len() ==> ids[i] < ids[j]
}

/// Whether `gram` stands in `text` at an offset below `upto`.
pub open spec fn occurs_before(text: Seq<u8>, gram: Seq<u8>, upto: int) -> bool {
    exists|at: int| 0 <= at < upto && occurs_at(text, gram, at)
}

/// Puts `id` into an ascending list, unless it is there.
pub fn insert_id(ids: &mut Vec<u16>, id: u16)
    requires
        strictly_increasing(old(ids)@),
    ensures
        strictly_increasing(final(ids)@),
        forall|x: u16| final(ids)@.contains(x) <==> old(ids)@.contains(x) || x == id,
{
    let mut pos: usize = ids.len();
    while pos > 0 && ids[pos - 1] > id
        invariant
            0 <= pos <= ids@.len(),
            ids@ == old(ids)@,
            forall|j: int| pos <= j < ids@.len() ==> ids@[j] > id,
        decreases pos,
    {
        pos = pos - 1;
    }
    if pos > 0 && ids[pos - 1] == id {
        assert(ids@.contains(id));
        return ;
    }
    let ghost before = ids@;
    ids.insert(pos, id);
    proof {
        let after = ids@;
        assert(after == before.insert(pos as int, id));
        assert forall|i: int, j: int| 0 <= i < j < after.len() implies after[i] < after[j] by {
            if i < pos && j > pos {
                assert(after[i] == before[i]);
                assert(after[j] == before[j - 1]);
            } else if i < pos && j == pos {
                if pos > 0 {
                    assert(before[i] <= before[pos - 1]);
                }
            }
        }
        assert forall|x: u16| after.contains(x) <==> before.contains(x) || x == id by {
            if after.contains(x) {
                let k = choose|k: int| 0 <= k < after.len() && after[k] == x;
                if k < pos {
                    assert(before[k] == x);
                } else if k > pos {
                    assert(before[k - 1] == x);
                }
            }
            if before.contains(x) {
                let k = choose|k: int| 0 <= k < before.len() && before[k] == x;
                if k < pos {
                    assert(after[k] == x);
                } else {
                    assert(after[k + 1] == x);
                }
            }
            if x == id {
                assert(after[pos as int] == x);
            }
        }
    }
}

/// For each n-gram of one width, the ascending list of the ids of the
/// records that hold it.
pub struct NGramIndex {
    width: usize,
    table: HashMap<u32, Vec<u16>>,
}

impl NGramIndex {
    /// The number of bytes of the n-grams that the index files.
    pub closed spec fn width(&self) -> int {
        self.width as int
    }

    /// The ids filed under `gram`; none where `gram` has another width.
    pub closed spec fn postings(&self, gram: Seq<u8>) -> Seq<u16> {
        if gram.len() == self.width && self.table@.contains_key(gram_key(gram) as u32) {
            self.table@[gram_key(gram) as u32]@
        } else {
            Seq::empty()
        }
    }

    /// The width is 1, 2 or 3, each list ascends without repetition, and
    /// nothing is filed under an n-gram with a byte that is not indexable.
    pub closed spec fn wf(&self) -> bool {
        &&& 1 <= self.width <= 3
        &&& forall|k: u32| self.table@.contains_key(k) ==> strictly_increasing(#[trigger] self.table@[k]@)
        &&& forall|gram: Seq<u8>|
            gram.len() == self.width && !is_indexable(gram) ==> !self.table@.contains_key(
                #[trigger] gram_key(gram) as u32,
            )
    }

    /// Whether this is the index, for its width, of `features`: an id is
    /// filed under an n-gram exactly when the feature with that id holds
    /// the n-gram.
    pub open spec fn indexes(&self, features: Seq<FeatureData>) -> bool {
        &&& self.wf()
        &&& forall|g: Seq<u8>, x: u16|
            #[trigger] self.postings(g).contains(x) <==> x < features.len() && g.len() == self.width()
                && features[x as int].has_ngram(g)
    }

    /// What well-formedness says of the lists.
    pub proof fn lemma_wf(&self, gram: Seq<u8>)
        requires
            self.wf(),
        ensures
            1 <= self.width() <= 3,
            strictly_increasing(self.postings(gram)),
            gram.len() != self.width() || !is_indexable(gram) ==> self.postings(gram) == Seq::<
                u16,
            >::empty(),
    {
    }

    /// An index without entries.
    pub fn new(width: usize) -> (index: Self)
        requires
            1 <= width <= 3,
        ensures
            index.wf(),
            index.width() == width,
            forall|gram: Seq<u8>| #[trigger] index.postings(gram) == Seq::<u16>::empty(),
    {
        NGramIndex { width, table: HashMap::new() }
    }

    /// The ids filed under the window of the index's width that starts at
    /// `at` in `text`, or `None` where there are none.
    pub fn lookup(&self, text: &[u8], at: usize) -> (res: Option<&Vec<u16>>)
        requires
            self.wf(),
            at + self.width() <= text@.len(),
        ensures
            match res {
                Some(ids) => ids@ == self.postings(text@.subrange(at as int, at + self.width())),
                None => self.postings(text@.subrange(at as int, at + self.width())).len() == 0,
            },
    {
        match window_key(text, at, self.width) {
            Some(key) => self.table.get(&key),
            None => None,
        }
    }

    /// The ids filed under `gram`.
    pub fn get(&self, gram: &[u8]) -> (res: Option<&Vec<u16>>)
        requires
            self.wf(),
        ensures
            match res {
                Some(ids) => ids@ == self.postings(gram@),
                None => self.postings(gram@).len() == 0,
            },
    {
        if gram.len() != self.width {
            return None;
        }
        assert(gram@.subrange(0, gram@.len() as int) == gram@);
        self.lookup(gram, 0)
    }

    /// Files `id` under the n-gram `gram`, whose number is `key`.
    fn file(&mut self, key: u32, id: u16, Ghost(gram): Ghost<Seq<u8>>)
        requires
            old(self).wf(),
            gram.len() == old(self).width(),
            is_indexable(gram),
            key == gram_key(gram),
        ensures
            final(self).wf(),
            final(self).width() == old(self).width(),
            forall|g: Seq<u8>, x: u16|
                #[trigger] final(self).postings(g).contains(x) <==> old(self).postings(g).contains(x)
                    || (g == gram && x == id),
    {
        let mut ids = match self.table.remove(&key) {
            Some(ids) => ids,
            None => Vec::new(),
        };
        let ghost before = ids@;
        assert(before == old(self).postings(gram));
        insert_id(&mut ids, id);
        let ghost after = ids@;
        self.table.insert(key, ids);
        proof {
            assert forall|g: Seq<u8>|
                g.len() == self.width && !is_indexable(g) implies !self.table@.contains_key(
                #[trigger] gram_key(g) as u32,
            ) by {
                if gram_key(g) == gram_key(gram) {
                    lemma_gram_key_injective(g, gram);
                }
            }
            assert forall|g: Seq<u8>, x: u16| #[trigger]
                self.postings(g).contains(x) <==> old(self).postings(g).contains(x) || (g == gram && x
                    == id) by {
                if g.len() == self.width {
                    if gram_key(g) == gram_key(gram) {
                        lemma_gram_key_injective(g, gram);
                        assert(self.postings(g) == after);
                    } else {
                        assert(self.postings(g) == old(self).postings(g));
                    }
                }
            }
        }
    }

    /// Files `id` under each window of `text` whose bytes are all indexable.
    pub fn add_text(&mut self, text: &[u8], id: u16)
        requires
            old(self).wf(),
        ensures
            final(self).wf(),
            final(self).width() == old(self).width(),
            forall|g: Seq<u8>, x: u16|
                #[trigger] final(self).postings(g).contains(x) <==> old(self).postings(g).contains(x)
                    || (x == id && g.len() == old(self).width() && text_has_ngram(text@, g)),
    {
        let len = text.len();
        let width = self.width;
        if len < width {
            proof {
                assert forall|g: Seq<u8>| g.len() == width implies !occurs_in(text@, g) by {}
            }
            return ;
        }
        let count = len - width + 1;
        let mut at: usize = 0;
        while at < count
            invariant
                self.wf(),
                self.width == width,
                width == old(self).width(),
                1 <= width <= 3,
                len == text@.len(),
                count == len - width + 1,
                0 <= at <= count,
                forall|g: Seq<u8>, x: u16|
                    #[trigger] self.postings(g).contains(x) <==> old(self).postings(g).contains(x) || (x
                        == id && g.len() == width && is_indexable(g) && occurs_before(
                        text@,
                        g,
                        at as int,
                    )),
            decreases count - at,
        {
            let ghost window = text@.subrange(at as int, at + width);
            let ghost prev = *self;
            match window_key(text, at, width) {
                Some(key) => {
                    self.file(key, id, Ghost(window));
                },
                None => {},
            }
            proof {
                assert forall|g: Seq<u8>, x: u16| #[trigger]
                    self.postings(g).contains(x) <==> old(self).postings(g).contains(x) || (x == id
                        && g.len() == width && is_indexable(g) && occurs_before(text@, g, at + 1)) by {
                    if g.len() == width {
                        assert(occurs_at(text@, g, at as int) <==> g == window);
                        if occurs_before(text@, g, at + 1) {
                            let w = choose|w: int| 0 <= w < at + 1 && occurs_at(text@, g, w);
                            if w < at {
                                assert(occurs_before(text@, g, at as int));
                            }
                        }
                        if occurs_before(text@, g, at as int) {
                            let w = choose|w: int| 0 <= w < at && occurs_at(text@, g, w);
                            assert(0 <= w < at + 1 && occurs_at(text@, g, w));
                        }
                        if g == window {
                            assert(occurs_at(text@, g, at as int));
                        }
                    }
                    assert(prev.postings(g).contains(x) <==> old(self).postings(g).contains(x) || (x
                        == id && g.len() == width && is_indexable(g) && occurs_before(
                        text@,
                        g,
                        at as int,
                    )));
                }
            }
            at = at + 1;
        }
        proof {
            assert forall|g: Seq<u8>| g.len() == width implies (occurs_before(text@, g, count as int)
                <==> occurs_in(text@, g)) by {
                if occurs_in(text@, g) {
                    let w = choose|w: int| occurs_at(text@, g, w);
                    assert(0 <= w < count && occurs_at(text@, g, w));
                }
            }
        }
    }
}

/// Files `idx` under each indexed n-gram, of the index's width, of the
/// searchable strings of `feature`: its title, its flag and its items.
/// What was filed before stays; filing twice changes nothing.
pub fn add_feature_ngrams(index: &mut NGramIndex, feature: &FeatureData, idx: u16)
    requires
        old(index).wf(),
    ensures
        final(index).wf(),
        final(index).width() == old(index).width(),
        forall|g: Seq<u8>, x: u16|
            #[trigger] final(index).postings(g).contains(x) <==> old(index).postings(g).contains(x) || (
            x == idx && g.len() == old(index).width() && feature.has_ngram(g)),
{
    proof {
        old(index).lemma_wf(Seq::empty());
    }
    index.add_text(feature.title.as_str().as_bytes(), idx);
    match &feature.flag {
        Some(flag) => {
            index.add_text(flag.as_str().as_bytes(), idx);
        },
        None => {},
    }
    let ghost width = old(index).width();
    let mut k: usize = 0;
    while k < feature.items.len()
        invariant
            index.wf(),
            index.width() == width,
            width == old(index).width(),
            1 <= width <= 3,
            0 <= k <= feature.items@.len(),
            forall|g: Seq<u8>, x: u16|
                #[trigger] index.postings(g).contains(x) <==> old(index).postings(g).contains(x) || (x
                    == idx && g.len() == width && (text_has_ngram(bytes_of(feature.title@), g) || (
                feature.flag is Some && text_has_ngram(bytes_of(feature.flag->0@), g)) || exists|j: int|
                    0 <= j < k && text_has_ngram(bytes_of((#[trigger] feature.items@[j])@), g))),
        decreases feature.items@.len() - k,
    {
        let ghost prev = *index;
        index.add_text(feature.items[k].as_str().as_bytes(), idx);
        proof {
            assert forall|g: Seq<u8>, x: u16| #[trigger]
                index.postings(g).contains(x) <==> old(index).postings(g).contains(x) || (x == idx
                    && g.len() == width && (text_has_ngram(bytes_of(feature.title@), g) || (
                feature.flag is Some && text_has_ngram(bytes_of(feature.flag->0@), g)) || exists|j: int|
                    0 <= j < k + 1 && text_has_ngram(bytes_of((#[trigger] feature.items@[j])@), g))) by {
                let here = text_has_ngram(bytes_of(feature.items@[k as int]@), g);
                let before = exists|j: int|
                    0 <= j < k && text_has_ngram(bytes_of((#[trigger] feature.items@[j])@), g);
                let after = exists|j: int|
                    0 <= j < k + 1 && text_has_ngram(bytes_of((#[trigger] feature.items@[j])@), g);
                if after {
                    let j = choose|j: int|
                        0 <= j < k + 1 && text_has_ngram(bytes_of((#[trigger] feature.items@[j])@), g);
                    if j < k {
                        assert(before);
                    }
                }
                assert(after <==> before || here);
                assert(prev.postings(g).contains(x) <==> old(index).postings(g).contains(x) || (x
                    == idx && g.len() == width && (text_has_ngram(bytes_of(feature.title@), g) || (
                feature.flag is Some && text_has_ngram(bytes_of(feature.flag->0@), g)) || before)));
            }
        }
        k = k + 1;
    }
}

/// Ascending lists with the same members are equal.
pub proof fn lemma_increasing_unique(a: Seq<u16>, b: Seq<u16>)
    requires
        strictly_increasing(a),
        strictly_increasing(b),
        forall|x: u16| a.contains(x) <==> b.contains(x),
    ensures
        a == b,
    decreases a.len(),
{
    if a.len() == 0 {
        if b.len() > 0 {
            assert(b.contains(b[0]));
        }
        assert(a =~= b);
    } else {
        let last = a.last();
        assert(a.contains(last));
        let j = choose|j: int| 0 <= j < b.len() && b[j] == last;
        assert(b.contains(b.last()));
        let i = choose|i: int| 0 <= i < a.len() && a[i] == b.last();
        assert(b.last() == last);
        let rest_a = a.drop_last();
        let rest_b = b.drop_last();
        assert forall|x: u16| rest_a.contains(x) <==> rest_b.contains(x) by {
            if rest_a.contains(x) {
                let k = choose|k: int| 0 <= k < rest_a.len() && rest_a[k] == x;
                assert(a[k] == x && a[k] < last);
                assert(a.contains(x));
                let m = choose|m: int| 0 <= m < b.len() && b[m] == x;
                assert(rest_b[m] == x);
            }
            if rest_b.contains(x) {
                let k = choose|k: int| 0 <= k < rest_b.len() && rest_b[k] == x;
                assert(b[k] == x && b[k] < last);
                assert(b.contains(x));
                let m = choose|m: int| 0 <= m < a.len() && a[m] == x;
                assert(rest_a[m] == x);
            }
        }
        lemma_increasing_unique(rest_a, rest_b);
        assert(a =~= rest_a.push(last));
        assert(b =~= rest_b.push(last));
    }
}

/// The index of a corpus is determined by the corpus: two indices of one
/// width for the same features file the same ids, in the same order, under
/// every n-gram.
pub proof fn lemma_index_is_determined(
    a: NGramIndex,
    b: NGramIndex,
    features: Seq<FeatureData>,
    gram: Seq<u8>,
)
    requires
        a.indexes(features),
        b.indexes(features),
        a.width() == b.width(),
    ensures
        a.postings(gram) == b.postings(gram),
{
    a.lemma_wf(gram);
    b.lemma_wf(gram);
    lemma_increasing_unique(a.postings(gram), b.postings(gram));
}

} // verus!
