//! The corpus: the records that can be searched, checked once, with the
//! three indices built from them.

use vstd::prelude::*;
use crate::data::FeatureData;
use crate::index::{add_feature_ngrams, NGramIndex};
use crate::text::{bytes_of, has_byte, BACKTICK};

verus! {

/// The most records that a corpus may hold: as many as there are ids.
pub const MAX_FEATURES: usize = 65536;

/// Why a list of features is no corpus.
#[derive(Copy, Clone, Debug, PartialEq, Eq)]
pub enum CorpusError {
    /// There are more features than ids.
    TooManyFeatures,
    /// An item holds a backtick. Items are shown as code as they stand.
    BacktickInItem { feature: usize, item: usize },
}

/// Whether item `k` of feature `f` holds a backtick.
pub open spec fn item_has_backtick(features: Seq<FeatureData>, f: int, k: int) -> bool {
    &&& 0 <= f < features.len()
    &&& 0 <= k < features[f].items@.len()
    &&& bytes_of(features[f].items@[k]@).contains(BACKTICK)
}

/// A list of features is a corpus when each can have an id and no item
/// holds a backtick.
pub open spec fn valid_corpus(features: Seq<FeatureData>) -> bool {
    &&& features.len() <= MAX_FEATURES
    &&& forall|f: int, k: int| !item_has_backtick(features, f, k)
}

/// Whether `e` names the first defect of `features`.
pub open spec fn first_defect(features: Seq<FeatureData>, e: CorpusError) -> bool {
    match e {
        CorpusError::TooManyFeatures => features.len() > MAX_FEATURES,
        CorpusError::BacktickInItem { feature, item } => {
            &&& features.len() <= MAX_FEATURES
            &&& item_has_backtick(features, feature as int, item as int)
            &&& forall|f: int, k: int|
                item_has_backtick(features, f, k) ==> feature < f || (feature == f && item <= k)
        },
    }
}

/// Looks for the first defect that keeps `features` from being a corpus.
pub fn check_corpus(features: &[FeatureData]) -> (res: Result<(), CorpusError>)
    ensures
        res is Ok <==> valid_corpus(features@),
        res is Err ==> first_defect(features@, res->Err_0),
{
    if features.len() > MAX_FEATURES {
        return Err(CorpusError::TooManyFeatures);
    }
    let mut f: usize = 0;
    while f < features.len()
        invariant
            0 <= f <= features@.len(),
            features@.len() <= MAX_FEATURES,
            forall|g: int, k: int| g < f ==> !item_has_backtick(features@, g, k),
        decreases features@.len() - f,
    {
        let items = &features[f].items;
        let mut k: usize = 0;
        while k < items.len()
            invariant
                0 <= f < features@.len(),
                items == features@[f as int].items,
                0 <= k <= items@.len(),
                features@.len() <= MAX_FEATURES,
                forall|g: int, j: int| g < f ==> !item_has_backtick(features@, g, j),
                forall|j: int| j < k ==> !item_has_backtick(features@, f as int, j),
            decreases items@.len() - k,
        {
            if has_byte(items[k].as_str().as_bytes(), BACKTICK) {
                assert(item_has_backtick(features@, f as int, k as int));
                return Err(CorpusError::BacktickInItem { feature: f, item: k });
            }
            k = k + 1;
        }
        f = f + 1;
    }
    Ok(())
}

/// The three indices of a corpus: by single bytes, by pairs and by triples.
pub struct SearchIndex {
    monograms: NGramIndex,
    bigrams: NGramIndex,
    trigrams: NGramIndex,
}

impl SearchIndex {
    /// The index of the n-grams of `width` bytes.
    pub closed spec fn table(&self, width: int) -> NGramIndex {
        if width == 1 {
            self.monograms
        } else if width == 2 {
            self.bigrams
        } else {
            self.trigrams
        }
    }

    /// Whether these are the indices of `features`, for the widths 1, 2
    /// and 3.
    pub open spec fn indexes(&self, features: Seq<FeatureData>) -> bool {
        forall|width: int|
            1 <= width <= 3 ==> (#[trigger] self.table(width)).indexes(features) && self.table(
                width,
            ).width() == width
    }

    /// The index of the single bytes.
    pub fn monograms(&self) -> (index: &NGramIndex)
        ensures
            *index == self.table(1),
    {
        &self.monograms
    }

    /// The index of the pairs of bytes.
    pub fn bigrams(&self) -> (index: &NGramIndex)
        ensures
            *index == self.table(2),
    {
        &self.bigrams
    }

    /// The index of the triples of bytes.
    pub fn trigrams(&self) -> (index: &NGramIndex)
        ensures
            *index == self.table(3),
    {
        &self.trigrams
    }

    /// Builds the three indices of `features`, whose ids are their places in
    /// the list.
    pub fn build(features: &[FeatureData]) -> (index: Self)
        requires
            features@.len() <= MAX_FEATURES,
        ensures
            index.indexes(features@),
    {
        let mut monograms = NGramIndex::new(1);
        let mut bigrams = NGramIndex::new(2);
        let mut trigrams = NGramIndex::new(3);
        let mut i: usize = 0;
        while i < features.len()
            invariant
                0 <= i <= features@.len(),
                features@.len() <= MAX_FEATURES,
                monograms.wf(),
                bigrams.wf(),
                trigrams.wf(),
                monograms.width() == 1,
                bigrams.width() == 2,
                trigrams.width() == 3,
                forall|g: Seq<u8>, x: u16|
                    #[trigger] monograms.postings(g).contains(x) <==> x < i && g.len() == 1
                        && features@[x as int].has_ngram(g),
                forall|g: Seq<u8>, x: u16|
                    #[trigger] bigrams.postings(g).contains(x) <==> x < i && g.len() == 2
                        && features@[x as int].has_ngram(g),
                forall|g: Seq<u8>, x: u16|
                    #[trigger] trigrams.postings(g).contains(x) <==> x < i && g.len() == 3
                        && features@[x as int].has_ngram(g),
            decreases features@.len() - i,
        {
            let id = i as u16;
            add_feature_ngrams(&mut monograms, &features[i], id);
            add_feature_ngrams(&mut bigrams, &features[i], id);
            add_feature_ngrams(&mut trigrams, &features[i], id);
            i = i + 1;
        }
        SearchIndex { monograms, bigrams, trigrams }
    }
}

/// The records that can be searched, with their indices. The id of a
/// record is its place in the list.
pub struct Corpus {
    features: Vec<FeatureData>,
    index: SearchIndex,
}

impl View for Corpus {
    type V = Seq<FeatureData>;

    closed spec fn view(&self) -> Seq<FeatureData> {
        self.features@
    }
}

impl Corpus {
    /// The index that the corpus holds.
    pub closed spec fn search_index(&self) -> SearchIndex {
        self.index
    }

    /// The list is a valid corpus and the index is its index.
    pub open spec fn wf(&self) -> bool {
        &&& valid_corpus(self@)
        &&& self.search_index().indexes(self@)
    }

    /// Indexes `features`, unless they have a defect.
    pub fn new(features: Vec<FeatureData>) -> (res: Result<Corpus, CorpusError>)
        ensures
            res is Ok <==> valid_corpus(features@),
            res is Ok ==> res->Ok_0.wf() && res->Ok_0@ == features@,
            res is Err ==> first_defect(features@, res->Err_0),
    {
        match check_corpus(features.as_slice()) {
            Ok(()) => {
                let index = SearchIndex::build(features.as_slice());
                Ok(Corpus { features, index })
            },
            Err(e) => Err(e),
        }
    }

    /// The number of records.
    pub fn len(&self) -> (n: usize)
        ensures
            n == self@.len(),
    {
        self.features.len()
    }

    /// The records, in the order of their ids.
    pub fn features(&self) -> (features: &Vec<FeatureData>)
        ensures
            features@ == self@,
    {
        &self.features
    }

    /// The record with the id `id`.
    pub fn feature(&self, id: u16) -> (feature: Option<&FeatureData>)
        ensures
            feature is Some <==> id < self@.len(),
            feature is Some ==> *feature->0 == self@[id as int],
    {
        if (id as usize) < self.features.len() {
            Some(&self.features[id as usize])
        } else {
            None
        }
    }

    /// The indices of the corpus.
    pub fn index(&self) -> (index: &SearchIndex)
        ensures
            *index == self.search_index(),
    {
        &self.index
    }
}

} // verus!
