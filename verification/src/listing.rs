//! What the index page lists: a run of the corpus, or the results of a
//! search.

use vstd::prelude::*;
use crate::corpus::Corpus;
use crate::data::{Channel, FeatureData};
use crate::router::ListRoute;
use crate::score::total_weight;
use crate::search::{
    extract_search_terms, is_ranking, is_result, query_terms, try_run_search, valid_query,
};

verus! {

/// What the index page shows.
#[derive(Clone, Debug)]
pub enum Listing {
    /// The records with the ids from `start` up to, not including, `end`
    Run { start: usize, end: usize },
    /// The records with these ids, the best match first
    Ranked(Vec<u16>),
    /// The search found nothing
    NothingFound,
    /// The query is not valid
    InvalidSearch,
    /// The query is too long for its scores to be counted
    QueryTooLong,
}

impl Listing {
    /// The ids of the records that are listed, in their order: those of
    /// the run, ascending, or the ranked ones; none where nothing was found
    /// or nothing could be searched.
    pub open spec fn ids(self) -> Seq<int> {
        match self {
            Listing::Run { start, end } => if start <= end {
                Seq::new((end - start) as nat, |i: int| start + i)
            } else {
                Seq::empty()
            },
            Listing::Ranked(found) => Seq::new(found@.len(), |i: int| found@[i] as int),
            _ => Seq::empty(),
        }
    }

    /// The number of records that are listed.
    pub fn len(&self) -> (n: usize)
        ensures
            n == self.ids().len(),
    {
        match self {
            Listing::Run { start, end } => if *start <= *end {
                *end - *start
            } else {
                0
            },
            Listing::Ranked(found) => found.len(),
            _ => 0,
        }
    }

    /// The id of the record at the place `i` of the list.
    pub fn id_at(&self, i: usize) -> (id: Option<usize>)
        ensures
            id is Some <==> i < self.ids().len(),
            id is Some ==> id->0 == self.ids()[i as int],
    {
        match self {
            Listing::Run { start, end } => if *start <= *end && i < *end - *start {
                Some(*start + i)
            } else {
                None
            },
            Listing::Ranked(found) => if i < found.len() {
                Some(found[i] as usize)
            } else {
                None
            },
            _ => None,
        }
    }
}

/// Whether a feature belongs on the list: on the stable one if a stable
/// release holds it, on the recently stabilized one if a release holds it
/// that is not stable yet, on the unstable one if no release holds it.
pub open spec fn belongs(feature: FeatureData, list: ListRoute) -> bool {
    match list {
        ListRoute::Stable => feature.version is Some && feature.channel == Channel::Stable,
        ListRoute::RecentlyStabilized => feature.version is Some && feature.channel != Channel::Stable,
        ListRoute::Unstable => feature.version is None,
        ListRoute::SearchResults { .. } => false,
    }
}

/// How many features from `from` on, one after the other, do not belong
/// on the list.
pub open spec fn skip_len(features: Seq<FeatureData>, list: ListRoute, from: int) -> int
    decreases features.len() - from,
{
    if 0 <= from < features.len() && !belongs(features[from], list) {
        1 + skip_len(features, list, from + 1)
    } else {
        0
    }
}

/// How many features from `from` on, one after the other, belong on the
/// list.
pub open spec fn take_len(features: Seq<FeatureData>, list: ListRoute, from: int) -> int
    decreases features.len() - from,
{
    if 0 <= from < features.len() && belongs(features[from], list) {
        1 + take_len(features, list, from + 1)
    } else {
        0
    }
}

/// The run of records that stands for a list in a corpus ordered by
/// release: for the stable features, those at the head that belong; for
/// the recently stabilized ones, the first run of those that belong; for
/// the unstable ones, everything from the first that belongs.
pub open spec fn run_of(features: Seq<FeatureData>, list: ListRoute) -> (int, int) {
    match list {
        ListRoute::Stable => (0, take_len(features, list, 0)),
        ListRoute::RecentlyStabilized => {
            let start = skip_len(features, list, 0);
            (start, start + take_len(features, list, start))
        },
        ListRoute::Unstable => (skip_len(features, list, 0), features.len() as int),
        ListRoute::SearchResults { .. } => (0, 0),
    }
}

impl FeatureData {
    /// Whether the feature belongs on the list.
    pub fn belongs_to(&self, list: &ListRoute) -> (b: bool)
        ensures
            b == belongs(*self, *list),
    {
        match list {
            ListRoute::Stable => self.is_stable(),
            ListRoute::RecentlyStabilized => self.is_recently_stabilized(),
            ListRoute::Unstable => self.is_unstable(),
            ListRoute::SearchResults { .. } => false,
        }
    }
}

/// The end of the run, from `from` on, of the features that belong on the
/// list (`wanted`) or that do not.
fn run_end(features: &[FeatureData], list: &ListRoute, from: usize, wanted: bool) -> (end: usize)
    requires
        from <= features@.len(),
    ensures
        from <= end <= features@.len(),
        wanted ==> end == from + take_len(features@, *list, from as int),
        !wanted ==> end == from + skip_len(features@, *list, from as int),
{
    let mut end: usize = from;
    while end < features.len() && features[end].belongs_to(list) == wanted
        invariant
            from <= end <= features@.len(),
            wanted ==> from + take_len(features@, *list, from as int) == end + take_len(
                features@,
                *list,
                end as int,
            ),
            !wanted ==> from + skip_len(features@, *list, from as int) == end + skip_len(
                features@,
                *list,
                end as int,
            ),
        decreases features@.len() - end,
    {
        end = end + 1;
    }
    end
}

/// The run of records that stands for one of the three lists.
pub fn explore(features: &[FeatureData], list: &ListRoute) -> (run: (usize, usize))
    ensures
        run.0 <= run.1 <= features@.len(),
        (run.0 as int, run.1 as int) == run_of(features@, *list),
{
    match list {
        ListRoute::Stable => (0, run_end(features, list, 0, true)),
        ListRoute::RecentlyStabilized => {
            let start = run_end(features, list, 0, false);
            (start, run_end(features, list, start, true))
        },
        ListRoute::Unstable => (run_end(features, list, 0, false), features.len()),
        ListRoute::SearchResults { .. } => (0, 0),
    }
}

/// Whether `listing` is what the index page shows for `route`, given what
/// the scores hold after it was made.
pub open spec fn is_listing(
    route: ListRoute,
    features: Seq<FeatureData>,
    scores_before: Seq<(u16, u64)>,
    scores: Seq<(u16, u64)>,
    listing: Listing,
) -> bool {
    match route {
        ListRoute::SearchResults { input } => {
            let terms = query_terms(input@);
            if !valid_query(input@) {
                listing is InvalidSearch && scores == scores_before
            } else if total_weight(terms) > u64::MAX {
                listing is QueryTooLong && scores == scores_before
            } else {
                &&& is_ranking(features, terms, scores)
                &&& match listing {
                    Listing::Ranked(found) => found@.len() > 0 && is_result(terms, scores, found@),
                    Listing::NothingFound => is_result(terms, scores, Seq::empty()),
                    _ => false,
                }
            }
        },
        _ => {
            &&& scores == scores_before
            &&& listing == (Listing::Run {
                start: run_of(features, route).0 as usize,
                end: run_of(features, route).1 as usize,
            })
        },
    }
}

/// Chooses what the index page shows: for one of the three lists its run
/// of records; for a search the ranked matches, or that there are none, or
/// that the query is not valid.
pub fn index(route: &ListRoute, search_scores: &mut Vec<(u16, u64)>, corpus: &Corpus) -> (listing:
    Listing)
    requires
        corpus.wf(),
        old(search_scores)@.len() == corpus@.len(),
    ensures
        is_listing(*route, corpus@, old(search_scores)@, final(search_scores)@, listing),
{
    match route {
        ListRoute::SearchResults { input } => match extract_search_terms(input.as_str()) {
            Ok(search_terms) => {
                match try_run_search(search_terms.as_slice(), search_scores, corpus) {
                    Some(found) => {
                        if found.len() == 0 {
                            assert(found@ == Seq::<u16>::empty());
                            Listing::NothingFound
                        } else {
                            Listing::Ranked(found)
                        }
                    },
                    None => Listing::QueryTooLong,
                }
            },
            Err(_) => Listing::InvalidSearch,
        },
        _ => {
            let run = explore(corpus.features().as_slice(), route);
            Listing::Run { start: run.0, end: run.1 }
        },
    }
}

} // verus!
