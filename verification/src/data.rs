//! The features and releases, as records.

use vstd::prelude::*;
use crate::ngram::{occurs_in, text_has_ngram};
use crate::text::bytes_of;

verus! {

/// A release channel of the compiler.
#[derive(Copy, Clone, Debug, PartialEq, Eq, Structural)]
pub enum Channel {
    Nightly,
    Beta,
    Stable,
}

impl Default for Channel {
    /// A release that names no channel is a stable one.
    fn default() -> (c: Self)
        ensures
            c == Channel::Stable,
    {
        Channel::Stable
    }
}

/// A release of the compiler.
#[derive(Clone, Debug)]
pub struct VersionData {
    /// The version number, without the patch component (e.g. "1.31")
    pub number: String,
    /// The channel (stable / beta / nightly)
    pub channel: Channel,
    /// Release date, in format "yyyy-mm-dd"
    pub release_date: Option<String>,
    /// Anchor of the release notes
    pub release_notes: Option<String>,
    /// GitHub milestone id
    pub gh_milestone_id: Option<u64>,
    /// Blog post path
    pub blog_post_path: Option<String>,
}

/// A "feature": a nightly feature, a stabilized API, or anything else that
/// one version of the compiler supports while a previous one did not.
#[derive(Clone, Debug)]
pub struct FeatureData {
    /// Short description to identify the feature; may hold inline code
    /// between backticks
    pub title: String,
    /// Feature flag name, for things that were or still are nightly features
    pub flag: Option<String>,
    /// Feature slug, used for the permalink. Where a feature flag exists
    /// the flag is used instead.
    pub slug: Option<String>,
    /// The channel of the release that stabilized the feature
    pub channel: Channel,
    /// The number of the release that stabilized the feature (`None` for
    /// unstable features)
    pub version: Option<String>,
    /// RFC id
    pub rfc_id: Option<u64>,
    /// Implementation PR id, for features that one PR implemented
    pub impl_pr_id: Option<u64>,
    /// Tracking issue id
    pub tracking_issue_id: Option<u64>,
    /// Stabilization PR id
    pub stabilization_pr_id: Option<u64>,
    /// Documentation path
    pub doc_path: Option<String>,
    /// Edition guide path
    pub edition_guide_path: Option<String>,
    /// Unstable book path
    pub unstable_book_path: Option<String>,
    /// Language items (functions, structs, modules) that are part of the
    /// feature
    pub items: Vec<String>,
}

/// The features of one release, or those that no release has stabilized.
#[derive(Clone, Debug)]
pub struct FeatureList {
    pub version: Option<VersionData>,
    /// List of features (to be) stabilized in this release
    pub features: Vec<FeatureData>,
}

/// All features as they are written down: release by release, and the
/// unstable ones apart.
#[derive(Clone, Debug)]
pub struct FeatureToml {
    pub versions: Vec<FeatureList>,
    pub unstable: FeatureList,
}

impl FeatureData {
    /// Whether one of the searchable strings of the feature (its title, its
    /// flag, its items) holds `gram` as an indexed n-gram.
    pub open spec fn has_ngram(&self, gram: Seq<u8>) -> bool {
        ||| text_has_ngram(bytes_of(self.title@), gram)
        ||| self.flag is Some && text_has_ngram(bytes_of(self.flag->0@), gram)
        ||| exists|k: int|
            0 <= k < self.items@.len() && text_has_ngram(bytes_of((#[trigger] self.items@[k])@), gram)
    }

    /// Whether one of the searchable strings of the feature holds `term` as a
    /// substring.
    pub open spec fn contains_term(&self, term: Seq<u8>) -> bool {
        ||| occurs_in(bytes_of(self.title@), term)
        ||| self.flag is Some && occurs_in(bytes_of(self.flag->0@), term)
        ||| exists|k: int|
            0 <= k < self.items@.len() && occurs_in(bytes_of((#[trigger] self.items@[k])@), term)
    }

    /// Whether a release on channel `chan` stabilized the feature.
    pub fn is_on_channel(&self, chan: Channel) -> (b: bool)
        ensures
            b == (self.version is Some && self.channel == chan),
    {
        self.version.is_some() && self.channel == chan
    }

    /// Whether a stable release holds the feature.
    pub fn is_stable(&self) -> (b: bool)
        ensures
            b == (self.version is Some && self.channel == Channel::Stable),
    {
        self.is_on_channel(Channel::Stable)
    }

    /// Whether the feature is stabilized, but in no stable release yet.
    pub fn is_recently_stabilized(&self) -> (b: bool)
        ensures
            b == (self.version is Some && self.channel != Channel::Stable),
    {
        self.version.is_some() && self.channel != Channel::Stable
    }

    /// Whether no release has stabilized the feature.
    pub fn is_unstable(&self) -> (b: bool)
        ensures
            b == (self.version is None),
    {
        self.version.is_none()
    }

    /// The name under which the feature is linked: its flag, or else its
    /// slug.
    pub fn slug(&self) -> (s: &str)
        requires
            self.flag is Some || self.slug is Some,
        ensures
            s@ == (if self.flag is Some {
                self.flag->0@
            } else {
                self.slug->0@
            }),
    {
        match &self.flag {
            Some(flag) => flag.as_str(),
            None => match &self.slug {
                Some(slug) => slug.as_str(),
                None => {
                    proof {
                        assert(false);
                    }
                    ""
                },
            },
        }
    }
}

/// The features of the releases `lists`, each with the release of its list,
/// list by list.
pub open spec fn released_features(lists: Seq<FeatureList>) -> Seq<(Option<VersionData>, FeatureData)>
    decreases lists.len(),
{
    if lists.len() == 0 {
        Seq::empty()
    } else {
        released_features(lists.drop_last()) + Seq::new(
            lists.last().features@.len(),
            |k: int| (lists.last().version, lists.last().features@[k]),
        )
    }
}

impl FeatureToml {
    /// The features that a release has stabilized, each with its release, in
    /// the order of the releases and, within one, of its list. The unstable
    /// features are not among them.
    pub fn features<'a>(&'a self) -> (res: Vec<(&'a Option<VersionData>, &'a FeatureData)>)
        ensures
            res@.len() == released_features(self.versions@).len(),
            forall|i: int|
                0 <= i < res@.len() ==> *(#[trigger] res@[i]).0 == released_features(self.versions@)[i].0
                    && *res@[i].1 == released_features(self.versions@)[i].1,
    {
        let mut res: Vec<(&'a Option<VersionData>, &'a FeatureData)> = Vec::new();
        let mut v: usize = 0;
        while v < self.versions.len()
            invariant
                0 <= v <= self.versions@.len(),
                res@.len() == released_features(self.versions@.take(v as int)).len(),
                forall|i: int|
                    0 <= i < res@.len() ==> *(#[trigger] res@[i]).0 == released_features(
                        self.versions@.take(v as int),
                    )[i].0 && *res@[i].1 == released_features(self.versions@.take(v as int))[i].1,
            decreases self.versions@.len() - v,
        {
            let list = &self.versions[v];
            let ghost before = released_features(self.versions@.take(v as int));
            proof {
                assert(self.versions@.take(v + 1).drop_last() == self.versions@.take(v as int));
                assert(self.versions@.take(v + 1).last() == self.versions@[v as int]);
            }
            let mut k: usize = 0;
            while k < list.features.len()
                invariant
                    0 <= k <= list.features@.len(),
                    *list == self.versions@[v as int],
                    before.len() + k == res@.len(),
                    forall|i: int|
                        0 <= i < before.len() ==> *(#[trigger] res@[i]).0 == before[i].0 && *res@[i].1
                            == before[i].1,
                    forall|i: int|
                        before.len() <= i < res@.len() ==> *(#[trigger] res@[i]).0 == list.version
                            && *res@[i].1 == list.features@[i - before.len()],
                decreases list.features@.len() - k,
            {
                res.push((&list.version, &list.features[k]));
                k = k + 1;
            }
            v = v + 1;
        }
        proof {
            assert(self.versions@.take(v as int) == self.versions@);
        }
        res
    }
}

} // verus!
