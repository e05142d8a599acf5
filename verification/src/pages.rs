//! What the pages decide: which record a link names, which records a
//! release has, which classes and prefixes go with a channel.

use vstd::prelude::*;
use crate::data::{Channel, FeatureData, VersionData};
use crate::highlight::Span;
use crate::text::{bytes_of, has_byte, same_text};

verus! {

/// What the page can be told.
#[derive(Clone, Debug)]
pub enum Msg {
    /// Put the cursor into the search field
    FocusInput,
    /// The search field holds this query now
    Search(String),
}

/// What is to be done about a message, besides the change of the query.
#[derive(Copy, Clone, Debug, PartialEq, Eq, Structural)]
pub enum Action {
    /// Put the cursor into the search field; nothing is drawn anew
    Focus,
    /// Draw the page anew
    Render,
}

/// Takes a message: a new query replaces the old one and the page is drawn
/// anew; a wish for the cursor leaves the query alone.
pub fn update(search_query: &mut String, msg: Msg) -> (action: Action)
    ensures
        match msg {
            Msg::FocusInput => action == Action::Focus && final(search_query)@ == old(search_query)@,
            Msg::Search(query) => action == Action::Render && final(search_query)@ == query@,
        },
{
    match msg {
        Msg::FocusInput => Action::Focus,
        Msg::Search(query) => {
            *search_query = query;
            Action::Render
        },
    }
}

/// The name under which a feature is linked, if it has one.
pub open spec fn link_name(feature: FeatureData) -> Option<Seq<char>> {
    if feature.flag is Some {
        Some(feature.flag->0@)
    } else if feature.slug is Some {
        Some(feature.slug->0@)
    } else {
        None
    }
}

/// The id of the first feature that is linked under `slug`.
pub fn find_feature(features: &[FeatureData], slug: &str) -> (found: Option<usize>)
    ensures
        match found {
            Some(id) => id < features@.len() && link_name(features@[id as int]) == Some(slug@)
                && forall|j: int| 0 <= j < id ==> link_name(#[trigger] features@[j]) != Some(slug@),
            None => forall|j: int|
                0 <= j < features@.len() ==> link_name(#[trigger] features@[j]) != Some(slug@),
        },
{
    let mut i: usize = 0;
    while i < features.len()
        invariant
            0 <= i <= features@.len(),
            forall|j: int| 0 <= j < i ==> link_name(#[trigger] features@[j]) != Some(slug@),
        decreases features@.len() - i,
    {
        let feature = &features[i];
        if feature.flag.is_some() || feature.slug.is_some() {
            if same_text(feature.slug(), slug) {
                return Some(i);
            }
        }
        i = i + 1;
    }
    None
}

/// The place of the first release with the number `number`.
pub fn find_version(versions: &[VersionData], number: &str) -> (found: Option<usize>)
    ensures
        match found {
            Some(i) => i < versions@.len() && versions@[i as int].number@ == number@ && forall|j: int|
                0 <= j < i ==> (#[trigger] versions@[j]).number@ != number@,
            None => forall|j: int| 0 <= j < versions@.len() ==> (#[trigger] versions@[j]).number@ != number@,
        },
{
    let mut i: usize = 0;
    while i < versions.len()
        invariant
            0 <= i <= versions@.len(),
            forall|j: int| 0 <= j < i ==> (#[trigger] versions@[j]).number@ != number@,
        decreases versions@.len() - i,
    {
        if same_text(versions[i].number.as_str(), number) {
            return Some(i);
        }
        i = i + 1;
    }
    None
}

/// Whether the release with the number `number` stabilized the feature.
pub open spec fn is_of_version(feature: FeatureData, number: Seq<char>) -> bool {
    feature.version is Some && feature.version->0@ == number
}

/// The ids of the features that the release with the number `number`
/// stabilized, ascending.
pub fn features_of_version(features: &[FeatureData], number: &str) -> (ids: Vec<usize>)
    ensures
        forall|i: int, j: int| 0 <= i < j < ids@.len() ==> ids@[i] < ids@[j],
        forall|id: usize|
            ids@.contains(id) <==> id < features@.len() && is_of_version(features@[id as int], number@),
{
    let mut ids: Vec<usize> = Vec::new();
    let mut i: usize = 0;
    while i < features.len()
        invariant
            0 <= i <= features@.len(),
            forall|a: int, b: int| 0 <= a < b < ids@.len() ==> ids@[a] < ids@[b],
            forall|a: int| 0 <= a < ids@.len() ==> ids@[a] < i,
            forall|id: usize|
                ids@.contains(id) <==> id < i && is_of_version(features@[id as int], number@),
        decreases features@.len() - i,
    {
        let of_version = match &features[i].version {
            Some(version) => same_text(version.as_str(), number),
            None => false,
        };
        if of_version {
            let ghost before = ids@;
            ids.push(i);
            proof {
                assert forall|id: usize|
                    ids@.contains(id) <==> id < i + 1 && is_of_version(
                        features@[id as int],
                        number@,
                    ) by {
                    if ids@.contains(id) {
                        let k = choose|k: int| 0 <= k < ids@.len() && ids@[k] == id;
                        if k < before.len() {
                            assert(before[k] == id);
                            assert(before.contains(id));
                        }
                    }
                    if id < i && is_of_version(features@[id as int], number@) {
                        assert(before.contains(id));
                        let k = choose|k: int| 0 <= k < before.len() && before[k] == id;
                        assert(ids@[k] == id);
                    }
                    if id == i {
                        assert(ids@[before.len() as int] == id);
                    }
                }
            }
        }
        i = i + 1;
    }
    ids
}

/// The classes of the box that names the release of a feature.
pub fn version_class(feature: &FeatureData) -> (class: &'static str)
    ensures
        class@ == (if feature.version is None {
            "version none"@
        } else {
            match feature.channel {
                Channel::Nightly => "version nightly"@,
                Channel::Beta => "version beta"@,
                Channel::Stable => "version stable"@,
            }
        }),
{
    if feature.version.is_none() {
        "version none"
    } else {
        match feature.channel {
            Channel::Nightly => "version nightly",
            Channel::Beta => "version beta",
            Channel::Stable => "version stable",
        }
    }
}

/// What stands before the documentation path of a feature: the channel
/// whose documentation holds it. An unstable feature is documented on
/// nightly.
pub fn doc_prefix(feature: &FeatureData) -> (prefix: &'static str)
    ensures
        prefix@ == (if feature.version is None {
            "nightly/"@
        } else {
            match feature.channel {
                Channel::Nightly => "nightly/"@,
                Channel::Beta => "beta/"@,
                Channel::Stable => ""@,
            }
        }),
{
    if feature.version.is_none() {
        "nightly/"
    } else {
        match feature.channel {
            Channel::Nightly => "nightly/",
            Channel::Beta => "beta/",
            Channel::Stable => "",
        }
    }
}

/// Whether an item has more than one line, and is shown as a block.
pub fn is_block(item: &str) -> (b: bool)
    ensures
        b == bytes_of(item@).contains(0x0au8),
{
    has_byte(item.as_bytes(), 0x0a)
}

/// The places of the items with matches, ascending, and whether there are
/// items without.
pub fn matched_items(item_spans: &[Vec<Span>]) -> (res: (Vec<usize>, bool))
    ensures
        forall|i: int, j: int| 0 <= i < j < res.0@.len() ==> res.0@[i] < res.0@[j],
        forall|k: usize|
            res.0@.contains(k) <==> k < item_spans@.len() && item_spans@[k as int]@.len() > 0,
        res.1 == exists|k: int| 0 <= k < item_spans@.len() && (#[trigger] item_spans@[k])@.len() == 0,
{
    let mut shown: Vec<usize> = Vec::new();
    let mut more = false;
    let mut i: usize = 0;
    while i < item_spans.len()
        invariant
            0 <= i <= item_spans@.len(),
            forall|a: int, b: int| 0 <= a < b < shown@.len() ==> shown@[a] < shown@[b],
            forall|a: int| 0 <= a < shown@.len() ==> shown@[a] < i,
            forall|k: usize| shown@.contains(k) <==> k < i && item_spans@[k as int]@.len() > 0,
            more == exists|k: int| 0 <= k < i && (#[trigger] item_spans@[k])@.len() == 0,
        decreases item_spans@.len() - i,
    {
        if item_spans[i].len() > 0 {
            let ghost before = shown@;
            shown.push(i);
            proof {
                assert forall|k: usize|
                    shown@.contains(k) <==> k < i + 1 && item_spans@[k as int]@.len() > 0 by {
                    if shown@.contains(k) {
                        let a = choose|a: int| 0 <= a < shown@.len() && shown@[a] == k;
                        if a < before.len() {
                            assert(before[a] == k);
                            assert(before.contains(k));
                        }
                    }
                    if k < i && item_spans@[k as int]@.len() > 0 {
                        assert(before.contains(k));
                        let a = choose|a: int| 0 <= a < before.len() && before[a] == k;
                        assert(shown@[a] == k);
                    }
                    if k == i {
                        assert(shown@[before.len() as int] == k);
                    }
                }
                if exists|k: int| 0 <= k < i + 1 && (#[trigger] item_spans@[k])@.len() == 0 {
                    let k = choose|k: int| 0 <= k < i + 1 && (#[trigger] item_spans@[k])@.len() == 0;
                    assert(k < i);
                }
            }
        } else {
            more = true;
        }
        i = i + 1;
    }
    (shown, more)
}

/// A score buffer for a corpus of `len` records.
pub fn new_scores(len: usize) -> (scores: Vec<(u16, u64)>)
    ensures
        scores@.len() == len,
        forall|i: int| 0 <= i < len ==> #[trigger] scores@[i] == (0u16, 0u64),
{
    let mut scores: Vec<(u16, u64)> = Vec::new();
    let mut i: usize = 0;
    while i < len
        invariant
            0 <= i <= len,
            scores@.len() == i,
            forall|j: int| 0 <= j < i ==> #[trigger] scores@[j] == (0u16, 0u64),
        decreases len - i,
    {
        scores.push((0, 0));
        i = i + 1;
    }
    scores
}

} // verus!
