use caniuse_rs::corpus::Corpus;
use caniuse_rs::data::{Channel, FeatureData, FeatureList, FeatureToml, VersionData};
use caniuse_rs::listing::{explore, index, Listing};
use caniuse_rs::router::{AppRoute, ListRoute, Route};

fn feature(title: &str, version: Option<&str>, channel: Channel) -> FeatureData {
    FeatureData {
        title: title.to_owned(),
        flag: None,
        slug: Some(title.to_owned()),
        channel,
        version: version.map(|v| v.to_owned()),
        rfc_id: None,
        impl_pr_id: None,
        tracking_issue_id: None,
        stabilization_pr_id: None,
        doc_path: None,
        edition_guide_path: None,
        unstable_book_path: None,
        items: vec![],
    }
}

fn release(number: &str, channel: Channel) -> VersionData {
    VersionData {
        number: number.to_owned(),
        channel,
        release_date: None,
        release_notes: None,
        gh_milestone_id: None,
        blog_post_path: None,
    }
}

fn by_release() -> Vec<FeatureData> {
    vec![
        feature("s1", Some("1.70"), Channel::Stable),
        feature("s2", Some("1.69"), Channel::Stable),
        feature("b1", Some("1.71"), Channel::Beta),
        feature("n1", Some("1.72"), Channel::Nightly),
        feature("u1", None, Channel::Nightly),
        feature("u2", None, Channel::Nightly),
    ]
}

#[test]
fn default_channel_is_stable() {
    assert_eq!(Channel::default(), Channel::Stable);
}

#[test]
fn is_on_channel_goes_by_the_release() {
    let f = feature("f", Some("1.71"), Channel::Beta);
    assert!(f.is_on_channel(Channel::Beta));
    assert!(!f.is_on_channel(Channel::Stable));
    assert!(!f.is_on_channel(Channel::Nightly));
    let unstable = feature("f", None, Channel::Nightly);
    assert!(!unstable.is_on_channel(Channel::Nightly));
    assert!(!unstable.is_on_channel(Channel::Stable));
}

#[test]
fn stable_recent_and_unstable_features() {
    let stable = feature("f", Some("1.70"), Channel::Stable);
    let beta = feature("f", Some("1.71"), Channel::Beta);
    let unstable = feature("f", None, Channel::Nightly);
    assert!(stable.is_stable() && !stable.is_recently_stabilized() && !stable.is_unstable());
    assert!(!beta.is_stable() && beta.is_recently_stabilized() && !beta.is_unstable());
    assert!(!unstable.is_stable() && !unstable.is_recently_stabilized() && unstable.is_unstable());
    assert!(beta.belongs_to(&ListRoute::RecentlyStabilized));
    assert!(!beta.belongs_to(&ListRoute::SearchResults { input: String::new() }));
}

#[test]
fn slug_prefers_the_flag() {
    let mut f = feature("title", None, Channel::Stable);
    f.slug = Some("the-slug".to_owned());
    assert_eq!(f.slug(), "the-slug");
    f.flag = Some("the_flag".to_owned());
    assert_eq!(f.slug(), "the_flag");
    f.slug = None;
    assert_eq!(f.slug(), "the_flag");
}

#[test]
fn features_of_the_releases_in_order() {
    let toml = FeatureToml {
        versions: vec![
            FeatureList {
                version: Some(release("1.1", Channel::Stable)),
                features: vec![feature("a", None, Channel::Stable), feature("b", None, Channel::Stable)],
            },
            FeatureList { version: Some(release("1.2", Channel::Beta)), features: vec![] },
            FeatureList { version: None, features: vec![feature("c", None, Channel::Stable)] },
        ],
        unstable: FeatureList { version: None, features: vec![feature("u", None, Channel::Nightly)] },
    };
    let listed: Vec<(Option<String>, String)> = toml
        .features()
        .iter()
        .map(|(v, f)| (v.as_ref().map(|v| v.number.clone()), f.title.clone()))
        .collect();
    assert_eq!(listed, vec![
        (Some("1.1".to_owned()), "a".to_owned()),
        (Some("1.1".to_owned()), "b".to_owned()),
        (None, "c".to_owned())
    ]);
}

#[test]
fn features_of_no_release() {
    let toml = FeatureToml {
        versions: vec![],
        unstable: FeatureList { version: None, features: vec![feature("u", None, Channel::Nightly)] },
    };
    assert!(toml.features().is_empty());
}

#[test]
fn explore_takes_runs() {
    let features = by_release();
    assert_eq!(explore(&features, &ListRoute::Stable), (0, 2));
    assert_eq!(explore(&features, &ListRoute::RecentlyStabilized), (2, 4));
    assert_eq!(explore(&features, &ListRoute::Unstable), (4, 6));
    assert_eq!(explore(&features, &ListRoute::SearchResults { input: "s".to_owned() }), (0, 0));
}

#[test]
fn explore_stops_at_the_end_of_a_run() {
    let features = vec![
        feature("b", Some("1.71"), Channel::Beta),
        feature("s", Some("1.70"), Channel::Stable),
        feature("u", None, Channel::Nightly),
        feature("b", Some("1.71"), Channel::Beta),
        feature("s", Some("1.70"), Channel::Stable),
    ];
    // no stable feature at the head
    assert_eq!(explore(&features, &ListRoute::Stable), (0, 0));
    // the first run only
    assert_eq!(explore(&features, &ListRoute::RecentlyStabilized), (0, 1));
    // everything from the first unstable one on
    assert_eq!(explore(&features, &ListRoute::Unstable), (2, 5));
}

#[test]
fn explore_without_any() {
    assert_eq!(explore(&[], &ListRoute::Stable), (0, 0));
    assert_eq!(explore(&[], &ListRoute::Unstable), (0, 0));
    let stable = vec![feature("s", Some("1.70"), Channel::Stable)];
    assert_eq!(explore(&stable, &ListRoute::RecentlyStabilized), (1, 1));
    assert_eq!(explore(&stable, &ListRoute::Unstable), (1, 1));
}

#[test]
fn index_shows_a_list() {
    let corpus = Corpus::new(by_release()).unwrap();
    let mut scores = vec![(9u16, 9u64); corpus.len()];
    assert!(matches!(index(&ListRoute::Stable, &mut scores, &corpus), Listing::Run { start: 0, end: 2 }));
    assert!(matches!(
        index(&ListRoute::RecentlyStabilized, &mut scores, &corpus),
        Listing::Run { start: 2, end: 4 }
    ));
    assert!(matches!(index(&ListRoute::Unstable, &mut scores, &corpus), Listing::Run { start: 4, end: 6 }));
    assert_eq!(scores, vec![(9u16, 9u64); 6]);
}

#[test]
fn index_shows_search_results() {
    let corpus = Corpus::new(by_release()).unwrap();
    let mut scores = vec![(0u16, 0u64); corpus.len()];
    let route = ListRoute::SearchResults { input: " u2  ".to_owned() };
    match index(&route, &mut scores, &corpus) {
        Listing::Ranked(found) => assert_eq!(found, vec![5]),
        other => panic!("{:?}", other),
    }
    assert_eq!(scores[0], (5, 6));
    assert_eq!(scores[1], (1, 1));
    assert_eq!(scores[2], (4, 1));
    assert_eq!(scores[3], (0, 0));
}

#[test]
fn index_tells_nothing_found_from_invalid() {
    let corpus = Corpus::new(by_release()).unwrap();
    let mut scores = vec![(3u16, 3u64); corpus.len()];
    let invalid = ListRoute::SearchResults { input: "a `b".to_owned() };
    assert!(matches!(index(&invalid, &mut scores, &corpus), Listing::InvalidSearch));
    assert_eq!(scores, vec![(3u16, 3u64); 6]);
    let nothing = ListRoute::SearchResults { input: "zzz".to_owned() };
    assert!(matches!(index(&nothing, &mut scores, &corpus), Listing::NothingFound));
    let empty = ListRoute::SearchResults { input: "  ".to_owned() };
    assert!(matches!(index(&empty, &mut scores, &corpus), Listing::NothingFound));
}

#[test]
fn paths_of_the_pages() {
    assert_eq!(AppRoute::List(ListRoute::Stable).to_path(), "/");
    assert_eq!(AppRoute::List(ListRoute::RecentlyStabilized).to_path(), "/recent");
    assert_eq!(AppRoute::List(ListRoute::Unstable).to_path(), "/unstable");
    assert_eq!(AppRoute::List(ListRoute::SearchResults { input: "a b".to_owned() }).to_path(), "/?s=a b");
    assert_eq!(AppRoute::Feature { slug: "try_blocks".to_owned() }.to_path(), "/features/try_blocks");
    assert_eq!(AppRoute::Version { number: "1.31".to_owned() }.to_path(), "/versions/1.31");
    assert_eq!(AppRoute::About.to_path(), "/about");
}

#[test]
fn pages_of_the_paths() {
    assert!(matches!(AppRoute::new("/about"), AppRoute::About));
    assert!(matches!(AppRoute::new("/recent"), AppRoute::List(ListRoute::RecentlyStabilized)));
    assert!(matches!(AppRoute::new("/unstable"), AppRoute::List(ListRoute::Unstable)));
    assert!(matches!(AppRoute::new("/"), AppRoute::List(ListRoute::Stable)));
    assert!(matches!(AppRoute::new(""), AppRoute::List(ListRoute::Stable)));
    assert!(matches!(AppRoute::new("/about/"), AppRoute::List(ListRoute::Stable)));
    assert!(matches!(AppRoute::new("/features"), AppRoute::List(ListRoute::Stable)));
    match AppRoute::new("/features/try_blocks") {
        AppRoute::Feature { slug } => assert_eq!(slug, "try_blocks"),
        _ => panic!(),
    }
    match AppRoute::new("/features/") {
        AppRoute::Feature { slug } => assert_eq!(slug, ""),
        _ => panic!(),
    }
    match AppRoute::new("/versions/1.31") {
        AppRoute::Version { number } => assert_eq!(number, "1.31"),
        _ => panic!(),
    }
    match AppRoute::new("/features/\u{e9}t\u{e9}/x") {
        AppRoute::Feature { slug } => assert_eq!(slug, "\u{e9}t\u{e9}/x"),
        _ => panic!(),
    }
}

#[test]
fn path_and_page_agree() {
    for path in ["/", "/recent", "/unstable", "/about", "/features/a", "/versions/1.0"] {
        assert_eq!(AppRoute::new(path).to_path(), path);
    }
}

#[test]
fn default_list_is_the_stable_one() {
    assert!(matches!(ListRoute::default(), ListRoute::Stable));
}

#[test]
fn listing_gives_its_ids_one_by_one() {
    let run = Listing::Run { start: 2, end: 5 };
    assert_eq!(run.len(), 3);
    assert_eq!((0..4).map(|i| run.id_at(i)).collect::<Vec<_>>(), vec![Some(2), Some(3), Some(4), None]);
    let ranked = Listing::Ranked(vec![7, 0, 65535]);
    assert_eq!(ranked.len(), 3);
    assert_eq!((0..4).map(|i| ranked.id_at(i)).collect::<Vec<_>>(), vec![
        Some(7),
        Some(0),
        Some(65535),
        None
    ]);
}

#[test]
fn listing_of_nothing() {
    for listing in [
        Listing::NothingFound,
        Listing::InvalidSearch,
        Listing::QueryTooLong,
        Listing::Run { start: 3, end: 3 },
        Listing::Run { start: 4, end: 3 },
        Listing::Ranked(vec![]),
    ] {
        assert_eq!(listing.len(), 0);
        assert_eq!(listing.id_at(0), None);
    }
    assert_eq!(Listing::Run { start: usize::MAX - 1, end: usize::MAX }.id_at(0), Some(usize::MAX - 1));
    assert_eq!(Listing::Run { start: 1, end: usize::MAX }.id_at(usize::MAX), None);
}
