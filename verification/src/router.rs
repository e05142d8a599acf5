//! The pages and their paths.

use vstd::prelude::*;
use vstd::string::*;
use crate::text::same_text;

verus! {

/// Something that has a path under which it can be reached.
pub trait Route: Clone {
    fn to_path(&self) -> String;
}

/// The lists of features that the index page can show.
#[derive(Clone, Debug, Default)]
pub enum ListRoute {
    #[default]
    Stable,
    RecentlyStabilized,
    Unstable,
    SearchResults { input: String },
}

/// The pages.
#[derive(Clone, Debug)]
pub enum AppRoute {
    List(ListRoute),
    Feature { slug: String },
    Version { number: String },
    About,
}

/// What is left of `path` behind `prefix`, where it starts with it.
pub open spec fn strip_prefix(path: Seq<char>, prefix: Seq<char>) -> Option<Seq<char>> {
    if path.len() >= prefix.len() && path.subrange(0, prefix.len() as int) == prefix {
        Some(path.skip(prefix.len() as int))
    } else {
        None
    }
}

/// The path of a page.
pub open spec fn path_of(route: AppRoute) -> Seq<char> {
    match route {
        AppRoute::List(ListRoute::Stable) => "/"@,
        AppRoute::List(ListRoute::RecentlyStabilized) => "/recent"@,
        AppRoute::List(ListRoute::Unstable) => "/unstable"@,
        AppRoute::List(ListRoute::SearchResults { input }) => "/?s="@ + input@,
        AppRoute::Feature { slug } => "/features/"@ + slug@,
        AppRoute::Version { number } => "/versions/"@ + number@,
        AppRoute::About => "/about"@,
    }
}

/// Whether `route` is the page that `path` names: one of the fixed paths,
/// a feature or a version by its prefix, and the list of stable features
/// for every other path.
pub open spec fn is_page_of(path: Seq<char>, route: AppRoute) -> bool {
    if path == "/about"@ {
        route is About
    } else if path == "/recent"@ {
        route == AppRoute::List(ListRoute::RecentlyStabilized)
    } else if path == "/unstable"@ {
        route == AppRoute::List(ListRoute::Unstable)
    } else if strip_prefix(path, "/features/"@) is Some {
        route is Feature && route->slug@ == strip_prefix(path, "/features/"@)->0
    } else if strip_prefix(path, "/versions/"@) is Some {
        route is Version && route->number@ == strip_prefix(path, "/versions/"@)->0
    } else {
        route == AppRoute::List(ListRoute::Stable)
    }
}

/// What is left of `path` behind `prefix`, where it starts with it.
fn strip<'a>(path: &'a str, prefix: &str) -> (rest: Option<&'a str>)
    ensures
        match rest {
            Some(rest) => strip_prefix(path@, prefix@) == Some(rest@),
            None => strip_prefix(path@, prefix@) is None,
        },
{
    let n = path.unicode_len();
    let m = prefix.unicode_len();
    if n < m {
        return None;
    }
    if same_text(path.substring_char(0, m), prefix) {
        let rest = path.substring_char(m, n);
        proof {
            assert(path@.subrange(m as int, n as int) == path@.skip(m as int));
        }
        Some(rest)
    } else {
        None
    }
}

impl AppRoute {
    /// The page that a path names.
    pub fn new(path: &str) -> (route: Self)
        ensures
            is_page_of(path@, route),
    {
        if same_text(path, "/about") {
            AppRoute::About
        } else if same_text(path, "/recent") {
            AppRoute::List(ListRoute::RecentlyStabilized)
        } else if same_text(path, "/unstable") {
            AppRoute::List(ListRoute::Unstable)
        } else {
            match strip(path, "/features/") {
                Some(slug) => AppRoute::Feature { slug: slug.to_owned() },
                None => match strip(path, "/versions/") {
                    Some(number) => AppRoute::Version { number: number.to_owned() },
                    None => AppRoute::List(ListRoute::Stable),
                },
            }
        }
    }
}

impl Route for AppRoute {
    /// The path of the page.
    fn to_path(&self) -> (path: String)
        ensures
            path@ == path_of(*self),
    {
        match self {
            AppRoute::List(ListRoute::Stable) => String::from_str("/"),
            AppRoute::List(ListRoute::RecentlyStabilized) => String::from_str("/recent"),
            AppRoute::List(ListRoute::Unstable) => String::from_str("/unstable"),
            AppRoute::List(ListRoute::SearchResults { input }) => String::from_str("/?s=").concat(
                input.as_str(),
            ),
            AppRoute::Feature { slug } => String::from_str("/features/").concat(slug.as_str()),
            AppRoute::Version { number } => String::from_str("/versions/").concat(number.as_str()),
            AppRoute::About => String::from_str("/about"),
        }
    }
}

/// The path of a page names that page, unless the page shows the results
/// of a search: those have the path of the list of stable features, with
/// the query behind it.
pub proof fn lemma_path_names_its_page(route: AppRoute)
    requires
        !(route is List && route->List_0 is SearchResults),
    ensures
        is_page_of(path_of(route), route),
{
    reveal_strlit("/");
    reveal_strlit("/about");
    reveal_strlit("/recent");
    reveal_strlit("/unstable");
    reveal_strlit("/features/");
    reveal_strlit("/versions/");
    let path = path_of(route);
    let features = "/features/"@;
    let versions = "/versions/"@;
    match route {
        AppRoute::Feature { slug } => {
            assert(path[1] == 'f');
            assert("/about"@[1] == 'a' && "/recent"@[1] == 'r' && "/unstable"@[1] == 'u');
            assert(path.subrange(0, features.len() as int) =~= features);
            assert(path.skip(features.len() as int) =~= slug@);
        },
        AppRoute::Version { number } => {
            assert(path[1] == 'v');
            assert("/about"@[1] == 'a' && "/recent"@[1] == 'r' && "/unstable"@[1] == 'u');
            assert(path.subrange(0, features.len() as int)[1] == 'v');
            assert(features[1] == 'f');
            assert(path.subrange(0, versions.len() as int) =~= versions);
            assert(path.skip(versions.len() as int) =~= number@);
        },
        AppRoute::About => {},
        AppRoute::List(list) => {
            assert("/about"@[1] == 'a' && "/recent"@[1] == 'r' && "/unstable"@[1] == 'u');
        },
    }
}

} // verus!
