use caniuse_rs::data::{Channel, FeatureData};
use caniuse_rs::highlight::{contains, find_from, get_text_matches, matches_at, Span};

fn terms(words: &[&str]) -> Vec<String> {
    words.iter().map(|w| w.to_string()).collect()
}

fn span(start: usize, len: usize) -> Span {
    Span { start, len }
}

fn feature_with(title: &str, flag: Option<&str>, items: &[&str]) -> FeatureData {
    FeatureData {
        title: title.to_owned(),
        flag: flag.map(|f| f.to_owned()),
        slug: None,
        channel: Channel::Stable,
        version: None,
        rfc_id: None,
        impl_pr_id: None,
        tracking_issue_id: None,
        stabilization_pr_id: None,
        doc_path: None,
        edition_guide_path: None,
        unstable_book_path: None,
        items: items.iter().map(|i| i.to_string()).collect(),
    }
}

#[test]
fn matches_repeat_without_overlap() {
    assert_eq!(get_text_matches("testtest", &terms(&["test"])), vec![span(0, 4), span(4, 4)]);
}

#[test]
fn matches_do_not_depend_on_term_order() {
    let expected = vec![span(2, 1), span(4, 1)];
    assert_eq!(get_text_matches("a b c", &terms(&["b", "c"])), expected);
    assert_eq!(get_text_matches("a b c", &terms(&["c", "b"])), expected);
}

#[test]
fn matches_resume_behind_the_previous_match() {
    assert_eq!(get_text_matches("aaa", &terms(&["aa"])), vec![span(0, 2)]);
    assert_eq!(get_text_matches("aaaa", &terms(&["aa"])), vec![span(0, 2), span(2, 2)]);
    assert_eq!(get_text_matches("abababa", &terms(&["aba"])), vec![span(0, 3), span(4, 3)]);
}

#[test]
fn matches_of_different_terms_may_overlap() {
    assert_eq!(get_text_matches("abc", &terms(&["ab", "bc"])), vec![span(0, 2), span(1, 2)]);
}

#[test]
fn matches_with_one_start_are_ordered_by_length() {
    assert_eq!(get_text_matches("abc", &terms(&["abc", "a", "ab"])), vec![
        span(0, 1),
        span(0, 2),
        span(0, 3)
    ]);
}

#[test]
fn matches_of_a_repeated_term_are_repeated() {
    assert_eq!(get_text_matches("xay", &terms(&["a", "a"])), vec![span(1, 1), span(1, 1)]);
}

#[test]
fn matches_of_nothing() {
    assert_eq!(get_text_matches("abc", &terms(&[])), vec![]);
    assert_eq!(get_text_matches("abc", &terms(&["d"])), vec![]);
    assert_eq!(get_text_matches("", &terms(&["a"])), vec![]);
    assert_eq!(get_text_matches("ab", &terms(&["abc"])), vec![]);
}

#[test]
fn matches_of_an_empty_term_are_none() {
    assert_eq!(get_text_matches("abc", &terms(&[""])), vec![]);
    assert_eq!(get_text_matches("abc", &terms(&["", "b"])), vec![span(1, 1)]);
}

#[test]
fn matches_are_byte_exact() {
    assert_eq!(get_text_matches("Test test", &terms(&["test"])), vec![span(5, 4)]);
}

#[test]
fn matches_count_bytes_not_characters() {
    assert_eq!(get_text_matches("\u{e9}t\u{e9} x", &terms(&["x"])), vec![span(6, 1)]);
}

#[test]
fn matches_end_within_the_text() {
    let text = "impl Trait for impl";
    for m in get_text_matches(text, &terms(&["impl", "r", " "])) {
        assert!(m.start + m.len <= text.len());
    }
}

#[test]
fn find_from_gives_the_first_offset() {
    assert_eq!(find_from(b"abcabc", b"bc", 0), Some(1));
    assert_eq!(find_from(b"abcabc", b"bc", 1), Some(1));
    assert_eq!(find_from(b"abcabc", b"bc", 2), Some(4));
    assert_eq!(find_from(b"abcabc", b"bc", 5), None);
    assert_eq!(find_from(b"abc", b"", 3), Some(3));
    assert_eq!(find_from(b"abc", b"", 4), None);
    assert_eq!(find_from(b"", b"a", 0), None);
}

#[test]
fn find_from_agrees_with_str_find() {
    let text = "the quick brown fox jumps over the lazy dog";
    for pat in ["the", "o", "dog", "cat", " ", "he l"] {
        assert_eq!(find_from(text.as_bytes(), pat.as_bytes(), 0), text.find(pat));
    }
}

#[test]
fn matches_at_compares_bytes() {
    assert!(matches_at(b"abc", b"bc", 1));
    assert!(!matches_at(b"abc", b"bc", 0));
    assert!(matches_at(b"abc", b"", 3));
}

#[test]
fn contains_finds_a_substring() {
    assert!(contains(b"hello", b"ell"));
    assert!(contains(b"hello", b""));
    assert!(!contains(b"hello", b"elo"));
}

#[test]
fn does_match_needs_every_term() {
    let f = feature_with("`impl Trait`", Some("impl_trait"), &["fn foo()", "Vec::bar"]);
    assert!(f.does_match(&terms(&[])));
    assert!(f.does_match(&terms(&["Trait"])));
    assert!(f.does_match(&terms(&["impl_t", "foo", "Vec"])));
    assert!(!f.does_match(&terms(&["Trait", "missing"])));
    assert!(!f.does_match(&terms(&["TRAIT"])));
}

#[test]
fn does_match_without_flag_or_items() {
    let f = feature_with("title", None, &[]);
    assert!(f.does_match(&terms(&["itl"])));
    assert!(!f.does_match(&terms(&["flag"])));
}

#[test]
fn holds_looks_in_every_field() {
    let f = feature_with("title", Some("flag"), &["one", "two"]);
    assert!(f.holds(b"tit"));
    assert!(f.holds(b"lag"));
    assert!(f.holds(b"two"));
    assert!(!f.holds(b"three"));
}

#[test]
fn get_matches_in_every_field() {
    let f = feature_with("abcabc", Some("xbc"), &["bc", "none", ""]);
    let m = f.get_matches(&terms(&["bc"]));
    assert_eq!(m.title_spans, vec![span(1, 2), span(4, 2)]);
    assert_eq!(m.flag_spans, vec![span(1, 2)]);
    assert_eq!(m.item_spans, vec![vec![span(0, 2)], vec![], vec![]]);
}

#[test]
fn get_matches_without_flag() {
    let f = feature_with("abc", None, &[]);
    let m = f.get_matches(&terms(&["b"]));
    assert_eq!(m.title_spans, vec![span(1, 1)]);
    assert!(m.flag_spans.is_empty());
    assert!(m.item_spans.is_empty());
}
