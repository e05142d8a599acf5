use caniuse_rs::highlight::{get_text_matches, Span};
use caniuse_rs::markup::{find_backtick, view_text, view_text_with_matches, Segment};

fn text(start: usize, len: usize) -> Segment {
    Segment { start, len, code: false, highlighted: false }
}

fn code(start: usize, len: usize) -> Segment {
    Segment { start, len, code: true, highlighted: false }
}

fn hit(start: usize, len: usize) -> Segment {
    Segment { start, len, code: false, highlighted: true }
}

fn code_hit(start: usize, len: usize) -> Segment {
    Segment { start, len, code: true, highlighted: true }
}

fn at(start: usize, len: usize) -> Span {
    Span { start, len }
}

fn shown<'a>(source: &'a str, segments: &[Segment]) -> Vec<&'a str> {
    segments.iter().map(|s| &source[s.start..s.start + s.len]).collect()
}

#[test]
fn view_text_without_backticks() {
    assert_eq!(view_text("plain"), vec![text(0, 5)]);
    assert_eq!(view_text(""), vec![text(0, 0)]);
}

#[test]
fn view_text_with_inline_code() {
    let source = "the `dyn` keyword";
    let segments = view_text(source);
    assert_eq!(segments, vec![text(0, 4), code(5, 3), text(9, 8)]);
    assert_eq!(shown(source, &segments), vec!["the ", "dyn", " keyword"]);
}

#[test]
fn view_text_starting_and_ending_with_code() {
    assert_eq!(view_text("`a` and `b`"), vec![code(1, 1), text(3, 5), code(9, 1), text(11, 0)]);
    assert_eq!(view_text("`a``b`"), vec![code(1, 1), code(4, 1), text(6, 0)]);
}

#[test]
fn view_text_with_empty_code() {
    assert_eq!(view_text("a``b"), vec![text(0, 1), code(2, 0), text(3, 1)]);
}

#[test]
fn view_text_with_unbalanced_backtick() {
    assert_eq!(view_text("a `b"), vec![text(0, 2), text(3, 1)]);
    assert_eq!(view_text("`"), vec![text(1, 0)]);
    assert_eq!(view_text("`a` `b"), vec![code(1, 1), text(3, 1), text(5, 1)]);
}

#[test]
fn view_text_segments_leave_out_the_backticks() {
    let source = "`impl Trait` in `let` and `x";
    let joined: String = shown(source, &view_text(source)).concat();
    assert_eq!(joined, source.replace('`', ""));
}

#[test]
fn find_backtick_from_an_offset() {
    assert_eq!(find_backtick(b"a`b`", 0), Some(1));
    assert_eq!(find_backtick(b"a`b`", 1), Some(1));
    assert_eq!(find_backtick(b"a`b`", 2), Some(3));
    assert_eq!(find_backtick(b"a`b`", 4), None);
    assert_eq!(find_backtick(b"a`b`", 9), None);
    assert_eq!(find_backtick(b"", 0), None);
}

#[test]
fn matches_in_plain_text() {
    let source = "a test of tests";
    let segments = view_text_with_matches(source, &[at(2, 4), at(10, 4)]);
    assert_eq!(segments, vec![text(0, 2), hit(2, 4), text(6, 4), hit(10, 4), text(14, 1)]);
    assert_eq!(shown(source, &segments), vec!["a ", "test", " of ", "test", "s"]);
}

#[test]
fn match_at_start_and_end() {
    assert_eq!(view_text_with_matches("abc", &[at(0, 3)]), vec![hit(0, 3)]);
    assert_eq!(view_text_with_matches("abc", &[at(0, 1), at(2, 1)]), vec![hit(0, 1), text(1, 1), hit(2, 1)]);
}

#[test]
fn match_inside_inline_code_cuts_it() {
    let source = "use `Vec::new` now";
    let segments = view_text_with_matches(source, &[at(8, 2)]);
    assert_eq!(segments, vec![text(0, 4), code(5, 3), code_hit(8, 2), code(10, 3), text(14, 4)]);
    assert_eq!(shown(source, &segments), vec!["use ", "Vec", "::", "new", " now"]);
}

#[test]
fn match_filling_inline_code() {
    assert_eq!(view_text_with_matches("`ab`", &[at(1, 2)]), vec![code_hit(1, 2)]);
    assert_eq!(view_text_with_matches("x`ab`y", &[at(1 + 1, 1)]), vec![
        text(0, 1),
        code_hit(2, 1),
        code(3, 1),
        text(5, 1)
    ]);
}

#[test]
fn matches_before_and_after_inline_code() {
    let source = "ab `cd` ef";
    let segments = view_text_with_matches(source, &[at(1, 1), at(8, 1)]);
    assert_eq!(segments, vec![text(0, 1), hit(1, 1), text(2, 1), code(4, 2), text(7, 1), hit(8, 1), text(9, 1)]);
}

#[test]
fn no_matches_and_no_empty_segments() {
    assert_eq!(view_text_with_matches("the `dyn` keyword", &[]), vec![text(0, 4), code(5, 3), text(9, 8)]);
    assert_eq!(view_text_with_matches("", &[]), vec![]);
    assert_eq!(view_text_with_matches("a``b", &[]), vec![text(0, 1), text(3, 1)]);
    assert_eq!(view_text_with_matches("`a`", &[]), vec![code(1, 1)]);
}

#[test]
fn unbalanced_backtick_with_matches() {
    assert_eq!(view_text_with_matches("a `bc", &[at(3, 1)]), vec![text(0, 2), hit(3, 1), text(4, 1)]);
    assert_eq!(view_text_with_matches("`a` `bc", &[at(1, 1), at(6, 1)]), vec![
        code_hit(1, 1),
        text(3, 1),
        text(5, 1),
        hit(6, 1)
    ]);
}

#[test]
fn overlapping_and_unfit_spans_are_passed_over() {
    assert_eq!(view_text_with_matches("abcd", &[at(0, 2), at(1, 2), at(3, 1)]), vec![
        hit(0, 2),
        text(2, 1),
        hit(3, 1)
    ]);
    assert_eq!(view_text_with_matches("abcd", &[at(1, 0), at(2, 5), at(9, 1)]), vec![text(0, 4)]);
    assert_eq!(view_text_with_matches("abcd", &[at(usize::MAX, 2), at(2, usize::MAX)]), vec![text(0, 4)]);
}

#[test]
fn span_that_starts_at_a_backtick_is_passed_over() {
    assert_eq!(view_text_with_matches("a`b`", &[at(1, 2)]), vec![text(0, 1), code(2, 1)]);
}

#[test]
fn matches_of_terms_are_shown() {
    let source = "`impl Trait` in argument position";
    let found = get_text_matches(source, &["in".to_owned(), "Trait".to_owned()]);
    let segments = view_text_with_matches(source, &found);
    assert_eq!(shown(source, &segments), vec![
        "impl ", "Trait", " ", "in", " argument position"
    ]);
    assert_eq!(segments[1], code_hit(6, 5));
    assert_eq!(segments[3], hit(13, 2));
}

#[test]
fn segments_are_in_order_and_within_the_text() {
    let source = "a `b` c `d";
    for spans in [vec![], vec![at(0, 1)], vec![at(3, 1), at(6, 1)], vec![at(2, 7)]] {
        let segments = view_text_with_matches(source, &spans);
        let mut end = 0;
        for s in &segments {
            assert!(s.start >= end);
            assert!(s.len > 0);
            end = s.start + s.len;
        }
        assert!(end <= source.len());
    }
}
