use caniuse_rs::corpus::{check_corpus, Corpus, CorpusError, SearchIndex};
use caniuse_rs::data::{Channel, FeatureData};
use caniuse_rs::index::{add_feature_ngrams, insert_id, NGramIndex};
use caniuse_rs::ngram::{byte_is_indexable, window_key};
use caniuse_rs::search::{run_search, score_divisor, try_run_search};
use caniuse_rs::sort::sort_keys;

fn words(list: &[&str]) -> Vec<String> {
    list.iter().map(|w| w.to_string()).collect()
}

fn record(title: &str, flag: Option<&str>, items: &[&str]) -> FeatureData {
    FeatureData {
        title: title.to_owned(),
        flag: flag.map(|f| f.to_owned()),
        slug: None,
        channel: Channel::Stable,
        version: None,
        rfc_id: None,
        impl_pr_id: None,
        tracking_issue_id: None,
        stabilization_pr_id: None,
        doc_path: None,
        edition_guide_path: None,
        unstable_book_path: None,
        items: items.iter().map(|i| i.to_string()).collect(),
    }
}

fn corpus_of(titles: &[&str]) -> Corpus {
    Corpus::new(titles.iter().map(|t| record(t, None, &[])).collect()).unwrap()
}

fn search(corpus: &Corpus, query: &[&str]) -> (Vec<u16>, Vec<(u16, u64)>) {
    let mut scores = vec![(0u16, 0u64); corpus.len()];
    let found = run_search(&words(query), &mut scores, corpus);
    (found, scores)
}

#[test]
fn divisor_of_one_term() {
    assert_eq!(score_divisor(&words(&["a"])), Some(1));
    assert_eq!(score_divisor(&words(&["ab"])), Some(2 + 4));
    assert_eq!(score_divisor(&words(&["abc"])), Some(3 + 4 * 2 + 12));
    assert_eq!(score_divisor(&words(&["abcd"])), Some(4 + 4 * 3 + 12 * 2));
}

#[test]
fn divisor_adds_up_over_terms() {
    assert_eq!(score_divisor(&words(&[])), Some(0));
    assert_eq!(score_divisor(&words(&[""])), Some(0));
    assert_eq!(score_divisor(&words(&["abc", "ab", "a", "abc"])), Some(23 + 6 + 1 + 23));
}

#[test]
fn full_match_gets_the_divisor() {
    let corpus = corpus_of(&["abc", "xyz"]);
    let (found, scores) = search(&corpus, &["abc"]);
    assert_eq!(found, vec![0]);
    assert_eq!(scores, vec![(0, 23), (1, 0)]);
}

#[test]
fn scores_are_at_most_the_divisor() {
    let corpus = corpus_of(&["parse int", "int", "trait objects", "printing", ""]);
    for query in [vec!["int"], vec!["print", "int"], vec!["t", "t", "t"], vec!["zzz"]] {
        let divisor = score_divisor(&words(&query)).unwrap();
        let (found, scores) = search(&corpus, &query);
        assert_eq!(scores.len(), corpus.len());
        for (_, hits) in &scores {
            assert!(*hits <= divisor);
        }
        assert!(found.len() <= corpus.len());
    }
}

#[test]
fn partial_match_counts_weighted_ngrams() {
    // "abd" shares with "abc": the bytes a and b (2), the pair ab (4).
    let corpus = corpus_of(&["abd"]);
    let (found, scores) = search(&corpus, &["abc"]);
    assert_eq!(scores, vec![(0, 6)]);
    assert_eq!(found, vec![0]);
}

#[test]
fn threshold_is_a_quarter() {
    // divisor 23: 6 of 23 is above a quarter, 5 of 23 is below.
    let (found, scores) = search(&corpus_of(&["ab"]), &["abc"]);
    assert_eq!(scores, vec![(0, 6)]);
    assert_eq!(found, vec![0]);
    let (found, scores) = search(&corpus_of(&["a b c"]), &["abc"]);
    assert_eq!(scores, vec![(0, 3)]);
    assert_eq!(found, Vec::<u16>::new());
    // exactly a quarter: 1 of 4.
    let (found, scores) = search(&corpus_of(&["a"]), &["a", "x", "y", "z"]);
    assert_eq!(scores, vec![(0, 1)]);
    assert_eq!(found, vec![0]);
    let (found, _) = search(&corpus_of(&["a"]), &["a", "x", "y", "z", "w"]);
    assert_eq!(found, Vec::<u16>::new());
}

#[test]
fn record_without_shared_ngram_is_left_out() {
    let corpus = corpus_of(&["abc", "xyz"]);
    let (found, scores) = search(&corpus, &["abc"]);
    assert!(!found.contains(&1));
    assert!(scores.contains(&(1, 0)));
    let (found, scores) = search(&corpus, &["qqq"]);
    assert!(found.is_empty());
    assert_eq!(scores, vec![(0, 0), (1, 0)]);
}

#[test]
fn no_terms_find_nothing() {
    let corpus = corpus_of(&["abc", "xyz"]);
    let (found, scores) = search(&corpus, &[]);
    assert!(found.is_empty());
    assert_eq!(scores, vec![(0, 0), (1, 0)]);
    let (found, _) = search(&corpus, &[""]);
    assert!(found.is_empty());
}

#[test]
fn higher_score_comes_first() {
    let corpus = corpus_of(&["ab", "abc", "a"]);
    let (found, scores) = search(&corpus, &["abc"]);
    assert_eq!(scores, vec![(1, 23), (0, 6), (2, 1)]);
    assert_eq!(found, vec![1, 0]);
}

#[test]
fn equal_scores_are_ordered_by_title_length() {
    let corpus = corpus_of(&["abc in a long title", "abc", "the abc"]);
    let (found, scores) = search(&corpus, &["abc"]);
    assert_eq!(scores, vec![(1, 23), (2, 23), (0, 23)]);
    assert_eq!(found, vec![1, 2, 0]);
}

#[test]
fn equal_scores_and_lengths_are_ordered_by_id() {
    let corpus = corpus_of(&["abc1", "abc2", "0abc", "abc"]);
    let (found, _) = search(&corpus, &["abc"]);
    assert_eq!(found, vec![3, 0, 1, 2]);
}

#[test]
fn title_length_counts_bytes() {
    // two characters, four bytes, against three bytes
    let corpus = Corpus::new(vec![record("\u{e9}\u{e9}", None, &["abc"]), record("xyz", None, &["abc"])])
        .unwrap();
    let (found, _) = search(&corpus, &["abc"]);
    assert_eq!(found, vec![1, 0]);
}

#[test]
fn searching_again_gives_the_same() {
    let corpus = corpus_of(&["parse int", "int", "trait objects", "printing", "tin", "nit"]);
    let mut scores = vec![(0u16, 0u64); corpus.len()];
    let first = run_search(&words(&["int", "tr"]), &mut scores, &corpus);
    let first_scores = scores.clone();
    let other = run_search(&words(&["zzz"]), &mut scores, &corpus);
    assert!(other.is_empty());
    let second = run_search(&words(&["int", "tr"]), &mut scores, &corpus);
    assert_eq!(first, second);
    assert_eq!(first_scores, scores);
}

#[test]
fn scores_are_reset_for_every_query() {
    let corpus = corpus_of(&["abc", "xyz"]);
    let mut scores = vec![(7u16, 99u64), (7, 99)];
    let found = run_search(&words(&["xyz"]), &mut scores, &corpus);
    assert_eq!(found, vec![1]);
    assert_eq!(scores, vec![(1, 23), (0, 0)]);
}

#[test]
fn repeated_term_counts_twice() {
    let corpus = corpus_of(&["ab", "cd"]);
    assert_eq!(score_divisor(&words(&["ab", "ab", "cd"])), Some(18));
    let (found, scores) = search(&corpus, &["ab", "ab", "cd"]);
    assert_eq!(scores, vec![(0, 12), (1, 6)]);
    assert_eq!(found, vec![0, 1]);
}

#[test]
fn repeated_window_counts_twice() {
    let corpus = corpus_of(&["a"]);
    let (_, scores) = search(&corpus, &["aa"]);
    assert_eq!(scores, vec![(0, 2)]);
}

#[test]
fn score_without_the_term_as_a_substring() {
    // every n-gram of "aba" but "aba" itself: a, b, a, ab, ba
    let corpus = corpus_of(&["ab ba"]);
    let (found, scores) = search(&corpus, &["aba"]);
    assert_eq!(scores, vec![(0, 3 + 8)]);
    assert_eq!(found, vec![0]);
}

#[test]
fn flag_and_items_are_searched() {
    let corpus = Corpus::new(vec![
        record("title", Some("the_flag"), &[]),
        record("title", None, &["first", "an_item"]),
        record("title", None, &[]),
    ])
    .unwrap();
    let (found, _) = search(&corpus, &["flag"]);
    assert_eq!(found, vec![0]);
    let (found, _) = search(&corpus, &["item"]);
    assert_eq!(found, vec![1]);
}

#[test]
fn ngrams_do_not_span_fields() {
    let corpus = Corpus::new(vec![record("ab", None, &["cd"])]).unwrap();
    let (_, scores) = search(&corpus, &["bc"]);
    // the bytes b and c, not the pair
    assert_eq!(scores, vec![(0, 2)]);
}

#[test]
fn windows_with_other_bytes_are_not_indexed() {
    let corpus = corpus_of(&["a b", "`c`", "\u{e9}d"]);
    let index = corpus.index();
    assert_eq!(index.monograms().get(b"a"), Some(&vec![0]));
    assert_eq!(index.monograms().get(b" "), None);
    assert_eq!(index.monograms().get(b"`"), None);
    assert_eq!(index.monograms().get(b"c"), Some(&vec![1]));
    assert_eq!(index.monograms().get(b"d"), Some(&vec![2]));
    assert_eq!(index.monograms().get(&[0xc3]), None);
    assert_eq!(index.bigrams().get(b"a "), None);
    assert_eq!(index.bigrams().get(b"`c"), None);
    assert_eq!(index.trigrams().get(b"a b"), None);
}

#[test]
fn try_run_search_runs_the_search() {
    let corpus = corpus_of(&["abc", "xyz"]);
    let mut scores = vec![(0u16, 0u64); 2];
    assert_eq!(try_run_search(&words(&["xyz"]), &mut scores, &corpus), Some(vec![1]));
    assert_eq!(scores, vec![(1, 23), (0, 0)]);
}

#[test]
fn empty_corpus_is_searched() {
    let corpus = Corpus::new(vec![]).unwrap();
    assert_eq!(corpus.len(), 0);
    let (found, scores) = search(&corpus, &["abc"]);
    assert!(found.is_empty());
    assert!(scores.is_empty());
}

#[test]
fn index_lists_are_sorted_and_without_repetition() {
    let features =
        vec![record("aa", Some("a"), &["a", "ba"]), record("b", None, &[]), record("xa", None, &["aa"])];
    let index = SearchIndex::build(&features);
    assert_eq!(index.monograms().get(b"a"), Some(&vec![0, 2]));
    assert_eq!(index.monograms().get(b"b"), Some(&vec![0, 1]));
    assert_eq!(index.bigrams().get(b"aa"), Some(&vec![0, 2]));
    assert_eq!(index.bigrams().get(b"ba"), Some(&vec![0]));
    assert_eq!(index.bigrams().get(b"xa"), Some(&vec![2]));
    assert_eq!(index.trigrams().get(b"aaa"), None);
}

#[test]
fn index_of_another_width_holds_nothing() {
    let index = SearchIndex::build(&[record("abc", None, &[])]);
    assert_eq!(index.monograms().get(b"ab"), None);
    assert_eq!(index.bigrams().get(b"a"), None);
    assert_eq!(index.trigrams().get(b"abcd"), None);
    assert_eq!(index.trigrams().get(b""), None);
    assert_eq!(index.trigrams().get(b"abc"), Some(&vec![0]));
}

#[test]
fn add_feature_ngrams_in_any_order() {
    let mut index = NGramIndex::new(2);
    add_feature_ngrams(&mut index, &record("abc", None, &[]), 7);
    add_feature_ngrams(&mut index, &record("bcd", None, &[]), 3);
    add_feature_ngrams(&mut index, &record("abc", None, &[]), 7);
    add_feature_ngrams(&mut index, &record("xbc", None, &[]), 5);
    assert_eq!(index.get(b"ab"), Some(&vec![7]));
    assert_eq!(index.get(b"bc"), Some(&vec![3, 5, 7]));
    assert_eq!(index.get(b"cd"), Some(&vec![3]));
    assert_eq!(index.get(b"xb"), Some(&vec![5]));
}

#[test]
fn add_text_files_each_window_once() {
    let mut index = NGramIndex::new(1);
    index.add_text(b"banana", 4);
    index.add_text(b"b n", 2);
    assert_eq!(index.get(b"a"), Some(&vec![4]));
    assert_eq!(index.get(b"b"), Some(&vec![2, 4]));
    assert_eq!(index.get(b"n"), Some(&vec![2, 4]));
    assert_eq!(index.get(b" "), None);
    assert_eq!(index.lookup(b"xbx", 1), Some(&vec![2, 4]));
}

#[test]
fn insert_id_keeps_the_order() {
    let mut ids = vec![];
    for id in [5u16, 1, 9, 5, 3, 1, 65535, 0] {
        insert_id(&mut ids, id);
    }
    assert_eq!(ids, vec![0, 1, 3, 5, 9, 65535]);
}

#[test]
fn window_key_reads_little_endian() {
    assert_eq!(window_key(b"abc", 0, 1), Some(0x61));
    assert_eq!(window_key(b"abc", 1, 2), Some(0x62 + 0x63 * 256));
    assert_eq!(window_key(b"abc", 0, 3), Some(0x61 + 0x62 * 256 + 0x63 * 65536));
    assert_eq!(window_key(b"a c", 0, 3), None);
    assert_eq!(window_key(b"a`", 0, 2), None);
}

#[test]
fn indexable_bytes_are_printable_without_space_and_backtick() {
    for b in 0u8..=255 {
        assert_eq!(byte_is_indexable(b), b.is_ascii_graphic() && b != b'`');
    }
}

#[test]
fn corpus_with_backtick_in_item_is_refused() {
    let features = vec![
        record("`fine` in a title", Some("`fine`"), &["ok"]),
        record("x", None, &["ok", "not `ok`", "`"]),
        record("y", None, &["`"]),
    ];
    assert_eq!(check_corpus(&features), Err(CorpusError::BacktickInItem { feature: 1, item: 1 }));
    assert!(matches!(
        Corpus::new(features),
        Err(CorpusError::BacktickInItem { feature: 1, item: 1 })
    ));
}

#[test]
fn corpus_with_too_many_features_is_refused() {
    let mut features: Vec<FeatureData> = (0..65536).map(|_| record("t", None, &[])).collect();
    assert_eq!(check_corpus(&features), Ok(()));
    features.push(record("t", None, &["`"]));
    assert_eq!(check_corpus(&features), Err(CorpusError::TooManyFeatures));
    assert!(matches!(Corpus::new(features), Err(CorpusError::TooManyFeatures)));
}

#[test]
fn corpus_gives_its_records_by_id() {
    let corpus = corpus_of(&["zero", "one"]);
    assert_eq!(corpus.len(), 2);
    assert_eq!(corpus.features().len(), 2);
    assert_eq!(corpus.feature(1).unwrap().title, "one");
    assert!(corpus.feature(2).is_none());
}

#[test]
fn last_id_is_indexed() {
    let mut features: Vec<FeatureData> = (0..65535).map(|_| record("t", None, &[])).collect();
    features.push(record("needle", None, &[]));
    let corpus = Corpus::new(features).unwrap();
    assert_eq!(corpus.index().trigrams().get(b"nee"), Some(&vec![65535]));
    let mut scores = vec![(0u16, 0u64); corpus.len()];
    assert_eq!(run_search(&words(&["needle"]), &mut scores, &corpus), vec![65535]);
}

#[test]
fn sort_keys_orders_triples() {
    let mut keys = vec![(2, 0, 0), (1, 5, 0), (1, 2, 9), (1, 2, 3), (0, 9, 9), (1, 2, 3)];
    sort_keys(&mut keys);
    assert_eq!(keys, vec![(0, 9, 9), (1, 2, 3), (1, 2, 3), (1, 2, 9), (1, 5, 0), (2, 0, 0)]);
    let mut none: Vec<(u64, u64, u64)> = vec![];
    sort_keys(&mut none);
    assert!(none.is_empty());
}

#[test]
fn sort_keys_agrees_with_sort() {
    let mut keys: Vec<(u64, u64, u64)> =
        (0..200u64).map(|i| ((i * 7919) % 13, (i * 104729) % 7, (i * 31) % 5)).collect();
    let mut expected = keys.clone();
    expected.sort();
    sort_keys(&mut keys);
    assert_eq!(keys, expected);
}
