//! The literal matches of search terms in a text, as spans of bytes.

use vstd::prelude::*;
use vstd::relations::sorted_by;
use crate::data::FeatureData;
use crate::ngram::{occurs_at, occurs_in};
use crate::score::term_bytes;
use crate::sort::{key_order, sort_keys};
use crate::text::bytes_of;

verus! {

broadcast use {vstd::seq_lib::group_to_multiset_ensures, vstd::multiset::group_multiset_axioms};

/// A stretch of a text: `len` bytes from the byte offset `start`.
#[derive(Copy, Clone, Debug, PartialEq, Eq, Structural)]
pub struct Span {
    pub start: usize,
    pub len: usize,
}

/// The spans of the matches in the searchable strings of a feature.
#[derive(Clone, Debug, Default)]
pub struct Match {
    pub title_spans: Vec<Span>,
    pub flag_spans: Vec<Span>,
    pub item_spans: Vec<Vec<Span>>,
}

/// The first offset from `from` on at which `pat` stands in `text`.
pub open spec fn first_match(text: Seq<u8>, pat: Seq<u8>, from: int) -> Option<int>
    decreases text.len() - from + 1,
{
    if from < 0 || from + pat.len() > text.len() {
        None
    } else if occurs_at(text, pat, from) {
        Some(from)
    } else {
        first_match(text, pat, from + 1)
    }
}

/// What `first_match` finds is an occurrence, and there is none between
/// `from` and it; where it finds nothing, there is none from `from` on.
pub proof fn lemma_first_match(text: Seq<u8>, pat: Seq<u8>, from: int)
    requires
        0 <= from,
    ensures
        match first_match(text, pat, from) {
            Some(at) => from <= at && occurs_at(text, pat, at) && forall|k: int|
                from <= k < at ==> !occurs_at(text, pat, k),
            None => forall|k: int| from <= k ==> !occurs_at(text, pat, k),
        },
    decreases text.len() - from + 1,
{
    if from + pat.len() <= text.len() && !occurs_at(text, pat, from) {
        lemma_first_match(text, pat, from + 1);
    }
}

/// The matches of one term in `text` from `from` on: its first occurrence,
/// then the first one after the end of that, and so on. They do not
/// overlap. An empty term matches nowhere.
pub open spec fn term_spans(text: Seq<u8>, term: Seq<u8>, from: int) -> Seq<Span>
    decreases text.len() - from,
{
    if term.len() == 0 || from < 0 {
        Seq::empty()
    } else {
        match first_match(text, term, from) {
            None => Seq::empty(),
            Some(at) => {
                proof {
                    lemma_first_match(text, term, from);
                }
                seq![Span { start: at as usize, len: term.len() as usize }] + term_spans(
                    text,
                    term,
                    at + term.len(),
                )
            },
        }
    }
}

/// The matches of each of `terms` in `text`, term by term.
pub open spec fn all_spans(text: Seq<u8>, terms: Seq<Seq<u8>>) -> Seq<Span>
    decreases terms.len(),
{
    if terms.len() == 0 {
        Seq::empty()
    } else {
        all_spans(text, terms.drop_last()) + term_spans(text, terms.last(), 0)
    }
}

/// The order of spans: by their start, then by their length.
pub open spec fn span_le(a: Span, b: Span) -> bool {
    a.start < b.start || (a.start == b.start && a.len <= b.len)
}

/// `span_le` as a relation.
pub open spec fn span_order() -> spec_fn(Span, Span) -> bool {
    |a: Span, b: Span| span_le(a, b)
}

/// Whether `spans` holds the matches of `terms` in `text`, each as often
/// as it is found, in the order of spans.
pub open spec fn is_matches(text: Seq<u8>, terms: Seq<Seq<u8>>, spans: Seq<Span>) -> bool {
    &&& sorted_by(spans, span_order())
    &&& spans.to_multiset() == all_spans(text, terms).to_multiset()
}

/// Whether `pat` stands in `text` at `at`.
pub fn matches_at(text: &[u8], pat: &[u8], at: usize) -> (b: bool)
    requires
        at + pat@.len() <= text@.len(),
    ensures
        b == occurs_at(text@, pat@, at as int),
{
    let n = pat.len();
    let len = text.len();
    let mut i: usize = 0;
    while i < n
        invariant
            0 <= i <= n,
            n == pat@.len(),
            len == text@.len(),
            at + n <= len,
            forall|j: int| 0 <= j < i ==> text@[at + j] == pat@[j],
        decreases n - i,
    {
        if text[at + i] != pat[i] {
            proof {
                assert(text@.subrange(at as int, at + n)[i as int] == text@[at + i]);
            }
            return false;
        }
        i = i + 1;
    }
    proof {
        assert(text@.subrange(at as int, at + n) =~= pat@);
    }
    true
}

/// The first offset from `from` on at which `pat` stands in `text`.
pub fn find_from(text: &[u8], pat: &[u8], from: usize) -> (res: Option<usize>)
    ensures
        match res {
            Some(at) => first_match(text@, pat@, from as int) == Some(at as int),
            None => first_match(text@, pat@, from as int) is None,
        },
{
    let len = text.len();
    let n = pat.len();
    if n > len || from > len - n {
        return None;
    }
    let last = len - n;
    let mut at: usize = from;
    loop
        invariant
            from <= at <= last,
            last == len - n,
            len == text@.len(),
            n == pat@.len(),
            first_match(text@, pat@, from as int) == first_match(text@, pat@, at as int),
        decreases last - at,
    {
        if matches_at(text, pat, at) {
            return Some(at);
        }
        if at == last {
            assert(first_match(text@, pat@, at + 1) is None);
            return None;
        }
        at = at + 1;
    }
}

/// An occurrence somewhere is found from the start.
pub proof fn lemma_first_match_finds(text: Seq<u8>, pat: Seq<u8>)
    ensures
        first_match(text, pat, 0) is Some <==> occurs_in(text, pat),
{
    lemma_first_match(text, pat, 0);
    if occurs_in(text, pat) {
        let at = choose|at: int| occurs_at(text, pat, at);
        assert(0 <= at);
    }
}

/// Whether `pat` stands somewhere in `text`.
pub fn contains(text: &[u8], pat: &[u8]) -> (b: bool)
    ensures
        b == occurs_in(text@, pat@),
{
    proof {
        lemma_first_match_finds(text@, pat@);
    }
    find_from(text, pat, 0).is_some()
}

/// The triple by which a span is put in order.
pub open spec fn span_key(span: Span) -> (u64, u64, u64) {
    (span.start as u64, span.len as u64, 0u64)
}

/// The span that a triple stands for.
pub open spec fn key_span(key: (u64, u64, u64)) -> Span {
    Span { start: key.0 as usize, len: key.1 as usize }
}

/// Lists with the same members, each as often, still have the same
/// members after a function is applied to each.
pub proof fn lemma_map_multiset<A, B>(a: Seq<A>, b: Seq<A>, f: spec_fn(A) -> B)
    requires
        a.to_multiset() == b.to_multiset(),
    ensures
        a.map_values(f).to_multiset() == b.map_values(f).to_multiset(),
    decreases a.len(),
{
    vstd::seq_lib::to_multiset_len(a);
    vstd::seq_lib::to_multiset_len(b);
    if a.len() == 0 {
        assert(a.map_values(f) =~= b.map_values(f));
    } else {
        let x = a.last();
        let rest = a.drop_last();
        assert(a == rest.push(x));
        assert(a.contains(x));
        assert(b.to_multiset().count(x) > 0);
        assert(b.contains(x));
        let j = choose|j: int| 0 <= j < b.len() && b[j] == x;
        let others = b.remove(j);
        assert(rest.to_multiset() =~= a.to_multiset().remove(x));
        assert(others.to_multiset() =~= b.to_multiset().remove(x));
        lemma_map_multiset(rest, others, f);
        assert(a.map_values(f) =~= rest.map_values(f).push(f(x)));
        assert(others.map_values(f) =~= b.map_values(f).remove(j));
        assert(b.map_values(f)[j] == f(x));
        assert(b.map_values(f).remove(j).to_multiset() =~= b.map_values(f).to_multiset().remove(f(x)));
        assert(a.map_values(f).to_multiset() =~= b.map_values(f).to_multiset());
    }
}

/// The matches of one term from `from` on end within the text.
pub proof fn lemma_term_spans_within(text: Seq<u8>, term: Seq<u8>, from: int, k: int)
    requires
        text.len() <= usize::MAX,
        0 <= from,
        0 <= k < term_spans(text, term, from).len(),
    ensures
        ({
            let span = term_spans(text, term, from)[k];
            &&& from <= span.start
            &&& span.len == term.len()
            &&& span.start + span.len <= text.len()
            &&& occurs_at(text, term, span.start as int)
        }),
    decreases text.len() - from,
{
    lemma_first_match(text, term, from);
    let at = first_match(text, term, from)->0;
    let rest = term_spans(text, term, at + term.len());
    assert(term_spans(text, term, from) == seq![Span { start: at as usize, len: term.len() as usize }]
        + rest);
    if k > 0 {
        lemma_term_spans_within(text, term, at + term.len(), k - 1);
        assert(term_spans(text, term, from)[k] == rest[k - 1]);
    }
}

/// Whether `span` is where one of `terms` stands in `text`.
pub open spec fn is_occurrence(text: Seq<u8>, terms: Seq<Seq<u8>>, span: Span) -> bool {
    exists|t: int|
        0 <= t < terms.len() && span.len == (#[trigger] terms[t]).len() && occurs_at(
            text,
            terms[t],
            span.start as int,
        )
}

/// Every match ends within the text, and is an occurrence of a term.
pub proof fn lemma_all_spans_within(text: Seq<u8>, terms: Seq<Seq<u8>>, k: int)
    requires
        text.len() <= usize::MAX,
        0 <= k < all_spans(text, terms).len(),
    ensures
        all_spans(text, terms)[k].start + all_spans(text, terms)[k].len <= text.len(),
        is_occurrence(text, terms, all_spans(text, terms)[k]),
    decreases terms.len(),
{
    let before = all_spans(text, terms.drop_last());
    if k < before.len() {
        lemma_all_spans_within(text, terms.drop_last(), k);
        let t = choose|t: int|
            0 <= t < terms.drop_last().len() && before[k].len == (#[trigger] terms.drop_last()[t]).len()
                && occurs_at(text, terms.drop_last()[t], before[k].start as int);
        assert(terms[t] == terms.drop_last()[t]);
    } else {
        lemma_term_spans_within(text, terms.last(), 0, k - before.len());
        assert(terms[terms.len() - 1] == terms.last());
    }
}

/// Appends the matches of `term` in `text` to `keys`, as triples.
fn push_term_spans(keys: &mut Vec<(u64, u64, u64)>, text: &[u8], term: &[u8], Ghost(spans): Ghost<Seq<Span>>)
    requires
        old(keys)@ == spans.map_values(|s: Span| span_key(s)),
    ensures
        final(keys)@ == (spans + term_spans(text@, term@, 0)).map_values(|s: Span| span_key(s)),
{
    let ghost f = |s: Span| span_key(s);
    let n = term.len();
    let len = text.len();
    if n == 0 {
        assert(spans + term_spans(text@, term@, 0) == spans);
        return ;
    }
    let mut from: usize = 0;
    let ghost mut done: Seq<Span> = Seq::empty();
    proof {
        assert(spans + done == spans);
    }
    loop
        invariant
            n == term@.len(),
            n > 0,
            len == text@.len(),
            0 <= from <= len,
            keys@ == (spans + done).map_values(f),
            f == |s: Span| span_key(s),
            term_spans(text@, term@, 0) == done + term_spans(text@, term@, from as int),
        decreases len - from,
    {
        proof {
            lemma_first_match(text@, term@, from as int);
        }
        match find_from(text, term, from) {
            Some(at) => {
                let ghost span = Span { start: at, len: n };
                proof {
                    assert((spans + done.push(span)).map_values(f) == (spans + done).map_values(f).push(
                        span_key(span),
                    ));
                    assert(done.push(span) + term_spans(text@, term@, at + n) == done + (seq![span]
                        + term_spans(text@, term@, at + n)));
                }
                keys.push((at as u64, n as u64, 0));
                proof {
                    done = done.push(span);
                }
                from = at + n;
            },
            None => {
                proof {
                    assert(done + term_spans(text@, term@, from as int) == done);
                }
                return ;
            },
        }
    }
}

/// Finds the matches of the search terms in `text`.
///
/// For each term: its first occurrence, then each further occurrence that
/// starts after the end of the one before. The spans of all terms come
/// back in one list, ordered by their start and then by their length. A
/// term that is there twice gives its spans twice.
pub fn get_text_matches(text: &str, search_terms: &[String]) -> (spans: Vec<Span>)
    ensures
        is_matches(bytes_of(text@), term_bytes(search_terms@), spans@),
        forall|k: int|
            0 <= k < spans@.len() ==> (#[trigger] spans@[k]).start + spans@[k].len <= bytes_of(
                text@,
            ).len() && is_occurrence(bytes_of(text@), term_bytes(search_terms@), spans@[k]),
{
    let bytes = text.as_bytes();
    proof {
        vstd::slice::axiom_spec_len(bytes);
    }
    let ghost terms = term_bytes(search_terms@);
    let ghost f = |s: Span| span_key(s);
    let ghost g = |k: (u64, u64, u64)| key_span(k);
    let mut keys: Vec<(u64, u64, u64)> = Vec::new();
    let mut t: usize = 0;
    proof {
        assert(terms.take(0) == Seq::<Seq<u8>>::empty());
        assert(keys@ == all_spans(bytes@, terms.take(0)).map_values(f));
    }
    while t < search_terms.len()
        invariant
            0 <= t <= search_terms@.len(),
            terms == term_bytes(search_terms@),
            f == |s: Span| span_key(s),
            keys@ == all_spans(bytes@, terms.take(t as int)).map_values(f),
        decreases search_terms@.len() - t,
    {
        proof {
            assert(terms.take(t + 1).drop_last() == terms.take(t as int));
            assert(terms.take(t + 1).last() == terms[t as int]);
        }
        push_term_spans(
            &mut keys,
            bytes,
            search_terms[t].as_str().as_bytes(),
            Ghost(all_spans(bytes@, terms.take(t as int))),
        );
        t = t + 1;
    }
    let ghost found = all_spans(bytes@, terms);
    let ghost unsorted = keys@;
    proof {
        assert(terms.take(t as int) == terms);
    }
    sort_keys(&mut keys);
    let ghost ordered = keys@;
    proof {
        lemma_map_multiset(ordered, unsorted, g);
        assert(unsorted.map_values(g) =~= found);
        vstd::seq_lib::to_multiset_len(ordered);
        vstd::seq_lib::to_multiset_len(unsorted);
        assert forall|k: int| 0 <= k < ordered.len() implies span_key(key_span(#[trigger] ordered[k]))
            == ordered[k] && key_span(ordered[k]).start + key_span(ordered[k]).len <= bytes@.len()
            && is_occurrence(bytes@, terms, key_span(ordered[k])) by {
            assert(ordered.contains(ordered[k]));
            assert(unsorted.to_multiset().count(ordered[k]) > 0);
            assert(unsorted.contains(ordered[k]));
            let j = choose|j: int| 0 <= j < unsorted.len() && unsorted[j] == ordered[k];
            assert(unsorted[j] == span_key(found[j]));
            lemma_all_spans_within(bytes@, terms, j);
        }
    }
    let mut spans: Vec<Span> = Vec::new();
    let mut i: usize = 0;
    while i < keys.len()
        invariant
            0 <= i <= keys@.len(),
            keys@ == ordered,
            g == |k: (u64, u64, u64)| key_span(k),
            spans@ == ordered.take(i as int).map_values(g),
            forall|k: int| 0 <= k < ordered.len() ==> span_key(key_span(#[trigger] ordered[k])) == ordered[k],
        decreases keys@.len() - i,
    {
        let key = keys[i];
        assert(span_key(key_span(ordered[i as int])) == ordered[i as int]);
        proof {
            assert(ordered.take(i + 1).map_values(g) == ordered.take(i as int).map_values(g).push(
                key_span(key),
            ));
        }
        spans.push(Span { start: key.0 as usize, len: key.1 as usize });
        i = i + 1;
    }
    proof {
        assert(ordered.take(i as int) == ordered);
        assert forall|p: int, q: int| 0 <= p < q < spans@.len() implies #[trigger] span_order()(
            spans@[p],
            spans@[q],
        ) by {
            assert(key_order()(ordered[p], ordered[q]));
            assert(span_key(key_span(ordered[p])) == ordered[p]);
            assert(span_key(key_span(ordered[q])) == ordered[q]);
        }
        assert forall|k: int| 0 <= k < spans@.len() implies (#[trigger] spans@[k]).start + spans@[k].len
            <= bytes_of(text@).len() && is_occurrence(bytes_of(text@), terms, spans@[k]) by {
            assert(spans@[k] == key_span(ordered[k]));
        }
    }
    spans
}

/// The order of spans is total.
pub proof fn lemma_span_order_total()
    ensures
        vstd::relations::total_ordering(span_order()),
{
    let r = span_order();
    assert forall|x: Span, y: Span| #[trigger] r(x, y) && #[trigger] r(y, x) implies x == y by {}
}

/// The matches do not depend on the order of the terms: for two lists of
/// terms that hold the same terms, each as often, the matches are the same.
pub proof fn lemma_matches_ignore_term_order(
    text: Seq<u8>,
    terms1: Seq<Seq<u8>>,
    spans1: Seq<Span>,
    terms2: Seq<Seq<u8>>,
    spans2: Seq<Span>,
)
    requires
        terms1.to_multiset() == terms2.to_multiset(),
        is_matches(text, terms1, spans1),
        is_matches(text, terms2, spans2),
    ensures
        spans1 == spans2,
{
    lemma_all_spans_permuted(text, terms1, terms2);
    lemma_span_order_total();
    vstd::seq_lib::lemma_sorted_unique(spans1, spans2, span_order());
}

/// The matches of one more term are those of the others and its own.
proof fn lemma_all_spans_insert(text: Seq<u8>, terms: Seq<Seq<u8>>, j: int)
    requires
        0 <= j < terms.len(),
    ensures
        all_spans(text, terms).to_multiset() == all_spans(text, terms.remove(j)).to_multiset().add(
            term_spans(text, terms[j], 0).to_multiset(),
        ),
    decreases terms.len(),
{
    let rest = terms.drop_last();
    vstd::seq_lib::lemma_multiset_commutative(all_spans(text, rest), term_spans(text, terms.last(), 0));
    if j == terms.len() - 1 {
        assert(terms.remove(j) == rest);
    } else {
        lemma_all_spans_insert(text, rest, j);
        let others = terms.remove(j);
        assert(others.drop_last() == rest.remove(j));
        assert(others.last() == terms.last());
        assert(rest[j] == terms[j]);
        vstd::seq_lib::lemma_multiset_commutative(
            all_spans(text, others.drop_last()),
            term_spans(text, others.last(), 0),
        );
        assert(all_spans(text, terms).to_multiset() =~= all_spans(text, others).to_multiset().add(
            term_spans(text, terms[j], 0).to_multiset(),
        ));
    }
}

/// Lists of terms with the same members, each as often, give the same
/// matches, each as often.
proof fn lemma_all_spans_permuted(text: Seq<u8>, terms1: Seq<Seq<u8>>, terms2: Seq<Seq<u8>>)
    requires
        terms1.to_multiset() == terms2.to_multiset(),
    ensures
        all_spans(text, terms1).to_multiset() == all_spans(text, terms2).to_multiset(),
    decreases terms1.len(),
{
    vstd::seq_lib::to_multiset_len(terms1);
    vstd::seq_lib::to_multiset_len(terms2);
    if terms1.len() == 0 {
        assert(all_spans(text, terms1) =~= all_spans(text, terms2));
    } else {
        let x = terms1.last();
        let rest = terms1.drop_last();
        assert(terms1 == rest.push(x));
        assert(terms1.contains(x));
        assert(terms2.to_multiset().count(x) > 0);
        assert(terms2.contains(x));
        let j = choose|j: int| 0 <= j < terms2.len() && terms2[j] == x;
        let others = terms2.remove(j);
        assert(rest.to_multiset() =~= terms1.to_multiset().remove(x));
        assert(others.to_multiset() =~= terms2.to_multiset().remove(x));
        lemma_all_spans_permuted(text, rest, others);
        lemma_all_spans_insert(text, terms2, j);
        vstd::seq_lib::lemma_multiset_commutative(all_spans(text, rest), term_spans(text, x, 0));
    }
}

impl FeatureData {
    /// Whether each of the search terms stands in the title, in the flag or
    /// in one of the items.
    pub fn does_match(&self, search_terms: &[String]) -> (b: bool)
        ensures
            b == forall|t: int|
                0 <= t < search_terms@.len() ==> self.contains_term(
                    #[trigger] term_bytes(search_terms@)[t],
                ),
    {
        let ghost terms = term_bytes(search_terms@);
        let mut t: usize = 0;
        while t < search_terms.len()
            invariant
                0 <= t <= search_terms@.len(),
                terms == term_bytes(search_terms@),
                forall|k: int| 0 <= k < t ==> self.contains_term(#[trigger] terms[k]),
            decreases search_terms@.len() - t,
        {
            let term = search_terms[t].as_str().as_bytes();
            assert(term@ == terms[t as int]);
            if !self.holds(term) {
                return false;
            }
            t = t + 1;
        }
        true
    }

    /// Whether `term` stands in the title, in the flag or in one of the
    /// items.
    pub fn holds(&self, term: &[u8]) -> (b: bool)
        ensures
            b == self.contains_term(term@),
    {
        if contains(self.title.as_str().as_bytes(), term) {
            return true;
        }
        match &self.flag {
            Some(flag) => {
                if contains(flag.as_str().as_bytes(), term) {
                    return true;
                }
            },
            None => {},
        }
        let mut k: usize = 0;
        while k < self.items.len()
            invariant
                0 <= k <= self.items@.len(),
                !occurs_in(bytes_of(self.title@), term@),
                !(self.flag is Some && occurs_in(bytes_of(self.flag->0@), term@)),
                forall|j: int| 0 <= j < k ==> !occurs_in(bytes_of((#[trigger] self.items@[j])@), term@),
            decreases self.items@.len() - k,
        {
            if contains(self.items[k].as_str().as_bytes(), term) {
                return true;
            }
            k = k + 1;
        }
        false
    }

    /// The matches of the search terms in the title, in the flag and in
    /// each of the items. A feature without a flag has no matches there.
    pub fn get_matches(&self, search_terms: &[String]) -> (m: Match)
        ensures
            is_matches(bytes_of(self.title@), term_bytes(search_terms@), m.title_spans@),
            match self.flag {
                Some(flag) => is_matches(bytes_of(flag@), term_bytes(search_terms@), m.flag_spans@),
                None => m.flag_spans@.len() == 0,
            },
            m.item_spans@.len() == self.items@.len(),
            forall|k: int|
                0 <= k < self.items@.len() ==> is_matches(
                    bytes_of(self.items@[k]@),
                    term_bytes(search_terms@),
                    (#[trigger] m.item_spans@[k])@,
                ),
    {
        let title_spans = get_text_matches(self.title.as_str(), search_terms);
        let flag_spans = match &self.flag {
            Some(flag) => get_text_matches(flag.as_str(), search_terms),
            None => Vec::new(),
        };
        let mut item_spans: Vec<Vec<Span>> = Vec::new();
        let mut k: usize = 0;
        while k < self.items.len()
            invariant
                0 <= k <= self.items@.len(),
                item_spans@.len() == k,
                forall|j: int|
                    0 <= j < k ==> is_matches(
                        bytes_of(self.items@[j]@),
                        term_bytes(search_terms@),
                        (#[trigger] item_spans@[j])@,
                    ),
            decreases self.items@.len() - k,
        {
            item_spans.push(get_text_matches(self.items[k].as_str(), search_terms));
            k = k + 1;
        }
        Match { title_spans, flag_spans, item_spans }
    }
}

} // verus!
