//! The cut of a text into segments: plain text, inline code between
//! backticks, and matches.

use vstd::prelude::*;
use crate::highlight::{all_spans, is_matches, lemma_all_spans_within, Span};
use crate::ngram::occurs_at;
use crate::text::{bytes_of, BACKTICK};

verus! {

/// A stretch of a text that is shown in one way: `len` bytes from the byte
/// offset `start`, as inline code or not, as a match or not. The backticks
/// that mark inline code belong to no segment.
#[derive(Copy, Clone, Debug, PartialEq, Eq, Structural)]
pub struct Segment {
    pub start: usize,
    pub len: usize,
    pub code: bool,
    pub highlighted: bool,
}

/// The offset of the first backtick of `text` from `from` on.
pub open spec fn next_backtick(text: Seq<u8>, from: int) -> Option<int>
    decreases text.len() - from,
{
    if from < 0 || from >= text.len() {
        None
    } else if text[from] == BACKTICK {
        Some(from)
    } else {
        next_backtick(text, from + 1)
    }
}

/// What `next_backtick` finds is a backtick, and there is none between
/// `from` and it; where it finds nothing, there is none from `from` on.
pub proof fn lemma_next_backtick(text: Seq<u8>, from: int)
    requires
        0 <= from,
    ensures
        match next_backtick(text, from) {
            Some(at) => from <= at < text.len() && text[at] == BACKTICK && forall|k: int|
                from <= k < at ==> text[k] != BACKTICK,
            None => forall|k: int| from <= k < text.len() ==> text[k] != BACKTICK,
        },
    decreases text.len() - from,
{
    if from < text.len() && text[from] != BACKTICK {
        lemma_next_backtick(text, from + 1);
    }
}

/// The segment of plain text from `start` to `end`.
pub open spec fn plain(start: int, end: int) -> Segment {
    Segment { start: start as usize, len: (end - start) as usize, code: false, highlighted: false }
}

/// The segment of inline code from `start` to `end`.
pub open spec fn code(start: int, end: int) -> Segment {
    Segment { start: start as usize, len: (end - start) as usize, code: true, highlighted: false }
}

/// The segments of `text` from `from` on, where nothing is highlighted.
///
/// What stands between a backtick and the next one is inline code, and the
/// search goes on behind the second. Text before a backtick is a segment
/// unless it is empty; inline code is a segment even where it is empty.
/// Behind a backtick that no other follows, and where there is no backtick,
/// the rest is one segment of plain text, even where it is empty.
pub open spec fn text_segments(text: Seq<u8>, from: int) -> Seq<Segment>
    decreases text.len() - from,
{
    let end = text.len() as int;
    if from < 0 || from > end {
        Seq::empty()
    } else {
        match next_backtick(text, from) {
            None => seq![plain(from, end)],
            Some(open) => {
                let before = if open != from {
                    seq![plain(from, open)]
                } else {
                    Seq::empty()
                };
                match next_backtick(text, open + 1) {
                    None => before + seq![plain(open + 1, end)],
                    Some(close) => {
                        proof {
                            lemma_next_backtick(text, from);
                            lemma_next_backtick(text, open + 1);
                        }
                        before + seq![code(open + 1, close)] + text_segments(text, close + 1)
                    },
                }
            },
        }
    }
}

/// The offset of the first backtick of `text` from `from` on.
pub fn find_backtick(text: &[u8], from: usize) -> (res: Option<usize>)
    ensures
        match res {
            Some(at) => next_backtick(text@, from as int) == Some(at as int),
            None => next_backtick(text@, from as int) is None,
        },
{
    let mut at: usize = from;
    while at < text.len()
        invariant
            from <= at,
            next_backtick(text@, from as int) == next_backtick(text@, at as int),
        decreases text@.len() - at,
    {
        if text[at] == BACKTICK {
            return Some(at);
        }
        at = at + 1;
    }
    None
}

/// Whether no byte of the segment is a backtick.
pub open spec fn tick_free(text: Seq<u8>, segment: Segment) -> bool {
    forall|j: int| segment.start <= j < segment.start + segment.len ==> text[j] != BACKTICK
}

/// Whether the segments follow one another within a text of `len` bytes:
/// each ends where the next starts, or before.
pub open spec fn in_order(segments: Seq<Segment>, len: int) -> bool {
    &&& forall|i: int|
        0 <= i < segments.len() ==> (#[trigger] segments[i]).start + segments[i].len <= len
    &&& forall|i: int, j: int|
        0 <= i < j < segments.len() ==> (#[trigger] segments[i]).start + segments[i].len <= (
        #[trigger] segments[j]).start
}

/// The segments from `from` on lie behind `from`, in order.
pub proof fn lemma_text_segments_in_order(text: Seq<u8>, from: int)
    requires
        0 <= from <= text.len() <= usize::MAX,
    ensures
        in_order(text_segments(text, from), text.len() as int),
        forall|i: int|
            0 <= i < text_segments(text, from).len() ==> from <= (#[trigger] text_segments(
                text,
                from,
            )[i]).start,
        forall|i: int|
            0 <= i < text_segments(text, from).len() ==> !(#[trigger] text_segments(
                text,
                from,
            )[i]).highlighted && tick_free(text, text_segments(text, from)[i]),
    decreases text.len() - from,
{
    lemma_next_backtick(text, from);
    match next_backtick(text, from) {
        None => {},
        Some(open) => {
            lemma_next_backtick(text, open + 1);
            match next_backtick(text, open + 1) {
                None => {},
                Some(close) => {
                    lemma_text_segments_in_order(text, close + 1);
                    let before = if open != from {
                        seq![plain(from, open)]
                    } else {
                        Seq::empty()
                    };
                    let head = before + seq![code(open + 1, close)];
                    let rest = text_segments(text, close + 1);
                    let all = text_segments(text, from);
                    assert(all == head + rest);
                    assert forall|i: int| 0 <= i < all.len() implies from <= (#[trigger] all[i]).start
                        && all[i].start + all[i].len <= text.len() && !all[i].highlighted && tick_free(
                        text,
                        all[i],
                    ) && (i < head.len() ==> all[i].start + all[i].len <= close) && (i >= head.len()
                        ==> all[i].start > close) by {
                        if i >= head.len() {
                            assert(all[i] == rest[i - head.len()]);
                        }
                    }
                    assert forall|i: int, j: int| 0 <= i < j < all.len() implies (#[trigger] all[i]).start
                        + all[i].len <= (#[trigger] all[j]).start by {
                        if i >= head.len() {
                            assert(all[i] == rest[i - head.len()]);
                            assert(all[j] == rest[j - head.len()]);
                        }
                    }
                },
            }
        },
    }
}

/// Cuts a text with inline code into segments.
///
/// What stands between a backtick and the next one is inline code; the
/// backticks themselves are left out. Behind a backtick that no other
/// follows the rest is plain text.
pub fn view_text(text: &str) -> (segments: Vec<Segment>)
    ensures
        segments@ == text_segments(bytes_of(text@), 0),
        in_order(segments@, bytes_of(text@).len() as int),
        forall|i: int| 0 <= i < segments@.len() ==> tick_free(bytes_of(text@), #[trigger] segments@[i]),
{
    let bytes = text.as_bytes();
    let end = bytes.len();
    let mut segments: Vec<Segment> = Vec::new();
    let mut pos: usize = 0;
    proof {
        lemma_text_segments_in_order(bytes@, 0);
    }
    loop
        invariant
            0 <= pos <= end,
            end == bytes@.len(),
            bytes@ == bytes_of(text@),
            in_order(text_segments(bytes@, 0), end as int),
            forall|i: int|
                0 <= i < text_segments(bytes@, 0).len() ==> tick_free(
                    bytes@,
                    #[trigger] text_segments(bytes@, 0)[i],
                ),
            text_segments(bytes@, 0) == segments@ + text_segments(bytes@, pos as int),
        decreases end - pos,
    {
        proof {
            lemma_next_backtick(bytes@, pos as int);
        }
        let open = match find_backtick(bytes, pos) {
            Some(open) => open,
            None => {
                let ghost so_far = segments@;
                segments.push(Segment { start: pos, len: end - pos, code: false, highlighted: false });
                proof {
                    assert(segments@ == so_far + seq![plain(pos as int, end as int)]);
                    assert(segments@ == text_segments(bytes@, 0));
                }
                return segments;
            },
        };
        let ghost before = if open != pos {
            seq![plain(pos as int, open as int)]
        } else {
            Seq::empty()
        };
        let ghost so_far = segments@;
        if open != pos {
            segments.push(Segment { start: pos, len: open - pos, code: false, highlighted: false });
        }
        assert(segments@ == so_far + before);
        proof {
            lemma_next_backtick(bytes@, open + 1);
        }
        let close = match find_backtick(bytes, open + 1) {
            Some(close) => close,
            None => {
                segments.push(
                    Segment { start: open + 1, len: end - open - 1, code: false, highlighted: false },
                );
                proof {
                    assert(so_far + (before + seq![plain(open + 1, end as int)]) == (so_far + before)
                        + seq![plain(open + 1, end as int)]);
                    assert(segments@ == text_segments(bytes@, 0));
                }
                return segments;
            },
        };
        segments.push(Segment { start: open + 1, len: close - open - 1, code: true, highlighted: false });
        proof {
            let rest = text_segments(bytes@, close + 1);
            assert(so_far + (before + seq![code(open + 1, close as int)] + rest) == ((so_far + before)
                + seq![code(open + 1, close as int)]) + rest);
        }
        pos = close + 1;
    }
}

/// The text from `start` to `end` as one segment that is no match; nothing
/// where it is empty.
pub open spec fn piece(start: int, end: int, code: bool) -> Seq<Segment> {
    if end > start {
        seq![Segment { start: start as usize, len: (end - start) as usize, code, highlighted: false }]
    } else {
        Seq::empty()
    }
}

/// Whether a span cannot be shown from `pos` on in a text of `len` bytes: it
/// is empty, it starts before `pos`, or it ends behind the text.
pub open spec fn is_stale(span: Span, pos: int, len: int) -> bool {
    span.len == 0 || span.start < pos || span.start + span.len > len
}

/// The segments of `text` from `pos` on, with the matches `spans[k..]`,
/// where `in_code` says whether `pos` stands in inline code.
///
/// A span that cannot be shown is passed over. Of the next backtick and the
/// next span, the one that starts first is taken; the backtick, where both
/// start together. A span becomes a highlighted segment, inline code if it
/// stands in inline code. A backtick in inline code ends it. A backtick in
/// plain text starts inline code if another backtick follows it; if none
/// does, it is left out and the text stays plain. What stands before the
/// span or the backtick, and what is left at the end, is a segment unless
/// it is empty.
pub open spec fn marked_segments(
    text: Seq<u8>,
    spans: Seq<Span>,
    pos: int,
    k: int,
    in_code: bool,
) -> Seq<Segment>
    decreases text.len() - pos, spans.len() - k,
{
    let end = text.len() as int;
    if pos < 0 || pos > end || k < 0 {
        Seq::empty()
    } else if k < spans.len() && is_stale(spans[k], pos, end) {
        marked_segments(text, spans, pos, k + 1, in_code)
    } else {
        let tick = next_backtick(text, pos);
        if k < spans.len() && (tick is None || spans[k].start < tick->0) {
            let span = spans[k];
            piece(pos, span.start as int, in_code) + seq![
                Segment { start: span.start, len: span.len, code: in_code, highlighted: true },
            ] + marked_segments(text, spans, span.start + span.len, k + 1, in_code)
        } else {
            match tick {
                None => piece(pos, end, in_code),
                Some(at) => {
                    proof {
                        lemma_next_backtick(text, pos);
                    }
                    let code_follows = !in_code && next_backtick(text, at + 1) is Some;
                    piece(pos, at, in_code) + marked_segments(text, spans, at + 1, k, code_follows)
                },
            }
        }
    }
}

/// Whether a highlighted segment is one of the spans.
pub open spec fn shows_span(segment: Segment, spans: Seq<Span>) -> bool {
    exists|k: int|
        0 <= k < spans.len() && #[trigger] spans[k] == (Span { start: segment.start, len: segment.len })
}

/// The segments from `pos` on lie behind `pos`, in order; none is empty;
/// the highlighted ones are spans.
pub proof fn lemma_marked_segments(text: Seq<u8>, spans: Seq<Span>, pos: int, k: int, in_code: bool)
    requires
        0 <= pos <= text.len() <= usize::MAX,
        0 <= k,
    ensures
        in_order(marked_segments(text, spans, pos, k, in_code), text.len() as int),
        forall|i: int|
            0 <= i < marked_segments(text, spans, pos, k, in_code).len() ==> is_sound(
                text,
                spans,
                #[trigger] marked_segments(text, spans, pos, k, in_code)[i],
                pos,
            ),
    decreases text.len() - pos, spans.len() - k,
{
    let end = text.len() as int;
    let all = marked_segments(text, spans, pos, k, in_code);
    if k < spans.len() && is_stale(spans[k], pos, end) {
        lemma_marked_segments(text, spans, pos, k + 1, in_code);
    } else {
        let tick = next_backtick(text, pos);
        lemma_next_backtick(text, pos);
        if k < spans.len() && (tick is None || spans[k].start < tick->0) {
            let span = spans[k];
            let next = span.start + span.len;
            lemma_marked_segments(text, spans, next, k + 1, in_code);
            let head = piece(pos, span.start as int, in_code) + seq![
                Segment { start: span.start, len: span.len, code: in_code, highlighted: true },
            ];
            let rest = marked_segments(text, spans, next, k + 1, in_code);
            assert(all == head + rest);
            lemma_join(text, head, rest, pos, next, end, spans);
        } else {
            match tick {
                None => {},
                Some(at) => {
                    let code_follows = !in_code && next_backtick(text, at + 1) is Some;
                    lemma_marked_segments(text, spans, at + 1, k, code_follows);
                    let head = piece(pos, at, in_code);
                    let rest = marked_segments(text, spans, at + 1, k, code_follows);
                    assert(all == head + rest);
                    lemma_join(text, head, rest, pos, at + 1, end, spans);
                },
            }
        }
    }
}

/// Whether a segment lies behind `pos`, is not empty, is a span if it is
/// highlighted, and holds no backtick if it is not.
pub open spec fn is_sound(text: Seq<u8>, spans: Seq<Span>, segment: Segment, pos: int) -> bool {
    &&& pos <= segment.start
    &&& segment.len > 0
    &&& segment.highlighted ==> shows_span(segment, spans)
    &&& !segment.highlighted ==> tick_free(text, segment)
}

/// Segments between `pos` and `mid`, followed by segments from `mid` on.
proof fn lemma_join(
    text: Seq<u8>,
    head: Seq<Segment>,
    rest: Seq<Segment>,
    pos: int,
    mid: int,
    end: int,
    spans: Seq<Span>,
)
    requires
        0 <= pos <= mid <= end,
        in_order(head, mid),
        in_order(rest, end),
        forall|i: int| 0 <= i < head.len() ==> is_sound(text, spans, #[trigger] head[i], pos),
        forall|i: int| 0 <= i < rest.len() ==> is_sound(text, spans, #[trigger] rest[i], mid),
    ensures
        in_order(head + rest, end),
        forall|i: int|
            0 <= i < (head + rest).len() ==> is_sound(text, spans, #[trigger] (head + rest)[i], pos),
{
    let all = head + rest;
    assert forall|i: int| 0 <= i < all.len() implies (#[trigger] all[i]).start + all[i].len <= end
        && is_sound(text, spans, all[i], pos) by {
        if i < head.len() {
            assert(all[i] == head[i]);
        } else {
            assert(all[i] == rest[i - head.len()]);
        }
    }
    assert forall|i: int, j: int| 0 <= i < j < all.len() implies (#[trigger] all[i]).start + all[i].len
        <= (#[trigger] all[j]).start by {
        if j < head.len() {
            assert(all[i] == head[i] && all[j] == head[j]);
        } else if i < head.len() {
            assert(all[i] == head[i] && all[j] == rest[j - head.len()]);
        } else {
            assert(all[i] == rest[i - head.len()] && all[j] == rest[j - head.len()]);
        }
    }
}

/// Cuts a text with inline code and matches into segments.
///
/// Inline code, between backticks, and the matches `spans` are taken as
/// they come; the backticks themselves are left out. A match in inline
/// code cuts the code in two. A span that overlaps the one before, or
/// ends behind the text, is passed over. No segment is empty.
pub fn view_text_with_matches(text: &str, spans: &[Span]) -> (segments: Vec<Segment>)
    ensures
        segments@ == marked_segments(bytes_of(text@), spans@, 0, 0, false),
        in_order(segments@, bytes_of(text@).len() as int),
        forall|i: int|
            0 <= i < segments@.len() ==> is_sound(bytes_of(text@), spans@, #[trigger] segments@[i], 0),
{
    let bytes = text.as_bytes();
    let end = bytes.len();
    let mut segments: Vec<Segment> = Vec::new();
    let mut pos: usize = 0;
    let mut k: usize = 0;
    let mut in_code = false;
    let ghost all = marked_segments(bytes@, spans@, 0, 0, false);
    proof {
        lemma_marked_segments(bytes@, spans@, 0, 0, false);
        assert(segments@ + all == all);
    }
    loop
        invariant
            0 <= pos <= end,
            end == bytes@.len(),
            0 <= k <= spans@.len(),
            bytes@ == bytes_of(text@),
            all == marked_segments(bytes@, spans@, 0, 0, false),
            in_order(all, end as int),
            forall|i: int| 0 <= i < all.len() ==> is_sound(bytes@, spans@, #[trigger] all[i], 0),
            all == segments@ + marked_segments(bytes@, spans@, pos as int, k as int, in_code),
        decreases end - pos, spans@.len() - k,
    {
        let ghost so_far = segments@;
        if k < spans.len() {
            let span = spans[k];
            if span.len == 0 || span.start < pos || span.start > end || span.len > end - span.start {
                k = k + 1;
                continue ;
            }
        }
        proof {
            lemma_next_backtick(bytes@, pos as int);
        }
        let tick = find_backtick(bytes, pos);
        let span_first = k < spans.len() && match tick {
            Some(at) => spans[k].start < at,
            None => true,
        };
        if span_first {
            let span = spans[k];
            let ghost before = piece(pos as int, span.start as int, in_code);
            let ghost shown = Segment { start: span.start, len: span.len, code: in_code, highlighted: true };
            let ghost rest = marked_segments(bytes@, spans@, span.start + span.len, k + 1, in_code);
            if span.start > pos {
                segments.push(
                    Segment { start: pos, len: span.start - pos, code: in_code, highlighted: false },
                );
            }
            segments.push(Segment { start: span.start, len: span.len, code: in_code, highlighted: true });
            proof {
                assert(segments@ == so_far + before + seq![shown]);
                assert(so_far + (before + seq![shown] + rest) == (so_far + before + seq![shown]) + rest);
            }
            pos = span.start + span.len;
            k = k + 1;
        } else {
            match tick {
                None => {
                    if end > pos {
                        segments.push(
                            Segment { start: pos, len: end - pos, code: in_code, highlighted: false },
                        );
                    }
                    proof {
                        assert(segments@ == so_far + piece(pos as int, end as int, in_code));
                        assert(segments@ == all);
                    }
                    return segments;
                },
                Some(at) => {
                    let ghost before = piece(pos as int, at as int, in_code);
                    if at > pos {
                        segments.push(
                            Segment { start: pos, len: at - pos, code: in_code, highlighted: false },
                        );
                    }
                    let code_follows = !in_code && find_backtick(bytes, at + 1).is_some();
                    proof {
                        let rest = marked_segments(bytes@, spans@, at + 1, k as int, code_follows);
                        assert(segments@ == so_far + before);
                        assert(so_far + (before + rest) == (so_far + before) + rest);
                    }
                    pos = at + 1;
                    in_code = code_follows;
                },
            }
        }
    }
}

/// The segments among `segments` that are not empty.
pub open spec fn non_empty(segments: Seq<Segment>) -> Seq<Segment> {
    segments.filter(|s: Segment| s.len > 0)
}

/// Of one segment the same one is left, or nothing.
proof fn lemma_non_empty_one(segment: Segment)
    ensures
        non_empty(seq![segment]) == (if segment.len > 0 {
            seq![segment]
        } else {
            Seq::empty()
        }),
{
    reveal_with_fuel(Seq::filter, 2);
    let keep = |s: Segment| s.len > 0;
    let one = seq![segment];
    assert(one.drop_last() =~= Seq::<Segment>::empty());
    assert(one.last() == segment);
    assert(one.filter(keep) =~= (if segment.len > 0 {
        seq![segment]
    } else {
        Seq::empty()
    }));
}

/// In inline code without matches, up to the backtick at `close`: the code
/// and what follows the backtick.
proof fn lemma_code_without_matches(text: Seq<u8>, pos: int, close: int)
    requires
        0 <= pos <= close < text.len() <= usize::MAX,
        next_backtick(text, pos) == Some(close),
    ensures
        marked_segments(text, Seq::empty(), pos, 0, true) == piece(pos, close, true) + marked_segments(
            text,
            Seq::empty(),
            close + 1,
            0,
            false,
        ),
{
}

/// Without matches the segments are those of `text_segments`, but for the
/// empty ones.
pub proof fn lemma_without_matches(text: Seq<u8>, pos: int)
    requires
        0 <= pos <= text.len() <= usize::MAX,
    ensures
        marked_segments(text, Seq::empty(), pos, 0, false) == non_empty(text_segments(text, pos)),
    decreases text.len() - pos,
{
    let end = text.len() as int;
    let none = Seq::<Span>::empty();
    let keep = |s: Segment| s.len > 0;
    lemma_next_backtick(text, pos);
    match next_backtick(text, pos) {
        None => {
            lemma_non_empty_one(plain(pos, end));
        },
        Some(open) => {
            let before = if open != pos {
                seq![plain(pos, open)]
            } else {
                Seq::empty()
            };
            assert(non_empty(before) == piece(pos, open, false)) by {
                if open != pos {
                    lemma_non_empty_one(plain(pos, open));
                } else {
                    assert(before.filter(keep) =~= Seq::<Segment>::empty()) by {
                        reveal_with_fuel(Seq::filter, 1);
                    }
                }
            }
            lemma_next_backtick(text, open + 1);
            match next_backtick(text, open + 1) {
                None => {
                    lemma_without_matches(text, open + 1);
                    Seq::filter_distributes_over_add(before, seq![plain(open + 1, end)], keep);
                },
                Some(close) => {
                    lemma_code_without_matches(text, open + 1, close);
                    lemma_without_matches(text, close + 1);
                    lemma_non_empty_one(code(open + 1, close));
                    let rest = text_segments(text, close + 1);
                    Seq::filter_distributes_over_add(before, seq![code(open + 1, close)], keep);
                    Seq::filter_distributes_over_add(before + seq![code(open + 1, close)], rest, keep);
                    assert(piece(pos, open, false) + (piece(open + 1, close, true) + non_empty(rest))
                        == (piece(pos, open, false) + piece(open + 1, close, true)) + non_empty(rest));
                },
            }
        },
    }
}

/// What the segments show of `text`: the bytes of each, one after the
/// other.
pub open spec fn shown(text: Seq<u8>, segments: Seq<Segment>) -> Seq<u8>
    decreases segments.len(),
{
    if segments.len() == 0 {
        Seq::empty()
    } else {
        let last = segments.last();
        shown(text, segments.drop_last()) + text.subrange(last.start as int, last.start + last.len)
    }
}

/// The bytes of `text` but for the backticks.
pub open spec fn without_backticks(text: Seq<u8>) -> Seq<u8> {
    text.filter(|b: u8| b != BACKTICK)
}

/// What segments show, one list after the other.
proof fn lemma_shown_add(text: Seq<u8>, a: Seq<Segment>, b: Seq<Segment>)
    ensures
        shown(text, a + b) == shown(text, a) + shown(text, b),
    decreases b.len(),
{
    if b.len() == 0 {
        assert(a + b =~= a);
        assert(shown(text, a) + shown(text, b) =~= shown(text, a));
    } else {
        lemma_shown_add(text, a, b.drop_last());
        assert((a + b).drop_last() =~= a + b.drop_last());
        assert((a + b).last() == b.last());
        let piece = text.subrange(b.last().start as int, b.last().start + b.last().len);
        assert((shown(text, a) + shown(text, b.drop_last())) + piece =~= shown(text, a) + (shown(
            text,
            b.drop_last(),
        ) + piece));
    }
}

/// What one segment shows.
proof fn lemma_shown_one(text: Seq<u8>, segment: Segment)
    ensures
        shown(text, seq![segment]) == text.subrange(
            segment.start as int,
            segment.start + segment.len,
        ),
{
    let one = seq![segment];
    assert(one.drop_last() =~= Seq::<Segment>::empty());
    assert(one.last() == segment);
    assert(shown(text, one.drop_last()) =~= Seq::<u8>::empty());
    assert(Seq::<u8>::empty() + text.subrange(segment.start as int, segment.start + segment.len)
        =~= text.subrange(segment.start as int, segment.start + segment.len));
}

/// A stretch without backticks stays as it is.
proof fn lemma_nothing_to_leave_out(bytes: Seq<u8>)
    requires
        forall|j: int| 0 <= j < bytes.len() ==> bytes[j] != BACKTICK,
    ensures
        without_backticks(bytes) == bytes,
    decreases bytes.len(),
{
    reveal_with_fuel(Seq::filter, 1);
    if bytes.len() > 0 {
        lemma_nothing_to_leave_out(bytes.drop_last());
        assert(bytes.drop_last().push(bytes.last()) =~= bytes);
    }
}

/// Of a stretch that ends in a backtick, the backtick is left out.
proof fn lemma_leave_out_last(bytes: Seq<u8>)
    requires
        bytes.len() > 0,
        bytes.last() == BACKTICK,
        forall|j: int| 0 <= j < bytes.len() - 1 ==> bytes[j] != BACKTICK,
    ensures
        without_backticks(bytes) == bytes.drop_last(),
{
    reveal_with_fuel(Seq::filter, 1);
    lemma_nothing_to_leave_out(bytes.drop_last());
}

/// Up to a backtick nothing is left out; the backtick is.
proof fn lemma_cut_at_backtick(text: Seq<u8>, from: int, at: int)
    requires
        0 <= from <= at < text.len(),
        text[at] == BACKTICK,
        forall|j: int| from <= j < at ==> text[j] != BACKTICK,
    ensures
        without_backticks(text.skip(from)) == text.subrange(from, at) + without_backticks(
            text.skip(at + 1),
        ),
{
    let keep = |b: u8| b != BACKTICK;
    let head = text.subrange(from, at + 1);
    lemma_leave_out_last(head);
    assert(head.drop_last() =~= text.subrange(from, at));
    assert(text.skip(from) =~= head + text.skip(at + 1));
    Seq::filter_distributes_over_add(head, text.skip(at + 1), keep);
}

/// What is shown of a text without backticks from `from` on, as one
/// segment: all of it.
proof fn lemma_show_rest(text: Seq<u8>, from: int)
    requires
        0 <= from <= text.len() <= usize::MAX,
        forall|j: int| from <= j < text.len() ==> text[j] != BACKTICK,
    ensures
        shown(text, seq![plain(from, text.len() as int)]) == without_backticks(text.skip(from)),
{
    lemma_shown_one(text, plain(from, text.len() as int));
    assert(text.subrange(from, text.len() as int) =~= text.skip(from));
    lemma_nothing_to_leave_out(text.skip(from));
}

/// What is shown of the text before a backtick at `open`.
proof fn lemma_show_before(text: Seq<u8>, from: int, open: int)
    requires
        0 <= from <= open <= text.len() <= usize::MAX,
    ensures
        shown(text, if open != from {
            seq![plain(from, open)]
        } else {
            Seq::empty()
        }) == text.subrange(from, open),
{
    if open != from {
        lemma_shown_one(text, plain(from, open));
    } else {
        assert(text.subrange(from, open) =~= Seq::<u8>::empty());
    }
}

/// The segments show the text without its backticks: every byte that is no
/// backtick is shown once, in its place, and no backtick is shown.
pub proof fn lemma_segments_show_the_text(text: Seq<u8>, from: int)
    requires
        0 <= from <= text.len() <= usize::MAX,
    ensures
        shown(text, text_segments(text, from)) == without_backticks(text.skip(from)),
    decreases text.len() - from,
{
    let end = text.len() as int;
    lemma_next_backtick(text, from);
    match next_backtick(text, from) {
        None => {
            lemma_show_rest(text, from);
        },
        Some(open) => {
            let before = if open != from {
                seq![plain(from, open)]
            } else {
                Seq::empty()
            };
            lemma_show_before(text, from, open);
            lemma_cut_at_backtick(text, from, open);
            lemma_next_backtick(text, open + 1);
            match next_backtick(text, open + 1) {
                None => {
                    let last = seq![plain(open + 1, end)];
                    assert(text_segments(text, from) == before + last);
                    lemma_shown_add(text, before, last);
                    lemma_show_rest(text, open + 1);
                },
                Some(close) => {
                    let inside = seq![code(open + 1, close)];
                    let rest = text_segments(text, close + 1);
                    assert(text_segments(text, from) == before + inside + rest);
                    lemma_segments_show_the_text(text, close + 1);
                    lemma_shown_add(text, before + inside, rest);
                    lemma_shown_add(text, before, inside);
                    lemma_shown_one(text, code(open + 1, close));
                    lemma_cut_at_backtick(text, open + 1, close);
                    let a = text.subrange(from, open);
                    let b = text.subrange(open + 1, close);
                    let c = without_backticks(text.skip(close + 1));
                    assert((a + b) + c =~= a + (b + c));
                },
            }
        },
    }
}

/// Whether no span that lies within the text holds a backtick. The matches
/// of terms without backticks are such spans.
pub open spec fn spans_are_tick_free(text: Seq<u8>, spans: Seq<Span>) -> bool {
    forall|k: int, j: int|
        0 <= k < spans.len() && (#[trigger] spans[k]).start <= j < spans[k].start + spans[k].len
            <= text.len() ==> #[trigger] text[j] != BACKTICK
}

/// Of a stretch without backticks nothing is left out.
proof fn lemma_cut_behind(text: Seq<u8>, from: int, to: int)
    requires
        0 <= from <= to <= text.len(),
        forall|j: int| from <= j < to ==> text[j] != BACKTICK,
    ensures
        without_backticks(text.skip(from)) == text.subrange(from, to) + without_backticks(
            text.skip(to),
        ),
{
    let keep = |b: u8| b != BACKTICK;
    let head = text.subrange(from, to);
    lemma_nothing_to_leave_out(head);
    assert(text.skip(from) =~= head + text.skip(to));
    Seq::filter_distributes_over_add(head, text.skip(to), keep);
}

/// What a piece shows.
proof fn lemma_show_piece(text: Seq<u8>, start: int, end: int, in_code: bool)
    requires
        0 <= start <= end <= text.len() <= usize::MAX,
    ensures
        shown(text, piece(start, end, in_code)) == text.subrange(start, end),
{
    if end > start {
        lemma_shown_one(
            text,
            Segment { start: start as usize, len: (end - start) as usize, code: in_code, highlighted: false },
        );
    } else {
        assert(text.subrange(start, end) =~= Seq::<u8>::empty());
    }
}

/// With matches that hold no backtick, the segments show the text without
/// its backticks: every byte that is no backtick is shown once, in its
/// place, and no backtick is shown.
pub proof fn lemma_marked_segments_show_the_text(
    text: Seq<u8>,
    spans: Seq<Span>,
    pos: int,
    k: int,
    in_code: bool,
)
    requires
        0 <= pos <= text.len() <= usize::MAX,
        0 <= k,
        spans_are_tick_free(text, spans),
    ensures
        shown(text, marked_segments(text, spans, pos, k, in_code)) == without_backticks(text.skip(pos)),
    decreases text.len() - pos, spans.len() - k,
{
    let end = text.len() as int;
    if k < spans.len() && is_stale(spans[k], pos, end) {
        lemma_marked_segments_show_the_text(text, spans, pos, k + 1, in_code);
    } else {
        let tick = next_backtick(text, pos);
        lemma_next_backtick(text, pos);
        if k < spans.len() && (tick is None || spans[k].start < tick->0) {
            let span = spans[k];
            let next = span.start + span.len;
            let before = piece(pos, span.start as int, in_code);
            let hit = seq![Segment { start: span.start, len: span.len, code: in_code, highlighted: true }];
            let rest = marked_segments(text, spans, next, k + 1, in_code);
            assert(marked_segments(text, spans, pos, k, in_code) == before + hit + rest);
            lemma_marked_segments_show_the_text(text, spans, next, k + 1, in_code);
            lemma_shown_add(text, before + hit, rest);
            lemma_shown_add(text, before, hit);
            lemma_show_piece(text, pos, span.start as int, in_code);
            lemma_shown_one(text, hit[0]);
            assert(text.subrange(pos, span.start as int) + text.subrange(span.start as int, next)
                =~= text.subrange(pos, next));
            lemma_cut_behind(text, pos, next);
        } else {
            match tick {
                None => {
                    lemma_show_piece(text, pos, end, in_code);
                    lemma_cut_behind(text, pos, end);
                    assert(without_backticks(text.skip(end)) =~= Seq::<u8>::empty()) by {
                        lemma_nothing_to_leave_out(text.skip(end));
                    }
                    assert(text.subrange(pos, end) + Seq::<u8>::empty() =~= text.subrange(pos, end));
                },
                Some(at) => {
                    let code_follows = !in_code && next_backtick(text, at + 1) is Some;
                    let before = piece(pos, at, in_code);
                    let rest = marked_segments(text, spans, at + 1, k, code_follows);
                    assert(marked_segments(text, spans, pos, k, in_code) == before + rest);
                    lemma_marked_segments_show_the_text(text, spans, at + 1, k, code_follows);
                    lemma_shown_add(text, before, rest);
                    lemma_show_piece(text, pos, at, in_code);
                    lemma_cut_at_backtick(text, pos, at);
                },
            }
        }
    }
}

/// The matches of terms without backticks hold no backtick.
pub proof fn lemma_matches_are_tick_free(text: Seq<u8>, terms: Seq<Seq<u8>>, spans: Seq<Span>)
    requires
        text.len() <= usize::MAX,
        is_matches(text, terms, spans),
        forall|t: int| 0 <= t < terms.len() ==> !(#[trigger] terms[t]).contains(BACKTICK),
    ensures
        spans_are_tick_free(text, spans),
{
    broadcast use vstd::seq_lib::group_to_multiset_ensures;

    assert forall|k: int, j: int|
        0 <= k < spans.len() && (#[trigger] spans[k]).start <= j < spans[k].start + spans[k].len
            <= text.len() implies #[trigger] text[j] != BACKTICK by {
        let span = spans[k];
        let found = all_spans(text, terms);
        assert(spans.contains(span));
        assert(found.to_multiset().count(span) > 0);
        assert(found.contains(span));
        let i = choose|i: int| 0 <= i < found.len() && found[i] == span;
        lemma_all_spans_within(text, terms, i);
        let t = choose|t: int|
            0 <= t < terms.len() && span.len == (#[trigger] terms[t]).len() && occurs_at(
                text,
                terms[t],
                span.start as int,
            );
        let term = terms[t];
        assert(text.subrange(span.start as int, span.start + span.len)[j - span.start] == text[j]);
        assert(term.contains(term[j - span.start]));
    }
}

} // verus!
