//! N-grams: which bytes are indexed, what it means for a text to hold an
//! n-gram, and the number under which an n-gram is filed.

use vstd::prelude::*;

verus! {

/// Whether a byte may stand in an indexed n-gram: printable ASCII without
/// the space and without the backtick.
pub open spec fn is_indexable_byte(b: u8) -> bool {
    0x21 <= b <= 0x7e && b != 0x60
}

/// Whether every byte of `gram` may stand in an indexed n-gram.
pub open spec fn is_indexable(gram: Seq<u8>) -> bool {
    forall|i: int| 0 <= i < gram.len() ==> is_indexable_byte(#[trigger] gram[i])
}

/// Whether `pat` stands in `text` at byte offset `at`.
pub open spec fn occurs_at(text: Seq<u8>, pat: Seq<u8>, at: int) -> bool {
    &&& 0 <= at
    &&& at + pat.len() <= text.len()
    &&& text.subrange(at, at + pat.len()) == pat
}

/// Whether `pat` stands somewhere in `text`.
pub open spec fn occurs_in(text: Seq<u8>, pat: Seq<u8>) -> bool {
    exists|at: int| occurs_at(text, pat, at)
}

/// Whether `text` holds `gram` as an indexed n-gram: `gram` has up to three
/// bytes, all of them indexable, and stands somewhere in `text`.
pub open spec fn text_has_ngram(text: Seq<u8>, gram: Seq<u8>) -> bool {
    &&& 1 <= gram.len() <= 3
    &&& is_indexable(gram)
    &&& occurs_in(text, gram)
}

/// The number of windows of `width` bytes in a text of `len` bytes.
pub open spec fn window_count(len: int, width: int) -> int {
    if len >= width {
        len - width + 1
    } else {
        0
    }
}

/// The number under which an n-gram of up to three bytes is filed: its bytes
/// read as a little-endian number.
pub open spec fn gram_key(gram: Seq<u8>) -> int {
    if gram.len() == 1 {
        gram[0] as int
    } else if gram.len() == 2 {
        gram[0] as int + 256 * gram[1] as int
    } else {
        gram[0] as int + 256 * gram[1] as int + 65536 * gram[2] as int
    }
}

/// Two n-grams of one width that are filed under the same number are equal.
pub proof fn lemma_gram_key_injective(a: Seq<u8>, b: Seq<u8>)
    requires
        1 <= a.len() <= 3,
        a.len() == b.len(),
        gram_key(a) == gram_key(b),
    ensures
        a == b,
{
    assert(a =~= b);
}

/// Whether a byte may stand in an indexed n-gram.
pub fn byte_is_indexable(b: u8) -> (r: bool)
    ensures
        r == is_indexable_byte(b),
{
    0x21 <= b && b <= 0x7e && b != 0x60
}

/// Files the window of `width` bytes that starts at `at`, if all its bytes are
/// indexable.
pub fn window_key(text: &[u8], at: usize, width: usize) -> (key: Option<u32>)
    requires
        1 <= width <= 3,
        at + width <= text@.len(),
    ensures
        key is Some <==> is_indexable(text@.subrange(at as int, at + width)),
        key is Some ==> key->0 == gram_key(text@.subrange(at as int, at + width)),
{
    let ghost gram = text@.subrange(at as int, at + width);
    let len = text.len();
    let mut key: u32 = 0;
    let mut scale: u32 = 1;
    let mut i: usize = 0;
    while i < width
        invariant
            1 <= width <= 3,
            at + width <= text@.len(),
            len == text@.len(),
            gram == text@.subrange(at as int, at + width),
            0 <= i <= width,
            forall|j: int| 0 <= j < i ==> is_indexable_byte(#[trigger] gram[j]),
            i == 0 ==> scale == 1 && key == 0,
            i == 1 ==> scale == 256 && key == gram[0],
            i == 2 ==> scale == 65536 && key == gram[0] + 256 * gram[1],
            i == 3 ==> key == gram[0] + 256 * gram[1] + 65536 * gram[2],
        decreases width - i,
    {
        let b = text[at + i];
        assert(b == gram[i as int]);
        if !byte_is_indexable(b) {
            return None;
        }
        key = key + scale * (b as u32);
        if i < 2 {
            scale = scale * 256;
        }
        i = i + 1;
    }
    Some(key)
}

} // verus!
