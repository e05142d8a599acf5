//! A merge sort of triples of numbers.

use vstd::prelude::*;
use vstd::relations::{sorted_by, total_ordering};

verus! {

broadcast use {vstd::seq_lib::group_to_multiset_ensures, vstd::multiset::group_multiset_axioms};

/// The order of triples: by the first number, then by the second, then by
/// the third.
pub open spec fn key_le(a: (u64, u64, u64), b: (u64, u64, u64)) -> bool {
    a.0 < b.0 || (a.0 == b.0 && (a.1 < b.1 || (a.1 == b.1 && a.2 <= b.2)))
}

/// `key_le` as a relation.
pub open spec fn key_order() -> spec_fn((u64, u64, u64), (u64, u64, u64)) -> bool {
    |a: (u64, u64, u64), b: (u64, u64, u64)| key_le(a, b)
}

/// Whether `keys` ascends in the order of triples.
pub open spec fn sorted(keys: Seq<(u64, u64, u64)>) -> bool {
    sorted_by(keys, key_order())
}

/// The order of triples is total.
pub proof fn lemma_key_order_total()
    ensures
        total_ordering(key_order()),
{
    let r = key_order();
    assert forall|x: (u64, u64, u64), y: (u64, u64, u64)| #[trigger] r(x, y) && #[trigger] r(y, x) implies x
        == y by {}
}

/// There is one way only to put given triples in order.
pub proof fn lemma_sorted_is_unique(a: Seq<(u64, u64, u64)>, b: Seq<(u64, u64, u64)>)
    requires
        sorted(a),
        sorted(b),
        a.to_multiset() == b.to_multiset(),
    ensures
        a == b,
{
    lemma_key_order_total();
    vstd::seq_lib::lemma_sorted_unique(a, b, key_order());
}

fn key_less_eq(a: &(u64, u64, u64), b: &(u64, u64, u64)) -> (r: bool)
    ensures
        r == key_le(*a, *b),
{
    a.0 < b.0 || (a.0 == b.0 && (a.1 < b.1 || (a.1 == b.1 && a.2 <= b.2)))
}

/// Merges two ascending lists into one.
fn merge(a: &Vec<(u64, u64, u64)>, b: &Vec<(u64, u64, u64)>) -> (out: Vec<(u64, u64, u64)>)
    requires
        sorted(a@),
        sorted(b@),
    ensures
        sorted(out@),
        out@.to_multiset() == a@.to_multiset().add(b@.to_multiset()),
{
    let mut out: Vec<(u64, u64, u64)> = Vec::new();
    let mut i: usize = 0;
    let mut j: usize = 0;
    proof {
        assert(a@.take(0) == Seq::<(u64, u64, u64)>::empty());
        assert(b@.take(0) == Seq::<(u64, u64, u64)>::empty());
        assert(out@.to_multiset() =~= a@.take(0).to_multiset().add(b@.take(0).to_multiset()));
    }
    while i < a.len() || j < b.len()
        invariant
            0 <= i <= a@.len(),
            0 <= j <= b@.len(),
            sorted(a@),
            sorted(b@),
            sorted(out@),
            out@.to_multiset() == a@.take(i as int).to_multiset().add(b@.take(j as int).to_multiset()),
            forall|k: int| 0 <= k < out@.len() && i < a@.len() ==> key_le(#[trigger] out@[k], a@[i as int]),
            forall|k: int| 0 <= k < out@.len() && j < b@.len() ==> key_le(#[trigger] out@[k], b@[j as int]),
        decreases a@.len() - i + b@.len() - j,
    {
        let ghost prev = out@;
        let take_left = if i >= a.len() {
            false
        } else if j >= b.len() {
            true
        } else {
            key_less_eq(&a[i], &b[j])
        };
        if take_left {
            let x = a[i];
            out.push(x);
            proof {
                assert(a@.take(i + 1) == a@.take(i as int).push(x));
                assert(out@.to_multiset() =~= a@.take(i + 1).to_multiset().add(
                    b@.take(j as int).to_multiset(),
                ));
                assert forall|p: int, q: int| 0 <= p < q < out@.len() implies #[trigger] key_order()(
                    out@[p],
                    out@[q],
                ) by {
                    if q < prev.len() {
                        assert(key_order()(prev[p], prev[q]));
                    } else {
                        assert(key_le(prev[p], x));
                    }
                }
                if i + 1 < a@.len() {
                    assert(key_order()(a@[i as int], a@[i + 1]));
                }
            }
            i = i + 1;
        } else {
            let x = b[j];
            out.push(x);
            proof {
                assert(b@.take(j + 1) == b@.take(j as int).push(x));
                assert(out@.to_multiset() =~= a@.take(i as int).to_multiset().add(
                    b@.take(j + 1).to_multiset(),
                ));
                assert forall|p: int, q: int| 0 <= p < q < out@.len() implies #[trigger] key_order()(
                    out@[p],
                    out@[q],
                ) by {
                    if q < prev.len() {
                        assert(key_order()(prev[p], prev[q]));
                    } else {
                        assert(key_le(prev[p], x));
                    }
                }
                if j + 1 < b@.len() {
                    assert(key_order()(b@[j as int], b@[j + 1]));
                }
            }
            j = j + 1;
        }
    }
    proof {
        assert(a@.take(i as int) == a@);
        assert(b@.take(j as int) == b@);
    }
    out
}

/// The triples `keys[lo..hi]` in ascending order.
fn sort_range(keys: &Vec<(u64, u64, u64)>, lo: usize, hi: usize) -> (out: Vec<(u64, u64, u64)>)
    requires
        lo <= hi <= keys@.len(),
    ensures
        sorted(out@),
        out@.to_multiset() == keys@.subrange(lo as int, hi as int).to_multiset(),
    decreases hi - lo,
{
    if hi - lo == 0 {
        let out: Vec<(u64, u64, u64)> = Vec::new();
        proof {
            assert(keys@.subrange(lo as int, hi as int) == out@);
        }
        out
    } else if hi - lo == 1 {
        let mut out: Vec<(u64, u64, u64)> = Vec::new();
        out.push(keys[lo]);
        proof {
            assert(keys@.subrange(lo as int, hi as int) == out@);
        }
        out
    } else {
        let mid = lo + (hi - lo) / 2;
        let left = sort_range(keys, lo, mid);
        let right = sort_range(keys, mid, hi);
        proof {
            assert(keys@.subrange(lo as int, hi as int) == keys@.subrange(lo as int, mid as int)
                + keys@.subrange(mid as int, hi as int));
            vstd::seq_lib::lemma_multiset_commutative(
                keys@.subrange(lo as int, mid as int),
                keys@.subrange(mid as int, hi as int),
            );
        }
        merge(&left, &right)
    }
}

/// Puts `keys` in ascending order: by the first number, then by the second,
/// then by the third.
pub fn sort_keys(keys: &mut Vec<(u64, u64, u64)>)
    ensures
        sorted(final(keys)@),
        final(keys)@.to_multiset() == old(keys)@.to_multiset(),
{
    let out = sort_range(keys, 0, keys.len());
    proof {
        assert(keys@.subrange(0, keys@.len() as int) == keys@);
    }
    *keys = out;
}

} // verus!
