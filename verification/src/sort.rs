//! Sorting keys by their bytes without moving them: a merge sort over
//! indices, with the earlier index first among equal keys.

use vstd::prelude::*;
use crate::lex::{lex_lt, bytes_less, bytes_equal, lemma_lex_total, lemma_lex_transitive};

verus! {

/// The byte strings that a list of buffers holds.
pub open spec fn views(keys: Seq<Vec<u8>>) -> Seq<Seq<u8>> {
    Seq::new(keys.len(), |i: int| keys[i]@)
}

/// Key `i` is sorted before key `j`.
pub open spec fn key_before(keys: Seq<Seq<u8>>, i: int, j: int) -> bool {
    lex_lt(keys[i], keys[j]) || (keys[i] == keys[j] && i < j)
}

/// `order` lists indices into `keys`, each before all that follow it.
pub open spec fn sorted(keys: Seq<Seq<u8>>, order: Seq<usize>) -> bool {
    &&& forall|k: int| 0 <= k < order.len() ==> 0 <= #[trigger] order[k] < keys.len()
    &&& forall|k1: int, k2: int|
        0 <= k1 < k2 < order.len() ==> key_before(
            keys,
            #[trigger] order[k1] as int,
            #[trigger] order[k2] as int,
        )
}

pub proof fn lemma_key_before_transitive(keys: Seq<Seq<u8>>, i: int, j: int, k: int)
    requires
        key_before(keys, i, j),
        key_before(keys, j, k),
    ensures
        key_before(keys, i, k),
{
    lemma_lex_total(keys[i], keys[j]);
    lemma_lex_total(keys[j], keys[k]);
    if lex_lt(keys[i], keys[j]) && lex_lt(keys[j], keys[k]) {
        lemma_lex_transitive(keys[i], keys[j], keys[k]);
    }
}

pub proof fn lemma_key_before_total(keys: Seq<Seq<u8>>, i: int, j: int)
    ensures
        i == j || key_before(keys, i, j) || key_before(keys, j, i),
        !(key_before(keys, i, j) && key_before(keys, j, i)),
{
    lemma_lex_total(keys[i], keys[j]);
}

/// A sorted list names no index twice.
pub proof fn lemma_sorted_distinct(keys: Seq<Seq<u8>>, order: Seq<usize>, k1: int, k2: int)
    requires
        sorted(keys, order),
        0 <= k1 < order.len(),
        0 <= k2 < order.len(),
        order[k1] == order[k2],
    ensures
        k1 == k2,
{
    lemma_key_before_total(keys, order[k1] as int, order[k1] as int);
}

fn index_before(keys: &Vec<Vec<u8>>, i: usize, j: usize) -> (r: bool)
    requires
        i < keys@.len(),
        j < keys@.len(),
    ensures
        r == key_before(views(keys@), i as int, j as int),
{
    let a = keys[i].as_slice();
    let b = keys[j].as_slice();
    if bytes_less(a, b) {
        true
    } else {
        i < j && bytes_equal(a, b)
    }
}

fn merge(keys: &Vec<Vec<u8>>, left: &Vec<usize>, right: &Vec<usize>) -> (out: Vec<usize>)
    requires
        sorted(views(keys@), left@),
        sorted(views(keys@), right@),
        forall|x: int, y: int|
            0 <= x < left@.len() && 0 <= y < right@.len() ==> left@[x] != right@[y],
    ensures
        sorted(views(keys@), out@),
        out@.len() == left@.len() + right@.len(),
        forall|k: int|
            0 <= k < out@.len() ==> left@.contains(#[trigger] out@[k]) || right@.contains(out@[k]),
        forall|x: int| 0 <= x < left@.len() ==> out@.contains(#[trigger] left@[x]),
        forall|y: int| 0 <= y < right@.len() ==> out@.contains(#[trigger] right@[y]),
{
    let ghost s = views(keys@);
    let mut out: Vec<usize> = Vec::new();
    let mut i: usize = 0;
    let mut j: usize = 0;
    while i < left.len() || j < right.len()
        invariant
            s == views(keys@),
            sorted(s, left@),
            sorted(s, right@),
            forall|x: int, y: int|
                0 <= x < left@.len() && 0 <= y < right@.len() ==> left@[x] != right@[y],
            i <= left@.len(),
            j <= right@.len(),
            out@.len() == i + j,
            sorted(s, out@),
            forall|k: int|
                0 <= k < out@.len() && i < left@.len() ==> key_before(
                    s,
                    #[trigger] out@[k] as int,
                    left@[i as int] as int,
                ),
            forall|k: int|
                0 <= k < out@.len() && j < right@.len() ==> key_before(
                    s,
                    #[trigger] out@[k] as int,
                    right@[j as int] as int,
                ),
            forall|k: int|
                0 <= k < out@.len() ==> left@.contains(#[trigger] out@[k]) || right@.contains(
                    out@[k],
                ),
            forall|x: int| 0 <= x < i ==> out@.contains(#[trigger] left@[x]),
            forall|y: int| 0 <= y < j ==> out@.contains(#[trigger] right@[y]),
        decreases left@.len() + right@.len() - i - j,
    {
        let ghost prev = out@;
        let take_left = if j >= right.len() {
            true
        } else if i >= left.len() {
            false
        } else {
            index_before(keys, left[i], right[j])
        };
        if take_left {
            let x = left[i];
            out.push(x);
            proof {
                assert(left@.contains(x));
                assert forall|k: int| 0 <= k < out@.len() && i + 1 < left@.len() implies key_before(
                    s,
                    #[trigger] out@[k] as int,
                    left@[i + 1] as int,
                ) by {
                    if k < prev.len() {
                        assert(out@[k] == prev[k]);
                        lemma_key_before_transitive(
                            s,
                            prev[k] as int,
                            left@[i as int] as int,
                            left@[i + 1] as int,
                        );
                    }
                }
                assert forall|k: int| 0 <= k < out@.len() && j < right@.len() implies key_before(
                    s,
                    #[trigger] out@[k] as int,
                    right@[j as int] as int,
                ) by {
                    if k < prev.len() {
                        assert(out@[k] == prev[k]);
                    }
                }
                assert forall|x2: int| 0 <= x2 < i + 1 implies out@.contains(
                    #[trigger] left@[x2],
                ) by {
                    if x2 < i {
                        let k = choose|k: int| 0 <= k < prev.len() && prev[k] == left@[x2];
                        assert(out@[k] == left@[x2]);
                    } else {
                        assert(out@[prev.len() as int] == left@[x2]);
                    }
                }
                assert forall|y: int| 0 <= y < j implies out@.contains(#[trigger] right@[y]) by {
                    let k = choose|k: int| 0 <= k < prev.len() && prev[k] == right@[y];
                    assert(out@[k] == right@[y]);
                }
                assert forall|k: int| 0 <= k < out@.len() implies left@.contains(
                    #[trigger] out@[k],
                ) || right@.contains(out@[k]) by {
                    if k < prev.len() {
                        assert(out@[k] == prev[k]);
                    }
                }
                assert forall|k1: int, k2: int| 0 <= k1 < k2 < out@.len() implies key_before(
                    s,
                    #[trigger] out@[k1] as int,
                    #[trigger] out@[k2] as int,
                ) by {
                    assert(out@[k1] == prev[k1]);
                    if k2 < prev.len() {
                        assert(out@[k2] == prev[k2]);
                    }
                }
            }
            i = i + 1;
        } else {
            let y = right[j];
            out.push(y);
            proof {
                assert(right@.contains(y));
                if i < left@.len() {
                    lemma_key_before_total(s, left@[i as int] as int, y as int);
                }
                assert forall|k: int|
                    0 <= k < out@.len() && j + 1 < right@.len() implies key_before(
                    s,
                    #[trigger] out@[k] as int,
                    right@[j + 1] as int,
                ) by {
                    if k < prev.len() {
                        assert(out@[k] == prev[k]);
                        lemma_key_before_transitive(
                            s,
                            prev[k] as int,
                            right@[j as int] as int,
                            right@[j + 1] as int,
                        );
                    }
                }
                assert forall|k: int| 0 <= k < out@.len() && i < left@.len() implies key_before(
                    s,
                    #[trigger] out@[k] as int,
                    left@[i as int] as int,
                ) by {
                    if k < prev.len() {
                        assert(out@[k] == prev[k]);
                    }
                }
                assert forall|x: int| 0 <= x < i implies out@.contains(#[trigger] left@[x]) by {
                    let k = choose|k: int| 0 <= k < prev.len() && prev[k] == left@[x];
                    assert(out@[k] == left@[x]);
                }
                assert forall|y2: int| 0 <= y2 < j + 1 implies out@.contains(
                    #[trigger] right@[y2],
                ) by {
                    if y2 < j {
                        let k = choose|k: int| 0 <= k < prev.len() && prev[k] == right@[y2];
                        assert(out@[k] == right@[y2]);
                    } else {
                        assert(out@[prev.len() as int] == right@[y2]);
                    }
                }
                assert forall|k: int| 0 <= k < out@.len() implies left@.contains(
                    #[trigger] out@[k],
                ) || right@.contains(out@[k]) by {
                    if k < prev.len() {
                        assert(out@[k] == prev[k]);
                    }
                }
                assert forall|k1: int, k2: int| 0 <= k1 < k2 < out@.len() implies key_before(
                    s,
                    #[trigger] out@[k1] as int,
                    #[trigger] out@[k2] as int,
                ) by {
                    assert(out@[k1] == prev[k1]);
                    if k2 < prev.len() {
                        assert(out@[k2] == prev[k2]);
                    }
                }
            }
            j = j + 1;
        }
    }
    out
}

fn sort_range(keys: &Vec<Vec<u8>>, lo: usize, hi: usize) -> (out: Vec<usize>)
    requires
        lo <= hi <= keys@.len(),
    ensures
        sorted(views(keys@), out@),
        out@.len() == hi - lo,
        forall|k: int| 0 <= k < out@.len() ==> lo <= #[trigger] out@[k] < hi,
        forall|i: usize| lo <= i < hi ==> out@.contains(i),
    decreases hi - lo,
{
    if hi - lo == 0 {
        return Vec::new();
    }
    if hi - lo == 1 {
        let mut out: Vec<usize> = Vec::new();
        out.push(lo);
        proof {
            assert(out@[0] == lo);
        }
        return out;
    }
    let mid = lo + (hi - lo) / 2;
    let left = sort_range(keys, lo, mid);
    let right = sort_range(keys, mid, hi);
    let out = merge(keys, &left, &right);
    proof {
        assert forall|k: int| 0 <= k < out@.len() implies lo <= #[trigger] out@[k] < hi by {
            if left@.contains(out@[k]) {
                let x = choose|x: int| 0 <= x < left@.len() && left@[x] == out@[k];
                assert(lo <= left@[x] < mid);
            } else {
                let y = choose|y: int| 0 <= y < right@.len() && right@[y] == out@[k];
                assert(mid <= right@[y] < hi);
            }
        }
        assert forall|i: usize| lo <= i < hi implies out@.contains(i) by {
            if i < mid {
                assert(left@.contains(i));
                let x = choose|x: int| 0 <= x < left@.len() && left@[x] == i;
                assert(out@.contains(left@[x]));
            } else {
                assert(right@.contains(i));
                let y = choose|y: int| 0 <= y < right@.len() && right@[y] == i;
                assert(out@.contains(right@[y]));
            }
        }
    }
    out
}

/// The indices of `keys` in sorted order: by bytes, and by index among
/// equal keys.
pub fn sort_keys(keys: &Vec<Vec<u8>>) -> (order: Vec<usize>)
    ensures
        sorted(views(keys@), order@),
        order@.len() == keys@.len(),
        forall|i: usize| i < keys@.len() ==> order@.contains(i),
{
    sort_range(keys, 0, keys.len())
}

} // verus!
