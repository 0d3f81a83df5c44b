//! Sorting the positions of a list of keys.
//!
//! The sort does not move the keys: it returns the positions `0..n` arranged
//! so that the keys they point at ascend, equal keys keeping the order in
//! which they were given.

use crate::bytes::{bytes_lt, lemma_lt_total, lemma_lt_transitive, rank, rank_of, Rank};
use vstd::prelude::*;

verus! {

/// The keys as byte sequences.
pub open spec fn key_rows(keys: Seq<Vec<u8>>) -> Seq<Seq<u8>> {
    keys.map_values(|k: Vec<u8>| k@)
}

/// Position `x` goes before position `y`: its key is smaller, or the keys
/// are equal and `x` is the earlier position.
pub open spec fn precedes(keys: Seq<Seq<u8>>, x: int, y: int) -> bool {
    bytes_lt(keys[x], keys[y]) || (keys[x] == keys[y] && x < y)
}

/// Each position in `order` goes before all that follow it.
pub open spec fn ascending(order: Seq<usize>, keys: Seq<Seq<u8>>) -> bool {
    forall|i: int, j: int|
        0 <= i < j < order.len() ==> precedes(keys, #[trigger] order[i] as int, #[trigger] order[j] as int)
}

/// `order` arranges exactly the positions `lo..hi`, ascending.
pub open spec fn is_range_order(order: Seq<usize>, keys: Seq<Seq<u8>>, lo: int, hi: int) -> bool {
    &&& order.len() == hi - lo
    &&& forall|i: int| 0 <= i < order.len() ==> lo <= #[trigger] order[i] < hi
    &&& forall|x: usize| lo <= x < hi ==> order.contains(x)
    &&& ascending(order, keys)
}

/// `order` arranges all positions of `keys`, ascending.
pub open spec fn is_key_order(order: Seq<usize>, keys: Seq<Seq<u8>>) -> bool {
    is_range_order(order, keys, 0, keys.len() as int)
}

/// Going before is transitive.
pub proof fn lemma_precedes_transitive(keys: Seq<Seq<u8>>, x: int, y: int, z: int)
    requires
        precedes(keys, x, y),
        precedes(keys, y, z),
    ensures
        precedes(keys, x, z),
{
    if bytes_lt(keys[x], keys[y]) && bytes_lt(keys[y], keys[z]) {
        lemma_lt_transitive(keys[x], keys[y], keys[z]);
    }
}

/// In an ascending arrangement the keys never descend.
pub proof fn lemma_ascending_keys(order: Seq<usize>, keys: Seq<Seq<u8>>, i: int, j: int)
    requires
        ascending(order, keys),
        0 <= i <= j < order.len(),
    ensures
        bytes_lt(keys[order[i] as int], keys[order[j] as int]) || keys[order[i] as int]
            == keys[order[j] as int],
{
    if i < j {
        assert(precedes(keys, order[i] as int, order[j] as int));
    }
}

/// In an arrangement of all positions, the positions that share a key stand
/// side by side in the order they were given: where the key changes after
/// position `p` of the arrangement, `order[p]` is the last position with
/// its key.
pub proof fn lemma_run_end_is_last(order: Seq<usize>, keys: Seq<Seq<u8>>, p: int, y: usize)
    requires
        is_key_order(order, keys),
        0 <= p < order.len(),
        p + 1 < order.len() ==> keys[order[p + 1] as int] != keys[order[p] as int],
        0 <= y < keys.len(),
        keys[y as int] == keys[order[p] as int],
    ensures
        y <= order[p],
{
    assert(order.contains(y));
    let q = choose|q: int| 0 <= q < order.len() && order[q] == y;
    if q > p {
        lemma_ascending_keys(order, keys, p, p + 1);
        lemma_ascending_keys(order, keys, p + 1, q);
        lemma_lt_total(keys[order[p] as int], keys[order[p + 1] as int]);
        if bytes_lt(keys[order[p] as int], keys[order[p + 1] as int]) && bytes_lt(
            keys[order[p + 1] as int],
            keys[order[q] as int],
        ) {
            lemma_lt_transitive(
                keys[order[p] as int],
                keys[order[p + 1] as int],
                keys[order[q] as int],
            );
        }
    } else if q < p {
        assert(precedes(keys, order[q] as int, order[p] as int));
        lemma_lt_total(keys[y as int], keys[order[p] as int]);
    }
}

/// Where the key changes before position `p` of the arrangement, `order[p]`
/// is the first position with its key.
pub proof fn lemma_run_start_is_first(order: Seq<usize>, keys: Seq<Seq<u8>>, p: int, y: usize)
    requires
        is_key_order(order, keys),
        0 <= p < order.len(),
        p > 0 ==> keys[order[p - 1] as int] != keys[order[p] as int],
        0 <= y < keys.len(),
        keys[y as int] == keys[order[p] as int],
    ensures
        order[p] <= y,
{
    assert(order.contains(y));
    let q = choose|q: int| 0 <= q < order.len() && order[q] == y;
    if q < p {
        lemma_ascending_keys(order, keys, q, p - 1);
        lemma_ascending_keys(order, keys, p - 1, p);
        lemma_lt_total(keys[order[p - 1] as int], keys[order[p] as int]);
        if bytes_lt(keys[order[q] as int], keys[order[p - 1] as int]) && bytes_lt(
            keys[order[p - 1] as int],
            keys[order[p] as int],
        ) {
            lemma_lt_transitive(
                keys[order[q] as int],
                keys[order[p - 1] as int],
                keys[order[p] as int],
            );
        }
    } else if q > p {
        assert(precedes(keys, order[p] as int, order[q] as int));
        lemma_lt_total(keys[order[p] as int], keys[y as int]);
    }
}

/// No position with the key of two neighbours of the arrangement lies
/// strictly between them.
pub proof fn lemma_between_run(order: Seq<usize>, rows: Seq<Seq<u8>>, p: int, y: usize)
    requires
        is_key_order(order, rows),
        0 <= p,
        p + 1 < order.len(),
        0 <= y < rows.len(),
        rows[y as int] == rows[order[p] as int],
        rows[order[p + 1] as int] == rows[order[p] as int],
    ensures
        y <= order[p] || order[p + 1] <= y,
{
    assert(order.contains(y));
    let q = choose|q: int| 0 <= q < order.len() && order[q] == y;
    crate::bytes::lemma_lt_irreflexive(rows[y as int]);
    if q < p {
        assert(precedes(rows, order[q] as int, order[p] as int));
    } else if q > p + 1 {
        assert(precedes(rows, order[p + 1] as int, order[q] as int));
    }
}

/// Merges two ascending arrangements, every position of `left` being
/// smaller than every position of `right`.
fn merge(keys: &Vec<Vec<u8>>, left: &Vec<usize>, right: &Vec<usize>) -> (out: Vec<usize>)
    requires
        forall|i: int| 0 <= i < left.len() ==> left[i] < keys.len(),
        forall|i: int| 0 <= i < right.len() ==> right[i] < keys.len(),
        forall|i: int, j: int| 0 <= i < left.len() && 0 <= j < right.len() ==> left[i] < right[j],
        ascending(left@, key_rows(keys@)),
        ascending(right@, key_rows(keys@)),
        left.len() + right.len() <= usize::MAX,
    ensures
        out.len() == left.len() + right.len(),
        ascending(out@, key_rows(keys@)),
        forall|x: usize| out@.contains(x) <==> left@.contains(x) || right@.contains(x),
{
    let ghost rows = key_rows(keys@);
    let mut out: Vec<usize> = Vec::with_capacity(left.len() + right.len());
    let mut i: usize = 0;
    let mut j: usize = 0;
    while i < left.len() || j < right.len()
        invariant
            rows == key_rows(keys@),
            i <= left.len(),
            j <= right.len(),
            out.len() == i + j,
            forall|p: int| 0 <= p < left.len() ==> left[p] < keys.len(),
            forall|p: int| 0 <= p < right.len() ==> right[p] < keys.len(),
            forall|p: int, q: int|
                0 <= p < left.len() && 0 <= q < right.len() ==> left[p] < right[q],
            ascending(left@, rows),
            ascending(right@, rows),
            ascending(out@, rows),
            forall|q: int, p: int|
                0 <= q < out.len() && i <= p < left.len() ==> precedes(
                    rows,
                    #[trigger] out[q] as int,
                    #[trigger] left[p] as int,
                ),
            forall|q: int, p: int|
                0 <= q < out.len() && j <= p < right.len() ==> precedes(
                    rows,
                    #[trigger] out[q] as int,
                    #[trigger] right[p] as int,
                ),
            forall|p: int| 0 <= p < i ==> out@.contains(#[trigger] left[p]),
            forall|p: int| 0 <= p < j ==> out@.contains(#[trigger] right[p]),
            forall|q: int|
                0 <= q < out.len() ==> left@.contains(#[trigger] out[q]) || right@.contains(
                    out[q],
                ),
        decreases left.len() - i + right.len() - j,
    {
        let ghost before = out@;
        let take_left = if i >= left.len() {
            false
        } else if j >= right.len() {
            true
        } else {
            match rank(keys[left[i]].as_slice(), keys[right[j]].as_slice()) {
                Rank::After => false,
                _ => true,
            }
        };
        let x: usize = if take_left {
            left[i]
        } else {
            right[j]
        };
        proof {
            if i < left.len() && j < right.len() {
                let kl = rows[left[i as int] as int];
                let kr = rows[right[j as int] as int];
                assert(kl == keys[left[i as int] as int]@);
                assert(kr == keys[right[j as int] as int]@);
                lemma_lt_total(kl, kr);
                if take_left {
                    assert(precedes(rows, left[i as int] as int, right[j as int] as int));
                    assert forall|p: int| j <= p < right.len() implies precedes(
                        rows,
                        x as int,
                        #[trigger] right[p] as int,
                    ) by {
                        if p > j {
                            assert(precedes(rows, right[j as int] as int, right[p] as int));
                            lemma_precedes_transitive(
                                rows,
                                x as int,
                                right[j as int] as int,
                                right[p] as int,
                            );
                        }
                    }
                } else {
                    assert(rank_of(kl, kr) == Rank::After);
                    assert(bytes_lt(kr, kl));
                    assert(precedes(rows, right[j as int] as int, left[i as int] as int));
                    assert forall|p: int| i <= p < left.len() implies precedes(
                        rows,
                        x as int,
                        #[trigger] left[p] as int,
                    ) by {
                        if p > i {
                            assert(precedes(rows, left[i as int] as int, left[p] as int));
                            lemma_precedes_transitive(
                                rows,
                                x as int,
                                left[i as int] as int,
                                left[p] as int,
                            );
                        }
                    }
                }
            }
        }
        out.push(x);
        proof {
            assert(out@ == before.push(x));
            assert forall|q: int| 0 <= q < before.len() implies out@[q] == before[q] by {}
            assert(out@[before.len() as int] == x);
            assert forall|p: int| 0 <= p < i implies out@.contains(#[trigger] left[p]) by {
                assert(before.contains(left[p]));
                let q = choose|q: int| 0 <= q < before.len() && before[q] == left[p];
                assert(out@[q] == left[p]);
            }
            assert forall|p: int| 0 <= p < j implies out@.contains(#[trigger] right[p]) by {
                assert(before.contains(right[p]));
                let q = choose|q: int| 0 <= q < before.len() && before[q] == right[p];
                assert(out@[q] == right[p]);
            }
            if take_left {
                assert(left@[i as int] == x);
                assert(left@.contains(x));
            } else {
                assert(right@[j as int] == x);
                assert(right@.contains(x));
            }
            assert forall|a: int, b: int| 0 <= a < b < out.len() implies precedes(
                rows,
                #[trigger] out[a] as int,
                #[trigger] out[b] as int,
            ) by {
                if b < before.len() {
                    assert(precedes(rows, before[a] as int, before[b] as int));
                } else {
                    if take_left {
                        assert(precedes(rows, before[a] as int, left[i as int] as int));
                    } else {
                        assert(precedes(rows, before[a] as int, right[j as int] as int));
                    }
                }
            }
        }
        if take_left {
            proof {
                assert forall|q: int, p: int|
                    0 <= q < out.len() && i + 1 <= p < left.len() implies precedes(
                    rows,
                    #[trigger] out[q] as int,
                    #[trigger] left[p] as int,
                ) by {
                    if q < before.len() {
                        assert(precedes(rows, before[q] as int, left[p] as int));
                    } else {
                        assert(precedes(rows, left[i as int] as int, left[p] as int));
                    }
                }
                assert forall|q: int, p: int|
                    0 <= q < out.len() && j <= p < right.len() implies precedes(
                    rows,
                    #[trigger] out[q] as int,
                    #[trigger] right[p] as int,
                ) by {
                    if q < before.len() {
                        assert(precedes(rows, before[q] as int, right[p] as int));
                    }
                }
            }
            i += 1;
        } else {
            proof {
                assert forall|q: int, p: int|
                    0 <= q < out.len() && j + 1 <= p < right.len() implies precedes(
                    rows,
                    #[trigger] out[q] as int,
                    #[trigger] right[p] as int,
                ) by {
                    if q < before.len() {
                        assert(precedes(rows, before[q] as int, right[p] as int));
                    } else {
                        assert(precedes(rows, right[j as int] as int, right[p] as int));
                    }
                }
                assert forall|q: int, p: int|
                    0 <= q < out.len() && i <= p < left.len() implies precedes(
                    rows,
                    #[trigger] out[q] as int,
                    #[trigger] left[p] as int,
                ) by {
                    if q < before.len() {
                        assert(precedes(rows, before[q] as int, left[p] as int));
                    }
                }
            }
            j += 1;
        }
    }
    proof {
        assert forall|x: usize| out@.contains(x) <==> left@.contains(x) || right@.contains(
            x,
        ) by {
            if left@.contains(x) {
                let p = choose|p: int| 0 <= p < left.len() && left[p] == x;
                assert(out@.contains(left[p]));
            }
            if right@.contains(x) {
                let p = choose|p: int| 0 <= p < right.len() && right[p] == x;
                assert(out@.contains(right[p]));
            }
            if out@.contains(x) {
                let q = choose|q: int| 0 <= q < out.len() && out[q] == x;
                assert(left@.contains(out[q]) || right@.contains(out[q]));
            }
        }
    }
    out
}

/// Arranges the positions `lo..hi` of `keys` by merge sort.
fn sort_range(keys: &Vec<Vec<u8>>, lo: usize, hi: usize) -> (order: Vec<usize>)
    requires
        lo <= hi <= keys.len(),
    ensures
        is_range_order(order@, key_rows(keys@), lo as int, hi as int),
    decreases hi - lo,
{
    let ghost rows = key_rows(keys@);
    if hi - lo == 0 {
        let order: Vec<usize> = Vec::new();
        order
    } else if hi - lo == 1 {
        let mut order: Vec<usize> = Vec::new();
        order.push(lo);
        proof {
            assert(order@[0] == lo);
            assert forall|x: usize| lo <= x < hi implies order@.contains(x) by {
                assert(order@[0] == x);
            }
        }
        order
    } else {
        let mid: usize = lo + (hi - lo) / 2;
        let left = sort_range(keys, lo, mid);
        let right = sort_range(keys, mid, hi);
        let order = merge(keys, &left, &right);
        proof {
            assert forall|i: int| 0 <= i < order.len() implies lo <= #[trigger] order[i] < hi by {
                assert(order@.contains(order[i]));
                if left@.contains(order[i]) {
                    let p = choose|p: int| 0 <= p < left.len() && left[p] == order[i];
                } else {
                    let p = choose|p: int| 0 <= p < right.len() && right[p] == order[i];
                }
            }
            assert forall|x: usize| lo <= x < hi implies order@.contains(x) by {
                if x < mid {
                    assert(left@.contains(x));
                } else {
                    assert(right@.contains(x));
                }
            }
        }
        order
    }
}

/// Arranges the positions of `keys` so that the keys ascend; positions with
/// equal keys stay in the order they were given.
pub fn key_order(keys: &Vec<Vec<u8>>) -> (order: Vec<usize>)
    ensures
        is_key_order(order@, key_rows(keys@)),
{
    sort_range(keys, 0, keys.len())
}

} // verus!
