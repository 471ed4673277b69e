//! Stable ordering.
//!
//! [`stable_order`] computes, for a list of keys, the order in which a stable
//! sort would put them: smaller keys first, equal keys in list order. The
//! result is a list of positions, so that callers can lay out whatever the
//! keys belong to.

use vstd::prelude::*;

verus! {

/// A key with a place in a strict weak order.
pub trait Ranked: Sized {
    /// Whether `self` belongs strictly before `other`.
    spec fn ranks_before(&self, other: &Self) -> bool;

    /// No two keys belong before each other.
    proof fn lemma_asymmetric(a: &Self, b: &Self)
        ensures
            !(a.ranks_before(b) && b.ranks_before(a)),
    ;

    /// What does not belong after passes through.
    proof fn lemma_transitive(a: &Self, b: &Self, c: &Self)
        requires
            !b.ranks_before(a),
            !c.ranks_before(b),
        ensures
            !c.ranks_before(a),
    ;

    /// Whether `self` belongs strictly before `other`.
    fn before(&self, other: &Self) -> (r: bool)
        ensures
            r == self.ranks_before(other),
    ;
}

impl Ranked for u128 {
    open spec fn ranks_before(&self, other: &u128) -> bool {
        *self < *other
    }

    proof fn lemma_asymmetric(a: &u128, b: &u128) {
    }

    proof fn lemma_transitive(a: &u128, b: &u128, c: &u128) {
    }

    fn before(&self, other: &u128) -> (r: bool) {
        *self < *other
    }
}

/// Position `i` goes before position `j`: its key is smaller, or no key is
/// and it comes first.
pub open spec fn goes_before<K: Ranked>(keys: Seq<K>, i: int, j: int) -> bool {
    ||| keys[i].ranks_before(&keys[j])
    ||| !keys[j].ranks_before(&keys[i]) && i < j
}

/// `order` lists positions from `lo` up to `hi`, each once, in stable order.
pub open spec fn orders_range<K: Ranked>(keys: Seq<K>, order: Seq<usize>, lo: int, hi: int) -> bool {
    &&& order.len() == hi - lo
    &&& forall|p: int| 0 <= p < order.len() ==> lo <= #[trigger] order[p] < hi
    &&& forall|p: int, q: int|
        0 <= p < q < order.len() ==> goes_before(keys, #[trigger] order[p] as int, #[trigger] order[q] as int)
}

/// `order` lists all positions of `keys`, each once, in stable order.
pub open spec fn is_stable_order<K: Ranked>(keys: Seq<K>, order: Seq<usize>) -> bool {
    orders_range(keys, order, 0, keys.len() as int)
}

/// Going before is transitive.
proof fn lemma_goes_before_transitive<K: Ranked>(keys: Seq<K>, i: int, j: int, k: int)
    requires
        goes_before(keys, i, j),
        goes_before(keys, j, k),
    ensures
        goes_before(keys, i, k),
{
    K::lemma_asymmetric(&keys[i], &keys[j]);
    K::lemma_asymmetric(&keys[j], &keys[k]);
    K::lemma_transitive(&keys[i], &keys[j], &keys[k]);
    if !keys[i].ranks_before(&keys[k]) {
        if keys[i].ranks_before(&keys[j]) {
            K::lemma_transitive(&keys[j], &keys[k], &keys[i]);
        }
        if keys[j].ranks_before(&keys[k]) {
            K::lemma_transitive(&keys[k], &keys[i], &keys[j]);
        }
    }
}

/// A stable order lists every position.
pub proof fn lemma_stable_order_covers<K: Ranked>(keys: Seq<K>, order: Seq<usize>, k: int)
    requires
        is_stable_order(keys, order),
        0 <= k < keys.len(),
    ensures
        exists|p: int| 0 <= p < order.len() && #[trigger] order[p] == k,
{
    let places = order.map_values(|p: usize| p as int);
    assert forall|p: int, q: int| 0 <= p < q < places.len() implies places[p] != places[q] by {
        if order[p] == order[q] {
            let i = order[p] as int;
            assert(goes_before(keys, order[p] as int, order[q] as int));
            K::lemma_asymmetric(&keys[i], &keys[i]);
        }
    }
    assert(places.no_duplicates());
    places.unique_seq_to_set();
    let whole = vstd::set_lib::set_int_range(0, keys.len() as int);
    vstd::set_lib::lemma_int_range(0, keys.len() as int);
    assert(places.to_set().subset_of(whole));
    vstd::set_lib::lemma_subset_equality(places.to_set(), whole);
    assert(whole.contains(k));
    assert(places.to_set().contains(k));
    let p = choose|p: int| 0 <= p < places.len() && places[p] == k;
    assert(order[p] == k);
}

/// The positions of `keys` in stable order.
pub fn stable_order<K: Ranked>(keys: &Vec<K>) -> (r: Vec<usize>)
    ensures
        is_stable_order(keys@, r@),
{
    order_between(keys, 0, keys.len())
}

/// The positions from `lo` up to `hi` in stable order.
fn order_between<K: Ranked>(keys: &Vec<K>, lo: usize, hi: usize) -> (r: Vec<usize>)
    requires
        lo <= hi <= keys@.len(),
    ensures
        orders_range(keys@, r@, lo as int, hi as int),
    decreases hi - lo,
{
    if hi - lo <= 1 {
        let mut r: Vec<usize> = Vec::new();
        if lo < hi {
            r.push(lo);
        }
        r
    } else {
        let mid: usize = lo + (hi - lo) / 2;
        let left = order_between(keys, lo, mid);
        let right = order_between(keys, mid, hi);
        merge(keys, &left, &right, lo, mid, hi)
    }
}

/// Merges the orders of two neighbouring ranges.
fn merge<K: Ranked>(
    keys: &Vec<K>,
    left: &Vec<usize>,
    right: &Vec<usize>,
    lo: usize,
    mid: usize,
    hi: usize,
) -> (out: Vec<usize>)
    requires
        lo <= mid <= hi <= keys@.len(),
        orders_range(keys@, left@, lo as int, mid as int),
        orders_range(keys@, right@, mid as int, hi as int),
    ensures
        orders_range(keys@, out@, lo as int, hi as int),
{
    let mut out: Vec<usize> = Vec::with_capacity(hi - lo);
    let mut i: usize = 0;
    let mut j: usize = 0;
    while i < left.len() || j < right.len()
        invariant
            lo <= mid <= hi <= keys@.len(),
            orders_range(keys@, left@, lo as int, mid as int),
            orders_range(keys@, right@, mid as int, hi as int),
            i <= left@.len(),
            j <= right@.len(),
            out@.len() == i + j,
            forall|p: int| 0 <= p < out@.len() ==> lo <= #[trigger] out@[p] < hi,
            forall|p: int, q: int|
                0 <= p < q < out@.len() ==> goes_before(
                    keys@,
                    #[trigger] out@[p] as int,
                    #[trigger] out@[q] as int,
                ),
            forall|p: int, q: int|
                0 <= p < out@.len() && i <= q < left@.len() ==> goes_before(
                    keys@,
                    #[trigger] out@[p] as int,
                    #[trigger] left@[q] as int,
                ),
            forall|p: int, q: int|
                0 <= p < out@.len() && j <= q < right@.len() ==> goes_before(
                    keys@,
                    #[trigger] out@[p] as int,
                    #[trigger] right@[q] as int,
                ),
        decreases left@.len() - i + right@.len() - j,
    {
        let take_left = j >= right.len() || (i < left.len() && !keys[right[j]].before(
            &keys[left[i]],
        ));
        let ghost before = out@;
        if take_left {
            let next: usize = left[i];
            proof {
                assert forall|q: int| j <= q < right@.len() implies goes_before(
                    keys@,
                    next as int,
                    #[trigger] right@[q] as int,
                ) by {
                    assert(goes_before(keys@, next as int, right@[j as int] as int));
                    if q > j {
                        lemma_goes_before_transitive(
                            keys@,
                            next as int,
                            right@[j as int] as int,
                            right@[q] as int,
                        );
                    }
                }
            }
            out.push(next);
            i += 1;
        } else {
            let next: usize = right[j];
            proof {
                assert forall|q: int| i <= q < left@.len() implies goes_before(
                    keys@,
                    next as int,
                    #[trigger] left@[q] as int,
                ) by {
                    assert(goes_before(keys@, next as int, left@[i as int] as int));
                    if q > i {
                        lemma_goes_before_transitive(
                            keys@,
                            next as int,
                            left@[i as int] as int,
                            left@[q] as int,
                        );
                    }
                }
            }
            out.push(next);
            j += 1;
        }
        assert(forall|p: int| 0 <= p < before.len() ==> out@[p] == before[p]);
    }
    out
}

/// The items in the given order.
pub open spec fn arranged<A>(items: Seq<A>, order: Seq<usize>) -> Seq<A> {
    Seq::new(order.len(), |i: int| items[order[i] as int])
}

/// `out` holds the items sorted by their keys, smaller keys first and equal
/// keys in list order.
pub open spec fn is_ranked_by<A, K: Ranked>(out: Seq<A>, items: Seq<A>, keys: Seq<K>) -> bool {
    exists|order: Seq<usize>| #[trigger]
        is_stable_order(keys, order) && out == arranged(items, order)
}

/// `x` is the key at place `k` of the sorted keys.
pub open spec fn is_kth_smallest(keys: Seq<u128>, k: int, x: u128) -> bool {
    exists|order: Seq<usize>| #[trigger]
        is_stable_order(keys, order) && 0 <= k < order.len() && keys[order[k] as int] == x
}

/// The key at place `k` of the sorted keys.
pub fn kth_smallest(keys: &Vec<u128>, k: usize) -> (r: u128)
    requires
        k < keys@.len(),
    ensures
        is_kth_smallest(keys@, k as int, r),
{
    let order = stable_order(keys);
    keys[order[k]]
}

// ── Laws ────────────────────────────────────────────────────────────

/// A ranking is sorted and stable: no item stands behind one whose key is
/// larger, and items whose keys tie keep the order that they had. It holds every
/// item once.
pub proof fn law_ranking_is_sorted<A, K: Ranked>(out: Seq<A>, items: Seq<A>, keys: Seq<K>)
    requires
        is_ranked_by(out, items, keys),
        items.len() == keys.len(),
    ensures
        exists|order: Seq<usize>|
            #![trigger order.len()]
            {
                &&& order.len() == keys.len()
                &&& out.len() == keys.len()
                &&& forall|p: int|
                    0 <= p < order.len() ==> 0 <= #[trigger] order[p] < keys.len() && out[p]
                        == items[order[p] as int]
                &&& forall|p: int, q: int|
                    0 <= p < q < order.len() ==> #[trigger] order[p] != #[trigger] order[q]
                        && !keys[order[q] as int].ranks_before(&keys[order[p] as int]) && (
                    keys[order[p] as int].ranks_before(&keys[order[q] as int]) || order[p]
                        < order[q])
                &&& forall|k: int|
                    0 <= k < items.len() ==> out.contains(#[trigger] items[k])
            },
{
    let order = choose|order: Seq<usize>| #[trigger]
        is_stable_order(keys, order) && out == arranged(items, order);
    assert(order.len() == keys.len());
    assert forall|p: int, q: int| 0 <= p < q < order.len() implies #[trigger] order[p]
        != #[trigger] order[q] && !keys[order[q] as int].ranks_before(&keys[order[p] as int]) && (
    keys[order[p] as int].ranks_before(&keys[order[q] as int]) || order[p] < order[q]) by {
        assert(goes_before(keys, order[p] as int, order[q] as int));
        K::lemma_asymmetric(&keys[order[p] as int], &keys[order[q] as int]);
    }
    assert forall|k: int| 0 <= k < items.len() implies out.contains(#[trigger] items[k]) by {
        lemma_stable_order_covers(keys, order, k);
        let p = choose|p: int| 0 <= p < order.len() && #[trigger] order[p] == k;
        assert(out[p] == items[k]);
    }
}

/// Numbers rank by size.
pub proof fn law_numbers_rank_by_size(a: u128, b: u128)
    ensures
        a.ranks_before(&b) <==> a < b,
{
}

/// The key at place `k` splits the keys: they can be listed, each once, so that
/// the first `k` are not larger than it, it comes next, and the others are not
/// smaller.
pub proof fn law_kth_smallest_splits(keys: Seq<u128>, k: int, x: u128)
    requires
        is_kth_smallest(keys, k, x),
    ensures
        exists|order: Seq<usize>|
            #![trigger order.len()]
            {
                &&& order.len() == keys.len()
                &&& order.no_duplicates()
                &&& 0 <= k < order.len() && keys[order[k] as int] == x
                &&& forall|p: int|
                    0 <= p < order.len() ==> 0 <= #[trigger] order[p] < keys.len() && (p < k
                        ==> keys[order[p] as int] <= x) && (p > k ==> keys[order[p] as int] >= x)
            },
{
    let order = choose|order: Seq<usize>| #[trigger]
        is_stable_order(keys, order) && 0 <= k < order.len() && keys[order[k] as int] == x;
    assert(order.len() == keys.len());
    assert forall|p: int| 0 <= p < order.len() implies 0 <= #[trigger] order[p] < keys.len() && (p
        < k ==> keys[order[p] as int] <= x) && (p > k ==> keys[order[p] as int] >= x) by {
        if p < k {
            assert(goes_before(keys, order[p] as int, order[k] as int));
        }
        if p > k {
            assert(goes_before(keys, order[k] as int, order[p] as int));
        }
    }
    assert(order.no_duplicates()) by {
        assert forall|p: int, q: int|
            0 <= p < order.len() && 0 <= q < order.len() && p != q implies order[p] != order[q] by {
            if p < q {
                assert(goes_before(keys, order[p] as int, order[q] as int));
            } else {
                assert(goes_before(keys, order[q] as int, order[p] as int));
            }
        }
    }
}

} // verus!
