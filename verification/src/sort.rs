//! Sorting by an integer key, stable.

use vstd::prelude::*;
use vstd::relations::sorted_by;
use vstd::seq_lib::lemma_sorted_unique;
use vstd::set_lib::lemma_int_range;
use vstd::set_lib::set_int_range;

verus! {

/// Item `a` comes before item `b`: by key, and among equal keys by position.
pub open spec fn before(keys: Seq<u64>, a: usize, b: usize) -> bool {
    keys[a as int] < keys[b as int] || (keys[a as int] == keys[b as int] && a < b)
}

/// `order` lists the positions `lo .. hi` of `keys` from first to last.
pub open spec fn orders(keys: Seq<u64>, lo: int, hi: int, order: Seq<usize>) -> bool {
    &&& order.len() == hi - lo
    &&& forall|i: int| 0 <= i < order.len() ==> lo <= #[trigger] order[i] < hi
    &&& forall|i: int, j: int|
        0 <= i < j < order.len() ==> before(keys, #[trigger] order[i], #[trigger] order[j])
}

/// Position `k` occurs in `order`.
pub open spec fn named(order: Seq<usize>, k: int) -> bool {
    exists|i: int| 0 <= i < order.len() && #[trigger] order[i] == k
}

/// `items`, rearranged so that position `i` holds item `order[i]`.
pub open spec fn arranged<T>(items: Seq<T>, order: Seq<usize>) -> Seq<T> {
    Seq::new(order.len(), |i: int| items[order[i] as int])
}

fn merge(keys: &Vec<u64>, left: Vec<usize>, right: Vec<usize>, lo: usize, mid: usize, hi: usize) -> (r:
    Vec<usize>)
    requires
        lo <= mid <= hi <= keys.len(),
        orders(keys@, lo as int, mid as int, left@),
        orders(keys@, mid as int, hi as int, right@),
    ensures
        orders(keys@, lo as int, hi as int, r@),
{
    let mut r: Vec<usize> = Vec::new();
    let mut i: usize = 0;
    let mut j: usize = 0;
    while i < left.len() || j < right.len()
        invariant
            lo <= mid <= hi <= keys.len(),
            orders(keys@, lo as int, mid as int, left@),
            orders(keys@, mid as int, hi as int, right@),
            i <= left.len(),
            j <= right.len(),
            r.len() == i + j,
            forall|k: int| 0 <= k < r.len() ==> lo <= #[trigger] r[k] < hi,
            forall|k: int, l: int|
                0 <= k < l < r.len() ==> before(keys@, #[trigger] r[k], #[trigger] r[l]),
            forall|k: int, l: int|
                0 <= k < r.len() && i <= l < left.len() ==> before(
                    keys@,
                    #[trigger] r[k],
                    #[trigger] left[l],
                ),
            forall|k: int, l: int|
                0 <= k < r.len() && j <= l < right.len() ==> before(
                    keys@,
                    #[trigger] r[k],
                    #[trigger] right[l],
                ),
        decreases left.len() - i + right.len() - j,
    {
        if j == right.len() || (i < left.len() && keys[left[i]] <= keys[right[j]]) {
            proof {
                let x = left[i as int];
                assert forall|l: int| j <= l < right.len() implies before(
                    keys@,
                    x,
                    #[trigger] right[l],
                ) by {
                    if l > j {
                        assert(before(keys@, right[j as int], right[l]));
                    }
                }
            }
            r.push(left[i]);
            i = i + 1;
        } else {
            proof {
                let x = right[j as int];
                assert forall|l: int| i <= l < left.len() implies before(
                    keys@,
                    x,
                    #[trigger] left[l],
                ) by {
                    if l > i {
                        assert(before(keys@, left[i as int], left[l]));
                    }
                }
            }
            r.push(right[j]);
            j = j + 1;
        }
    }
    r
}

fn order_range(keys: &Vec<u64>, lo: usize, hi: usize) -> (r: Vec<usize>)
    requires
        lo <= hi <= keys.len(),
    ensures
        orders(keys@, lo as int, hi as int, r@),
    decreases hi - lo,
{
    let mut r: Vec<usize> = Vec::new();
    if hi - lo == 0 {
        return r;
    }
    if hi - lo == 1 {
        r.push(lo);
        return r;
    }
    let mid: usize = lo + (hi - lo) / 2;
    let left: Vec<usize> = order_range(keys, lo, mid);
    let right: Vec<usize> = order_range(keys, mid, hi);
    merge(keys, left, right, lo, mid, hi)
}

/// The positions of `keys`, from the first in order to the last.
pub fn sorted_order(keys: &Vec<u64>) -> (r: Vec<usize>)
    ensures
        orders(keys@, 0, keys.len() as int, r@),
        r@ == stable_order(keys@),
{
    let r: Vec<usize> = order_range(keys, 0, keys.len());
    proof {
        lemma_order_unique(keys@, r@);
    }
    r
}

/// An order names every position once.
pub proof fn lemma_order_complete(keys: Seq<u64>, order: Seq<usize>)
    requires
        orders(keys, 0, keys.len() as int, order),
    ensures
        forall|i: int, j: int|
            0 <= i < order.len() && 0 <= j < order.len() && i != j ==> order[i] != order[j],
        forall|k: int| 0 <= k < keys.len() ==> #[trigger] named(order, k),
{
    assert forall|i: int, j: int|
        0 <= i < order.len() && 0 <= j < order.len() && i != j implies order[i] != order[j] by {
        if i < j {
            assert(before(keys, order[i], order[j]));
        } else {
            assert(before(keys, order[j], order[i]));
        }
    }
    let n = keys.len() as int;
    let wide = Seq::new(order.len(), |i: int| order[i] as int);
    assert(wide.no_duplicates());
    wide.unique_seq_to_set();
    lemma_int_range(0, n);
    let all = set_int_range(0, n);
    assert(wide.to_set().subset_of(all)) by {
        assert forall|x: int| wide.to_set().contains(x) implies all.contains(x) by {
            let i = choose|i: int| 0 <= i < wide.len() && wide[i] == x;
            assert(order[i] < n);
        }
    }
    vstd::set_lib::lemma_subset_equality(wide.to_set(), all);
    assert forall|k: int| 0 <= k < n implies #[trigger] named(order, k) by {
        assert(all.contains(k));
        assert(wide.to_set().contains(k));
        let i = choose|i: int| 0 <= i < wide.len() && wide[i] == k;
        assert(order[i] == k);
    }
}

/// A rearrangement holds the same items.
pub proof fn lemma_rearranged<T>(items: Seq<T>, places: Seq<int>, out: Seq<T>)
    requires
        places.len() == items.len(),
        out.len() == items.len(),
        forall|i: int| 0 <= i < places.len() ==> 0 <= #[trigger] places[i] < items.len(),
        forall|i: int, j: int|
            0 <= i < places.len() && 0 <= j < places.len() && i != j ==> places[i] != places[j],
        forall|k: int| 0 <= k < items.len() ==> #[trigger] places.contains(k),
        forall|i: int| 0 <= i < out.len() ==> #[trigger] out[i] == items[places[i]],
    ensures
        out.to_multiset() == items.to_multiset(),
    decreases items.len(),
{
    broadcast use vstd::seq_lib::group_to_multiset_ensures;

    if items.len() == 0 {
        assert(out =~= items);
    } else {
        let n = items.len() as int;
        assert(places.contains(n - 1));
        let k = choose|i: int| 0 <= i < places.len() && #[trigger] places[i] == n - 1;
        let rest = items.drop_last();
        let fewer = places.remove(k);
        let less = out.remove(k);
        assert forall|m: int| 0 <= m < rest.len() implies #[trigger] fewer.contains(m) by {
            assert(places.contains(m));
            let i = choose|i: int| 0 <= i < places.len() && #[trigger] places[i] == m;
            if i < k {
                assert(fewer[i] == m);
            } else {
                assert(fewer[i - 1] == m);
            }
        }
        lemma_rearranged(rest, fewer, less);
        assert(items =~= rest.push(items.last()));
        assert(out[k] == items.last());
        assert(less =~= out.remove(k));
        assert(out.to_multiset() =~= less.to_multiset().insert(out[k])) by {
            assert(out =~= less.insert(k, out[k]));
        }
    }
}

/// What `arranged` gives holds the same items.
pub proof fn lemma_arranged<T>(items: Seq<T>, keys: Seq<u64>, order: Seq<usize>)
    requires
        items.len() == keys.len(),
        orders(keys, 0, keys.len() as int, order),
    ensures
        arranged(items, order).to_multiset() == items.to_multiset(),
        arranged(items, order).len() == items.len(),
{
    lemma_order_complete(keys, order);
    let places = Seq::new(order.len(), |i: int| order[i] as int);
    assert forall|k: int| 0 <= k < items.len() implies #[trigger] places.contains(k) by {
        assert(named(order, k));
        let i = choose|i: int| 0 <= i < order.len() && #[trigger] order[i] == k;
        assert(places[i] == k);
    }
    lemma_rearranged(items, places, arranged(items, order));
}

/// The one order of `keys`.
pub open spec fn stable_order(keys: Seq<u64>) -> Seq<usize> {
    choose|order: Seq<usize>| orders(keys, 0, keys.len() as int, order)
}

/// `items`, sorted by `keys`; those of one key stay as they were.
pub open spec fn stably_sorted<T>(items: Seq<T>, keys: Seq<u64>) -> Seq<T> {
    arranged(items, stable_order(keys))
}

/// There is no other order.
pub proof fn lemma_order_unique(keys: Seq<u64>, order: Seq<usize>)
    requires
        orders(keys, 0, keys.len() as int, order),
    ensures
        order == stable_order(keys),
{
    let other = stable_order(keys);
    assert(orders(keys, 0, keys.len() as int, other));
    lemma_orders_agree(keys, order, other, order.len());
    assert(order =~= other);
}

proof fn lemma_orders_agree(keys: Seq<u64>, a: Seq<usize>, b: Seq<usize>, n: nat)
    requires
        orders(keys, 0, keys.len() as int, a),
        orders(keys, 0, keys.len() as int, b),
        n <= a.len(),
    ensures
        forall|i: int| 0 <= i < n ==> a[i] == b[i],
    decreases n,
{
    if n > 0 {
        lemma_orders_agree(keys, a, b, (n - 1) as nat);
        let i = n - 1;
        if a[i] != b[i] {
            lemma_order_complete(keys, a);
            lemma_order_complete(keys, b);
            assert(named(b, a[i] as int));
            let p = choose|p: int| 0 <= p < b.len() && #[trigger] b[p] == a[i] as int;
            assert(named(a, b[i] as int));
            let q = choose|q: int| 0 <= q < a.len() && #[trigger] a[q] == b[i] as int;
            if p < i {
                assert(a[p] == b[p]);
                assert(false);
            }
            if q < i {
                assert(a[q] == b[q]);
                assert(false);
            }
            assert(before(keys, b[i], b[p]));
            assert(before(keys, a[i], a[q]));
            assert(false);
        }
    }
}

/// Every sequence of keys has an order.
pub proof fn lemma_some_order(keys: Seq<u64>)
    requires
        keys.len() <= usize::MAX,
    ensures
        orders(keys, 0, keys.len() as int, stable_order(keys)),
{
    let order = lemma_order_of_first(keys, keys.len());
    assert(orders(keys, 0, keys.len() as int, order));
}

/// The first `n` positions in order, the last of them put in its place.
proof fn lemma_order_of_first(keys: Seq<u64>, n: nat) -> (order: Seq<usize>)
    requires
        n <= keys.len() <= usize::MAX,
    ensures
        orders(keys, 0, n as int, order),
    decreases n,
{
    if n == 0 {
        Seq::empty()
    } else {
        let rest = lemma_order_of_first(keys, (n - 1) as nat);
        let p = lemma_place(keys, rest, keys[n - 1], 0);
        let last = (n - 1) as usize;
        let order = rest.insert(p as int, last);
        assert forall|i: int, j: int| 0 <= i < j < order.len() implies before(
            keys,
            #[trigger] order[i],
            #[trigger] order[j],
        ) by {
            let a = if i < p {
                i
            } else {
                i - 1
            };
            let b = if j < p {
                j
            } else {
                j - 1
            };
            if i != p && j != p {
                assert(before(keys, rest[a], rest[b]));
            } else if i == p {
                assert(order[j] == rest[b]);
                if b > p {
                    assert(before(keys, rest[p as int], rest[b]));
                }
            } else {
                assert(order[i] == rest[a]);
            }
        }
        order
    }
}

/// Where `key` belongs among ordered positions: behind all keys that do not
/// exceed it.
proof fn lemma_place(keys: Seq<u64>, order: Seq<usize>, key: u64, p: nat) -> (r: nat)
    requires
        p <= order.len(),
        forall|i: int| 0 <= i < p ==> keys[(#[trigger] order[i]) as int] <= key,
    ensures
        r <= order.len(),
        forall|i: int| 0 <= i < r ==> keys[(#[trigger] order[i]) as int] <= key,
        r < order.len() ==> keys[order[r as int] as int] > key,
    decreases order.len() - p,
{
    if p < order.len() && keys[order[p as int] as int] <= key {
        lemma_place(keys, order, key, p + 1)
    } else {
        p
    }
}

/// Moves the items into the places that `order` gives them.
pub fn arrange<T>(items: Vec<T>, keys: Ghost<Seq<u64>>, order: &Vec<usize>) -> (r: Vec<T>)
    requires
        items.len() == keys@.len(),
        orders(keys@, 0, keys@.len() as int, order@),
    ensures
        r@ == arranged(items@, order@),
{
    proof {
        lemma_order_complete(keys@, order@);
    }
    let ghost all = items@;
    let n: usize = items.len();
    let mut items: Vec<T> = items;
    // Slot `k` holds item `n - 1 - k`.
    let mut slots: Vec<Option<T>> = Vec::new();
    while slots.len() < n
        invariant
            slots.len() <= n,
            n == all.len(),
            items@ == all.take(n - slots.len()),
            forall|k: int| 0 <= k < slots.len() ==> #[trigger] slots[k] == Some(all[n - 1 - k]),
        decreases n - slots.len(),
    {
        let item: Option<T> = items.pop();
        slots.push(item);
    }
    let mut r: Vec<T> = Vec::new();
    let mut i: usize = 0;
    while i < n
        invariant
            i <= n,
            n == all.len() == order.len() == slots.len(),
            r.len() == i,
            forall|k: int| 0 <= k < n ==> (#[trigger] order[k]) < n,
            forall|k: int, l: int|
                0 <= k < order.len() && 0 <= l < order.len() && k != l ==> order[k] != order[l],
            forall|k: int| 0 <= k < i ==> #[trigger] r[k] == all[order[k] as int],
            forall|k: int|
                i <= k < n ==> slots[n - 1 - #[trigger] order[k]] == Some(all[order[k] as int]),
        decreases n - i,
    {
        let k: usize = n - 1 - order[i];
        let item: Option<T> = slots[k].take();
        if let Some(item) = item {
            r.push(item);
        }
        i = i + 1;
    }
    assert(r@ =~= arranged(all, order@));
    r
}

/// The order of the integers.
pub open spec fn ascending() -> spec_fn(u64, u64) -> bool {
    |a: u64, b: u64| a <= b
}

/// Sorts integers.
pub fn sort(items: &mut Vec<u64>)
    ensures
        final(items)@ == old(items)@.sort_by(ascending()),
        final(items)@.to_multiset() == old(items)@.to_multiset(),
{
    let order: Vec<usize> = sorted_order(items);
    let ghost all = items@;
    let mut out: Vec<u64> = Vec::new();
    let mut i: usize = 0;
    while i < order.len()
        invariant
            i <= order.len(),
            items@ == all,
            orders(all, 0, all.len() as int, order@),
            out.len() == i,
            forall|k: int| 0 <= k < i ==> #[trigger] out[k] == all[order[k] as int],
        decreases order.len() - i,
    {
        out.push(items[order[i]]);
        i = i + 1;
    }
    proof {
        assert(out@ =~= arranged(all, order@));
        lemma_arranged(all, all, order@);
        all.lemma_sort_by_ensures(ascending());
        assert(sorted_by(out@, ascending())) by {
            assert forall|i: int, j: int| 0 <= i < j < out.len() implies #[trigger] ascending()(
                out[i],
                out[j],
            ) by {
                assert(before(all, order[i], order[j]));
            }
        }
        lemma_sorted_unique(out@, all.sort_by(ascending()), ascending());
    }
    *items = out;
}

} // verus!
