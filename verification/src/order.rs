//! Stable ordering by a caller's "comes before or with" relation, stated as
//! insertion: each index goes after every earlier one whose key comes before or
//! with its own, so equal keys keep the order they arrived in.

use vstd::prelude::*;

verus! {

/// Index `i` placed into an order already built, after the last index whose key
/// comes before or with its own.
pub open spec fn insert_in_order<K>(order: Seq<int>, keys: Seq<K>, first: spec_fn(K, K) -> bool, i: int) -> Seq<
    int,
>
    decreases order.len(),
{
    if order.len() == 0 {
        seq![i]
    } else if first(keys[order.last()], keys[i]) {
        order.push(i)
    } else {
        insert_in_order(order.drop_last(), keys, first, i).push(order.last())
    }
}

/// The first `n` keys' indices, stably ordered by `first`.
pub open spec fn stable_order<K>(keys: Seq<K>, first: spec_fn(K, K) -> bool, n: nat) -> Seq<int>
    decreases n,
{
    if n == 0 {
        Seq::empty()
    } else {
        insert_in_order(stable_order(keys, first, (n - 1) as nat), keys, first, n - 1)
    }
}

/// Inserting at `j`, where every index from `j` on comes after the new key and the
/// one before `j` (if any) does not, is what `insert_in_order` does.
pub proof fn lemma_insert_at<K>(order: Seq<int>, keys: Seq<K>, first: spec_fn(K, K) -> bool, i: int, j: int)
    requires
        0 <= j <= order.len(),
        j == 0 || first(keys[order[j - 1]], keys[i]),
        forall|p: int| j <= p < order.len() ==> !first(keys[#[trigger] order[p]], keys[i]),
    ensures
        insert_in_order(order, keys, first, i) == order.take(j).push(i) + order.skip(j),
    decreases order.len() - j,
{
    if j == order.len() {
        assert(order.skip(j) =~= Seq::<int>::empty());
        assert(order.take(j) =~= order);
    } else {
        let shorter = order.drop_last();
        assert(!first(keys[order[order.len() - 1]], keys[i]));
        assert forall|p: int| j <= p < shorter.len() implies !first(keys[#[trigger] shorter[p]], keys[i]) by {
            assert(shorter[p] == order[p]);
        }
        if j > 0 {
            assert(shorter[j - 1] == order[j - 1]);
        }
        lemma_insert_at(shorter, keys, first, i, j);
        assert(shorter.take(j) =~= order.take(j));
        assert((shorter.take(j).push(i) + shorter.skip(j)).push(order.last()) =~= order.take(j).push(i)
            + order.skip(j));
    }
}

proof fn lemma_insert_in_range<K>(order: Seq<int>, keys: Seq<K>, first: spec_fn(K, K) -> bool, i: int, n: int)
    requires
        0 <= i < n,
        forall|k: int| 0 <= k < order.len() ==> 0 <= #[trigger] order[k] < n,
    ensures
        insert_in_order(order, keys, first, i).len() == order.len() + 1,
        forall|k: int|
            0 <= k < order.len() + 1 ==> 0 <= #[trigger] insert_in_order(order, keys, first, i)[k] < n,
    decreases order.len(),
{
    if order.len() > 0 && !first(keys[order.last()], keys[i]) {
        lemma_insert_in_range(order.drop_last(), keys, first, i, n);
    }
}

proof fn lemma_stable_order_len_range<K>(keys: Seq<K>, first: spec_fn(K, K) -> bool, n: nat)
    ensures
        stable_order(keys, first, n).len() == n,
        forall|k: int| 0 <= k < n ==> 0 <= #[trigger] stable_order(keys, first, n)[k] < n,
    decreases n,
{
    if n > 0 {
        lemma_stable_order_len_range(keys, first, (n - 1) as nat);
        lemma_insert_in_range(stable_order(keys, first, (n - 1) as nat), keys, first, n - 1, n as int);
    }
}

/// A stable order holds `n` indices, each one of the first `n`.
pub proof fn lemma_stable_order_in_range<K>(keys: Seq<K>, first: spec_fn(K, K) -> bool, n: nat, k: int)
    requires
        0 <= k < n,
    ensures
        stable_order(keys, first, n).len() == n,
        0 <= stable_order(keys, first, n)[k] < n,
{
    lemma_stable_order_len_range(keys, first, n);
}

/// `first` orders any two keys one way or the other, and chains.
pub open spec fn total_preorder<K>(first: spec_fn(K, K) -> bool) -> bool {
    &&& forall|a: K, b: K| #[trigger] first(a, b) || first(b, a)
    &&& forall|a: K, b: K, c: K| #[trigger] first(a, b) && #[trigger] first(b, c) ==> first(a, c)
}

/// Every index of `order` comes before or with every later one.
pub open spec fn ordered_by<K>(order: Seq<int>, keys: Seq<K>, first: spec_fn(K, K) -> bool) -> bool {
    forall|p: int, q: int| 0 <= p < q < order.len() ==> first(keys[#[trigger] order[p]], keys[#[trigger] order[q]])
}

proof fn lemma_insert_contents<K>(order: Seq<int>, keys: Seq<K>, first: spec_fn(K, K) -> bool, i: int)
    ensures
        insert_in_order(order, keys, first, i).len() == order.len() + 1,
        forall|x: int| #[trigger] insert_in_order(order, keys, first, i).contains(x) <==> (order.contains(x) || x == i),
    decreases order.len(),
{
    let inserted = insert_in_order(order, keys, first, i);
    if order.len() == 0 {
        assert forall|x: int| inserted.contains(x) <==> (order.contains(x) || x == i) by {
            if inserted.contains(x) {
                assert(inserted[0] == x);
            }
            if x == i {
                assert(inserted[0] == i);
            }
        }
    } else if first(keys[order.last()], keys[i]) {
        assert forall|x: int| inserted.contains(x) <==> (order.contains(x) || x == i) by {
            if inserted.contains(x) {
                let k = choose|k: int| 0 <= k < inserted.len() && inserted[k] == x;
                if k < order.len() {
                    assert(order[k] == x);
                }
            }
            if order.contains(x) {
                let k = choose|k: int| 0 <= k < order.len() && order[k] == x;
                assert(inserted[k] == x);
            }
            if x == i {
                assert(inserted[order.len() as int] == i);
            }
        }
    } else {
        let shorter = order.drop_last();
        lemma_insert_contents(shorter, keys, first, i);
        let inner = insert_in_order(shorter, keys, first, i);
        assert forall|x: int| inserted.contains(x) <==> (order.contains(x) || x == i) by {
            if inserted.contains(x) {
                let k = choose|k: int| 0 <= k < inserted.len() && inserted[k] == x;
                if k < inner.len() {
                    assert(inner[k] == x);
                    assert(inner.contains(x));
                    if shorter.contains(x) {
                        let m = choose|m: int| 0 <= m < shorter.len() && shorter[m] == x;
                        assert(order[m] == x);
                    }
                } else {
                    assert(order[order.len() - 1] == x);
                }
            }
            if order.contains(x) {
                let k = choose|k: int| 0 <= k < order.len() && order[k] == x;
                if k < order.len() - 1 {
                    assert(shorter[k] == x);
                    assert(inner.contains(x));
                    let m = choose|m: int| 0 <= m < inner.len() && inner[m] == x;
                    assert(inserted[m] == x);
                } else {
                    assert(inserted[inner.len() as int] == x);
                }
            }
            if x == i {
                assert(inner.contains(i));
                let m = choose|m: int| 0 <= m < inner.len() && inner[m] == i;
                assert(inserted[m] == i);
            }
        }
    }
}

proof fn lemma_insert_ordered<K>(order: Seq<int>, keys: Seq<K>, first: spec_fn(K, K) -> bool, i: int)
    requires
        total_preorder(first),
        ordered_by(order, keys, first),
    ensures
        ordered_by(insert_in_order(order, keys, first, i), keys, first),
    decreases order.len(),
{
    let inserted = insert_in_order(order, keys, first, i);
    lemma_insert_contents(order, keys, first, i);
    if order.len() == 0 {
    } else if first(keys[order.last()], keys[i]) {
        assert forall|p: int, q: int| 0 <= p < q < inserted.len() implies first(
            keys[#[trigger] inserted[p]],
            keys[#[trigger] inserted[q]],
        ) by {
            if q == order.len() {
                if p < order.len() - 1 {
                    assert(first(keys[order[p]], keys[order[order.len() - 1]]));
                }
            }
        }
    } else {
        let shorter = order.drop_last();
        assert(ordered_by(shorter, keys, first)) by {
            assert forall|p: int, q: int| 0 <= p < q < shorter.len() implies first(
                keys[#[trigger] shorter[p]],
                keys[#[trigger] shorter[q]],
            ) by {
                assert(shorter[p] == order[p] && shorter[q] == order[q]);
            }
        }
        lemma_insert_ordered(shorter, keys, first, i);
        lemma_insert_contents(shorter, keys, first, i);
        let inner = insert_in_order(shorter, keys, first, i);
        let last = order.last();
        assert(first(keys[i], keys[last]));
        assert forall|p: int, q: int| 0 <= p < q < inserted.len() implies first(
            keys[#[trigger] inserted[p]],
            keys[#[trigger] inserted[q]],
        ) by {
            if q == inner.len() {
                assert(inserted[q] == last);
                assert(inserted[p] == inner[p]);
                assert(inner.contains(inner[p]));
                if inner[p] != i {
                    assert(shorter.contains(inner[p]));
                    let m = choose|m: int| 0 <= m < shorter.len() && shorter[m] == inner[p];
                    assert(order[m] == inner[p]);
                    assert(first(keys[order[m]], keys[order[order.len() - 1]]));
                }
            } else {
                assert(inserted[p] == inner[p] && inserted[q] == inner[q]);
            }
        }
    }
}

/// Each index of the first `n` appears in a stable order exactly once.
pub proof fn lemma_stable_order_contents<K>(keys: Seq<K>, first: spec_fn(K, K) -> bool, n: nat)
    ensures
        stable_order(keys, first, n).len() == n,
        forall|x: int| #[trigger] stable_order(keys, first, n).contains(x) <==> 0 <= x < n,
    decreases n,
{
    if n > 0 {
        lemma_stable_order_contents(keys, first, (n - 1) as nat);
        lemma_insert_contents(stable_order(keys, first, (n - 1) as nat), keys, first, n - 1);
    }
}

/// Under a total preorder, a stable order lists its keys sorted: each comes
/// before or with every one after it.
pub proof fn law_a_stable_order_is_sorted<K>(keys: Seq<K>, first: spec_fn(K, K) -> bool, n: nat)
    requires
        total_preorder(first),
    ensures
        ordered_by(stable_order(keys, first, n), keys, first),
    decreases n,
{
    if n > 0 {
        law_a_stable_order_is_sorted(keys, first, (n - 1) as nat);
        lemma_insert_ordered(stable_order(keys, first, (n - 1) as nat), keys, first, n - 1);
    }
}

} // verus!
