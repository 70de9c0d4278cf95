//! Stable ordering by integer keys.

use vstd::prelude::*;

verus! {

/// Where an entry with this key goes in an order: behind the last entry whose
/// key is not greater.
pub open spec fn slot(keys: Seq<int>, order: Seq<int>, key: int) -> nat
    decreases order.len(),
{
    if order.len() == 0 {
        0
    } else if keys[order.last()] <= key {
        order.len()
    } else {
        slot(keys, order.drop_last(), key)
    }
}

/// The indices of the first `n` keys, sorted by key; equal keys stay in the
/// order in which they came.
pub open spec fn order_of_first(keys: Seq<int>, n: nat) -> Seq<int>
    decreases n,
{
    if n == 0 {
        Seq::empty()
    } else {
        let before = order_of_first(keys, (n - 1) as nat);
        before.insert(slot(keys, before, keys[n - 1]) as int, n - 1)
    }
}

/// The indices of the keys, sorted by key; equal keys stay in the order in
/// which they came.
pub open spec fn stable_order(keys: Seq<int>) -> Seq<int> {
    order_of_first(keys, keys.len())
}

/// The keys, sorted.
pub open spec fn ascending(keys: Seq<int>) -> Seq<int> {
    Seq::new(keys.len(), |i: int| keys[stable_order(keys)[i]])
}

/// Whether entry `a` comes before entry `b`.
pub open spec fn precedes(keys: Seq<int>, a: int, b: int) -> bool {
    keys[a] < keys[b] || (keys[a] == keys[b] && a < b)
}

proof fn lemma_slot(keys: Seq<int>, order: Seq<int>, key: int)
    ensures
        slot(keys, order, key) <= order.len(),
        slot(keys, order, key) > 0 ==> keys[order[slot(keys, order, key) - 1]] <= key,
        forall|i: int| slot(keys, order, key) <= i < order.len() ==> keys[#[trigger] order[i]] > key,
    decreases order.len(),
{
    if order.len() > 0 && keys[order.last()] > key {
        lemma_slot(keys, order.drop_last(), key);
        let p = slot(keys, order.drop_last(), key);
        assert forall|i: int| p <= i < order.len() implies keys[#[trigger] order[i]] > key by {
            if i < order.len() - 1 {
                assert(order.drop_last()[i] == order[i]);
            }
        }
    }
}

proof fn lemma_order_of_first(keys: Seq<int>, n: nat)
    requires
        n <= keys.len(),
    ensures
        order_of_first(keys, n).len() == n,
        forall|i: int| 0 <= i < n ==> 0 <= #[trigger] order_of_first(keys, n)[i] < n,
        forall|i: int, j: int|
            0 <= i < j < n ==> precedes(
                keys,
                #[trigger] order_of_first(keys, n)[i],
                #[trigger] order_of_first(keys, n)[j],
            ),
    decreases n,
{
    if n > 0 {
        let m = (n - 1) as nat;
        lemma_order_of_first(keys, m);
        let before = order_of_first(keys, m);
        let key = keys[n - 1];
        let p = slot(keys, before, key) as int;
        lemma_slot(keys, before, key);
        let after = order_of_first(keys, n);
        assert forall|i: int, j: int| 0 <= i < j < n implies precedes(
            keys,
            #[trigger] after[i],
            #[trigger] after[j],
        ) by {
            if i != p && j != p {
                let i0 = if i < p {
                    i
                } else {
                    i - 1
                };
                let j0 = if j < p {
                    j
                } else {
                    j - 1
                };
                assert(after[i] == before[i0] && after[j] == before[j0]);
            } else if j == p {
                // Everything in front of the slot has a key that is not greater.
                assert(after[i] == before[i]);
                if i < p - 1 {
                    assert(precedes(keys, before[i], before[p - 1]));
                }
            } else {
                assert(after[j] == before[j - 1]);
            }
        }
    }
}

/// A stable order lists every index once, by key and among equal keys by
/// index.
pub proof fn law_stable_order(keys: Seq<int>)
    ensures
        stable_order(keys).len() == keys.len(),
        forall|i: int| 0 <= i < keys.len() ==> 0 <= #[trigger] stable_order(keys)[i] < keys.len(),
        stable_order(keys).no_duplicates(),
        forall|i: int, j: int|
            0 <= i < j < keys.len() ==> precedes(
                keys,
                #[trigger] stable_order(keys)[i],
                #[trigger] stable_order(keys)[j],
            ),
{
    lemma_order_of_first(keys, keys.len());
    let s = stable_order(keys);
    assert forall|i: int, j: int| 0 <= i < s.len() && 0 <= j < s.len() && i != j implies s[i]
        != s[j] by {
        if i < j {
            assert(precedes(keys, s[i], s[j]));
        } else {
            assert(precedes(keys, s[j], s[i]));
        }
    }
}

/// Machine keys as integers.
pub open spec fn key_ints(keys: Seq<i64>) -> Seq<int> {
    Seq::new(keys.len(), |i: int| keys[i] as int)
}

/// Machine indices as integers.
pub open spec fn index_ints(order: Seq<usize>) -> Seq<int> {
    Seq::new(order.len(), |i: int| order[i] as int)
}

/// The indices of the keys in a stable sort.
pub fn sort_order(keys: &Vec<i64>) -> (r: Vec<usize>)
    ensures
        index_ints(r@) == stable_order(key_ints(keys@)),
        r@.len() == keys@.len(),
        forall|i: int| 0 <= i < r@.len() ==> #[trigger] r@[i] < keys@.len(),
{
    let ghost ks = key_ints(keys@);
    let mut order: Vec<usize> = Vec::new();
    let mut n: usize = 0;
    assert(index_ints(order@) =~= Seq::empty());
    while n < keys.len()
        invariant
            n <= keys@.len(),
            ks == key_ints(keys@),
            order@.len() == n,
            index_ints(order@) == order_of_first(ks, n as nat),
            forall|i: int| 0 <= i < n ==> #[trigger] order@[i] < n,
        decreases keys@.len() - n,
    {
        let key: i64 = keys[n];
        let mut p: usize = n;
        let ghost before = index_ints(order@);
        assert(before.take(p as int) =~= before);
        while p > 0 && keys[order[p - 1]] > key
            invariant
                p <= n,
                n < keys@.len(),
                order@.len() == n,
                ks == key_ints(keys@),
                key == keys@[n as int],
                before == index_ints(order@),
                forall|i: int| 0 <= i < n ==> #[trigger] order@[i] < n,
                slot(ks, before, key as int) == slot(ks, before.take(p as int), key as int),
            decreases p,
        {
            assert(before.take(p as int).drop_last() =~= before.take(p - 1));
            p = p - 1;
        }
        order.insert(p, n);
        assert(index_ints(order@) =~= before.insert(p as int, n as int));
        n = n + 1;
    }
    proof {
        law_stable_order(ks);
    }
    order
}

/// Sorted keys never go down, and are the keys that there were: `places` says
/// where each comes from, and no two come from the same place.
pub proof fn law_sorted_keys_ascend(keys: Seq<int>) -> (places: Seq<int>)
    ensures
        ascending(keys).len() == keys.len(),
        places.len() == keys.len(),
        places.no_duplicates(),
        forall|i: int|
            0 <= i < keys.len() ==> 0 <= #[trigger] places[i] < keys.len() && ascending(keys)[i]
                == keys[places[i]],
        forall|i: int, j: int|
            0 <= i <= j < keys.len() ==> #[trigger] ascending(keys)[i] <= #[trigger] ascending(
                keys,
            )[j],
{
    law_stable_order(keys);
    let places = stable_order(keys);
    assert forall|i: int, j: int| 0 <= i <= j < keys.len() implies #[trigger] ascending(keys)[i]
        <= #[trigger] ascending(keys)[j] by {
        if i < j {
            assert(precedes(keys, places[i], places[j]));
        }
    }
    places
}

} // verus!
