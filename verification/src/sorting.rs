//! The order in which a stable sort by a small integer key visits a
//! sequence: first the places whose key is 0, in ascending order, then the
//! places whose key is 1, and so on.

use vstd::prelude::*;
use vstd::set_lib::{lemma_int_range, lemma_len_subset, set_int_range};

verus! {

/// The places below `k` whose key is `s`, in ascending order.
pub open spec fn places_with_key(keys: Seq<nat>, s: nat, k: nat) -> Seq<int>
    decreases k,
{
    if k == 0 {
        Seq::empty()
    } else if keys[k - 1] == s {
        places_with_key(keys, s, (k - 1) as nat).push(k - 1)
    } else {
        places_with_key(keys, s, (k - 1) as nat)
    }
}

/// The places whose key is below `s`, by ascending key and, for equal keys,
/// in ascending order.
pub open spec fn order_below(keys: Seq<nat>, s: nat) -> Seq<int>
    decreases s,
{
    if s == 0 {
        Seq::empty()
    } else {
        order_below(keys, (s - 1) as nat) + places_with_key(keys, (s - 1) as nat, keys.len())
    }
}

/// The places whose key is below `s`, followed by the places below `k` whose
/// key is `s`.
pub open spec fn order_until(keys: Seq<nat>, s: nat, k: nat) -> Seq<int> {
    order_below(keys, s) + places_with_key(keys, s, k)
}

/// The order in which a stable sort by keys that are at most `bound` visits
/// the places.
pub open spec fn stable_order(keys: Seq<nat>, bound: nat) -> Seq<int> {
    order_below(keys, bound + 1)
}

/// The place `j` comes before the key `s` and the place `k` in the order.
pub open spec fn comes_before(keys: Seq<nat>, j: int, s: nat, k: nat) -> bool {
    0 <= j < keys.len() && (keys[j] < s || (keys[j] == s && j < k))
}

/// The place `i` comes before the place `j` in a stable sort.
pub open spec fn sorts_before(keys: Seq<nat>, i: int, j: int) -> bool {
    keys[i] < keys[j] || (keys[i] == keys[j] && i < j)
}

/// `order_until` holds exactly the places that come before `(s, k)`, each
/// once, in the order of a stable sort.
pub proof fn lemma_order_until(keys: Seq<nat>, s: nat, k: nat)
    requires
        k <= keys.len(),
    ensures
        forall|a: int|
            0 <= a < order_until(keys, s, k).len() ==> comes_before(
                keys,
                #[trigger] order_until(keys, s, k)[a],
                s,
                k,
            ),
        forall|a: int, b: int|
            0 <= a < b < order_until(keys, s, k).len() ==> sorts_before(
                keys,
                #[trigger] order_until(keys, s, k)[a],
                #[trigger] order_until(keys, s, k)[b],
            ),
        forall|j: int|
            comes_before(keys, j, s, k) ==> #[trigger] order_until(keys, s, k).contains(j),
    decreases s, k,
{
    let o = order_until(keys, s, k);
    if k > 0 {
        let prev = order_until(keys, s, (k - 1) as nat);
        lemma_order_until(keys, s, (k - 1) as nat);
        if keys[k - 1] == s {
            assert(o =~= prev.push(k - 1));
            assert forall|j: int| comes_before(keys, j, s, k) implies #[trigger] o.contains(j) by {
                if j == k - 1 {
                    assert(o[o.len() - 1] == j);
                } else {
                    assert(prev.contains(j));
                    let a = choose|a: int| 0 <= a < prev.len() && prev[a] == j;
                    assert(o[a] == j);
                }
            }
        } else {
            assert(o =~= prev);
        }
    } else if s > 0 {
        let prev = order_until(keys, (s - 1) as nat, keys.len());
        lemma_order_until(keys, (s - 1) as nat, keys.len());
        assert(o =~= prev);
    } else {
        assert(o =~= Seq::empty());
    }
}

/// A sequence of different places below `m` has at most `m` entries.
pub proof fn lemma_distinct_bounded(o: Seq<int>, m: nat)
    requires
        forall|a: int| 0 <= a < o.len() ==> 0 <= #[trigger] o[a] < m,
        forall|a: int, b: int| 0 <= a < b < o.len() ==> o[a] != o[b],
    ensures
        o.len() <= m,
{
    assert(o.no_duplicates());
    o.unique_seq_to_set();
    lemma_int_range(0, m as int);
    assert(o.to_set().subset_of(set_int_range(0, m as int)));
    lemma_len_subset(o.to_set(), set_int_range(0, m as int));
}

/// As long as the sort has a place left to visit, it has visited fewer
/// places than there are.
pub proof fn lemma_order_until_short(keys: Seq<nat>, s: nat, k: nat)
    requires
        k < keys.len(),
        keys[k as int] == s,
    ensures
        order_until(keys, s, k).len() < keys.len(),
        order_until(keys, s, k + 1) == order_until(keys, s, k).push(k as int),
{
    let next = order_until(keys, s, k + 1);
    lemma_order_until(keys, s, k + 1);
    assert(next =~= order_until(keys, s, k).push(k as int));
    lemma_distinct_bounded(next, keys.len());
}

/// The order of a stable sort is a permutation of the places: it has as many
/// entries as there are places, and every place occurs in it.
pub proof fn lemma_stable_order(keys: Seq<nat>, bound: nat)
    requires
        forall|j: int| 0 <= j < keys.len() ==> #[trigger] keys[j] <= bound,
    ensures
        stable_order(keys, bound).len() == keys.len(),
        forall|a: int|
            0 <= a < keys.len() ==> 0 <= #[trigger] stable_order(keys, bound)[a] < keys.len(),
        forall|a: int, b: int|
            0 <= a < b < keys.len() ==> sorts_before(
                keys,
                #[trigger] stable_order(keys, bound)[a],
                #[trigger] stable_order(keys, bound)[b],
            ),
        forall|j: int| 0 <= j < keys.len() ==> #[trigger] stable_order(keys, bound).contains(j),
{
    let o = stable_order(keys, bound);
    lemma_order_until(keys, bound + 1, 0);
    assert(o =~= order_until(keys, bound + 1, 0));
    lemma_distinct_bounded(o, keys.len());
    assert forall|j: int| 0 <= j < keys.len() implies #[trigger] o.contains(j) by {
        assert(comes_before(keys, j, bound + 1, 0));
    }
    assert(o.no_duplicates());
    o.unique_seq_to_set();
    lemma_int_range(0, keys.len() as int);
    assert(o.to_set() =~= set_int_range(0, keys.len() as int));
}

} // verus!
