//! Stable ranking of items by a key.

use crate::table::Key;
use vstd::prelude::*;

verus! {

/// A number of tokens as a key: more tokens come first.
#[derive(Clone, Copy, Debug)]
pub struct Weight {
    pub tokens: u64,
}

impl View for Weight {
    type V = u64;

    open spec fn view(&self) -> u64 {
        self.tokens
    }
}

impl Key for Weight {
    open spec fn below(a: u64, b: u64) -> bool {
        a > b
    }

    proof fn irreflexive(a: u64) {
    }

    proof fn transitive(a: u64, b: u64, c: u64) {
    }

    proof fn total(a: u64, b: u64) {
    }

    fn is_below(&self, other: &Self) -> (r: bool) {
        self.tokens > other.tokens
    }

    fn duplicate(&self) -> (r: Self) {
        Weight { tokens: self.tokens }
    }
}

/// Item `a` ranks before item `b`: its key comes first, or is the same and the
/// item is listed first.
pub open spec fn ranks_before<K: Key>(keys: Seq<K::V>, a: usize, b: usize) -> bool {
    K::below(keys[a as int], keys[b as int]) || (keys[a as int] == keys[b as int] && a < b)
}

/// `order` lists every item once, each before those it ranks before.
pub open spec fn is_ranking<K: Key>(order: Seq<usize>, keys: Seq<K::V>) -> bool {
    &&& order.len() == keys.len()
    &&& forall|i: int| 0 <= i < order.len() ==> #[trigger] order[i] < keys.len()
    &&& forall|i: int, j: int|
        0 <= i < j < order.len() ==> ranks_before::<K>(keys, #[trigger] order[i], #[trigger] order[j])
}

/// The ranking of items by key.
pub open spec fn ranking<K: Key>(keys: Seq<K::V>) -> Seq<usize> {
    choose|order: Seq<usize>| is_ranking::<K>(order, keys)
}

proof fn lemma_not_before<K: Key>(keys: Seq<K::V>, a: usize, b: usize)
    requires
        ranks_before::<K>(keys, a, b),
    ensures
        a != b,
        !ranks_before::<K>(keys, b, a),
{
    K::irreflexive(keys[a as int]);
    if ranks_before::<K>(keys, b, a) && K::below(keys[a as int], keys[b as int]) && K::below(
        keys[b as int],
        keys[a as int],
    ) {
        K::transitive(keys[a as int], keys[b as int], keys[a as int]);
    }
}

proof fn lemma_distinct<K: Key>(order: Seq<usize>, keys: Seq<K::V>)
    requires
        is_ranking::<K>(order, keys),
    ensures
        forall|i: int, j: int|
            0 <= i < j < order.len() ==> #[trigger] order[i] != #[trigger] order[j],
{
    assert forall|i: int, j: int| 0 <= i < j < order.len() implies #[trigger] order[i]
        != #[trigger] order[j] by {
        lemma_not_before::<K>(keys, order[i], order[j]);
    }
}

proof fn lemma_ranking_complete(order: Seq<usize>, n: nat)
    requires
        order.len() == n,
        forall|i: int| 0 <= i < order.len() ==> #[trigger] order[i] < n,
        forall|i: int, j: int|
            0 <= i < j < order.len() ==> #[trigger] order[i] != #[trigger] order[j],
    ensures
        forall|k: usize| k < n ==> #[trigger] order.contains(k),
{
    let all = vstd::set_lib::set_int_range(0, n as int);
    vstd::set_lib::lemma_int_range(0, n as int);
    let ints = order.map_values(|u: usize| u as int);
    ints.unique_seq_to_set();
    assert(ints.to_set().subset_of(all)) by {
        assert forall|x: int| ints.to_set().contains(x) implies all.contains(x) by {
            let i = ints.index_of(x);
            assert(order[i] as int == x);
        }
    }
    vstd::set_lib::lemma_subset_equality(ints.to_set(), all);
    assert forall|k: usize| k < n implies #[trigger] order.contains(k) by {
        assert(all.contains(k as int));
        assert(ints.contains(k as int));
        let i = ints.index_of(k as int);
        assert(order[i] == k);
    }
}

/// A ranking lists every item.
pub proof fn every_item_is_ranked<K: Key>(order: Seq<usize>, keys: Seq<K::V>, k: usize)
    requires
        is_ranking::<K>(order, keys),
        k < keys.len(),
    ensures
        order.contains(k),
{
    lemma_distinct::<K>(order, keys);
    lemma_ranking_complete(order, keys.len());
}

/// There is one ranking.
pub proof fn ranking_is_unique<K: Key>(a: Seq<usize>, b: Seq<usize>, keys: Seq<K::V>)
    requires
        is_ranking::<K>(a, keys),
        is_ranking::<K>(b, keys),
    ensures
        a == b,
{
    if a != b {
        let i = lemma_first_difference(a, b);
        lemma_distinct::<K>(a, keys);
        lemma_distinct::<K>(b, keys);
        every_item_is_ranked::<K>(a, keys, b[i]);
        every_item_is_ranked::<K>(b, keys, a[i]);
        let p = a.index_of(b[i]);
        let q = b.index_of(a[i]);
        assert(a[p] == b[i] && b[q] == a[i]);
        assert(p > i) by {
            if p < i {
                assert(b[p] == a[p]);
            }
        }
        assert(q > i) by {
            if q < i {
                assert(a[q] == b[q]);
            }
        }
        assert(ranks_before::<K>(keys, a[i], a[p]));
        assert(ranks_before::<K>(keys, b[i], b[q]));
        lemma_not_before::<K>(keys, a[i], b[i]);
    }
}

/// Every list of items has a ranking.
pub proof fn every_list_has_a_ranking<K: Key>(keys: Seq<K::V>)
    requires
        keys.len() <= usize::MAX,
    ensures
        is_ranking::<K>(ranking::<K>(keys), keys),
{
    let order = lemma_ranked::<K>(keys);
}

proof fn lemma_ranked<K: Key>(keys: Seq<K::V>) -> (order: Seq<usize>)
    requires
        keys.len() <= usize::MAX,
    ensures
        is_ranking::<K>(order, keys),
    decreases keys.len(),
{
    if keys.len() == 0 {
        seq![]
    } else {
        let rest = keys.drop_last();
        let before = lemma_ranked::<K>(rest);
        let at = lemma_place::<K>(before, rest, keys.last(), 0);
        let n = rest.len() as usize;
        let order = before.insert(at, n);
        assert forall|i: int| 0 <= i < order.len() implies #[trigger] order[i] < keys.len() by {
            if i != at {
                let x = if i < at { i } else { i - 1 };
                assert(order[i] == before[x]);
            }
        }
        assert forall|i: int, j: int| 0 <= i < j < order.len() implies ranks_before::<K>(
            keys,
            #[trigger] order[i],
            #[trigger] order[j],
        ) by {
            let x = if i < at { i } else { i - 1 };
            let y = if j < at { j } else { j - 1 };
            if i != at && j != at {
                assert(ranks_before::<K>(rest, before[x], before[y]));
            } else if i == at {
                assert(order[j] == before[j - 1]);
                assert(K::below(keys.last(), rest[before[j - 1] as int]));
            } else {
                assert(order[i] == before[i]);
                assert(not_after::<K>(rest[before[i] as int], keys.last()));
            }
        }
        order
    }
}

/// Where an item with key `k`, listed after the others, stands among them.
proof fn lemma_place<K: Key>(order: Seq<usize>, keys: Seq<K::V>, k: K::V, from: int) -> (at: int)
    requires
        is_ranking::<K>(order, keys),
        0 <= from <= order.len(),
        forall|i: int| 0 <= i < from ==> not_after::<K>(keys[#[trigger] order[i] as int], k),
    ensures
        0 <= at <= order.len(),
        forall|i: int| 0 <= i < at ==> not_after::<K>(keys[#[trigger] order[i] as int], k),
        forall|i: int| at <= i < order.len() ==> K::below(k, keys[#[trigger] order[i] as int]),
    decreases order.len() - from,
{
    if from == order.len() {
        from
    } else {
        let here = keys[order[from] as int];
        K::total(k, here);
        if K::below(k, here) {
            assert forall|i: int| from <= i < order.len() implies K::below(
                k,
                keys[#[trigger] order[i] as int],
            ) by {
                if i > from {
                    assert(ranks_before::<K>(keys, order[from], order[i]));
                    if keys[order[i] as int] != here {
                        K::transitive(k, here, keys[order[i] as int]);
                    }
                }
            }
            from
        } else {
            lemma_place::<K>(order, keys, k, from + 1)
        }
    }
}

proof fn lemma_first_difference(a: Seq<usize>, b: Seq<usize>) -> (i: int)
    requires
        a.len() == b.len(),
        a != b,
    ensures
        0 <= i < a.len(),
        a[i] != b[i],
        forall|j: int| 0 <= j < i ==> a[j] == b[j],
    decreases a.len(),
{
    if a.len() == 0 {
        assert(a =~= b);
        0
    } else if a.drop_last() != b.drop_last() {
        let i = lemma_first_difference(a.drop_last(), b.drop_last());
        assert forall|j: int| 0 <= j < i implies a[j] == b[j] by {
            assert(a.drop_last()[j] == b.drop_last()[j]);
        }
        i
    } else {
        let n = a.len() - 1;
        assert forall|j: int| 0 <= j < n implies a[j] == b[j] by {
            assert(a.drop_last()[j] == b.drop_last()[j]);
        }
        if a[n] == b[n] {
            assert(a =~= b);
        }
        n
    }
}

/// Item `a` comes no later than key `k`.
spec fn not_after<K: Key>(a: K::V, k: K::V) -> bool {
    a == k || K::below(a, k)
}

/// Ranks items by key.
pub fn rank<K: Key>(keys: &Vec<K>) -> (order: Vec<usize>)
    ensures
        is_ranking::<K>(order@, keys@.map_values(|k: K| k@)),
        order@ == ranking::<K>(keys@.map_values(|k: K| k@)),
{
    let ghost all = keys@.map_values(|k: K| k@);
    let mut order: Vec<usize> = Vec::new();
    let mut i: usize = 0;
    while i < keys.len()
        invariant
            i <= keys.len(),
            all == keys@.map_values(|k: K| k@),
            is_ranking::<K>(order@, all.take(i as int)),
        decreases keys.len() - i,
    {
        let ghost before = order@;
        let ghost w = all.take(i as int);
        let ghost key = all[i as int];
        let mut lo: usize = 0;
        let mut hi: usize = order.len();
        while lo < hi
            invariant
                i < keys.len(),
                lo <= hi <= order.len(),
                order.len() == i,
                all == keys@.map_values(|k: K| k@),
                w == all.take(i as int),
                key == all[i as int],
                is_ranking::<K>(order@, w),
                forall|j: int| 0 <= j < lo ==> not_after::<K>(w[#[trigger] order@[j] as int], key),
                forall|j: int| hi <= j < order.len() ==> K::below(key, w[#[trigger] order@[j] as int]),
            decreases hi - lo,
        {
            let mid: usize = lo + (hi - lo) / 2;
            let ghost at = w[order@[mid as int] as int];
            assert(order@[mid as int] < w.len());
            if keys[i].is_below(&keys[order[mid]]) {
                proof {
                    assert forall|j: int| mid <= j < order.len() implies K::below(
                        key,
                        w[#[trigger] order@[j] as int],
                    ) by {
                        if j > mid {
                            assert(ranks_before::<K>(w, order@[mid as int], order@[j]));
                            if w[order@[j] as int] != at {
                                K::transitive(key, at, w[order@[j] as int]);
                            }
                        }
                    }
                }
                hi = mid;
            } else {
                proof {
                    K::total(key, at);
                    assert forall|j: int| 0 <= j <= mid implies not_after::<K>(
                        w[#[trigger] order@[j] as int],
                        key,
                    ) by {
                        if j < mid {
                            assert(ranks_before::<K>(w, order@[j], order@[mid as int]));
                            let x = w[order@[j] as int];
                            if x != at && at != key {
                                K::transitive(x, at, key);
                            }
                        }
                    }
                }
                lo = mid + 1;
            }
        }
        order.insert(lo, i);
        proof {
            let w1 = all.take(i + 1);
            assert(order@ =~= before.insert(lo as int, i));
            assert forall|a: int| 0 <= a < order.len() implies #[trigger] order@[a] < w1.len() by {
                if a != lo {
                    let x = if a < lo { a } else { a - 1 };
                    assert(order@[a] == before[x]);
                }
            }
            assert forall|a: int, b: int| 0 <= a < b < order.len() implies ranks_before::<K>(
                w1,
                #[trigger] order@[a],
                #[trigger] order@[b],
            ) by {
                let x = if a < lo { a } else { a - 1 };
                let y = if b < lo { b } else { b - 1 };
                if a != lo && b != lo {
                    assert(ranks_before::<K>(w, before[x], before[y]));
                } else if a == lo {
                    assert(order@[b] == before[b - 1]);
                    assert(K::below(key, w[before[b - 1] as int]));
                } else {
                    assert(order@[a] == before[a]);
                    assert(not_after::<K>(w[before[a] as int], key));
                }
            }
        }
        i = i + 1;
    }
    proof {
        assert(all.take(i as int) =~= all);
        ranking_is_unique::<K>(order@, ranking::<K>(all), all);
    }
    order
}

} // verus!
