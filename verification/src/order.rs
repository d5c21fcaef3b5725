//! Stable ordering of positions by a key.

use vstd::prelude::*;

verus! {

/// Keys as mathematical integers.
pub open spec fn ints(s: Seq<usize>) -> Seq<int> {
    s.map_values(|x: usize| x as int)
}

/// Where an item with key `k` goes in `order`: behind every item whose key is not greater.
pub open spec fn slot(keys: Seq<int>, order: Seq<int>, k: int) -> int
    decreases order.len(),
{
    if order.len() == 0 || keys[order.last()] <= k {
        order.len() as int
    } else {
        slot(keys, order.drop_last(), k)
    }
}

/// The positions of `keys` by ascending key, positions with equal keys in their own order.
pub open spec fn stable_order(keys: Seq<int>) -> Seq<int> {
    order_of_first(keys, keys.len())
}

/// `stable_order` of the first `n` keys.
pub open spec fn order_of_first(keys: Seq<int>, n: nat) -> Seq<int>
    decreases n,
{
    if n == 0 {
        Seq::empty()
    } else {
        let i = n - 1;
        let before = order_of_first(keys, i as nat);
        before.insert(slot(keys, before, keys[i]), i)
    }
}

/// Whether `order` lists each of the first `n` positions once, by ascending key and,
/// where keys are equal, by position.
pub open spec fn is_stable_order(keys: Seq<int>, order: Seq<int>, n: nat) -> bool {
    &&& order.len() == n
    &&& forall|i: int| 0 <= i < n ==> 0 <= #[trigger] order[i] < n
    &&& forall|j: int| 0 <= j < n ==> order.contains(j)
    &&& forall|i: int, j: int|
        0 <= i < j < n ==> keys[#[trigger] order[i]] < keys[#[trigger] order[j]] || (
        keys[order[i]] == keys[order[j]] && order[i] < order[j])
}

proof fn lemma_slot(keys: Seq<int>, order: Seq<int>, k: int)
    ensures
        0 <= slot(keys, order, k) <= order.len(),
        slot(keys, order, k) > 0 ==> keys[order[slot(keys, order, k) - 1]] <= k,
        forall|i: int| slot(keys, order, k) <= i < order.len() ==> keys[#[trigger] order[i]] > k,
    decreases order.len(),
{
    if order.len() > 0 && keys[order.last()] > k {
        lemma_slot(keys, order.drop_last(), k);
        let p = slot(keys, order, k);
        assert forall|i: int| p <= i < order.len() implies keys[#[trigger] order[i]] > k by {
            if i < order.len() - 1 {
                assert(order.drop_last()[i] == order[i]);
            }
        }
    }
}

/// The stable order lists every position once, by ascending key and then by position.
pub proof fn lemma_stable_order(keys: Seq<int>)
    ensures
        is_stable_order(keys, stable_order(keys), keys.len()),
{
    lemma_order_of_first(keys, keys.len());
}

proof fn lemma_order_of_first(keys: Seq<int>, n: nat)
    requires
        n <= keys.len(),
    ensures
        is_stable_order(keys, order_of_first(keys, n), n),
    decreases n,
{
    if n > 0 {
        let m = n - 1;
        let before = order_of_first(keys, m as nat);
        let k = keys[m];
        let p = slot(keys, before, k);
        let order = order_of_first(keys, n);
        lemma_order_of_first(keys, m as nat);
        lemma_slot(keys, before, k);
        assert(order == before.insert(p, m));
        assert forall|i: int| 0 <= i < n implies 0 <= #[trigger] order[i] < n by {
            if i < p {
                assert(order[i] == before[i]);
            } else if i > p {
                assert(order[i] == before[i - 1]);
            }
        }
        assert forall|j: int| 0 <= j < n implies order.contains(j) by {
            if j == m {
                assert(order[p] == m);
            } else {
                assert(before.contains(j));
                let i = choose|i: int| 0 <= i < before.len() && before[i] == j;
                if i < p {
                    assert(order[i] == j);
                } else {
                    assert(order[i + 1] == j);
                }
            }
        }
        assert forall|i: int, j: int| 0 <= i < j < n implies keys[#[trigger] order[i]]
            < keys[#[trigger] order[j]] || (keys[order[i]] == keys[order[j]] && order[i]
            < order[j]) by {
            if i < p {
                assert(order[i] == before[i]);
                if j < p {
                    assert(order[j] == before[j]);
                } else if j > p {
                    assert(order[j] == before[j - 1]);
                } else if i < p - 1 {
                    assert(keys[before[i]] <= keys[before[p - 1]]);
                }
            } else {
                assert(order[j] == before[j - 1]);
                if i > p {
                    assert(order[i] == before[i - 1]);
                }
            }
        }
    }
}

/// Keys that already ascend keep their order.
pub proof fn lemma_sorted_order(keys: Seq<int>)
    requires
        forall|i: int, j: int| 0 <= i <= j < keys.len() ==> keys[i] <= keys[j],
    ensures
        stable_order(keys) == Seq::new(keys.len(), |i: int| i),
{
    lemma_sorted_prefix(keys, keys.len());
}

proof fn lemma_sorted_prefix(keys: Seq<int>, n: nat)
    requires
        n <= keys.len(),
        forall|i: int, j: int| 0 <= i <= j < keys.len() ==> keys[i] <= keys[j],
    ensures
        order_of_first(keys, n) == Seq::new(n, |i: int| i),
    decreases n,
{
    if n > 0 {
        lemma_sorted_prefix(keys, (n - 1) as nat);
        assert(order_of_first(keys, n) == Seq::new(n, |i: int| i));
    }
}

/// The positions of `keys` by ascending key, positions with equal keys in their own order.
pub fn order_by(keys: &Vec<usize>) -> (order: Vec<usize>)
    ensures
        ints(order@) == stable_order(ints(keys@)),
        is_stable_order(ints(keys@), ints(order@), keys@.len()),
{
    let mut order: Vec<usize> = Vec::new();
    let ghost ks = ints(keys@);
    let mut n: usize = 0;
    assert(ints(order@) == order_of_first(ks, 0));
    while n < keys.len()
        invariant
            n <= keys@.len(),
            ks == ints(keys@),
            ints(order@) == order_of_first(ks, n as nat),
        decreases keys@.len() - n,
    {
        let ghost before = ints(order@);
        proof {
            lemma_order_of_first(ks, n as nat);
            assert(before.len() == order@.len());
        }
        let mut p: usize = order.len();
        assert(before.take(p as int) == before);
        while p > 0 && keys[order[p - 1]] > keys[n]
            invariant
                n < keys@.len(),
                ks == ints(keys@),
                before == ints(order@),
                is_stable_order(ks, before, n as nat),
                p <= order@.len(),
                slot(ks, before, ks[n as int]) == slot(ks, before.take(p as int), ks[n as int]),
                p > 0 ==> order@[p - 1] == before[p - 1] && before[p - 1] < n,
            decreases p,
        {
            assert(before.take(p as int).drop_last() == before.take(p - 1));
            assert(before.take(p as int).last() == before[p - 1]);
            p -= 1;
            assert(p > 0 ==> 0 <= before[p - 1] < n);
        }
        if p > 0 {
            assert(before.take(p as int).last() == before[p - 1]);
        }
        assert(p == slot(ks, before, ks[n as int]));
        order.insert(p, n);
        n += 1;
        assert(ints(order@) == before.insert(p as int, n - 1));
    }
    proof {
        lemma_stable_order(ks);
    }
    order
}

} // verus!
