//! How many records have each weight.
use crate::corpus::preparer::{bump, bumped};
use std::collections::BTreeMap;
use vstd::prelude::*;
use vstd::std_specs::cmp::OrdSpec;
use vstd::std_specs::iter::IteratorSpec;

verus! {

/// How many records a table says have a weight.
pub open spec fn count_at(weights: Map<u64, u64>, weight: u64) -> u64 {
    if weights.contains_key(weight) {
        weights[weight]
    } else {
        0
    }
}

/// How many records have each weight, with one more.
pub open spec fn one_more(weights: Map<u64, u64>, weight: u64) -> Map<u64, u64> {
    weights.insert(weight, bumped(count_at(weights, weight), 1))
}

/// Adds one to the count of a weight.
pub(crate) fn count_weight(weights: &mut BTreeMap<u64, u64>, weight: u64)
    ensures
        final(weights)@ == one_more(old(weights)@, weight),
{
    broadcast use vstd::std_specs::btree::group_btree_axioms;

    let known: u64 = match weights.get(&weight) {
        Some(n) => *n,
        None => 0,
    };
    weights.insert(weight, bump(known, 1));
}

/// The weights with their counts, by ascending weight.
pub open spec fn lists_weights(weights: Map<u64, u64>, pairs: Seq<(u64, u64)>) -> bool {
    &&& forall|i: int, j: int|
        0 <= i < j < pairs.len() ==> (#[trigger] pairs[i]).0 < (#[trigger] pairs[j]).0
    &&& forall|i: int|
        0 <= i < pairs.len() ==> weights.contains_key((#[trigger] pairs[i]).0)
            && weights[pairs[i].0] == pairs[i].1
    &&& forall|w: u64| #[trigger]
        weights.contains_key(w) ==> exists|i: int|
            0 <= i < pairs.len() && (#[trigger] pairs[i]).0 == w
}

/// The list of the weights of a table.
pub open spec fn weight_list(weights: Map<u64, u64>) -> Seq<(u64, u64)> {
    choose|pairs: Seq<(u64, u64)>| lists_weights(weights, pairs)
}

proof fn lemma_same_pairs(weights: Map<u64, u64>, a: Seq<(u64, u64)>, b: Seq<(u64, u64)>, n: int)
    requires
        lists_weights(weights, a),
        lists_weights(weights, b),
        0 <= n <= a.len(),
        n <= b.len(),
    ensures
        forall|i: int| 0 <= i < n ==> #[trigger] a[i] == b[i],
    decreases n,
{
    if n > 0 {
        lemma_same_pairs(weights, a, b, n - 1);
        lemma_no_less(weights, a, b, n - 1);
        lemma_no_less(weights, b, a, n - 1);
    }
}

proof fn lemma_no_less(weights: Map<u64, u64>, a: Seq<(u64, u64)>, b: Seq<(u64, u64)>, k: int)
    requires
        lists_weights(weights, a),
        lists_weights(weights, b),
        0 <= k < a.len(),
        k < b.len(),
        forall|i: int| 0 <= i < k ==> #[trigger] a[i] == b[i],
    ensures
        a[k].0 >= b[k].0,
{
    assert(weights.contains_key(a[k].0));
    let j = choose|j: int| 0 <= j < b.len() && (#[trigger] b[j]).0 == a[k].0;
    if j < k {
        assert(a[j] == b[j]);
    }
}

proof fn lemma_no_longer(weights: Map<u64, u64>, a: Seq<(u64, u64)>, b: Seq<(u64, u64)>)
    requires
        lists_weights(weights, a),
        lists_weights(weights, b),
    ensures
        a.len() <= b.len(),
{
    if a.len() > b.len() {
        let n = b.len() as int;
        lemma_same_pairs(weights, a, b, n);
        assert(weights.contains_key(a[n].0));
        let j = choose|j: int| 0 <= j < b.len() && (#[trigger] b[j]).0 == a[n].0;
        assert(a[j] == b[j]);
    }
}

/// A table has one list.
pub proof fn lemma_weight_list(weights: Map<u64, u64>, pairs: Seq<(u64, u64)>)
    requires
        lists_weights(weights, pairs),
    ensures
        weight_list(weights) == pairs,
{
    let list = weight_list(weights);
    assert(lists_weights(weights, list));
    lemma_no_longer(weights, list, pairs);
    lemma_no_longer(weights, pairs, list);
    lemma_same_pairs(weights, list, pairs, list.len() as int);
    assert(list =~= pairs);
}

/// The keys of a table come by ascending weight.
proof fn lemma_keys_ascend(keys: Seq<u64>)
    requires
        vstd::std_specs::btree::increasing_seq(keys),
    ensures
        forall|i: int, j: int| 0 <= i < j < keys.len() ==> #[trigger] keys[i] < #[trigger] keys[j],
{
    broadcast use vstd::std_specs::btree::group_btree_axioms;

    assert forall|i: int, j: int| 0 <= i < j < keys.len() implies #[trigger] keys[i]
        < #[trigger] keys[j] by {
        assert(keys[i].cmp_spec(&keys[j]) is Less);
    }
}

/// The weights with their counts, by ascending weight.
pub fn weight_pairs(weights: &BTreeMap<u64, u64>) -> (r: Vec<(u64, u64)>)
    ensures
        r@ == weight_list(weights@),
{
    broadcast use vstd::std_specs::btree::group_btree_axioms;

    let iter = weights.iter();
    let ghost all = iter.remaining();
    let ghost keys = all.map_values(|kv: (&u64, &u64)| *kv.0);
    proof {
        lemma_keys_ascend(keys);
        assert forall|i: int, j: int| 0 <= i < j < all.len() implies *(#[trigger] all[i]).0 < *(
        #[trigger] all[j]).0 by {
            assert(keys[i] < keys[j]);
        }
        assert forall|i: int| 0 <= i < all.len() implies weights@.contains_key(
            *(#[trigger] all[i]).0,
        ) && weights@[*all[i].0] == *all[i].1 by {
            assert(weights@.contains_key(*all[i].0));
        }
        assert forall|w: u64| #[trigger] weights@.contains_key(w) implies exists|i: int|
            0 <= i < all.len() && *(#[trigger] all[i]).0 == w by {
            assert(all.contains((&w, &weights@[w])));
            let i = choose|i: int| 0 <= i < all.len() && all[i] == (&w, &weights@[w]);
            assert(*all[i].0 == w);
        }
    }
    let mut pairs: Vec<(u64, u64)> = Vec::new();
    for (w, n) in it: iter
        invariant
            it.seq() == all,
            pairs@.len() == it.index(),
            forall|i: int|
                0 <= i < pairs@.len() ==> #[trigger] pairs@[i] == (*all[i].0, *all[i].1),
    {
        pairs.push((*w, *n));
    }
    proof {
        assert forall|w: u64| #[trigger] weights@.contains_key(w) implies exists|i: int|
            0 <= i < pairs@.len() && (#[trigger] pairs@[i]).0 == w by {
            let i = choose|i: int| 0 <= i < all.len() && *(#[trigger] all[i]).0 == w;
            assert(pairs@[i].0 == w);
        }
        assert forall|i: int, j: int| 0 <= i < j < pairs@.len() implies (#[trigger] pairs@[i]).0 < (
        #[trigger] pairs@[j]).0 by {
            assert(*all[i].0 < *all[j].0);
        }
        lemma_weight_list(weights@, pairs@);
    }
    pairs
}

} // verus!
