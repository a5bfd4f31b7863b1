//! What was added determines the bytes of an index.
use crate::index::builder::{all_chains, chains};
use crate::index::merge::{lemma_wsum_append, merged_index, same_sums};
use crate::index::mode::IndexMode;
use crate::index::model::{
    exact, forest_represents, has_label, is_key, labels_ascend, lemma_wsum_at_least, node_total,
    represents, wsum, Log, Trie,
};
use crate::index::pending::{log_ok, scalars};
use crate::index::shard::strictly_ascending;
use crate::index::writer::{index_file, written_index, IndexWriteStats};
use crate::ordered::{lemma_lex_total_order, lex_leq};
use vstd::prelude::*;

verus! {

/// The labels up to the same place are the same.
proof fn lemma_same_children_labels(
    c: Seq<(u32, Trie)>,
    d: Seq<(u32, Trie)>,
    n: int,
)
    requires
        labels_ascend(c),
        labels_ascend(d),
        forall|label: u32| #[trigger] has_label(c, label) <==> has_label(d, label),
        0 <= n <= c.len(),
        n <= d.len(),
    ensures
        forall|i: int| 0 <= i < n ==> (#[trigger] c[i]).0 == d[i].0,
    decreases n,
{
    if n > 0 {
        lemma_same_children_labels(c, d, n - 1);
        let k = n - 1;
        lemma_no_less_label(c, d, k);
        lemma_no_less_label(d, c, k);
    }
}

/// A list cannot have a lesser label at the first place where two differ.
proof fn lemma_no_less_label(c: Seq<(u32, Trie)>, d: Seq<(u32, Trie)>, k: int)
    requires
        labels_ascend(c),
        labels_ascend(d),
        forall|label: u32| #[trigger] has_label(c, label) <==> has_label(d, label),
        0 <= k < c.len(),
        k < d.len(),
        forall|i: int| 0 <= i < k ==> (#[trigger] c[i]).0 == d[i].0,
    ensures
        c[k].0 >= d[k].0,
{
    assert(has_label(c, c[k].0));
    let j = choose|j: int| 0 <= j < d.len() && (#[trigger] d[j]).0 == c[k].0;
    if j < k {
        assert(c[j].0 == d[j].0);
        assert(c[j].0 < c[k].0);
    }
}

/// Lists with the same labels are as long as each other.
proof fn lemma_no_more_labels(c: Seq<(u32, Trie)>, d: Seq<(u32, Trie)>)
    requires
        labels_ascend(c),
        labels_ascend(d),
        forall|label: u32| #[trigger] has_label(c, label) <==> has_label(d, label),
    ensures
        c.len() <= d.len(),
{
    if c.len() > d.len() {
        let n = d.len() as int;
        lemma_same_children_labels(c, d, n);
        assert(has_label(c, c[n].0));
        let j = choose|j: int| 0 <= j < d.len() && (#[trigger] d[j]).0 == c[n].0;
        assert(c[j].0 == d[j].0);
        assert(c[j].0 < c[n].0);
    }
}

/// Only one trie represents a log.
proof fn lemma_trie_is_one(t: Trie, u: Trie, log: Log, p: Seq<u32>, min: nat)
    requires
        represents(t, log, p, min),
        represents(u, log, p, min),
    ensures
        t == u,
    decreases t,
{
    let c = t.children;
    let d = u.children;
    assert forall|label: u32| #[trigger] has_label(c, label) <==> has_label(d, label) by {}
    lemma_no_more_labels(c, d);
    lemma_no_more_labels(d, c);
    lemma_same_children_labels(c, d, c.len() as int);
    lemma_forest_is_one(c, d, log, p, min);
}

proof fn lemma_forest_is_one(
    c: Seq<(u32, Trie)>,
    d: Seq<(u32, Trie)>,
    log: Log,
    p: Seq<u32>,
    min: nat,
)
    requires
        c.len() == d.len(),
        forall|i: int| 0 <= i < c.len() ==> (#[trigger] c[i]).0 == d[i].0,
        forest_represents(c, log, p, min),
        forest_represents(d, log, p, min),
    ensures
        c == d,
    decreases c,
{
    assert forall|i: int| 0 <= i < c.len() implies #[trigger] c[i] == d[i] by {
        assert(represents(c[i].1, log, p.push(c[i].0), min));
        assert(represents(d[i].1, log, p.push(d[i].0), min));
        lemma_trie_is_one(c[i].1, d[i].1, log, p.push(c[i].0), min);
    }
    assert(c =~= d);
}

proof fn lemma_init_sound(log: Log)
    requires
        log.len() > 0,
        strictly_ascending(log),
        log_ok(log),
    ensures
        strictly_ascending(log.drop_last()),
        log_ok(log.drop_last()),
        forall|i: int| 0 <= i < log.drop_last().len() ==> (#[trigger] log.drop_last()[i]).0
            != log.last().0,
{
    let init = log.drop_last();
    assert forall|i: int, j: int| 0 <= i < j < init.len() implies lex_leq::<u32>(
        (#[trigger] init[i]).0,
        (#[trigger] init[j]).0,
    ) && init[i].0 != init[j].0 by {
        assert(init[i] == log[i] && init[j] == log[j]);
    }
    assert forall|i: int| 0 <= i < init.len() implies {
        &&& (#[trigger] init[i]).0.len() > 0
        &&& 0 < init[i].1 <= i64::MAX
        &&& scalars(init[i].0)
    } by {
        assert(init[i] == log[i]);
    }
    assert forall|i: int| 0 <= i < init.len() implies (#[trigger] init[i]).0 != log.last().0 by {
        assert(init[i] == log[i]);
        assert(log[i].0 != log[log.len() - 1].0);
    }
}

/// A key that counts something occurs.
proof fn lemma_counted_occurs(log: Log, key: Seq<u32>)
    ensures
        exact(log, key) > 0 ==> exists|i: int| 0 <= i < log.len() && (#[trigger] log[i]).0 == key,
    decreases log.len(),
{
    if log.len() > 0 {
        lemma_counted_occurs(log.drop_last(), key);
        if exact(log, key) > 0 {
            if log.last().0 == key {
                assert(log[log.len() - 1].0 == key);
            } else {
                let i = choose|i: int|
                    0 <= i < log.drop_last().len() && (#[trigger] log.drop_last()[i]).0 == key;
                assert(log[i].0 == key);
            }
        }
    }
}

/// The last key of one log is a key of another with the same sums.
proof fn lemma_last_occurs(a: Log, b: Log)
    requires
        a.len() > 0,
        log_ok(a),
        same_sums(a, b),
    ensures
        exists|i: int| 0 <= i < b.len() && (#[trigger] b[i]).0 == a.last().0,
{
    let key = a.last().0;
    let f = |k: Seq<u32>| is_key(key, k);
    lemma_wsum_at_least(a, f, a.len() - 1);
    assert(a[a.len() - 1].1 > 0);
    assert(wsum(a, f) == wsum(b, f));
    lemma_counted_occurs(b, key);
}

proof fn lemma_last_counts(log: Log)
    requires
        log.len() > 0,
        strictly_ascending(log),
        log_ok(log),
    ensures
        exact(log, log.last().0) == log.last().1,
{
    lemma_init_sound(log);
    lemma_counted_occurs(log.drop_last(), log.last().0);
}

/// Logs whose keys ascend are the same where their sums are.
proof fn lemma_log_is_one(a: Log, b: Log)
    requires
        strictly_ascending(a),
        strictly_ascending(b),
        log_ok(a),
        log_ok(b),
        same_sums(a, b),
    ensures
        a == b,
    decreases a.len(),
{
    if a.len() == 0 {
        if b.len() > 0 {
            lemma_last_occurs(b, a);
        }
        assert(a =~= b);
    } else {
        lemma_last_occurs(a, b);
        let x = a.last().0;
        let j = choose|j: int| 0 <= j < b.len() && (#[trigger] b[j]).0 == x;
        lemma_last_occurs(b, a);
        let y = b.last().0;
        let i = choose|i: int| 0 <= i < a.len() && (#[trigger] a[i]).0 == y;
        if j < b.len() - 1 {
            assert(lex_leq::<u32>(b[j].0, b[b.len() - 1].0));
        }
        if i < a.len() - 1 {
            assert(lex_leq::<u32>(a[i].0, a[a.len() - 1].0));
        }
        lemma_lex_total_order::<u32>(x, y, x);
        assert(x == y);
        lemma_last_counts(a);
        lemma_last_counts(b);
        let f = |k: Seq<u32>| is_key(x, k);
        assert(wsum(a, f) == wsum(b, f));
        assert(a.last() == b.last());
        lemma_init_sound(a);
        lemma_init_sound(b);
        assert forall|g: spec_fn(Seq<u32>) -> bool| #[trigger] wsum(a.drop_last(), g) == wsum(
            b.drop_last(),
            g,
        ) by {
            assert(wsum(a, g) == wsum(b, g));
        }
        lemma_log_is_one(a.drop_last(), b.drop_last());
        assert(a =~= a.drop_last().push(a.last()));
        assert(b =~= b.drop_last().push(b.last()));
    }
}

/// The bytes and the statistics of an index are determined by the sums of what
/// it was made from, however that was ordered and divided into shards.
pub proof fn law_sums_determine_the_index(
    mode: IndexMode,
    min: nat,
    a: Log,
    b: Log,
    bytes_a: Seq<u8>,
    stats_a: IndexWriteStats,
    bytes_b: Seq<u8>,
    stats_b: IndexWriteStats,
)
    requires
        same_sums(a, b),
        merged_index(mode, min, a, bytes_a, stats_a),
        merged_index(mode, min, b, bytes_b, stats_b),
    ensures
        bytes_a == bytes_b,
        stats_a == stats_b,
{
    let la = choose|log: Log|
        {
            &&& strictly_ascending(log)
            &&& log_ok(log)
            &&& same_sums(log, a)
            &&& #[trigger] written_index(mode, min, log, bytes_a, stats_a)
        };
    let lb = choose|log: Log|
        {
            &&& strictly_ascending(log)
            &&& log_ok(log)
            &&& same_sums(log, b)
            &&& #[trigger] written_index(mode, min, log, bytes_b, stats_b)
        };
    assert forall|f: spec_fn(Seq<u32>) -> bool| #[trigger] wsum(la, f) == wsum(lb, f) by {
        assert(wsum(la, f) == wsum(a, f));
        assert(wsum(lb, f) == wsum(b, f));
        assert(wsum(a, f) == wsum(b, f));
    }
    lemma_log_is_one(la, lb);
    let none = Seq::<u32>::empty();
    let t = choose|t: Trie|
        {
            &&& #[trigger] represents(t, la, none, min)
            &&& bytes_a == index_file(mode, t)
            &&& stats_a.node_count == node_total(t)
        };
    let u = choose|u: Trie|
        {
            &&& #[trigger] represents(u, lb, none, min)
            &&& bytes_b == index_file(mode, u)
            &&& stats_b.node_count == node_total(u)
        };
    lemma_trie_is_one(t, u, la, none, min);
}

/// The sum over the keys of all records is that over the keys of each.
proof fn lemma_chains_without(
    mode: IndexMode,
    records: Seq<(Seq<char>, u64)>,
    i: int,
    f: spec_fn(Seq<u32>) -> bool,
)
    requires
        0 <= i < records.len(),
    ensures
        wsum(all_chains(mode, records), f) == wsum(all_chains(mode, records.remove(i)), f) + wsum(
            chains(mode, records[i].0, records[i].1),
            f,
        ),
    decreases records.len(),
{
    let last = records.last();
    let init = records.drop_last();
    lemma_wsum_append(all_chains(mode, init), chains(mode, last.0, last.1), f);
    if i == records.len() - 1 {
        assert(records.remove(i) =~= init);
    } else {
        lemma_chains_without(mode, init, i, f);
        let rest = records.remove(i);
        assert(rest.drop_last() =~= init.remove(i));
        assert(rest.last() == last);
        lemma_wsum_append(all_chains(mode, rest.drop_last()), chains(mode, last.0, last.1), f);
    }
}

/// The order of records makes no difference to the sums over their keys.
proof fn lemma_chains_permuted(
    mode: IndexMode,
    a: Seq<(Seq<char>, u64)>,
    b: Seq<(Seq<char>, u64)>,
    f: spec_fn(Seq<u32>) -> bool,
)
    requires
        a.to_multiset() == b.to_multiset(),
    ensures
        wsum(all_chains(mode, a), f) == wsum(all_chains(mode, b), f),
    decreases a.len(),
{
    broadcast use vstd::seq_lib::group_to_multiset_ensures;

    assert(a.len() == a.to_multiset().len());
    assert(b.len() == b.to_multiset().len());
    if a.len() == 0 {
        assert(a =~= b);
    } else {
        let n = a.len() - 1;
        let x = a[n];
        assert(a.contains(x));
        assert(b.to_multiset().count(x) > 0);
        assert(b.contains(x));
        let j = choose|j: int| 0 <= j < b.len() && b[j] == x;
        assert(a.remove(n).to_multiset() =~= a.to_multiset().remove(x));
        assert(b.remove(j).to_multiset() =~= b.to_multiset().remove(x));
        lemma_chains_permuted(mode, a.remove(n), b.remove(j), f);
        lemma_chains_without(mode, a, n, f);
        lemma_chains_without(mode, b, j, f);
    }
}

/// The bytes and the statistics of a built index depend neither on the order in
/// which the records came nor on how they were divided into shards.
pub proof fn law_built_index_ignores_order_and_shards(
    mode: IndexMode,
    min: nat,
    a: Seq<(Seq<char>, u64)>,
    b: Seq<(Seq<char>, u64)>,
    bytes_a: Seq<u8>,
    stats_a: IndexWriteStats,
    bytes_b: Seq<u8>,
    stats_b: IndexWriteStats,
)
    requires
        a.to_multiset() == b.to_multiset(),
        merged_index(mode, min, all_chains(mode, a), bytes_a, stats_a),
        merged_index(mode, min, all_chains(mode, b), bytes_b, stats_b),
    ensures
        bytes_a == bytes_b,
        stats_a == stats_b,
{
    assert forall|f: spec_fn(Seq<u32>) -> bool| #[trigger] wsum(all_chains(mode, a), f) == wsum(
        all_chains(mode, b),
        f,
    ) by {
        lemma_chains_permuted(mode, a, b, f);
    }
    law_sums_determine_the_index(
        mode,
        min,
        all_chains(mode, a),
        all_chains(mode, b),
        bytes_a,
        stats_a,
        bytes_b,
        stats_b,
    );
}

} // verus!
