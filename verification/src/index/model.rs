//! The counts that an index stores: keys with frequencies, and the trie of the
//! prefixes that are frequent enough.
use vstd::prelude::*;

verus! {

/// Keys with their counts, in the order in which they are supplied.
pub type Log = Seq<(Seq<u32>, u64)>;

/// `p` is a prefix of `k`.
pub open spec fn is_prefix(p: Seq<u32>, k: Seq<u32>) -> bool {
    p.len() <= k.len() && k.take(p.len() as int) == p
}

/// The sum of the counts of the keys that satisfy `f`.
pub open spec fn wsum(log: Log, f: spec_fn(Seq<u32>) -> bool) -> nat
    decreases log.len(),
{
    if log.len() == 0 {
        0
    } else {
        wsum(log.drop_last(), f) + if f(log.last().0) {
            log.last().1 as nat
        } else {
            0
        }
    }
}

/// The frequency of a prefix: the counts of all keys that start with it.
pub open spec fn total(log: Log, p: Seq<u32>) -> nat {
    wsum(log, |k: Seq<u32>| is_prefix(p, k))
}

/// `k` is `key`.
pub open spec fn is_key(key: Seq<u32>, k: Seq<u32>) -> bool {
    k == key
}

/// The count of a key itself.
pub open spec fn exact(log: Log, key: Seq<u32>) -> nat {
    wsum(log, |k: Seq<u32>| is_key(key, k))
}

/// A key is more frequent than an index can hold.
pub open spec fn key_too_frequent(log: Log) -> bool {
    exists|key: Seq<u32>| #[trigger] exact(log, key) > i64::MAX
}

/// `k` is `p`, or goes on from `p` through a prefix that is not frequent
/// enough to be kept.
pub open spec fn stays(log: Log, p: Seq<u32>, min: nat, k: Seq<u32>) -> bool {
    is_prefix(p, k) && (k.len() == p.len() || total(log, k.take(p.len() as int + 1)) < min)
}

/// The frequency of `p` that no kept longer prefix carries.
pub open spec fn residual(log: Log, p: Seq<u32>, min: nat) -> nat {
    wsum(log, |k: Seq<u32>| stays(log, p, min, k))
}

/// A node of the trie, with its children by label.
pub struct Trie {
    pub terminal: nat,
    pub children: Seq<(u32, Trie)>,
}

/// The frequency of a node: its own and that of all below it.
pub open spec fn freq(t: Trie) -> nat
    decreases t, 0nat,
{
    t.terminal + forest_freq(t.children, t.children.len())
}

/// The frequency of the first `n` tries of a list.
pub open spec fn forest_freq(children: Seq<(u32, Trie)>, n: nat) -> nat
    decreases children, n,
{
    if n == 0 || n > children.len() {
        0
    } else {
        forest_freq(children, (n - 1) as nat) + freq(children[n - 1].1)
    }
}

/// The number of nodes of a trie.
pub open spec fn node_total(t: Trie) -> nat
    decreases t, 0nat,
{
    1 + forest_nodes(t.children, t.children.len())
}

/// The number of nodes of the first `n` tries of a list.
pub open spec fn forest_nodes(children: Seq<(u32, Trie)>, n: nat) -> nat
    decreases children, n,
{
    if n == 0 || n > children.len() {
        0
    } else {
        forest_nodes(children, (n - 1) as nat) + node_total(children[n - 1].1)
    }
}

/// The labels of a list of tries ascend.
pub open spec fn labels_ascend(children: Seq<(u32, Trie)>) -> bool {
    forall|i: int, j: int|
        0 <= i < j < children.len() ==> (#[trigger] children[i]).0 < (#[trigger] children[j]).0
}

/// One of the tries has this label.
pub open spec fn has_label(children: Seq<(u32, Trie)>, label: u32) -> bool {
    exists|i: int| 0 <= i < children.len() && (#[trigger] children[i]).0 == label
}

/// The trie holds exactly the prefixes from `p` on whose frequency is at least
/// `min`, each with its frequency, and its residual at the node.
pub open spec fn represents(t: Trie, log: Log, p: Seq<u32>, min: nat) -> bool
    decreases t,
{
    &&& t.terminal == residual(log, p, min)
    &&& freq(t) == total(log, p)
    &&& labels_ascend(t.children)
    &&& forall|label: u32| #[trigger]
        has_label(t.children, label) <==> total(log, p.push(label)) >= min
    &&& forest_represents(t.children, log, p, min)
}

/// Each trie of the list represents its prefix.
pub open spec fn forest_represents(
    children: Seq<(u32, Trie)>,
    log: Log,
    p: Seq<u32>,
    min: nat,
) -> bool
    decreases children,
{
    forall|i: int|
        0 <= i < children.len() ==> represents(
            (#[trigger] children[i]).1,
            log,
            p.push(children[i].0),
            min,
        )
}

pub proof fn lemma_wsum_push(log: Log, key: Seq<u32>, count: u64, f: spec_fn(Seq<u32>) -> bool)
    ensures
        wsum(log.push((key, count)), f) == wsum(log, f) + if f(key) {
            count as nat
        } else {
            0
        },
{
    assert(log.push((key, count)).drop_last() =~= log);
}

/// Predicates that agree on the keys give the same sum.
pub proof fn lemma_wsum_same(
    log: Log,
    f: spec_fn(Seq<u32>) -> bool,
    g: spec_fn(Seq<u32>) -> bool,
)
    requires
        forall|i: int| 0 <= i < log.len() ==> f((#[trigger] log[i]).0) == g(log[i].0),
    ensures
        wsum(log, f) == wsum(log, g),
    decreases log.len(),
{
    if log.len() > 0 {
        let init = log.drop_last();
        assert forall|i: int| 0 <= i < init.len() implies f((#[trigger] init[i]).0) == g(
            init[i].0,
        ) by {
            assert(init[i] == log[i]);
        }
        lemma_wsum_same(init, f, g);
        assert(log[log.len() - 1] == log.last());
    }
}

/// The sum splits along predicates that exclude each other.
pub proof fn lemma_wsum_split(
    log: Log,
    f: spec_fn(Seq<u32>) -> bool,
    g: spec_fn(Seq<u32>) -> bool,
    h: spec_fn(Seq<u32>) -> bool,
)
    requires
        forall|i: int|
            0 <= i < log.len() ==> f((#[trigger] log[i]).0) == (g(log[i].0) || h(log[i].0)) && !(g(
                log[i].0,
            ) && h(log[i].0)),
    ensures
        wsum(log, f) == wsum(log, g) + wsum(log, h),
    decreases log.len(),
{
    if log.len() > 0 {
        let init = log.drop_last();
        assert forall|i: int| 0 <= i < init.len() implies f((#[trigger] init[i]).0) == (g(init[i].0)
            || h(init[i].0)) && !(g(init[i].0) && h(init[i].0)) by {
            assert(init[i] == log[i]);
        }
        lemma_wsum_split(init, f, g, h);
        assert(log[log.len() - 1] == log.last());
    }
}

/// A weaker predicate has the larger sum.
pub proof fn lemma_wsum_mono(
    log: Log,
    f: spec_fn(Seq<u32>) -> bool,
    g: spec_fn(Seq<u32>) -> bool,
)
    requires
        forall|i: int| 0 <= i < log.len() && f((#[trigger] log[i]).0) ==> g(log[i].0),
    ensures
        wsum(log, f) <= wsum(log, g),
    decreases log.len(),
{
    if log.len() > 0 {
        let init = log.drop_last();
        assert forall|i: int| 0 <= i < init.len() && f((#[trigger] init[i]).0) implies g(
            init[i].0,
        ) by {
            assert(init[i] == log[i]);
        }
        lemma_wsum_mono(init, f, g);
        assert(log[log.len() - 1] == log.last());
    }
}

/// A key that satisfies the predicate counts.
pub proof fn lemma_wsum_at_least(log: Log, f: spec_fn(Seq<u32>) -> bool, i: int)
    requires
        0 <= i < log.len(),
        f(log[i].0),
    ensures
        wsum(log, f) >= log[i].1,
    decreases log.len(),
{
    if i < log.len() - 1 {
        assert(log.drop_last()[i] == log[i]);
        lemma_wsum_at_least(log.drop_last(), f, i);
    }
}

pub proof fn lemma_prefix_push(p: Seq<u32>, label: u32, k: Seq<u32>)
    ensures
        is_prefix(p.push(label), k) <==> is_prefix(p, k) && k.len() > p.len() && k[p.len() as int]
            == label,
{
    if is_prefix(p.push(label), k) {
        assert(k.take(p.len() as int) =~= k.take(p.len() as int + 1).take(p.len() as int));
        assert(p.push(label).take(p.len() as int) =~= p);
        assert(k.take(p.len() as int + 1)[p.len() as int] == label);
    }
    if is_prefix(p, k) && k.len() > p.len() && k[p.len() as int] == label {
        assert(k.take(p.len() as int + 1) =~= p.push(label));
    }
}

pub proof fn lemma_prefix_at(p: Seq<u32>, k: Seq<u32>, i: int)
    requires
        is_prefix(p, k),
        0 <= i < p.len(),
    ensures
        p[i] == k[i],
{
    assert(k.take(p.len() as int)[i] == k[i]);
}

pub proof fn lemma_total_push(log: Log, key: Seq<u32>, count: u64, p: Seq<u32>)
    ensures
        total(log.push((key, count)), p) == total(log, p) + if is_prefix(p, key) {
            count as nat
        } else {
            0
        },
{
    lemma_wsum_push(log, key, count, |k: Seq<u32>| is_prefix(p, k));
}

/// A longer prefix is at most as frequent.
pub proof fn lemma_total_mono(log: Log, p: Seq<u32>, q: Seq<u32>)
    requires
        is_prefix(p, q),
    ensures
        total(log, q) <= total(log, p),
{
    assert forall|k: Seq<u32>| is_prefix(q, k) implies is_prefix(p, k) by {
        assert(k.take(p.len() as int) =~= k.take(q.len() as int).take(p.len() as int));
    }
    lemma_wsum_mono(log, |k: Seq<u32>| is_prefix(q, k), |k: Seq<u32>| is_prefix(p, k));
}

/// A further key changes nothing of a prefix that it does not start with.
pub proof fn lemma_represents_push(
    t: Trie,
    log: Log,
    p: Seq<u32>,
    min: nat,
    key: Seq<u32>,
    count: u64,
)
    requires
        represents(t, log, p, min),
        !is_prefix(p, key),
    ensures
        represents(t, log.push((key, count)), p, min),
    decreases t,
{
    let more = log.push((key, count));
    lemma_total_push(log, key, count, p);
    assert forall|label: u32| !is_prefix(p.push(label), key) by {
        lemma_prefix_push(p, label, key);
    }
    assert forall|label: u32| total(more, p.push(label)) == total(log, p.push(label)) by {
        lemma_total_push(log, key, count, p.push(label));
    }
    lemma_residual_push_other(log, p, min, key, count);
    assert forall|label: u32| #[trigger]
        has_label(t.children, label) <==> total(more, p.push(label)) >= min by {
        assert(total(more, p.push(label)) == total(log, p.push(label)));
    }
    lemma_forest_represents_push(t.children, log, p, min, key, count);
}

pub proof fn lemma_forest_represents_push(
    children: Seq<(u32, Trie)>,
    log: Log,
    p: Seq<u32>,
    min: nat,
    key: Seq<u32>,
    count: u64,
)
    requires
        forest_represents(children, log, p, min),
        forall|i: int|
            0 <= i < children.len() ==> !is_prefix(p.push((#[trigger] children[i]).0), key),
    ensures
        forest_represents(children, log.push((key, count)), p, min),
    decreases children,
{
    let more = log.push((key, count));
    assert forall|i: int| 0 <= i < children.len() implies represents(
        (#[trigger] children[i]).1,
        more,
        p.push(children[i].0),
        min,
    ) by {
        assert(represents(children[i].1, log, p.push(children[i].0), min));
        lemma_represents_push(children[i].1, log, p.push(children[i].0), min, key, count);
    }
}

proof fn lemma_residual_push_other(
    log: Log,
    p: Seq<u32>,
    min: nat,
    key: Seq<u32>,
    count: u64,
)
    requires
        !is_prefix(p, key),
    ensures
        residual(log.push((key, count)), p, min) == residual(log, p, min),
{
    let more = log.push((key, count));
    let f = |k: Seq<u32>| stays(more, p, min, k);
    let g = |k: Seq<u32>| stays(log, p, min, k);
    lemma_wsum_push(log, key, count, f);
    assert forall|i: int| 0 <= i < log.len() implies f((#[trigger] log[i]).0) == g(log[i].0) by {
        let k = log[i].0;
        if is_prefix(p, k) && k.len() > p.len() {
            let q = k.take(p.len() as int + 1);
            lemma_total_push(log, key, count, q);
            assert(q =~= p.push(k[p.len() as int]));
            lemma_prefix_push(p, k[p.len() as int], key);
        }
    }
    lemma_wsum_same(log, f, g);
}

/// With every prefix kept, what stays at a prefix is its own count.
pub proof fn lemma_residual_of_all(log: Log, p: Seq<u32>)
    requires
        forall|i: int| 0 <= i < log.len() ==> (#[trigger] log[i]).1 > 0,
    ensures
        residual(log, p, 1) == exact(log, p),
{
    let min: nat = 1;
    let f = |k: Seq<u32>| stays(log, p, min, k);
    let g = |k: Seq<u32>| is_key(p, k);
    assert forall|i: int| 0 <= i < log.len() implies f((#[trigger] log[i]).0) == g(log[i].0) by {
        let k = log[i].0;
        if is_prefix(p, k) {
            if k.len() > p.len() {
                let q = k.take(p.len() as int + 1);
                assert(q.take(q.len() as int) =~= q);
                assert(is_prefix(q, k));
                lemma_wsum_at_least(log, |k: Seq<u32>| is_prefix(q, k), i);
                assert(total(log, q) >= 1);
            } else {
                assert(k.take(p.len() as int) =~= k);
            }
        }
        if k == p {
            assert(k.take(p.len() as int) =~= p);
        }
    }
    lemma_wsum_same(log, f, g);
}

pub proof fn lemma_forest_freq_push(children: Seq<(u32, Trie)>, x: (u32, Trie), n: nat)
    requires
        n <= children.len(),
    ensures
        forest_freq(children.push(x), n) == forest_freq(children, n),
        forest_nodes(children.push(x), n) == forest_nodes(children, n),
        forest_freq(children.push(x), (children.len() + 1) as nat) == forest_freq(
            children.push(x),
            children.len(),
        ) + freq(x.1),
        forest_nodes(children.push(x), (children.len() + 1) as nat) == forest_nodes(
            children.push(x),
            children.len(),
        ) + node_total(x.1),
    decreases n,
{
    let more = children.push(x);
    assert(more[children.len() as int] == x);
    if n > 0 {
        lemma_forest_freq_push(children, x, (n - 1) as nat);
        assert(more[n - 1] == children[n - 1]);
    }
}

} // verus!
