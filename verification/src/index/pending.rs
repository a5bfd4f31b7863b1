//! The state of a trie that is being written: the open path, with the closed
//! tries that hang from each of its nodes.
use crate::index::header::zeros;
use crate::index::layout::{
    forest_bytes, forest_fits, kids_of, lemma_forest_push_all, trie_at, trie_bytes, trie_fits,
};
use crate::index::codec::{lemma_varint_len, HEADER_LEN};
use crate::index::model::{
    forest_freq, forest_nodes, forest_represents, freq, has_label, is_prefix,
    lemma_forest_freq_push, lemma_forest_represents_push, lemma_prefix_at, lemma_prefix_push,
    lemma_total_mono, lemma_total_push, lemma_wsum_at_least, lemma_wsum_mono, lemma_wsum_push,
    lemma_wsum_same, lemma_wsum_split, node_total, represents, stays, total, wsum, Log, Trie,
};
use crate::index::node::WrittenChild;
use crate::ordered::{lemma_lex_by_length, lemma_lex_by_position, lex_leq};
use crate::text::scalar;
use vstd::prelude::*;

verus! {

/// A node on the open path.
#[derive(Debug)]
pub struct PendingNode {
    pub label_from_parent: Option<u32>,
    /// The frequency of the key itself, and that of omitted descendants.
    pub terminal: u64,
    pub children: Vec<WrittenChild>,
}

/// The tries that hang from the nodes of the open path.
pub type Tries = Seq<Seq<(u32, Trie)>>;

/// The key goes on from `p` through the open child.
pub open spec fn under(p: Seq<u32>, open: Option<u32>, k: Seq<u32>) -> bool {
    match open {
        Some(label) => is_prefix(p.push(label), k),
        None => false,
    }
}

/// The key starts with `p` and does not go through the open child.
pub open spec fn counted(p: Seq<u32>, open: Option<u32>, k: Seq<u32>) -> bool {
    is_prefix(p, k) && !under(p, open, k)
}

/// The key stays at `p`, and does not go through the open child.
pub open spec fn held(log: Log, p: Seq<u32>, min: nat, open: Option<u32>, k: Seq<u32>) -> bool {
    stays(log, p, min, k) && !under(p, open, k)
}

/// The node of the open path with prefix `p`: its closed children are the
/// prefixes that are kept, and its count is what stays.
#[verifier::opaque]
pub open spec fn level_ok(
    terminal: nat,
    kids: Seq<WrittenChild>,
    children: Seq<(u32, Trie)>,
    log: Log,
    min: nat,
    p: Seq<u32>,
    open: Option<u32>,
    base: int,
) -> bool {
    &&& kids == kids_of(children, base)
    &&& forest_fits(children)
    &&& forest_represents(children, log, p, min)
    &&& forall|label: u32| #[trigger]
        has_label(children, label) <==> total(log, p.push(label)) >= min && open != Some(label)
    &&& terminal == wsum(log, |k: Seq<u32>| held(log, p, min, open, k))
    &&& terminal + forest_freq(children, children.len()) == wsum(
        log,
        |k: Seq<u32>| counted(p, open, k),
    )
}

/// The next label of the path behind its first `d` ones.
pub open spec fn open_at(path: Seq<u32>, d: int) -> Option<u32> {
    if 0 <= d < path.len() {
        Some(path[d])
    } else {
        None
    }
}

/// The bytes before the `n`th node of the path.
pub open spec fn placed(tries: Tries, n: nat) -> Seq<u8>
    decreases n,
{
    if n == 0 || n > tries.len() {
        zeros(HEADER_LEN as nat)
    } else {
        let before = placed(tries, (n - 1) as nat);
        before + forest_bytes(tries[n - 1], tries[n - 1].len(), before.len() as int)
    }
}

/// The number of nodes written for the first `n` nodes of the path.
pub open spec fn written(tries: Tries, n: nat) -> nat
    decreases n,
{
    if n == 0 || n > tries.len() {
        0
    } else {
        written(tries, (n - 1) as nat) + forest_nodes(tries[n - 1], tries[n - 1].len())
    }
}

/// Keys and counts that an index accepts.
pub open spec fn log_ok(log: Log) -> bool {
    forall|i: int|
        0 <= i < log.len() ==> {
            &&& (#[trigger] log[i]).0.len() > 0
            &&& 0 < log[i].1 <= i64::MAX
            &&& scalars(log[i].0)
        }
}

/// Every number is a Unicode scalar value.
pub open spec fn scalars(key: Seq<u32>) -> bool {
    forall|i: int| 0 <= i < key.len() ==> scalar(#[trigger] key[i] as int)
}

/// No key of the log comes behind `last`.
pub open spec fn log_below(log: Log, last: Seq<u32>) -> bool {
    forall|i: int| 0 <= i < log.len() ==> lex_leq::<u32>((#[trigger] log[i]).0, last)
}

/// The state of the open path: each node of it is as it should be.
pub open spec fn path_ok(
    stack: Seq<PendingNode>,
    tries: Tries,
    log: Log,
    min: nat,
    path: Seq<u32>,
) -> bool {
    &&& stack.len() == path.len() + 1
    &&& tries.len() == stack.len()
    &&& forall|d: int|
        0 <= d < stack.len() ==> level_ok(
            (#[trigger] stack[d]).terminal as nat,
            stack[d].children@,
            tries[d],
            log,
            min,
            path.take(d),
            open_at(path, d),
            placed(tries, d as nat).len() as int,
        )
    &&& forall|d: int|
        1 <= d < stack.len() ==> (#[trigger] stack[d]).label_from_parent == Some(path[d - 1])
}

pub proof fn lemma_placed_same(a: Tries, b: Tries, n: nat)
    requires
        n <= a.len(),
        n <= b.len(),
        forall|i: int| 0 <= i < n ==> a[i] == b[i],
    ensures
        placed(a, n) == placed(b, n),
        written(a, n) == written(b, n),
    decreases n,
{
    if n > 0 {
        lemma_placed_same(a, b, (n - 1) as nat);
        assert(a[n - 1] == b[n - 1]);
    }
}

pub proof fn lemma_nodes_within(t: Trie, base: int)
    ensures
        node_total(t) <= trie_bytes(t, base).len(),
    decreases t, 0nat,
{
    lemma_forest_nodes_within(t.children, t.children.len(), base);
    lemma_varint_len(t.terminal);
}

proof fn lemma_forest_nodes_within(children: Seq<(u32, Trie)>, n: nat, base: int)
    ensures
        forest_nodes(children, n) <= forest_bytes(children, n, base).len(),
    decreases children, n,
{
    if n > 0 && n <= children.len() {
        lemma_forest_nodes_within(children, (n - 1) as nat, base);
        let before = forest_bytes(children, (n - 1) as nat, base);
        lemma_nodes_within(children[n - 1].1, base + before.len());
    }
}

/// Every node takes a byte at least.
pub proof fn lemma_written_within(tries: Tries, n: nat)
    ensures
        written(tries, n) + HEADER_LEN <= placed(tries, n).len(),
    decreases n,
{
    if n > 0 && n <= tries.len() {
        lemma_written_within(tries, (n - 1) as nat);
        let before = placed(tries, (n - 1) as nat);
        lemma_forest_nodes_within(tries[n - 1], tries[n - 1].len(), before.len() as int);
    }
}

/// A frequent prefix starts some key.
pub proof fn lemma_total_witness(log: Log, p: Seq<u32>) -> (i: int)
    requires
        total(log, p) > 0,
    ensures
        0 <= i < log.len(),
        is_prefix(p, log[i].0),
    decreases log.len(),
{
    let last = log.last();
    lemma_total_push(log.drop_last(), last.0, last.1, p);
    assert(log.drop_last().push((last.0, last.1)) =~= log);
    if is_prefix(p, last.0) {
        log.len() - 1
    } else {
        let i = lemma_total_witness(log.drop_last(), p);
        assert(log.drop_last()[i] == log[i]);
        i
    }
}

/// A key that goes on from a prefix of `last` and does not come behind it goes
/// on through no greater label.
pub proof fn lemma_label_below(k: Seq<u32>, last: Seq<u32>, p: Seq<u32>, label: u32)
    requires
        is_prefix(p.push(label), k),
        is_prefix(p, last),
        lex_leq::<u32>(k, last),
    ensures
        last.len() > p.len(),
        label <= last[p.len() as int],
{
    let d = p.len() as int;
    lemma_prefix_push(p, label, k);
    assert forall|i: int| 0 <= i < d implies k[i] == last[i] by {
        lemma_prefix_at(p, k, i);
        lemma_prefix_at(p, last, i);
    }
    if last.len() == d {
        lemma_lex_by_length::<u32>(k, last);
    } else if k[d] != last[d] {
        lemma_lex_by_position::<u32>(k, last, d);
    }
}

/// No key of the log starts as a further key does behind what it shares with
/// the last one.
pub proof fn lemma_fresh_prefix(log: Log, last: Seq<u32>, key: Seq<u32>, same: int, q: Seq<u32>)
    requires
        log_below(log, last),
        log.len() == 0 || lex_leq::<u32>(last, key),
        0 <= same < key.len(),
        same <= last.len(),
        last.take(same) == key.take(same),
        same < last.len() ==> last[same] != key[same],
        is_prefix(key.take(same + 1), q),
    ensures
        total(log, q) == 0,
{
    if total(log, q) > 0 {
        let i = lemma_total_witness(log, q);
        let k = log[i].0;
        let p = key.take(same);
        assert(q.take(same + 1) =~= key.take(same + 1));
        assert(k.take(same + 1) =~= k.take(q.len() as int).take(same + 1));
        assert(is_prefix(key.take(same + 1), k));
        assert(key.take(same + 1) =~= p.push(key[same]));
        lemma_label_below(k, last, p, key[same]);
        assert(last[same] >= key[same]);
        assert forall|i: int| 0 <= i < same implies last[i] == key[i] by {
            assert(last.take(same)[i] == last[i]);
            assert(key.take(same)[i] == key[i]);
        }
        lemma_lex_by_position::<u32>(last, key, same);
    }
}

/// A node that has just been opened.
pub proof fn lemma_level_fresh(log: Log, min: nat, p: Seq<u32>, open: Option<u32>, base: int)
    requires
        min > 0,
        total(log, p) == 0,
    ensures
        level_ok(0, Seq::empty(), Seq::empty(), log, min, p, open, base),
{
    reveal(level_ok);
    let none = Seq::<(u32, Trie)>::empty();
    assert(kids_of(none, base) =~= Seq::empty());
    assert forall|label: u32| #[trigger]
        has_label(none, label) <==> total(log, p.push(label)) >= min && open != Some(label) by {
        assert(p.push(label).take(p.len() as int) =~= p);
        lemma_total_mono(log, p, p.push(label));
    }
    lemma_wsum_mono(
        log,
        |k: Seq<u32>| held(log, p, min, open, k),
        |k: Seq<u32>| is_prefix(p, k),
    );
    lemma_wsum_mono(log, |k: Seq<u32>| counted(p, open, k), |k: Seq<u32>| is_prefix(p, k));
}

/// Opening a child below which no key of the log goes.
pub proof fn lemma_level_open(
    terminal: nat,
    kids: Seq<WrittenChild>,
    children: Seq<(u32, Trie)>,
    log: Log,
    min: nat,
    p: Seq<u32>,
    label: u32,
    base: int,
)
    requires
        min > 0,
        level_ok(terminal, kids, children, log, min, p, None, base),
        total(log, p.push(label)) == 0,
    ensures
        level_ok(terminal, kids, children, log, min, p, Some(label), base),
{
    reveal(level_ok);
    let open = Some(label);
    assert forall|l: u32| #[trigger]
        has_label(children, l) <==> total(log, p.push(l)) >= min && open != Some(l) by {
        assert(has_label(children, l) <==> total(log, p.push(l)) >= min && None::<u32> != Some(l));
    }
    assert forall|i: int| 0 <= i < log.len() implies !is_prefix(p.push(label), (#[trigger] log[i]).0)
        || log[i].1 == 0 by {
        if is_prefix(p.push(label), log[i].0) {
            lemma_wsum_at_least(log, |k: Seq<u32>| is_prefix(p.push(label), k), i);
        }
    }
    lemma_wsum_open(log, min, p, label);
}

proof fn lemma_wsum_open(log: Log, min: nat, p: Seq<u32>, label: u32)
    requires
        total(log, p.push(label)) == 0,
    ensures
        wsum(log, |k: Seq<u32>| held(log, p, min, None, k)) == wsum(
            log,
            |k: Seq<u32>| held(log, p, min, Some(label), k),
        ),
        wsum(log, |k: Seq<u32>| counted(p, None, k)) == wsum(
            log,
            |k: Seq<u32>| counted(p, Some(label), k),
        ),
{
    let a = |k: Seq<u32>| held(log, p, min, None, k);
    let b = |k: Seq<u32>| held(log, p, min, Some(label), k);
    let c = |k: Seq<u32>| held(log, p, min, None, k) && is_prefix(p.push(label), k);
    lemma_wsum_split(log, a, b, c);
    lemma_wsum_mono(log, c, |k: Seq<u32>| is_prefix(p.push(label), k));
    let d = |k: Seq<u32>| counted(p, None, k);
    let e = |k: Seq<u32>| counted(p, Some(label), k);
    let f = |k: Seq<u32>| counted(p, None, k) && is_prefix(p.push(label), k);
    lemma_wsum_split(log, d, e, f);
    lemma_wsum_mono(log, f, |k: Seq<u32>| is_prefix(p.push(label), k));
}

/// The trie of a node without an open child represents its prefix.
pub proof fn lemma_level_closed(
    terminal: nat,
    kids: Seq<WrittenChild>,
    children: Seq<(u32, Trie)>,
    log: Log,
    min: nat,
    p: Seq<u32>,
    base: int,
)
    requires
        level_ok(terminal, kids, children, log, min, p, None, base),
    ensures
        represents(Trie { terminal, children }, log, p, min),
        children.len() > 0 ==> total(log, p) >= min,
{
    reveal(level_ok);
    let t = Trie { terminal, children };
    lemma_wsum_same(
        log,
        |k: Seq<u32>| held(log, p, min, None, k),
        |k: Seq<u32>| stays(log, p, min, k),
    );
    lemma_wsum_same(log, |k: Seq<u32>| counted(p, None, k), |k: Seq<u32>| is_prefix(p, k));
    assert forall|label: u32| #[trigger]
        has_label(t.children, label) <==> total(log, p.push(label)) >= min by {
        assert(has_label(children, label) <==> total(log, p.push(label)) >= min && None::<u32>
            != Some(label));
    }
    if children.len() > 0 {
        assert(has_label(children, children[0].0));
        assert(p.push(children[0].0).take(p.len() as int) =~= p);
        lemma_total_mono(log, p, p.push(children[0].0));
    }
}

/// Closing the open child of a node splits the sums of the node.
proof fn lemma_wsum_close(log: Log, min: nat, p: Seq<u32>, label: u32)
    ensures
        wsum(log, |k: Seq<u32>| counted(p, None, k)) == wsum(
            log,
            |k: Seq<u32>| counted(p, Some(label), k),
        ) + total(log, p.push(label)),
        total(log, p.push(label)) >= min ==> wsum(log, |k: Seq<u32>| held(log, p, min, None, k))
            == wsum(log, |k: Seq<u32>| held(log, p, min, Some(label), k)),
        total(log, p.push(label)) < min ==> wsum(log, |k: Seq<u32>| held(log, p, min, None, k))
            == wsum(log, |k: Seq<u32>| held(log, p, min, Some(label), k)) + total(
            log,
            p.push(label),
        ),
{
    let q = p.push(label);
    let a = |k: Seq<u32>| counted(p, None, k);
    let b = |k: Seq<u32>| counted(p, Some(label), k);
    let c = |k: Seq<u32>| is_prefix(q, k);
    assert forall|k: Seq<u32>| is_prefix(q, k) implies is_prefix(p, k) && k.len() > p.len()
        && k.take(p.len() as int + 1) == q by {
        lemma_prefix_push(p, label, k);
    }
    lemma_wsum_split(log, a, b, c);
    let d = |k: Seq<u32>| held(log, p, min, None, k);
    let e = |k: Seq<u32>| held(log, p, min, Some(label), k);
    if total(log, q) >= min {
        assert forall|i: int| 0 <= i < log.len() implies d((#[trigger] log[i]).0) == e(log[i].0) by {
            let k = log[i].0;
            if is_prefix(q, k) {
                assert(!stays(log, p, min, k));
            }
        }
        lemma_wsum_same(log, d, e);
    } else {
        lemma_wsum_split(log, d, e, c);
    }
}

/// A node whose open child has been pruned: its frequency stays at the node.
pub proof fn lemma_level_pruned(
    terminal: nat,
    kids: Seq<WrittenChild>,
    children: Seq<(u32, Trie)>,
    log: Log,
    min: nat,
    p: Seq<u32>,
    label: u32,
    base: int,
)
    requires
        level_ok(terminal, kids, children, log, min, p, Some(label), base),
        total(log, p.push(label)) < min,
    ensures
        level_ok(
            terminal + total(log, p.push(label)),
            kids,
            children,
            log,
            min,
            p,
            None,
            base,
        ),
{
    reveal(level_ok);
    lemma_wsum_close(log, min, p, label);
    assert forall|l: u32| #[trigger]
        has_label(children, l) <==> total(log, p.push(l)) >= min && None::<u32> != Some(l) by {
        assert(has_label(children, l) <==> total(log, p.push(l)) >= min && Some(label) != Some(l));
    }
}

/// A node whose open child has been kept.
#[verifier::rlimit(50)]
pub proof fn lemma_level_kept(
    terminal: nat,
    kids: Seq<WrittenChild>,
    children: Seq<(u32, Trie)>,
    log: Log,
    min: nat,
    p: Seq<u32>,
    label: u32,
    base: int,
    t: Trie,
    last: Seq<u32>,
)
    requires
        min > 0,
        level_ok(terminal, kids, children, log, min, p, Some(label), base),
        total(log, p.push(label)) >= min,
        represents(t, log, p.push(label), min),
        trie_fits(t),
        scalar(label as int),
        log_below(log, last),
        is_prefix(p, last),
        last.len() > p.len(),
        last[p.len() as int] == label,
    ensures
        level_ok(
            terminal,
            kids.push(
                WrittenChild {
                    label,
                    offset: trie_at(
                        t,
                        base + forest_bytes(children, children.len(), base).len(),
                    ) as u64,
                    subtree: freq(t) as u64,
                },
            ),
            children.push((label, t)),
            log,
            min,
            p,
            None,
            base,
        ),
{
    reveal(level_ok);
    let more = children.push((label, t));
    lemma_wsum_close(log, min, p, label);
    lemma_forest_push_all(children, (label, t), base);
    lemma_forest_freq_push(children, (label, t), children.len());
    assert forall|i: int| 0 <= i < children.len() implies (#[trigger] children[i]).0 < label by {
        let l = children[i].0;
        assert(has_label(children, l));
        assert(total(log, p.push(l)) >= min && l != label);
        let w = lemma_total_witness(log, p.push(l));
        lemma_label_below(log[w].0, last, p, l);
    }
    assert forall|i: int, j: int| 0 <= i < j < more.len() implies (#[trigger] more[i]).0 < (
    #[trigger] more[j]).0 by {
        if j < children.len() {
            assert(children[i].0 < children[j].0);
        } else {
            assert(children[i].0 < label);
        }
    }
    assert forall|i: int| 0 <= i < more.len() implies {
        &&& scalar((#[trigger] more[i]).0 as int)
        &&& freq(more[i].1) > 0
        &&& trie_fits(more[i].1)
    } by {
        if i < children.len() {
            assert(more[i] == children[i]);
            assert(scalar(children[i].0 as int));
        }
    }
    assert forall|i: int| 0 <= i < more.len() implies represents(
        (#[trigger] more[i]).1,
        log,
        p.push(more[i].0),
        min,
    ) by {
        if i < children.len() {
            assert(more[i] == children[i]);
            assert(represents(children[i].1, log, p.push(children[i].0), min));
        }
    }
    assert forall|l: u32| #[trigger]
        has_label(more, l) <==> total(log, p.push(l)) >= min && None::<u32> != Some(l) by {
        assert(has_label(children, l) <==> total(log, p.push(l)) >= min && Some(label) != Some(l));
        if has_label(children, l) {
            let i = choose|i: int| 0 <= i < children.len() && (#[trigger] children[i]).0 == l;
            assert(more[i].0 == l);
        }
        if l == label {
            assert(more[children.len() as int].0 == l);
        }
        if has_label(more, l) {
            let i = choose|i: int| 0 <= i < more.len() && (#[trigger] more[i]).0 == l;
            if i < children.len() {
                assert(children[i].0 == l);
            }
        }
    }
}

/// A further key along the path leaves a node above its end as it is, and adds
/// its count to the node at its end.
#[verifier::rlimit(50)]
pub proof fn lemma_level_push_key(
    terminal: nat,
    kids: Seq<WrittenChild>,
    children: Seq<(u32, Trie)>,
    log: Log,
    min: nat,
    key: Seq<u32>,
    count: u64,
    d: int,
    base: int,
)
    requires
        0 <= d <= key.len(),
        level_ok(terminal, kids, children, log, min, key.take(d), open_at(key, d), base),
        min > 0,
        d == key.len() ==> children.len() == 0,
    ensures
        level_ok(
            terminal + if d == key.len() {
                count as nat
            } else {
                0
            },
            kids,
            children,
            log.push((key, count)),
            min,
            key.take(d),
            open_at(key, d),
            base,
        ),
{
    reveal(level_ok);
    let p = key.take(d);
    let open = open_at(key, d);
    let more = log.push((key, count));
    assert(key.take(d).len() == d);
    assert(key.take(d) == p && is_prefix(p, key));
    assert(d < key.len() ==> under(p, open, key)) by {
        if d < key.len() {
            lemma_prefix_push(p, key[d], key);
        }
    }
    // labels other than the open one
    assert forall|l: u32| open != Some(l) implies !is_prefix(p.push(l), key) by {
        lemma_prefix_push(p, l, key);
    }
    assert forall|l: u32| open != Some(l) implies total(more, p.push(l)) == total(
        log,
        p.push(l),
    ) by {
        lemma_total_push(log, key, count, p.push(l));
    }
    assert forall|l: u32| #[trigger]
        has_label(children, l) <==> total(more, p.push(l)) >= min && open != Some(l) by {
        assert(has_label(children, l) <==> total(log, p.push(l)) >= min && open != Some(l));
        assert(open != Some(l) ==> total(more, p.push(l)) == total(log, p.push(l)));
    }
    assert forall|i: int| 0 <= i < children.len() implies !is_prefix(
        p.push((#[trigger] children[i]).0),
        key,
    ) by {
        assert(has_label(children, children[i].0));
    }
    lemma_forest_represents_push(children, log, p, min, key, count);
    let f = |k: Seq<u32>| held(more, p, min, open, k);
    let g = |k: Seq<u32>| held(log, p, min, open, k);
    lemma_wsum_push(log, key, count, f);
    assert forall|i: int| 0 <= i < log.len() implies f((#[trigger] log[i]).0) == g(log[i].0) by {
        let k = log[i].0;
        if is_prefix(p, k) && k.len() > p.len() && !under(p, open, k) {
            let l = k[d];
            assert(k.take(p.len() as int + 1) =~= p.push(l));
            lemma_prefix_push(p, l, k);
            assert(open != Some(l));
            assert(total(more, p.push(l)) == total(log, p.push(l)));
        }
    }
    lemma_wsum_same(log, f, g);
    assert(f(key) == (d == key.len()));
    lemma_wsum_push(log, key, count, |k: Seq<u32>| counted(p, open, k));
}

} // verus!
