//! What holds of every index that is written: it opens, every key reads back,
//! the walk lists the keys in order, and the full check passes.
use crate::index::codec::HEADER_LEN;
use crate::index::error::ErrorView;
use crate::index::header::{
    flags_of, header_bytes, lemma_header_len, lemma_header_read_back, window_of, Header,
};
use crate::index::layout::{
    child_base, forest_fits, kids_of, lemma_child_within, lemma_trie_edges, lemma_trie_find,
    lemma_trie_read_back, trie_at, trie_bytes, trie_find, trie_fits,
};
use crate::index::mode::{mode_fault, IndexMode};
use crate::index::model::{
    exact, forest_represents, freq, has_label, is_key, lemma_residual_of_all, lemma_total_mono,
    node_total, represents, residual, total, Log, Trie,
};
use crate::index::node::{edges_to, holds, NodeView};
use crate::index::pending::{lemma_nodes_within, log_ok, scalars};
use crate::index::reader::{
    edge_place, find_from, find_key, follow, header_mode, open_index, read_header, read_node,
    ReaderView,
};
use crate::index::walker::{walk_edges, walk_node, walk_own, EntryView};
use crate::index::writer::{index_file, key_of, written_index, IndexWriteStats};
use crate::ordered::{lemma_lex_by_length, lemma_lex_by_position, lex_leq};
use crate::text::{lemma_code_point, lemma_same_code_point, scalar};
use vstd::prelude::*;

verus! {

/// The reader of the index of a trie.
pub open spec fn reader_of(mode: IndexMode, t: Trie) -> ReaderView {
    ReaderView {
        data: index_file(mode, t),
        mode,
        root_offset: trie_at(t, HEADER_LEN as int) as u64,
        root_subtree: freq(t) as u64,
        node_count: node_total(t) as u64,
    }
}

/// The payload of an index stands behind its header.
pub proof fn lemma_file(mode: IndexMode, t: Trie)
    requires
        index_file(mode, t).len() <= usize::MAX,
    ensures
        index_file(mode, t).len() == HEADER_LEN + trie_bytes(t, HEADER_LEN as int).len(),
        holds(index_file(mode, t), HEADER_LEN as int, trie_bytes(t, HEADER_LEN as int)),
        holds(
            index_file(mode, t),
            0,
            header_bytes(
                Header {
                    mode,
                    length: (HEADER_LEN + trie_bytes(t, HEADER_LEN as int).len()) as u64,
                    root_offset: trie_at(t, HEADER_LEN as int) as u64,
                    root_subtree: freq(t) as u64,
                    node_count: node_total(t) as u64,
                },
            ),
        ),
{
    let data = index_file(mode, t);
    let payload = trie_bytes(t, HEADER_LEN as int);
    let h = Header {
        mode,
        length: (HEADER_LEN + payload.len()) as u64,
        root_offset: trie_at(t, HEADER_LEN as int) as u64,
        root_subtree: freq(t) as u64,
        node_count: node_total(t) as u64,
    };
    lemma_header_len(h);
    assert(data.subrange(0, HEADER_LEN as int) =~= header_bytes(h));
    assert(data.subrange(HEADER_LEN as int, HEADER_LEN + payload.len()) =~= payload);
}

/// The index of a trie opens.
#[verifier::rlimit(50)]
proof fn lemma_opens(mode: IndexMode, t: Trie)
    requires
        trie_fits(t),
        index_file(mode, t).len() <= usize::MAX,
        index_file(mode, t).len() <= i64::MAX,
        mode_fault(mode) is None,
        mode is Records ==> t.terminal == 0,
    ensures
        open_index(index_file(mode, t)) == Ok::<ReaderView, ErrorView>(reader_of(mode, t)),
{
    let data = index_file(mode, t);
    let base = HEADER_LEN as int;
    let payload = trie_bytes(t, base);
    let h = Header {
        mode,
        length: (HEADER_LEN + payload.len()) as u64,
        root_offset: trie_at(t, base) as u64,
        root_subtree: freq(t) as u64,
        node_count: node_total(t) as u64,
    };
    lemma_file(mode, t);
    lemma_header_read_back(data, h);
    lemma_trie_read_back(data, t, base);
    lemma_nodes_within(t, base);
    assert(header_mode(flags_of(mode), window_of(mode)) == Ok::<IndexMode, ErrorView>(mode));
    assert(read_header(data) == Ok::<ReaderView, ErrorView>(reader_of(mode, t)));
}

/// The trie of an index that is written.
pub proof fn trie_of(mode: IndexMode, min: nat, log: Log, bytes: Seq<u8>, stats: IndexWriteStats) -> (t:
    Trie)
    requires
        written_index(mode, min, log, bytes, stats),
    ensures
        represents(t, log, Seq::empty(), min),
        trie_fits(t),
        bytes == index_file(mode, t),
        bytes.len() <= usize::MAX,
        stats.node_count == node_total(t),
{
    choose|t: Trie|
        {
            &&& #[trigger] represents(t, log, Seq::empty(), min)
            &&& trie_fits(t)
            &&& bytes == index_file(mode, t)
            &&& bytes.len() <= usize::MAX
            &&& stats.node_count == node_total(t)
            &&& stats.pruned_node_count + stats.node_count
                == crate::index::writer::distinct_prefixes(log) + 1
            &&& stats.key_count == crate::index::writer::distinct_keys(log)
            &&& stats.root_subtree == total(log, Seq::empty())
            &&& stats.bytes_written == bytes.len()
        }
}

/// Every index that is written opens, with its mode, its number of nodes and
/// the sum of all counts.
pub proof fn law_written_index_opens(
    mode: IndexMode,
    min: nat,
    log: Log,
    bytes: Seq<u8>,
    stats: IndexWriteStats,
)
    requires
        written_index(mode, min, log, bytes, stats),
        log_ok(log),
        mode_fault(mode) is None,
        mode is Records ==> min == 1,
        bytes.len() <= i64::MAX,
    ensures
        open_index(bytes) matches Ok(reader) && reader.data == bytes && reader.mode == mode
            && reader.node_count == stats.node_count && reader.root_subtree == total(
            log,
            Seq::empty(),
        ),
{
    let t = trie_of(mode, min, log, bytes, stats);
    if mode is Records {
        lemma_residual_of_all(log, Seq::empty());
        lemma_no_empty_key(log);
    }
    lemma_opens(mode, t);
}

proof fn lemma_no_empty_key(log: Log)
    requires
        log_ok(log),
    ensures
        exact(log, Seq::empty()) == 0,
    decreases log.len(),
{
    let none = Seq::<u32>::empty();
    if log.len() > 0 {
        let init = log.drop_last();
        assert forall|i: int| 0 <= i < init.len() implies {
            &&& (#[trigger] init[i]).0.len() > 0
            &&& 0 < init[i].1 <= i64::MAX
            &&& scalars(init[i].0)
        } by {
            assert(init[i] == log[i]);
        }
        lemma_no_empty_key(init);
        assert(log[log.len() - 1].0.len() > 0);
        assert(!is_key(none, log.last().0));
    }
}

/// The edge of a node of a trie with this label.
proof fn lemma_edge_of(t: Trie, base: int, label: char)
    requires
        trie_fits(t),
    ensures
        match edge_place(edges_to(kids_of(t.children, base)), label) {
            Some(i) => 0 <= i < t.children.len() && t.children[i].0 == label as u32 && has_label(
                t.children,
                label as u32,
            ) && trie_find(t, seq![label as u32]) == Some(t.children[i].1),
            None => !has_label(t.children, label as u32),
        },
{
    let edges = edges_to(kids_of(t.children, base));
    assert(forest_fits(t.children));
    if has_label(t.children, label as u32) {
        let i = choose|i: int|
            0 <= i < t.children.len() && (#[trigger] t.children[i]).0 == label as u32;
        lemma_trie_edges(t, base, i);
        lemma_same_code_point(edges[i].label, label);
        assert(edges[i].label == label);
        let j = edge_place(edges, label)->0;
        lemma_trie_edges(t, base, j);
        assert(scalar(t.children[j].0 as int));
        assert(edges[j].label as u32 == t.children[j].0);
        if i < j {
            assert(t.children[i].0 < t.children[j].0);
        } else if j < i {
            assert(t.children[j].0 < t.children[i].0);
        }
        let key = seq![label as u32];
        assert(key[0] == label as u32);
        assert(key.skip(1).len() == 0);
        assert(trie_find(t.children[i].1, key.skip(1)) == Some(t.children[i].1));
    } else if edge_place(edges, label) is Some {
        let j = edge_place(edges, label)->0;
        lemma_trie_edges(t, base, j);
        assert(scalar(t.children[j].0 as int));
        assert(edges[j].label as u32 == t.children[j].0);
        assert(t.children[j].0 == label as u32);
    }
}

/// The node of a trie as it is read.
pub open spec fn node_of(t: Trie, base: int) -> NodeView {
    NodeView {
        offset: trie_at(t, base) as u64,
        terminal: t.terminal as u64,
        subtree: freq(t) as u64,
        edges: edges_to(kids_of(t.children, base)),
    }
}

/// Finding a key in the bytes of a trie is finding it in the trie.
#[verifier::rlimit(50)]
proof fn lemma_find(data: Seq<u8>, t: Trie, base: int, key: Seq<char>)
    requires
        data.len() <= usize::MAX,
        HEADER_LEN <= base,
        trie_fits(t),
        holds(data, base, trie_bytes(t, base)),
    ensures
        match trie_find(t, key_of(key)) {
            Some(u) => find_from(data, node_of(t, base), key) matches Ok(Some(node))
                && node.terminal == u.terminal && node.subtree == freq(u) && u.terminal
                <= u64::MAX && freq(u) <= i64::MAX,
            None => find_from(data, node_of(t, base), key) == Ok::<Option<NodeView>, ErrorView>(
                None,
            ),
        },
    decreases key.len(),
{
    lemma_trie_read_back(data, t, base);
    if key.len() > 0 {
        let labels = key_of(key);
        let label = key[0];
        assert(labels[0] == label as u32);
        assert(labels.skip(1) =~= key_of(key.skip(1)));
        lemma_edge_of(t, base, label);
        match edge_place(node_of(t, base).edges, label) {
            None => {},
            Some(i) => {
                let child = t.children[i].1;
                let at = child_base(t.children, i, base);
                lemma_trie_edges(t, base, i);
                assert(forest_fits(t.children));
                assert(trie_fits(child));
                lemma_child_within(t.children, t.children.len(), i, base);
                lemma_trie_read_back(data, child, at);
                assert(follow(data, node_of(t, base).edges[i]) == Ok::<NodeView, ErrorView>(
                    node_of(child, at),
                ));
                lemma_find(data, child, at, key.skip(1));
                let one = seq![label as u32];
                assert(one[0] == label as u32);
                assert(one.skip(1).len() == 0);
                let k = choose|k: int|
                    0 <= k < t.children.len() && (#[trigger] t.children[k]).0 == label as u32;
                assert(t.children[k].1 == child) by {
                    assert(trie_find(t.children[k].1, one.skip(1)) == Some(t.children[k].1));
                }
            },
        }
    }
}

/// A key reads back from the index with the frequency of all keys that start
/// with it, where that is frequent enough to be kept; its own count is what no
/// kept longer key carries. What is not frequent enough is not found.
pub proof fn law_find_gives_what_was_pushed(
    mode: IndexMode,
    min: nat,
    log: Log,
    bytes: Seq<u8>,
    stats: IndexWriteStats,
    reader: ReaderView,
    key: Seq<char>,
)
    requires
        written_index(mode, min, log, bytes, stats),
        open_index(bytes) == Ok::<ReaderView, ErrorView>(reader),
        log_ok(log),
        mode_fault(mode) is None,
        mode is Records ==> min == 1,
    ensures
        if key.len() == 0 || total(log, key_of(key)) >= min {
            find_key(reader, key) matches Ok(Some(node)) && node.subtree == total(log, key_of(key))
                && node.terminal == residual(log, key_of(key), min)
        } else {
            find_key(reader, key) == Ok::<Option<NodeView>, ErrorView>(None)
        },
{
    let t = trie_of(mode, min, log, bytes, stats);
    let base = HEADER_LEN as int;
    lemma_file(mode, t);
    lemma_reader_of(mode, min, log, bytes, stats, reader, t);
    lemma_trie_read_back(bytes, t, base);
    lemma_find(bytes, t, base, key);
    lemma_trie_find(t, log, Seq::empty(), min, key_of(key));
    assert(Seq::<u32>::empty() + key_of(key) =~= key_of(key));
}

/// In an index of records, a key reads back with its own count and that of all
/// keys that start with it.
pub proof fn law_records_read_back_exactly(
    log: Log,
    bytes: Seq<u8>,
    stats: IndexWriteStats,
    reader: ReaderView,
    key: Seq<char>,
)
    requires
        written_index(IndexMode::Records, 1, log, bytes, stats),
        open_index(bytes) == Ok::<ReaderView, ErrorView>(reader),
        log_ok(log),
        key.len() > 0,
    ensures
        if total(log, key_of(key)) > 0 {
            find_key(reader, key) matches Ok(Some(node)) && node.subtree == total(log, key_of(key))
                && node.terminal == exact(log, key_of(key))
        } else {
            find_key(reader, key) == Ok::<Option<NodeView>, ErrorView>(None)
        },
{
    law_find_gives_what_was_pushed(IndexMode::Records, 1, log, bytes, stats, reader, key);
    lemma_residual_of_all(log, key_of(key));
}

/// The entry that a walk gives for a key.
pub open spec fn entry_of(log: Log, min: nat, key: Seq<char>) -> EntryView {
    EntryView {
        key,
        terminal: residual(log, key_of(key), min) as u64,
        subtree: total(log, key_of(key)) as u64,
    }
}

/// The key is one that a walk gives: not empty, frequent enough to be kept,
/// and, without implicit prefixes, with a count of its own.
pub open spec fn walked(log: Log, min: nat, implicit: bool, key: Seq<char>) -> bool {
    &&& key.len() > 0
    &&& total(log, key_of(key)) >= min
    &&& implicit || residual(log, key_of(key), min) > 0
}

/// `p` is a prefix of `k`.
pub open spec fn starts_with(p: Seq<char>, k: Seq<char>) -> bool {
    p.len() <= k.len() && k.take(p.len() as int) == p
}

/// The entries ascend by key.
pub open spec fn keys_ascend(entries: Seq<EntryView>) -> bool {
    forall|i: int, j: int|
        0 <= i < j < entries.len() ==> lex_leq::<char>(
            (#[trigger] entries[i]).key,
            (#[trigger] entries[j]).key,
        ) && entries[i].key != entries[j].key
}

/// The entries are exactly those of the keys that satisfy `f`, in order.
pub open spec fn lists(
    entries: Seq<EntryView>,
    log: Log,
    min: nat,
    f: spec_fn(Seq<char>) -> bool,
) -> bool {
    &&& keys_ascend(entries)
    &&& forall|i: int|
        0 <= i < entries.len() ==> f((#[trigger] entries[i]).key) && entries[i] == entry_of(
            log,
            min,
            entries[i].key,
        )
    &&& forall|key: Seq<char>| #[trigger] f(key) ==> entries.contains(entry_of(log, min, key))
}

/// The keys of a node and below it.
spec fn in_node(log: Log, min: nat, implicit: bool, p: Seq<char>, key: Seq<char>) -> bool {
    starts_with(p, key) && walked(log, min, implicit, key)
}

/// The keys below the children of a node from the `i`th on.
spec fn in_edges(
    log: Log,
    min: nat,
    implicit: bool,
    p: Seq<char>,
    children: Seq<(u32, Trie)>,
    i: int,
    key: Seq<char>,
) -> bool {
    walked(log, min, implicit, key) && exists|j: int|
        i <= j < children.len() && #[trigger] starts_with(p.push(children[j].0 as char), key)
}

proof fn lemma_starts_push(p: Seq<char>, c: char, k: Seq<char>)
    ensures
        starts_with(p.push(c), k) <==> starts_with(p, k) && k.len() > p.len() && k[p.len() as int]
            == c,
{
    if starts_with(p.push(c), k) {
        assert(k.take(p.len() as int) =~= k.take(p.len() as int + 1).take(p.len() as int));
        assert(p.push(c).take(p.len() as int) =~= p);
        assert(k.take(p.len() as int + 1)[p.len() as int] == c);
    }
    if starts_with(p, k) && k.len() > p.len() && k[p.len() as int] == c {
        assert(k.take(p.len() as int + 1) =~= p.push(c));
    }
}

/// Where two keys part, their labels order them.
proof fn lemma_keys_part(p: Seq<char>, c: char, d: char, a: Seq<char>, b: Seq<char>)
    requires
        starts_with(p.push(c), a),
        starts_with(p.push(d), b),
        (c as u32) < d as u32,
    ensures
        lex_leq::<char>(a, b),
        a != b,
{
    lemma_starts_push(p, c, a);
    lemma_starts_push(p, d, b);
    let n = p.len() as int;
    assert forall|k: int| 0 <= k < n implies a[k] == b[k] by {
        assert(a.take(n)[k] == a[k]);
        assert(b.take(n)[k] == b[k]);
    }
    lemma_lex_by_position::<char>(a, b, n);
}

/// One list behind another, all of whose keys come first.
proof fn lemma_lists_join(
    a: Seq<EntryView>,
    b: Seq<EntryView>,
    log: Log,
    min: nat,
    f: spec_fn(Seq<char>) -> bool,
    g: spec_fn(Seq<char>) -> bool,
    h: spec_fn(Seq<char>) -> bool,
)
    requires
        lists(a, log, min, f),
        lists(b, log, min, g),
        forall|x: Seq<char>, y: Seq<char>|
            #[trigger] f(x) && #[trigger] g(y) ==> lex_leq::<char>(x, y) && x != y,
        forall|x: Seq<char>| #[trigger] h(x) == (f(x) || g(x)),
    ensures
        lists(a + b, log, min, h),
{
    let all = a + b;
    assert forall|i: int, j: int| 0 <= i < j < all.len() implies lex_leq::<char>(
        (#[trigger] all[i]).key,
        (#[trigger] all[j]).key,
    ) && all[i].key != all[j].key by {
        if j < a.len() {
            assert(all[i] == a[i] && all[j] == a[j]);
        } else if i >= a.len() {
            assert(all[i] == b[i - a.len()] && all[j] == b[j - a.len()]);
        } else {
            assert(all[i] == a[i] && all[j] == b[j - a.len()]);
            assert(f(a[i].key) && g(b[j - a.len()].key));
        }
    }
    assert forall|i: int| 0 <= i < all.len() implies h((#[trigger] all[i]).key) && all[i]
        == entry_of(log, min, all[i].key) by {
        if i < a.len() {
            assert(all[i] == a[i]);
        } else {
            assert(all[i] == b[i - a.len()]);
        }
    }
    assert forall|key: Seq<char>| #[trigger] h(key) implies all.contains(
        entry_of(log, min, key),
    ) by {
        let e = entry_of(log, min, key);
        if f(key) {
            assert(a.contains(e));
            let k = choose|k: int| 0 <= k < a.len() && a[k] == e;
            assert(all[k] == e);
        } else {
            assert(g(key));
            assert(b.contains(e));
            let k = choose|k: int| 0 <= k < b.len() && b[k] == e;
            assert(all[k + a.len()] == e);
        }
    }
}

proof fn lemma_lists_same(
    a: Seq<EntryView>,
    log: Log,
    min: nat,
    f: spec_fn(Seq<char>) -> bool,
    g: spec_fn(Seq<char>) -> bool,
)
    requires
        lists(a, log, min, f),
        forall|x: Seq<char>| #[trigger] f(x) == #[trigger] g(x),
    ensures
        lists(a, log, min, g),
{
    assert forall|key: Seq<char>| #[trigger] g(key) implies a.contains(
        entry_of(log, min, key),
    ) by {
        assert(f(key));
    }
    assert forall|i: int| 0 <= i < a.len() implies g((#[trigger] a[i]).key) && a[i] == entry_of(
        log,
        min,
        a[i].key,
    ) by {
        assert(f(a[i].key));
    }
}

proof fn lemma_key_push(p: Seq<char>, label: u32)
    requires
        scalar(label as int),
    ensures
        key_of(p.push(label as char)) == key_of(p).push(label),
{
    assert(key_of(p.push(label as char)) =~= key_of(p).push(label));
}

/// The walk over the bytes of a trie lists its keys.
#[verifier::rlimit(50)]
proof fn lemma_walk_node(
    data: Seq<u8>,
    implicit: bool,
    t: Trie,
    base: int,
    p: Seq<char>,
    log: Log,
    min: nat,
)
    requires
        data.len() <= usize::MAX,
        HEADER_LEN <= base,
        trie_fits(t),
        holds(data, base, trie_bytes(t, base)),
        represents(t, log, key_of(p), min),
        p.len() > 0 ==> total(log, key_of(p)) >= min,
        min > 0,
    ensures
        walk_node(data, implicit, node_of(t, base), p).fault is None,
        lists(
            walk_node(data, implicit, node_of(t, base), p).entries,
            log,
            min,
            |key: Seq<char>| in_node(log, min, implicit, p, key),
        ),
    decreases t, 1nat, 0nat,
{
    let node = node_of(t, base);
    lemma_walk_edges(data, implicit, t, base, 0, p, log, min);
    let own = walk_own(implicit, node, p);
    let rest = walk_edges(data, implicit, node, 0, p);
    let f = |key: Seq<char>| key == p && walked(log, min, implicit, key);
    let g = |key: Seq<char>| in_edges(log, min, implicit, p, t.children, 0, key);
    let h = |key: Seq<char>| in_node(log, min, implicit, p, key);
    assert(lists(own.entries, log, min, f)) by {
        assert forall|key: Seq<char>| #[trigger] f(key) implies own.entries.contains(
            entry_of(log, min, key),
        ) by {
            assert(own.entries[0] == entry_of(log, min, key));
        }
    }
    assert forall|x: Seq<char>, y: Seq<char>| #[trigger] f(x) && #[trigger] g(y) implies lex_leq::<
        char,
    >(x, y) && x != y by {
        let j = choose|j: int|
            0 <= j < t.children.len() && #[trigger] starts_with(
                p.push(t.children[j].0 as char),
                y,
            );
        lemma_starts_push(p, t.children[j].0 as char, y);
        assert forall|k: int| 0 <= k < x.len() && k < y.len() implies x[k] == y[k] by {
            assert(y.take(p.len() as int)[k] == y[k]);
        }
        lemma_lex_by_length::<char>(x, y);
    }
    assert forall|x: Seq<char>| #[trigger] h(x) == (f(x) || g(x)) by {
        if h(x) && x != p {
            let n = p.len() as int;
            if x.len() == n {
                assert(x.take(n) =~= x);
            }
            let c = x[n];
            lemma_starts_push(p, c, x);
            let q = p.push(c);
            lemma_code_point(c);
            lemma_key_push(p, c as u32);
            assert(key_of(x).take(q.len() as int) =~= key_of(q)) by {
                assert(x.take(q.len() as int) =~= q);
            }
            lemma_total_mono(log, key_of(q), key_of(x));
            assert(has_label(t.children, c as u32) <==> total(log, key_of(p).push(c as u32))
                >= min);
            let j = choose|j: int|
                0 <= j < t.children.len() && (#[trigger] t.children[j]).0 == c as u32;
            assert(starts_with(p.push(t.children[j].0 as char), x));
        }
        if f(x) {
            assert(x.take(p.len() as int) =~= p);
        }
        if g(x) {
            let j = choose|j: int|
                0 <= j < t.children.len() && #[trigger] starts_with(
                    p.push(t.children[j].0 as char),
                    x,
                );
            lemma_starts_push(p, t.children[j].0 as char, x);
        }
    }
    lemma_lists_join(own.entries, rest.entries, log, min, f, g, h);
}

#[verifier::rlimit(50)]
proof fn lemma_walk_edges(
    data: Seq<u8>,
    implicit: bool,
    t: Trie,
    base: int,
    i: int,
    p: Seq<char>,
    log: Log,
    min: nat,
)
    requires
        data.len() <= usize::MAX,
        HEADER_LEN <= base,
        trie_fits(t),
        holds(data, base, trie_bytes(t, base)),
        represents(t, log, key_of(p), min),
        min > 0,
        0 <= i <= t.children.len(),
    ensures
        walk_edges(data, implicit, node_of(t, base), i, p).fault is None,
        lists(
            walk_edges(data, implicit, node_of(t, base), i, p).entries,
            log,
            min,
            |key: Seq<char>| in_edges(log, min, implicit, p, t.children, i, key),
        ),
    decreases t, 0nat, t.children.len() - i,
{
    let node = node_of(t, base);
    let g = |key: Seq<char>| in_edges(log, min, implicit, p, t.children, i, key);
    if i < t.children.len() {
        let child = t.children[i].1;
        let label = t.children[i].0;
        let c = label as char;
        let at = child_base(t.children, i, base);
        let q = p.push(c);
        lemma_trie_read_back(data, t, base);
        lemma_trie_edges(t, base, i);
        assert(forest_fits(t.children));
        assert(trie_fits(child) && scalar(label as int));
        lemma_child_within(t.children, t.children.len(), i, base);
        lemma_trie_read_back(data, child, at);
        assert(follow(data, node.edges[i]) == Ok::<NodeView, ErrorView>(node_of(child, at)));
        lemma_key_push(p, label);
        assert(forest_represents(t.children, log, key_of(p), min));
        assert(represents(child, log, key_of(p).push(t.children[i].0), min));
        assert(has_label(t.children, label));
        lemma_walk_node(data, implicit, child, at, q, log, min);
        lemma_walk_edges(data, implicit, t, base, i + 1, p, log, min);
        let a = walk_node(data, implicit, node_of(child, at), q);
        let b = walk_edges(data, implicit, node, i + 1, p);
        let f = |key: Seq<char>| in_node(log, min, implicit, q, key);
        let h = |key: Seq<char>| in_edges(log, min, implicit, p, t.children, i + 1, key);
        assert forall|x: Seq<char>, y: Seq<char>| #[trigger] f(x) && #[trigger] h(
            y,
        ) implies lex_leq::<char>(x, y) && x != y by {
            let j = choose|j: int|
                i + 1 <= j < t.children.len() && #[trigger] starts_with(
                    p.push(t.children[j].0 as char),
                    y,
                );
            assert(t.children[i].0 < t.children[j].0);
            assert(scalar(t.children[j].0 as int));
            lemma_keys_part(p, c, t.children[j].0 as char, x, y);
        }
        assert forall|x: Seq<char>| #[trigger] g(x) == (f(x) || h(x)) by {
            if g(x) {
                let j = choose|j: int|
                    i <= j < t.children.len() && #[trigger] starts_with(
                        p.push(t.children[j].0 as char),
                        x,
                    );
                if j > i {
                    assert(h(x));
                }
            }
            if f(x) {
                assert(starts_with(p.push(t.children[i].0 as char), x));
            }
        }
        lemma_lists_join(a.entries, b.entries, log, min, f, h, g);
    } else {
        let none = Seq::<EntryView>::empty();
        assert(walk_edges(data, implicit, node, i, p).entries =~= none);
    }
}

/// The walk over an index that is written ends without a fault. It gives, in
/// ascending order, exactly the keys that are frequent enough, each with its
/// frequencies; without implicit prefixes, only those with a count of their
/// own.
pub proof fn law_walk_lists_what_was_pushed(
    mode: IndexMode,
    min: nat,
    log: Log,
    bytes: Seq<u8>,
    stats: IndexWriteStats,
    reader: ReaderView,
    root: NodeView,
)
    requires
        written_index(mode, min, log, bytes, stats),
        open_index(bytes) == Ok::<ReaderView, ErrorView>(reader),
        read_node(reader.data, reader.root_offset) == Ok::<NodeView, ErrorView>(root),
        log_ok(log),
        mode_fault(mode) is None,
        mode is Records ==> min == 1,
        min > 0,
    ensures
        ({
            let walk = walk_node(reader.data, mode is Ngrams, root, Seq::empty());
            &&& walk.fault is None
            &&& lists(
                walk.entries,
                log,
                min,
                |key: Seq<char>| walked(log, min, mode is Ngrams, key),
            )
        }),
{
    let t = trie_of(mode, min, log, bytes, stats);
    lemma_reader_of(mode, min, log, bytes, stats, reader, t);
    let base = HEADER_LEN as int;
    lemma_file(mode, t);
    lemma_trie_read_back(bytes, t, base);
    let p = Seq::<char>::empty();
    assert(key_of(p) =~= Seq::empty());
    lemma_walk_node(bytes, mode is Ngrams, t, base, p, log, min);
    let walk = walk_node(bytes, mode is Ngrams, node_of(t, base), p);
    let f = |key: Seq<char>| in_node(log, min, mode is Ngrams, p, key);
    let g = |key: Seq<char>| walked(log, min, mode is Ngrams, key);
    assert forall|x: Seq<char>| #[trigger] f(x) == #[trigger] g(x) by {
        assert(x.take(0) =~= p);
    }
    lemma_lists_same(walk.entries, log, min, f, g);
}

pub proof fn lemma_reader_of(
    mode: IndexMode,
    min: nat,
    log: Log,
    bytes: Seq<u8>,
    stats: IndexWriteStats,
    reader: ReaderView,
    t: Trie,
)
    requires
        represents(t, log, Seq::empty(), min),
        trie_fits(t),
        bytes == index_file(mode, t),
        bytes.len() <= usize::MAX,
        open_index(bytes) == Ok::<ReaderView, ErrorView>(reader),
        log_ok(log),
        mode_fault(mode) is None,
        mode is Records ==> min == 1,
    ensures
        reader == reader_of(mode, t),
{
    let base = HEADER_LEN as int;
    lemma_file(mode, t);
    if mode is Records {
        lemma_residual_of_all(log, Seq::empty());
        lemma_no_empty_key(log);
    }
    lemma_header_read_back(
        bytes,
        Header {
            mode,
            length: (HEADER_LEN + trie_bytes(t, base).len()) as u64,
            root_offset: trie_at(t, base) as u64,
            root_subtree: freq(t) as u64,
            node_count: node_total(t) as u64,
        },
    );
    lemma_opens(mode, t);
}

} // verus!
