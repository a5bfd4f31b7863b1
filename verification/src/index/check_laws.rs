//! Every index that is written passes the full check.
use crate::index::codec::{lemma_varint_len, HEADER_LEN};
use crate::index::error::ErrorView;
use crate::index::laws::{lemma_file, lemma_reader_of, trie_of};
use crate::index::layout::{
    child_base, forest_bytes, forest_fits, kids_of, lemma_child_within, lemma_trie_edges,
    lemma_trie_read_back, trie_at, trie_bytes, trie_fits,
};
use crate::index::mode::{mode_fault, IndexMode};
use crate::index::model::{forest_nodes, freq, node_total, Log, Trie};
use crate::index::node::{edges_to, holds};
use crate::index::pending::{lemma_nodes_within, log_ok};
use crate::index::reader::{open_index, ReaderView};
use crate::index::validate::{
    check_index, met, sorted_spans, tiled, visit, visit_edges, ValidationStats, Visited,
};
use crate::index::writer::{written_index, IndexWriteStats};
use crate::ordered::{lemma_sorted_unique, sorted};
use vstd::prelude::*;

verus! {

/// The end of a trie.
spec fn trie_end(t: Trie, base: int) -> int {
    base + trie_bytes(t, base).len()
}

/// The span of the root of a trie.
spec fn own_span(t: Trie, base: int) -> (u64, u64) {
    (trie_at(t, base) as u64, trie_end(t, base) as u64)
}

/// The spans of a trie, the root first.
spec fn spans_down(t: Trie, base: int) -> Seq<(u64, u64)>
    decreases t, 1nat, 0nat,
{
    seq![own_span(t, base)] + forest_down(t.children, 0, base)
}

/// The spans of the tries of a list from the `i`th on, each root first.
spec fn forest_down(children: Seq<(u32, Trie)>, i: int, base: int) -> Seq<(u64, u64)>
    decreases children, 0nat, children.len() - i,
{
    if i < 0 || i >= children.len() {
        Seq::empty()
    } else {
        spans_down(children[i].1, child_base(children, i, base)) + forest_down(
            children,
            i + 1,
            base,
        )
    }
}

/// The spans of a trie, the root last.
spec fn spans_up(t: Trie, base: int) -> Seq<(u64, u64)>
    decreases t, 1nat, 0nat,
{
    forest_up(t.children, 0, base) + seq![own_span(t, base)]
}

/// The spans of the tries of a list from the `i`th on, each root last.
spec fn forest_up(children: Seq<(u32, Trie)>, i: int, base: int) -> Seq<(u64, u64)>
    decreases children, 0nat, children.len() - i,
{
    if i < 0 || i >= children.len() {
        Seq::empty()
    } else {
        spans_up(children[i].1, child_base(children, i, base)) + forest_up(children, i + 1, base)
    }
}

/// The two orders hold the same spans.
proof fn lemma_same_spans(t: Trie, base: int)
    ensures
        spans_down(t, base).to_multiset() == spans_up(t, base).to_multiset(),
        spans_down(t, base).len() == node_total(t),
    decreases t, 1nat, 0nat,
{
    broadcast use vstd::seq_lib::group_to_multiset_ensures;

    lemma_same_forest_spans(t.children, 0, base);
    let own = seq![own_span(t, base)];
    vstd::seq_lib::lemma_multiset_commutative(own, forest_down(t.children, 0, base));
    vstd::seq_lib::lemma_multiset_commutative(forest_up(t.children, 0, base), own);
    assert(spans_down(t, base).to_multiset() =~= spans_up(t, base).to_multiset());
}

proof fn lemma_same_forest_spans(children: Seq<(u32, Trie)>, i: int, base: int)
    requires
        0 <= i <= children.len(),
    ensures
        forest_down(children, i, base).to_multiset() == forest_up(children, i, base).to_multiset(),
        forest_down(children, i, base).len() + forest_nodes(children, i as nat) == forest_nodes(
            children,
            children.len(),
        ),
    decreases children, 0nat, children.len() - i,
{
    if i < children.len() {
        let at = child_base(children, i, base);
        let child = children[i].1;
        lemma_same_spans(child, at);
        lemma_same_forest_spans(children, i + 1, base);
        vstd::seq_lib::lemma_multiset_commutative(
            spans_down(child, at),
            forest_down(children, i + 1, base),
        );
        vstd::seq_lib::lemma_multiset_commutative(
            spans_up(child, at),
            forest_up(children, i + 1, base),
        );
    }
}

/// The spans follow each other from `from` to `to`, none of them empty.
spec fn chained(spans: Seq<(u64, u64)>, from: int, to: int) -> bool
    decreases spans.len(),
{
    if spans.len() == 0 {
        from == to
    } else {
        spans[0].0 == from && spans[0].0 < spans[0].1 && chained(
            spans.skip(1),
            spans[0].1 as int,
            to,
        )
    }
}

proof fn lemma_chained_join(a: Seq<(u64, u64)>, b: Seq<(u64, u64)>, from: int, mid: int, to: int)
    requires
        chained(a, from, mid),
        chained(b, mid, to),
    ensures
        chained(a + b, from, to),
    decreases a.len(),
{
    if a.len() == 0 {
        assert(a + b =~= b);
    } else {
        lemma_chained_join(a.skip(1), b, a[0].1 as int, mid, to);
        assert((a + b).skip(1) =~= a.skip(1) + b);
        assert((a + b)[0] == a[0]);
    }
}

proof fn lemma_chained_single(x: (u64, u64))
    requires
        x.0 < x.1,
    ensures
        chained(seq![x], x.0 as int, x.1 as int),
{
    let s = seq![x];
    assert(s[0] == x);
    assert(s.skip(1).len() == 0);
    assert(chained(s.skip(1), x.1 as int, x.1 as int));
}

/// Spans that follow each other are sorted, tile what they cover, and start
/// within it.
proof fn lemma_chained(spans: Seq<(u64, u64)>, from: u64, to: u64)
    requires
        chained(spans, from as int, to as int),
    ensures
        from <= to,
        tiled(spans, from) == Ok::<u64, ErrorView>(to),
        forall|i: int, j: int|
            0 <= i < j < spans.len() ==> (#[trigger] spans[i]).0 < (#[trigger] spans[j]).0,
        sorted::<(u64, u64)>(spans),
        forall|i: int| 0 <= i < spans.len() ==> from <= (#[trigger] spans[i]).0 < to,
    decreases spans.len(),
{
    if spans.len() > 0 {
        let rest = spans.skip(1);
        lemma_chained(rest, spans[0].1, to);
        assert forall|i: int| 0 <= i < spans.len() implies from <= (#[trigger] spans[i]).0
            < to by {
            if i > 0 {
                assert(rest[i - 1] == spans[i]);
            }
        }
        assert forall|i: int, j: int| 0 <= i < j < spans.len() implies (#[trigger] spans[i]).0 < (
        #[trigger] spans[j]).0 by {
            assert(rest[j - 1] == spans[j]);
            if i > 0 {
                assert(rest[i - 1] == spans[i]);
            }
        }
    }
}

/// The spans of a trie, the root last, cover its bytes in order.
proof fn lemma_spans_up_chained(t: Trie, base: int)
    requires
        0 <= base,
        trie_end(t, base) <= u64::MAX,
    ensures
        chained(spans_up(t, base), base, trie_end(t, base)),
        base <= trie_at(t, base) < trie_end(t, base),
    decreases t, 1nat, 0nat,
{
    let n = t.children.len();
    lemma_varint_len(t.terminal);
    lemma_forest_up_chained(t.children, 0, base);
    let own = own_span(t, base);
    lemma_chained_single(own);
    lemma_chained_join(
        forest_up(t.children, 0, base),
        seq![own],
        base,
        trie_at(t, base),
        trie_end(t, base),
    );
}

proof fn lemma_forest_up_chained(children: Seq<(u32, Trie)>, i: int, base: int)
    requires
        0 <= base,
        0 <= i <= children.len(),
        base + forest_bytes(children, children.len(), base).len() <= u64::MAX,
    ensures
        chained(
            forest_up(children, i, base),
            child_base(children, i, base),
            base + forest_bytes(children, children.len(), base).len(),
        ),
    decreases children, 0nat, children.len() - i,
{
    let n = children.len();
    if i < n {
        let at = child_base(children, i, base);
        let child = children[i].1;
        lemma_child_within(children, n, i, base);
        lemma_spans_up_chained(child, at);
        lemma_forest_up_chained(children, i + 1, base);
        assert(child_base(children, i + 1, base) == trie_end(child, at));
        lemma_chained_join(
            spans_up(child, at),
            forest_up(children, i + 1, base),
            at,
            trie_end(child, at),
            base + forest_bytes(children, n, base).len(),
        );
    }
}

/// No span starts within the range.
spec fn clear(spans: Seq<(u64, u64)>, from: int, to: int) -> bool {
    forall|i: int| 0 <= i < spans.len() ==> !(from <= (#[trigger] spans[i]).0 < to)
}

/// The spans of a trie start within it.
proof fn lemma_spans_within(t: Trie, base: int, i: int)
    requires
        0 <= base,
        trie_end(t, base) <= u64::MAX,
        0 <= i < spans_down(t, base).len(),
    ensures
        base <= spans_down(t, base)[i].0 < trie_end(t, base),
{
    let s = spans_down(t, base);
    let u = spans_up(t, base);
    lemma_same_spans(t, base);
    crate::ordered::lemma_same_multiset_same_set(s, u);
    assert(s.contains(s[i]));
    assert(u.contains(s[i]));
    let k = choose|k: int| 0 <= k < u.len() && u[k] == s[i];
    lemma_spans_up_chained(t, base);
    lemma_chained(u, base as u64, trie_end(t, base) as u64);
}

/// Visiting a trie adds its spans.
#[verifier::rlimit(50)]
proof fn lemma_visit(data: Seq<u8>, t: Trie, base: int, so_far: Visited)
    requires
        data.len() <= usize::MAX,
        HEADER_LEN <= base,
        trie_fits(t),
        holds(data, base, trie_bytes(t, base)),
        clear(so_far.spans, base, trie_end(t, base)),
        so_far.edges + node_total(t) <= u64::MAX,
    ensures
        visit(data, trie_at(t, base) as u64, freq(t) as u64, so_far) == Ok::<Visited, ErrorView>(
            Visited {
                spans: so_far.spans + spans_down(t, base),
                edges: (so_far.edges + node_total(t) - 1) as nat,
            },
        ),
    decreases t, 1nat, 0nat,
{
    lemma_trie_read_back(data, t, base);
    lemma_spans_up_chained(t, base);
    let at = trie_at(t, base) as u64;
    let n = t.children.len();
    assert(!met(so_far.spans, at)) by {
        if met(so_far.spans, at) {
            let i = choose|i: int| 0 <= i < so_far.spans.len() && (#[trigger] so_far.spans[i]).0
                == at;
            assert(base <= so_far.spans[i].0 < trie_end(t, base));
        }
    }
    let now = Visited {
        spans: so_far.spans.push(own_span(t, base)),
        edges: so_far.edges + n,
    };
    assert(clear(now.spans, child_base(t.children, 0, base), at as int)) by {
        assert forall|i: int| 0 <= i < now.spans.len() implies !(child_base(t.children, 0, base)
            <= (#[trigger] now.spans[i]).0 < at) by {
            if i < so_far.spans.len() {
                assert(now.spans[i] == so_far.spans[i]);
            }
        }
    }
    lemma_node_count_children(t.children, n);
    lemma_visit_edges(data, t, base, 0, now);
    let edges = edges_to(kids_of(t.children, base));
    assert(edges.skip(0) =~= edges);
    assert(so_far.spans.push(own_span(t, base)) + forest_down(t.children, 0, base)
        =~= so_far.spans + spans_down(t, base));
}

/// Every trie of a list has a node.
proof fn lemma_node_count_children(children: Seq<(u32, Trie)>, n: nat)
    requires
        n <= children.len(),
    ensures
        forest_nodes(children, n) >= n,
    decreases n,
{
    if n > 0 {
        lemma_node_count_children(children, (n - 1) as nat);
        assert(node_total(children[n - 1].1) >= 1);
    }
}

/// The edges below the tries of a list from the `i`th on.
spec fn edges_below(children: Seq<(u32, Trie)>, i: int) -> int {
    forest_nodes(children, children.len()) - forest_nodes(children, i as nat) - (children.len()
        - i)
}

/// The spans of a trie leave what lies behind it clear.
proof fn lemma_clear_behind(spans: Seq<(u64, u64)>, t: Trie, base: int, to: int)
    requires
        0 <= base,
        trie_end(t, base) <= to <= u64::MAX,
        clear(spans, base, to),
    ensures
        clear(spans + spans_down(t, base), trie_end(t, base), to),
        clear(spans, base, trie_end(t, base)),
{
    let all = spans + spans_down(t, base);
    lemma_spans_up_chained(t, base);
    assert forall|k: int| 0 <= k < all.len() implies !(trie_end(t, base) <= (#[trigger] all[k]).0
        < to) by {
        if k < spans.len() {
            assert(all[k] == spans[k]);
        } else {
            assert(all[k] == spans_down(t, base)[k - spans.len()]);
            lemma_spans_within(t, base, k - spans.len());
        }
    }
}

#[verifier::rlimit(40)]
proof fn lemma_visit_edges(data: Seq<u8>, t: Trie, base: int, i: int, so_far: Visited)
    requires
        data.len() <= usize::MAX,
        HEADER_LEN <= base,
        trie_fits(t),
        holds(data, base, trie_bytes(t, base)),
        0 <= i <= t.children.len(),
        clear(so_far.spans, child_base(t.children, i, base), trie_at(t, base)),
        so_far.edges + edges_below(t.children, i) < u64::MAX,
    ensures
        edges_below(t.children, i) >= 0,
        visit_edges(
            data,
            trie_at(t, base) as u64,
            edges_to(kids_of(t.children, base)).skip(i),
            so_far,
        ) == Ok::<Visited, ErrorView>(
            Visited {
                spans: so_far.spans + forest_down(t.children, i, base),
                edges: (so_far.edges + edges_below(t.children, i)) as nat,
            },
        ),
    decreases t, 0nat, t.children.len() - i,
{
    let edges = edges_to(kids_of(t.children, base));
    let n = t.children.len();
    lemma_trie_read_back(data, t, base);
    if i < n {
        let child = t.children[i].1;
        let at = child_base(t.children, i, base);
        lemma_trie_edges(t, base, i);
        assert(edges.skip(i)[0] == edges[i]);
        assert(edges.skip(i).skip(1) =~= edges.skip(i + 1));
        assert(forest_fits(t.children));
        assert(trie_fits(child) && freq(child) > 0);
        lemma_child_within(t.children, n, i, base);
        lemma_trie_read_back(data, child, at);
        lemma_edges_below(t.children, i);
        lemma_clear_behind(so_far.spans, child, at, trie_at(t, base));
        lemma_visit(data, child, at, so_far);
        let now = Visited {
            spans: so_far.spans + spans_down(child, at),
            edges: (so_far.edges + node_total(child) - 1) as nat,
        };
        assert(child_base(t.children, i + 1, base) == trie_end(child, at));
        lemma_visit_edges(data, t, base, i + 1, now);
        assert(so_far.spans + spans_down(child, at) + forest_down(t.children, i + 1, base)
            =~= so_far.spans + forest_down(t.children, i, base));
    } else {
        assert(edges.skip(i).len() == 0);
        assert(so_far.spans + forest_down(t.children, i, base) =~= so_far.spans);
    }
}

proof fn lemma_edges_below(children: Seq<(u32, Trie)>, i: int)
    requires
        0 <= i < children.len(),
    ensures
        edges_below(children, i) == node_total(children[i].1) - 1 + edges_below(children, i + 1),
        edges_below(children, i + 1) >= 0,
{
    assert(forest_nodes(children, (i + 1) as nat) == forest_nodes(children, i as nat) + node_total(
        children[i].1,
    ));
    lemma_forest_nodes_from(children, i + 1);
}

proof fn lemma_forest_nodes_from(children: Seq<(u32, Trie)>, i: int)
    requires
        0 <= i <= children.len(),
    ensures
        forest_nodes(children, children.len()) - forest_nodes(children, i as nat)
            >= children.len() - i,
    decreases children.len() - i,
{
    if i < children.len() {
        lemma_forest_nodes_from(children, i + 1);
        assert(forest_nodes(children, (i + 1) as nat) == forest_nodes(children, i as nat)
            + node_total(children[i].1));
    }
}

/// Every index that is written passes the full check, which counts its nodes
/// and finds one edge less.
pub proof fn law_written_index_passes_the_full_check(
    mode: IndexMode,
    min: nat,
    log: Log,
    bytes: Seq<u8>,
    stats: IndexWriteStats,
    reader: ReaderView,
)
    requires
        written_index(mode, min, log, bytes, stats),
        open_index(bytes) == Ok::<ReaderView, ErrorView>(reader),
        log_ok(log),
        mode_fault(mode) is None,
        mode is Records ==> min == 1,
    ensures
        check_index(reader) == Ok::<ValidationStats, ErrorView>(
            ValidationStats {
                node_count: stats.node_count,
                edge_count: (stats.node_count - 1) as u64,
            },
        ),
{
    let t = trie_of(mode, min, log, bytes, stats);
    lemma_reader_of(mode, min, log, bytes, stats, reader, t);
    let base = HEADER_LEN as int;
    lemma_file(mode, t);
    lemma_trie_read_back(bytes, t, base);
    lemma_nodes_within(t, base);
    let start = Visited { spans: Seq::empty(), edges: 0 };
    lemma_visit(bytes, t, base, start);
    lemma_same_spans(t, base);
    let down = spans_down(t, base);
    let up = spans_up(t, base);
    assert(start.spans + down =~= down);
    lemma_spans_up_chained(t, base);
    lemma_chained(up, base as u64, trie_end(t, base) as u64);
    let s = sorted_spans(down);
    assert(sorted::<(u64, u64)>(s) && s.to_multiset() == down.to_multiset()) by {
        assert(sorted::<(u64, u64)>(up) && up.to_multiset() == down.to_multiset());
    }
    lemma_sorted_unique::<(u64, u64)>(s, up);
}

} // verus!
