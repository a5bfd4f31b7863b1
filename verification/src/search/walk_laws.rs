//! What a search of an index that has passed the full check finds.
use crate::index::error::ErrorView;
use crate::index::mode::IndexMode;
use crate::index::node::{edges_sound, lemma_node_sound, node_at, NodeView};
use crate::index::reader::{
    edge_place, find_from, find_key, follow, open_index, read_node, ReaderView,
};
use crate::index::validate::{check_index, visit, visit_edges, Visited};
use crate::index::walker::{walk_edges, walk_node, walk_own, EntryView};
use crate::query::program::ProgramView;
use crate::search::hits::{
    accepted, arrive, best_hits, is_hit, lemma_route_is_find, node_score, ranked, route, settled,
};
use crate::search::run::faulty;
use crate::search::types::{HitView, SearchErrorView};
use vstd::prelude::*;

verus! {

/// The text leads from the node to an entry of the walk.
spec fn leads_to_entry(
    data: Seq<u8>,
    implicit: bool,
    node: NodeView,
    key: Seq<char>,
    text: Seq<char>,
    e: EntryView,
) -> bool {
    find_from(data, node, text) matches Ok(Some(n)) && {
        &&& e == EntryView { key: key + text, terminal: n.terminal, subtree: n.subtree }
        &&& e.key.len() > 0
        &&& n.terminal > 0 || implicit
    }
}

/// Some text leads from the node to the entry.
spec fn entry_below(
    data: Seq<u8>,
    implicit: bool,
    node: NodeView,
    key: Seq<char>,
    e: EntryView,
) -> bool {
    exists|text: Seq<char>| #[trigger] leads_to_entry(data, implicit, node, key, text, e)
}

/// The entry is below one of the children from the `i`th on.
spec fn entry_below_edges(
    data: Seq<u8>,
    implicit: bool,
    node: NodeView,
    i: int,
    key: Seq<char>,
    e: EntryView,
) -> bool {
    exists|j: int|
        i <= j < node.edges.len() && follow(data, #[trigger] node.edges[j]) is Ok && entry_below(
            data,
            implicit,
            follow(data, node.edges[j])->Ok_0,
            key.push(node.edges[j].label),
            e,
        )
}

/// What an edge leads to is sound, and stands before the node.
proof fn lemma_child_sound(data: Seq<u8>, node: NodeView, i: int)
    requires
        edges_sound(node.edges, node.offset),
        0 <= i < node.edges.len(),
        follow(data, node.edges[i]) is Ok,
    ensures
        ({
            let child = follow(data, node.edges[i])->Ok_0;
            child.offset < node.offset && edges_sound(child.edges, child.offset)
        }),
{
    lemma_node_sound(data, node.edges[i].child_offset);
    assert(node.edges[i].child_offset < node.offset);
}

proof fn lemma_in_both<A>(a: Seq<A>, b: Seq<A>, x: A)
    ensures
        (a + b).contains(x) <==> a.contains(x) || b.contains(x),
{
    if a.contains(x) {
        let i = choose|i: int| 0 <= i < a.len() && a[i] == x;
        assert((a + b)[i] == x);
    }
    if b.contains(x) {
        let i = choose|i: int| 0 <= i < b.len() && b[i] == x;
        assert((a + b)[a.len() + i] == x);
    }
    if (a + b).contains(x) {
        let i = choose|i: int| 0 <= i < (a + b).len() && (a + b)[i] == x;
        if i < a.len() {
            assert(a[i] == x);
        } else {
            assert(b[i - a.len()] == x);
        }
    }
}

/// The edge with a label is the one that has it.
proof fn lemma_edge_with_label(node: NodeView, j: int)
    requires
        edges_sound(node.edges, node.offset),
        0 <= j < node.edges.len(),
    ensures
        edge_place(node.edges, node.edges[j].label) == Some(j),
{
    let label = node.edges[j].label;
    let k = choose|k: int| 0 <= k < node.edges.len() && (#[trigger] node.edges[k]).label == label;
    assert(0 <= k < node.edges.len() && node.edges[k].label == label);
    if k < j {
        assert((node.edges[k].label as u32) < node.edges[j].label as u32);
    } else if j < k {
        assert((node.edges[j].label as u32) < node.edges[k].label as u32);
    }
}

/// What is below a node is the node's own entry, or below one of its children.
proof fn lemma_below_node(
    data: Seq<u8>,
    implicit: bool,
    node: NodeView,
    key: Seq<char>,
    e: EntryView,
)
    requires
        edges_sound(node.edges, node.offset),
    ensures
        entry_below(data, implicit, node, key, e) <==> walk_own(
            implicit,
            node,
            key,
        ).entries.contains(e) || entry_below_edges(data, implicit, node, 0, key, e),
{
    let none = Seq::<char>::empty();
    let own = walk_own(implicit, node, key).entries;
    assert(key + none =~= key);
    if entry_below(data, implicit, node, key, e) {
        let text = choose|text: Seq<char>| #[trigger]
            leads_to_entry(data, implicit, node, key, text, e);
        if text.len() == 0 {
            assert(text =~= none);
            assert(own[0] == e);
        } else {
            let j = edge_place(node.edges, text[0])->0;
            assert(0 <= j < node.edges.len() && node.edges[j].label == text[0]);
            let child = follow(data, node.edges[j])->Ok_0;
            let rest = text.skip(1);
            assert(key + text =~= key.push(text[0]) + rest);
            assert(leads_to_entry(data, implicit, child, key.push(text[0]), rest, e));
            assert(follow(data, node.edges[j]) is Ok);
        }
    }
    if own.contains(e) {
        assert(own[0] == e);
        assert(leads_to_entry(data, implicit, node, key, none, e));
    }
    if entry_below_edges(data, implicit, node, 0, key, e) {
        let j = choose|j: int|
            0 <= j < node.edges.len() && follow(data, #[trigger] node.edges[j]) is Ok
                && entry_below(
                data,
                implicit,
                follow(data, node.edges[j])->Ok_0,
                key.push(node.edges[j].label),
                e,
            );
        let label = node.edges[j].label;
        let child = follow(data, node.edges[j])->Ok_0;
        let rest = choose|rest: Seq<char>| #[trigger]
            leads_to_entry(data, implicit, child, key.push(label), rest, e);
        let text = seq![label] + rest;
        lemma_edge_with_label(node, j);
        assert(text[0] == label);
        assert(text.skip(1) =~= rest);
        assert(key + text =~= key.push(label) + rest);
        assert(leads_to_entry(data, implicit, node, key, text, e));
    }
}

/// A walk that ends without a fault lists what is below the node.
proof fn lemma_walk_lists(
    data: Seq<u8>,
    implicit: bool,
    node: NodeView,
    key: Seq<char>,
    e: EntryView,
)
    requires
        edges_sound(node.edges, node.offset),
        walk_node(data, implicit, node, key).fault is None,
    ensures
        walk_node(data, implicit, node, key).entries.contains(e) <==> entry_below(
            data,
            implicit,
            node,
            key,
            e,
        ),
    decreases node.offset, node.edges.len() + 1,
{
    lemma_walk_lists_edges(data, implicit, node, 0, key, e);
    lemma_below_node(data, implicit, node, key, e);
    lemma_in_both(
        walk_own(implicit, node, key).entries,
        walk_edges(data, implicit, node, 0, key).entries,
        e,
    );
}

proof fn lemma_walk_lists_edges(
    data: Seq<u8>,
    implicit: bool,
    node: NodeView,
    i: int,
    key: Seq<char>,
    e: EntryView,
)
    requires
        edges_sound(node.edges, node.offset),
        0 <= i <= node.edges.len(),
        walk_edges(data, implicit, node, i, key).fault is None,
    ensures
        walk_edges(data, implicit, node, i, key).entries.contains(e) <==> entry_below_edges(
            data,
            implicit,
            node,
            i,
            key,
            e,
        ),
    decreases node.offset, node.edges.len() - i,
{
    if i < node.edges.len() {
        let edge = node.edges[i];
        let child = follow(data, edge)->Ok_0;
        lemma_child_sound(data, node, i);
        let longer = key.push(edge.label);
        lemma_walk_lists(data, implicit, child, longer, e);
        lemma_walk_lists_edges(data, implicit, node, i + 1, key, e);
        lemma_in_both(
            walk_node(data, implicit, child, longer).entries,
            walk_edges(data, implicit, node, i + 1, key).entries,
            e,
        );
        if entry_below_edges(data, implicit, node, i, key, e) && !entry_below(
            data,
            implicit,
            child,
            longer,
            e,
        ) {
            let j = choose|j: int|
                i <= j < node.edges.len() && follow(data, #[trigger] node.edges[j]) is Ok
                    && entry_below(
                    data,
                    implicit,
                    follow(data, node.edges[j])->Ok_0,
                    key.push(node.edges[j].label),
                    e,
                );
            assert(j > i);
            assert(entry_below_edges(data, implicit, node, i + 1, key, e));
        }
        if entry_below_edges(data, implicit, node, i + 1, key, e) {
            let j = choose|j: int|
                i + 1 <= j < node.edges.len() && follow(data, #[trigger] node.edges[j]) is Ok
                    && entry_below(
                    data,
                    implicit,
                    follow(data, node.edges[j])->Ok_0,
                    key.push(node.edges[j].label),
                    e,
                );
            assert(follow(data, node.edges[j]) is Ok);
        }
        if entry_below(data, implicit, child, longer, e) {
            assert(follow(data, node.edges[i]) is Ok);
        }
    }
}

/// A walk over what has passed the check ends without a fault.
proof fn lemma_visited_walks(
    data: Seq<u8>,
    implicit: bool,
    offset: u64,
    expected: u64,
    so_far: Visited,
    key: Seq<char>,
)
    requires
        visit(data, offset, expected, so_far) is Ok,
    ensures
        ({
            let node = read_node(data, offset)->Ok_0;
            &&& read_node(data, offset) is Ok
            &&& node.subtree == expected
            &&& edges_sound(node.edges, node.offset)
            &&& walk_node(data, implicit, node, key).fault is None
        }),
    decreases offset, 1nat, 0nat,
{
    let (node, end) = node_at(data, offset)->Ok_0;
    lemma_node_sound(data, offset);
    let more = Visited {
        spans: so_far.spans.push((offset, end as u64)),
        edges: so_far.edges + node.edges.len(),
    };
    assert(node.edges.skip(0) =~= node.edges);
    lemma_visited_walks_edges(data, implicit, node, 0, more, key);
}

proof fn lemma_visited_walks_edges(
    data: Seq<u8>,
    implicit: bool,
    node: NodeView,
    i: int,
    so_far: Visited,
    key: Seq<char>,
)
    requires
        0 <= i <= node.edges.len(),
        edges_sound(node.edges, node.offset),
        visit_edges(data, node.offset, node.edges.skip(i), so_far) is Ok,
    ensures
        walk_edges(data, implicit, node, i, key).fault is None,
    decreases node.offset, 0nat, node.edges.len() - i,
{
    if i < node.edges.len() {
        let edge = node.edges[i];
        assert(node.edges.skip(i)[0] == edge);
        assert(edge.child_offset < node.offset);
        lemma_visited_walks(
            data,
            implicit,
            edge.child_offset,
            edge.subtree,
            so_far,
            key.push(edge.label),
        );
        let more = visit(data, edge.child_offset, edge.subtree, so_far)->Ok_0;
        assert(node.edges.skip(i).skip(1) =~= node.edges.skip(i + 1));
        lemma_visited_walks_edges(data, implicit, node, i + 1, more, key);
    }
}

/// A walk without a fault comes to each child, and walks over it without one.
proof fn lemma_child_walks(
    data: Seq<u8>,
    implicit: bool,
    node: NodeView,
    i: int,
    j: int,
    key: Seq<char>,
)
    requires
        0 <= i <= j < node.edges.len(),
        edges_sound(node.edges, node.offset),
        walk_edges(data, implicit, node, i, key).fault is None,
    ensures
        follow(data, node.edges[j]) is Ok,
        walk_node(
            data,
            implicit,
            follow(data, node.edges[j])->Ok_0,
            key.push(node.edges[j].label),
        ).fault is None,
    decreases j - i,
{
    lemma_child_sound(data, node, i);
    if i < j {
        lemma_child_walks(data, implicit, node, i + 1, j, key);
    }
}

/// No text leads to a fault in an index that is walked over without one.
proof fn lemma_no_fault(reader: ReaderView, root: NodeView, text: Seq<char>)
    requires
        arrive(reader.data, reader.root_offset, reader.root_subtree) == Ok::<NodeView, ErrorView>(
            root,
        ),
        edges_sound(root.edges, root.offset),
        walk_node(reader.data, true, root, Seq::empty()).fault is None,
    ensures
        route(reader, text) is Ok,
        route(reader, text) matches Ok(Some(node)) ==> edges_sound(node.edges, node.offset)
            && walk_node(reader.data, true, node, text).fault is None,
    decreases text.len(),
{
    if text.len() == 0 {
        assert(text =~= Seq::empty());
    } else {
        let init = text.drop_last();
        lemma_no_fault(reader, root, init);
        if let Ok(Some(node)) = route(reader, init) {
            if let Some(j) = edge_place(node.edges, text.last()) {
                assert(0 <= j < node.edges.len() && node.edges[j].label == text.last());
                lemma_child_walks(reader.data, true, node, 0, j, init);
                lemma_child_sound(reader.data, node, j);
                assert(init.push(text.last()) =~= text);
            }
        }
    }
}

/// The entry of the walk as a hit: with its own frequency in an index of
/// records, with that of all keys that start with it in one of n-grams.
pub open spec fn entry_hit(mode: IndexMode, e: EntryView) -> HitView {
    HitView {
        text: e.key,
        score: match mode {
            IndexMode::Records => e.terminal,
            IndexMode::Ngrams { window_codepoints } => e.subtree,
        },
    }
}

/// A search of an index that has passed the full check has no fault, whatever is
/// searched for.
pub proof fn law_search_of_checked_index_has_no_fault(reader: ReaderView, e: SearchErrorView)
    requires
        check_index(reader) is Ok,
    ensures
        !faulty(reader, e),
{
    let none = Seq::<char>::empty();
    lemma_visited_walks(
        reader.data,
        true,
        reader.root_offset,
        reader.root_subtree,
        Visited { spans: Seq::empty(), edges: 0 },
        none,
    );
    let root = read_node(reader.data, reader.root_offset)->Ok_0;
    assert forall|text: Seq<char>| #[trigger] route(reader, text) is Ok by {
        lemma_no_fault(reader, root, text);
    }
}

/// The hits of an index that has passed the full check are the entries of its
/// walk, which ends without a fault, that the query accepts.
pub proof fn law_hits_of_checked_index_are_walked(
    reader: ReaderView,
    root: NodeView,
    program: ProgramView,
    hit: HitView,
)
    requires
        open_index(reader.data) == Ok::<ReaderView, ErrorView>(reader),
        check_index(reader) is Ok,
        read_node(reader.data, reader.root_offset) == Ok::<NodeView, ErrorView>(root),
    ensures
        ({
            let walk = walk_node(reader.data, reader.mode is Ngrams, root, Seq::empty());
            &&& walk.fault is None
            &&& is_hit(reader, program, hit) <==> {
                &&& hit.score > 0
                &&& accepted(program, hit.text)
                &&& exists|e: EntryView| #[trigger]
                    walk.entries.contains(e) && entry_hit(reader.mode, e) == hit
            }
        }),
{
    let none = Seq::<char>::empty();
    let data = reader.data;
    let implicit = reader.mode is Ngrams;
    lemma_visited_walks(
        data,
        implicit,
        reader.root_offset,
        reader.root_subtree,
        Visited { spans: Seq::empty(), edges: 0 },
        none,
    );
    let walk = walk_node(data, implicit, root, none);
    if is_hit(reader, program, hit) {
        let node = route(reader, hit.text)->Ok_0->Some_0;
        lemma_route_is_find(reader, hit.text, node);
        let e = EntryView { key: hit.text, terminal: node.terminal, subtree: node.subtree };
        assert(none + hit.text =~= hit.text);
        assert(leads_to_entry(data, implicit, root, none, hit.text, e));
        lemma_walk_lists(data, implicit, root, none, e);
        assert(walk.entries.contains(e) && entry_hit(reader.mode, e) == hit);
    }
    if hit.score > 0 && accepted(program, hit.text) && exists|e: EntryView| #[trigger]
        walk.entries.contains(e) && entry_hit(reader.mode, e) == hit {
        let e = choose|e: EntryView| #[trigger]
            walk.entries.contains(e) && entry_hit(reader.mode, e) == hit;
        lemma_walk_lists(data, implicit, root, none, e);
        let text = choose|text: Seq<char>| #[trigger]
            leads_to_entry(data, implicit, root, none, text, e);
        assert(none + text =~= text);
        let node = find_from(data, root, text)->Ok_0->Some_0;
        assert(find_key(reader, text) == Ok::<Option<NodeView>, ErrorView>(Some(node)));
        lemma_route_is_find(reader, text, node);
        assert(hit.score == node_score(reader.mode, node));
    }
}

/// A complete search of an index that has passed the full check gives the walk
/// over it, filtered by the query, the most frequent first: every result is an
/// entry of the walk that the query accepts, and every such entry is among the
/// results, or these are as many as the limit allows and all rank before it.
pub proof fn law_search_of_checked_index_filters_the_walk(
    reader: ReaderView,
    root: NodeView,
    program: ProgramView,
    limit: int,
    results: Seq<HitView>,
)
    requires
        open_index(reader.data) == Ok::<ReaderView, ErrorView>(reader),
        check_index(reader) is Ok,
        read_node(reader.data, reader.root_offset) == Ok::<NodeView, ErrorView>(root),
        best_hits(reader, program, limit, results),
    ensures
        ({
            let walk = walk_node(reader.data, reader.mode is Ngrams, root, Seq::empty());
            &&& walk.fault is None
            &&& ranked(results)
            &&& results.len() <= limit
            &&& forall|i: int|
                0 <= i < results.len() ==> accepted(program, (#[trigger] results[i]).text)
                    && exists|e: EntryView| #[trigger]
                    walk.entries.contains(e) && entry_hit(reader.mode, e) == results[i]
            &&& forall|e: EntryView| #[trigger]
                walk.entries.contains(e) && accepted(program, e.key) && entry_hit(
                    reader.mode,
                    e,
                ).score > 0 ==> settled(results, limit, entry_hit(reader.mode, e))
        }),
{
    let walk = walk_node(reader.data, reader.mode is Ngrams, root, Seq::empty());
    law_hits_of_checked_index_are_walked(
        reader,
        root,
        program,
        HitView { text: Seq::empty(), score: 0 },
    );
    assert forall|i: int| 0 <= i < results.len() implies accepted(
        program,
        (#[trigger] results[i]).text,
    ) && exists|e: EntryView| #[trigger]
        walk.entries.contains(e) && entry_hit(reader.mode, e) == results[i] by {
        assert(is_hit(reader, program, results[i]));
        law_hits_of_checked_index_are_walked(reader, root, program, results[i]);
    }
    assert forall|e: EntryView| #[trigger]
        walk.entries.contains(e) && accepted(program, e.key) && entry_hit(reader.mode, e).score
            > 0 implies settled(results, limit, entry_hit(reader.mode, e)) by {
        let hit = entry_hit(reader.mode, e);
        law_hits_of_checked_index_are_walked(reader, root, program, hit);
        assert(is_hit(reader, program, hit));
    }
}

} // verus!
