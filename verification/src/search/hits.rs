//! What a search is to find: the matching keys of an index, by rank.
use crate::index::error::ErrorView;
use crate::index::laws::starts_with;
use crate::index::mode::IndexMode;
use crate::index::node::{edges_sound, lemma_edges_total_bound, lemma_node_sound, NodeView};
use crate::index::reader::{edge_place, find_from, find_key, follow, open_index, read_node, ReaderView};
use crate::ordered::{lemma_lex_total_order, lex_leq, slice_is_leq, views};
use crate::query::program::ProgramView;
use crate::search::types::HitView;
use vstd::prelude::*;

verus! {

/// Reads a node that has to be as frequent as the way to it says.
pub open spec fn arrive(data: Seq<u8>, offset: u64, bound: u64) -> Result<NodeView, ErrorView> {
    match read_node(data, offset) {
        Err(e) => Err(e),
        Ok(node) => if node.subtree != bound {
            Err(
                ErrorView::InvalidFormat {
                    offset: if offset <= usize::MAX {
                        offset as usize
                    } else {
                        usize::MAX
                    },
                    message: "父边频次与子节点不一致"@,
                },
            )
        } else {
            Ok(node)
        },
    }
}

/// The node that a label leads to.
pub open spec fn step_to(data: Seq<u8>, node: NodeView, label: char) -> Result<
    Option<NodeView>,
    ErrorView,
> {
    match edge_place(node.edges, label) {
        None => Ok(None),
        Some(i) => match arrive(data, node.edges[i].child_offset, node.edges[i].subtree) {
            Err(e) => Err(e),
            Ok(child) => Ok(Some(child)),
        },
    }
}

/// The node that a text leads to from the root.
pub open spec fn route(reader: ReaderView, text: Seq<char>) -> Result<Option<NodeView>, ErrorView>
    decreases text.len(),
{
    if text.len() == 0 {
        match arrive(reader.data, reader.root_offset, reader.root_subtree) {
            Err(e) => Err(e),
            Ok(root) => Ok(Some(root)),
        }
    } else {
        match route(reader, text.drop_last()) {
            Ok(Some(node)) => step_to(reader.data, node, text.last()),
            other => other,
        }
    }
}

/// The frequency by which a key is ranked.
pub open spec fn node_score(mode: IndexMode, node: NodeView) -> u64 {
    match mode {
        IndexMode::Records => node.terminal,
        IndexMode::Ngrams { window_codepoints } => node.subtree,
    }
}

/// The query accepts the text. Groups are checked where there are some.
pub open spec fn accepted(program: ProgramView, text: Seq<char>) -> bool {
    program.accepts_approx(text) && (program.capture_count == 0 || program.accepts(text))
}

/// The key is in the index with this frequency, and the query accepts it.
pub open spec fn is_hit(reader: ReaderView, program: ProgramView, hit: HitView) -> bool {
    &&& hit.text.len() > 0
    &&& hit.score > 0
    &&& accepted(program, hit.text)
    &&& route(reader, hit.text) matches Ok(Some(node)) && hit.score == node_score(
        reader.mode,
        node,
    )
}

/// `a` ranks before `b`: by a higher frequency, then by the lesser text.
pub open spec fn better(a: HitView, b: HitView) -> bool {
    a.score > b.score || (a.score == b.score && lex_leq::<char>(a.text, b.text) && a.text
        != b.text)
}

/// The hits stand by rank.
pub open spec fn ranked(hits: Seq<HitView>) -> bool {
    forall|i: int, j: int|
        0 <= i < j < hits.len() ==> better(#[trigger] hits[i], #[trigger] hits[j])
}

/// The hit is among those retained, or these are enough and all better.
pub open spec fn settled(hits: Seq<HitView>, limit: int, hit: HitView) -> bool {
    hits.contains(hit) || (hits.len() == limit && forall|i: int|
        0 <= i < hits.len() ==> better(#[trigger] hits[i], hit))
}

/// The results are the best hits, by rank, as many as the limit allows.
pub open spec fn best_hits(
    reader: ReaderView,
    program: ProgramView,
    limit: int,
    results: Seq<HitView>,
) -> bool {
    &&& sound_hits(reader, program, limit, results)
    &&& forall|hit: HitView| is_hit(reader, program, hit) ==> #[trigger] settled(
        results,
        limit,
        hit,
    )
}

/// The results are hits, by rank, as many as the limit allows.
pub open spec fn sound_hits(
    reader: ReaderView,
    program: ProgramView,
    limit: int,
    results: Seq<HitView>,
) -> bool {
    &&& results.len() <= limit
    &&& ranked(results)
    &&& forall|i: int| 0 <= i < results.len() ==> is_hit(reader, program, #[trigger] results[i])
}

pub proof fn lemma_better_order(a: HitView, b: HitView, c: HitView)
    ensures
        better(a, b) && better(b, c) ==> better(a, c),
        better(a, b) ==> !better(b, a) && a != b,
        a.text != b.text ==> better(a, b) || better(b, a),
{
    lemma_lex_total_order::<char>(a.text, b.text, c.text);
    lemma_lex_total_order::<char>(b.text, c.text, a.text);
    lemma_lex_total_order::<char>(c.text, a.text, b.text);
    lemma_lex_total_order::<char>(b.text, a.text, b.text);
    lemma_lex_total_order::<char>(c.text, b.text, c.text);
}

pub proof fn lemma_arrive_sound(data: Seq<u8>, offset: u64, bound: u64)
    requires
        arrive(data, offset, bound) is Ok,
    ensures
        ({
            let node = arrive(data, offset, bound)->Ok_0;
            &&& node.subtree == bound
            &&& node.terminal <= node.subtree
            &&& edges_sound(node.edges, offset)
            &&& forall|i: int|
                0 <= i < node.edges.len() ==> (#[trigger] node.edges[i]).subtree <= node.subtree
        }),
{
    lemma_node_sound(data, offset);
    let node = arrive(data, offset, bound)->Ok_0;
    assert forall|i: int| 0 <= i < node.edges.len() implies (#[trigger] node.edges[i]).subtree
        <= node.subtree by {
        lemma_edges_total_bound(node.edges, i, node.edges.len());
    }
}

/// A node that a text leads to is sound.
pub proof fn lemma_route_sound(reader: ReaderView, text: Seq<char>)
    requires
        route(reader, text) matches Ok(Some(_)),
    ensures
        ({
            let node = route(reader, text)->Ok_0->0;
            &&& node.terminal <= node.subtree
            &&& forall|i: int|
                0 <= i < node.edges.len() ==> (#[trigger] node.edges[i]).subtree <= node.subtree
        }),
    decreases text.len(),
{
    if text.len() == 0 {
        lemma_arrive_sound(reader.data, reader.root_offset, reader.root_subtree);
    } else {
        let before = route(reader, text.drop_last())->Ok_0->0;
        let i = edge_place(before.edges, text.last())->0;
        lemma_arrive_sound(
            reader.data,
            before.edges[i].child_offset,
            before.edges[i].subtree,
        );
    }
}

/// No key is more frequent than the texts that it starts with.
pub proof fn lemma_route_bound(reader: ReaderView, text: Seq<char>, prefix: Seq<char>)
    requires
        starts_with(prefix, text),
        route(reader, text) matches Ok(Some(_)),
    ensures
        route(reader, prefix) matches Ok(Some(node)) && (route(reader, text)->Ok_0->0).subtree
            <= node.subtree && node_score(reader.mode, route(reader, text)->Ok_0->0)
            <= node.subtree,
    decreases text.len(),
{
    lemma_route_sound(reader, text);
    if prefix.len() == text.len() {
        assert(text.take(prefix.len() as int) =~= text);
    } else {
        let init = text.drop_last();
        assert(init.take(prefix.len() as int) =~= text.take(prefix.len() as int));
        lemma_route_bound(reader, init, prefix);
        lemma_route_sound(reader, init);
        let before = route(reader, init)->Ok_0->0;
        let i = edge_place(before.edges, text.last())->0;
        lemma_arrive_sound(
            reader.data,
            before.edges[i].child_offset,
            before.edges[i].subtree,
        );
    }
}

/// A text that leads to a node leads there through each of its prefixes.
pub proof fn lemma_route_prefix(reader: ReaderView, text: Seq<char>, n: int)
    requires
        0 <= n < text.len(),
        route(reader, text) matches Ok(Some(_)),
    ensures
        route(reader, text.take(n)) matches Ok(Some(node)) && edge_place(
            node.edges,
            text[n],
        ) is Some && starts_with(text.take(n + 1), text),
    decreases text.len(),
{
    let init = text.drop_last();
    assert(text.take(n + 1).take(n + 1) =~= text.take(n + 1));
    if n == text.len() - 1 {
        assert(text.take(n) =~= init);
        assert(text.last() == text[n]);
    } else {
        lemma_route_prefix(reader, init, n);
        assert(init.take(n) =~= text.take(n));
    }
}

/// The way of the search is the way of a lookup, where the root is as frequent
/// as the header says.
pub proof fn lemma_route_is_find(reader: ReaderView, text: Seq<char>, node: NodeView)
    requires
        open_index(reader.data) == Ok::<ReaderView, ErrorView>(reader),
    ensures
        route(reader, text) == Ok::<Option<NodeView>, ErrorView>(Some(node)) <==> find_key(
            reader,
            text,
        ) == Ok::<Option<NodeView>, ErrorView>(Some(node)),
{
    let root = read_node(reader.data, reader.root_offset)->Ok_0;
    assert(arrive(reader.data, reader.root_offset, reader.root_subtree) == Ok::<
        NodeView,
        ErrorView,
    >(root));
    lemma_find_by_steps(reader.data, root, text);
    lemma_route_by_steps(reader, root, text);
}

/// Following the labels of a text, one after the other, as far as they lead.
spec fn steps(data: Seq<u8>, node: NodeView, text: Seq<char>) -> Option<NodeView>
    decreases text.len(),
{
    if text.len() == 0 {
        Some(node)
    } else {
        match step_to(data, node, text[0]) {
            Ok(Some(child)) => steps(data, child, text.skip(1)),
            _ => None,
        }
    }
}

proof fn lemma_find_by_steps(data: Seq<u8>, node: NodeView, text: Seq<char>)
    ensures
        match steps(data, node, text) {
            Some(n) => find_from(data, node, text) == Ok::<Option<NodeView>, ErrorView>(Some(n)),
            None => !(find_from(data, node, text) matches Ok(Some(_))),
        },
    decreases text.len(),
{
    if text.len() > 0 {
        match edge_place(node.edges, text[0]) {
            None => {},
            Some(i) => {
                let edge = node.edges[i];
                match arrive(data, edge.child_offset, edge.subtree) {
                    Ok(child) => {
                        assert(follow(data, edge) == Ok::<NodeView, ErrorView>(child));
                        lemma_find_by_steps(data, child, text.skip(1));
                    },
                    Err(e) => {
                        assert(follow(data, edge) is Err);
                    },
                }
            },
        }
    }
}

proof fn lemma_steps_push(data: Seq<u8>, node: NodeView, text: Seq<char>, c: char)
    ensures
        steps(data, node, text.push(c)) == (match steps(data, node, text) {
            Some(n) => match step_to(data, n, c) {
                Ok(Some(child)) => Some(child),
                _ => None,
            },
            None => None,
        }),
    decreases text.len(),
{
    let more = text.push(c);
    if text.len() == 0 {
        assert(more[0] == c);
        assert(more.skip(1).len() == 0);
        match step_to(data, node, c) {
            Ok(Some(child)) => {
                assert(steps(data, child, more.skip(1)) == Some(child));
            },
            _ => {},
        }
    } else {
        assert(more[0] == text[0]);
        assert(more.skip(1) =~= text.skip(1).push(c));
        match step_to(data, node, text[0]) {
            Ok(Some(child)) => {
                lemma_steps_push(data, child, text.skip(1), c);
            },
            _ => {},
        }
    }
}

proof fn lemma_route_by_steps(reader: ReaderView, root: NodeView, text: Seq<char>)
    requires
        arrive(reader.data, reader.root_offset, reader.root_subtree) == Ok::<NodeView, ErrorView>(
            root,
        ),
    ensures
        match steps(reader.data, root, text) {
            Some(n) => route(reader, text) == Ok::<Option<NodeView>, ErrorView>(Some(n)),
            None => !(route(reader, text) matches Ok(Some(_))),
        },
    decreases text.len(),
{
    if text.len() > 0 {
        let init = text.drop_last();
        lemma_route_by_steps(reader, root, init);
        lemma_steps_push(reader.data, root, init, text.last());
        assert(init.push(text.last()) =~= text);
    }
}

/// A hit as the search keeps it.
pub struct Ranked {
    pub text: Vec<char>,
    pub score: u64,
}

impl View for Ranked {
    type V = HitView;

    open spec fn view(&self) -> HitView {
        HitView { text: self.text@, score: self.score }
    }
}

fn is_better(a: &Ranked, b: &Ranked) -> (r: bool)
    ensures
        r == better(a@, b@),
{
    if a.score != b.score {
        return a.score > b.score;
    }
    proof {
        lemma_lex_total_order::<char>(a.text@, b.text@, a.text@);
    }
    slice_is_leq(a.text.as_slice(), b.text.as_slice()) && !slice_is_leq(
        b.text.as_slice(),
        a.text.as_slice(),
    )
}

/// No hit has this text.
pub open spec fn no_text(hits: Seq<HitView>, text: Seq<char>) -> bool {
    forall|i: int| 0 <= i < hits.len() ==> (#[trigger] hits[i]).text != text
}

/// Retains a further hit among the best ones.
pub fn retain_hit(retained: &mut Vec<Ranked>, limit: usize, candidate: Ranked)
    requires
        limit > 0,
        views(old(retained)@).len() <= limit,
        ranked(views(old(retained)@)),
        no_text(views(old(retained)@), candidate@.text),
    ensures
        views(final(retained)@).len() <= limit,
        ranked(views(final(retained)@)),
        forall|i: int|
            0 <= i < views(final(retained)@).len() ==> #[trigger] views(final(retained)@)[i]
                == candidate@ || views(old(retained)@).contains(views(final(retained)@)[i]),
        settled(views(final(retained)@), limit as int, candidate@),
        views(final(retained)@) == views(old(retained)@) || views(final(retained)@).contains(
            candidate@,
        ),
        forall|hit: HitView|
            settled(views(old(retained)@), limit as int, hit) ==> #[trigger] settled(
                views(final(retained)@),
                limit as int,
                hit,
            ),
{
    let ghost before: Seq<HitView> = views(retained@);
    let ghost c = candidate@;
    let mut place: usize = 0;
    while place < retained.len() && is_better(&retained[place], &candidate)
        invariant
            place <= retained@.len(),
            before == views(retained@),
            c == candidate@,
            forall|i: int| 0 <= i < place ==> better(#[trigger] before[i], c),
        decreases retained.len() - place,
    {
        place += 1;
    }
    proof {
        if place < before.len() {
            lemma_better_order(before[place as int], c, c);
            assert(better(c, before[place as int]));
        }
        assert forall|i: int| place <= i < before.len() implies better(
            c,
            #[trigger] before[i],
        ) by {
            if i > place {
                lemma_better_order(c, before[place as int], before[i]);
            }
        }
    }
    if retained.len() < limit {
        retained.insert(place, candidate);
        proof {
            let after: Seq<HitView> = views(retained@);
            assert(after =~= before.insert(place as int, c));
            lemma_insert_ranked(before, place as int, c);
            assert(after[place as int] == c);
            assert forall|hit: HitView| settled(before, limit as int, hit) implies #[trigger] settled(
                after,
                limit as int,
                hit,
            ) by {
                lemma_insert_contains(before, place as int, c, hit);
            }
            assert forall|i: int| 0 <= i < after.len() implies #[trigger] after[i] == c
                || before.contains(after[i]) by {
                if i < place {
                    assert(after[i] == before[i]);
                } else if i > place {
                    assert(after[i] == before[i - 1]);
                }
            }
        }
        return;
    }
    if place < retained.len() {
        let ghost worst = before[before.len() - 1];
        let dropped = retained.pop();
        let ghost fewer = before.drop_last();
        proof {
            assert(views(retained@) =~= fewer);
        }
        retained.insert(place, candidate);
        proof {
            let after: Seq<HitView> = views(retained@);
            assert(after =~= fewer.insert(place as int, c));
            assert(ranked(fewer));
            lemma_insert_ranked(fewer, place as int, c);
            assert(after[place as int] == c);
            assert forall|i: int| 0 <= i < after.len() implies #[trigger] after[i] == c
                || before.contains(after[i]) by {
                if i < place {
                    assert(after[i] == before[i]);
                } else if i > place {
                    assert(after[i] == before[i - 1]);
                }
            }
            // all of those kept are better than the one that is dropped
            assert forall|i: int| 0 <= i < after.len() implies better(
                #[trigger] after[i],
                worst,
            ) by {
                if i < place {
                    assert(after[i] == before[i]);
                } else if i > place {
                    assert(after[i] == before[i - 1]);
                }
            }
            assert forall|hit: HitView| settled(before, limit as int, hit) implies #[trigger] settled(
                after,
                limit as int,
                hit,
            ) by {
                if before.contains(hit) {
                    let k = choose|k: int| 0 <= k < before.len() && before[k] == hit;
                    if k < before.len() - 1 {
                        assert(fewer[k] == hit);
                        lemma_insert_contains(fewer, place as int, c, hit);
                    }
                } else {
                    assert forall|i: int| 0 <= i < after.len() implies better(
                        #[trigger] after[i],
                        hit,
                    ) by {
                        assert(better(before[before.len() - 1], hit));
                        lemma_better_order(after[i], worst, hit);
                    }
                }
            }
        }
    } else {
        proof {
            assert(settled(before, limit as int, c));
            assert forall|i: int| 0 <= i < before.len() implies #[trigger] before[i] == c
                || before.contains(before[i]) by {
            }
        }
    }
}

proof fn lemma_insert_ranked(s: Seq<HitView>, at: int, c: HitView)
    requires
        ranked(s),
        0 <= at <= s.len(),
        forall|i: int| 0 <= i < at ==> better(#[trigger] s[i], c),
        forall|i: int| at <= i < s.len() ==> better(c, #[trigger] s[i]),
    ensures
        ranked(s.insert(at, c)),
{
    let t = s.insert(at, c);
    assert forall|i: int, j: int| 0 <= i < j < t.len() implies better(
        #[trigger] t[i],
        #[trigger] t[j],
    ) by {
        let a = if i < at { i } else { i - 1 };
        let b = if j < at { j } else { j - 1 };
        if i != at {
            assert(t[i] == s[a]);
        }
        if j != at {
            assert(t[j] == s[b]);
        }
    }
}

proof fn lemma_insert_contains(s: Seq<HitView>, at: int, c: HitView, x: HitView)
    requires
        0 <= at <= s.len(),
    ensures
        s.contains(x) ==> s.insert(at, c).contains(x),
{
    if s.contains(x) {
        let k = choose|k: int| 0 <= k < s.len() && s[k] == x;
        let m = if k < at { k } else { k + 1 };
        assert(s.insert(at, c)[m] == x);
    }
}

} // verus!
