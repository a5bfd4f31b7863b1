//! Checking every node of an index.
use crate::index::codec::HEADER_LEN;
use crate::index::error::{format_fault, ErrorView, IndexError};
use crate::index::node::{edges_sound, lemma_node_sound, node_at, Edge};
use crate::index::reader::{IndexReader, ReaderView};
use crate::ordered::{lemma_sorted_unique, sort, sorted, views};
use std::collections::HashSet;
use vstd::prelude::*;
use vstd::std_specs::hash::obeys_key_model;

verus! {

/// What a full check has counted.
#[derive(Clone, Copy, Debug, PartialEq, Eq, Structural)]
pub struct ValidationStats {
    pub node_count: u64,
    pub edge_count: u64,
}

impl Default for ValidationStats {
    fn default() -> (r: Self)
        ensures
            r == (ValidationStats { node_count: 0, edge_count: 0 }),
    {
        ValidationStats { node_count: 0, edge_count: 0 }
    }
}

/// The nodes met so far, each with its start and end, and the number of their
/// edges.
pub struct Visited {
    pub spans: Seq<(u64, u64)>,
    pub edges: nat,
}

/// One of the spans starts here.
pub open spec fn met(spans: Seq<(u64, u64)>, offset: u64) -> bool {
    exists|i: int| 0 <= i < spans.len() && (#[trigger] spans[i]).0 == offset
}

/// Visits the node at `offset`, which has not been met, is as frequent as its
/// parent says, and then all below it.
pub open spec fn visit(data: Seq<u8>, offset: u64, expected: u64, so_far: Visited) -> Result<
    Visited,
    ErrorView,
>
    decreases offset, 1nat, 0nat,
{
    if met(so_far.spans, offset) {
        Err(format_fault(offset as usize, "node is referenced more than once"@))
    } else {
        match node_at(data, offset) {
            Err(e) => Err(e),
            Ok((node, end)) => if node.subtree != expected {
                Err(format_fault(offset as usize, "parent edge has the wrong subtree count"@))
            } else if so_far.edges + node.edges.len() > u64::MAX {
                Err(ErrorView::Overflow("validated edge count"@))
            } else {
                visit_edges(
                    data,
                    offset,
                    node.edges,
                    Visited {
                        spans: so_far.spans.push((offset, end as u64)),
                        edges: so_far.edges + node.edges.len(),
                    },
                )
            },
        }
    }
}

/// Visits the children of the node at `offset`, one after the other.
pub open spec fn visit_edges(
    data: Seq<u8>,
    offset: u64,
    edges: Seq<Edge>,
    so_far: Visited,
) -> Result<Visited, ErrorView>
    decreases offset, 0nat, edges.len(),
{
    if edges.len() == 0 {
        Ok(so_far)
    } else if edges[0].child_offset >= offset {
        Ok(so_far)
    } else {
        match visit(data, edges[0].child_offset, edges[0].subtree, so_far) {
            Err(e) => Err(e),
            Ok(more) => visit_edges(data, offset, edges.skip(1), more),
        }
    }
}

/// Visits the first `n` nodes of a stack, the last first.
spec fn visit_stack(data: Seq<u8>, stack: Seq<(u64, u64)>, n: nat, so_far: Visited) -> Result<
    Visited,
    ErrorView,
>
    decreases n,
{
    if n == 0 || n > stack.len() {
        Ok(so_far)
    } else {
        match visit(data, stack[n - 1].0, stack[n - 1].1, so_far) {
            Err(e) => Err(e),
            Ok(more) => visit_stack(data, stack, (n - 1) as nat, more),
        }
    }
}

/// The spans by their start.
pub open spec fn sorted_spans(spans: Seq<(u64, u64)>) -> Seq<(u64, u64)> {
    choose|s: Seq<(u64, u64)>|
        sorted::<(u64, u64)>(s) && s.to_multiset() == spans.to_multiset()
}

/// The end of spans that follow each other without a gap from `from` on, or
/// the first that does not.
pub open spec fn tiled(spans: Seq<(u64, u64)>, from: u64) -> Result<u64, ErrorView>
    decreases spans.len(),
{
    if spans.len() == 0 {
        Ok(from)
    } else if spans[0].0 != from || spans[0].1 < spans[0].0 {
        Err(
            format_fault(
                spans[0].0 as usize,
                "node payload contains a gap or overlapping node"@,
            ),
        )
    } else {
        tiled(spans.skip(1), spans[0].1)
    }
}

/// What a full check of an index finds: every node that can be reached is
/// sound and met once, and the nodes fill the payload.
pub open spec fn check_index(reader: ReaderView) -> Result<ValidationStats, ErrorView> {
    match visit(
        reader.data,
        reader.root_offset,
        reader.root_subtree,
        Visited { spans: Seq::empty(), edges: 0 },
    ) {
        Err(e) => Err(e),
        Ok(all) => if all.spans.len() != reader.node_count {
            Err(format_fault(40, "reachable node count disagrees with the header"@))
        } else {
            match tiled(sorted_spans(all.spans), HEADER_LEN as u64) {
                Err(e) => Err(e),
                Ok(end) => if end != reader.data.len() {
                    Err(
                        format_fault(
                            end as usize,
                            "node payload does not cover the declared file length"@,
                        ),
                    )
                } else {
                    Ok(
                        ValidationStats {
                            node_count: all.spans.len() as u64,
                            edge_count: all.edges as u64,
                        },
                    )
                },
            }
        },
    }
}

/// The nodes that a check from `offset` visits where nothing stops it.
spec fn visit_steps(data: Seq<u8>, offset: u64) -> nat
    decreases offset, 1nat, 0nat,
{
    match node_at(data, offset) {
        Err(e) => 1,
        Ok((node, end)) => 1 + edges_steps(data, offset, node.edges),
    }
}

spec fn edges_steps(data: Seq<u8>, offset: u64, edges: Seq<Edge>) -> nat
    decreases offset, 0nat, edges.len(),
{
    if edges.len() == 0 || edges[0].child_offset >= offset {
        0
    } else {
        visit_steps(data, edges[0].child_offset) + edges_steps(data, offset, edges.skip(1))
    }
}

spec fn stack_steps(data: Seq<u8>, stack: Seq<(u64, u64)>, n: nat) -> nat
    decreases n,
{
    if n == 0 || n > stack.len() {
        0
    } else {
        stack_steps(data, stack, (n - 1) as nat) + visit_steps(data, stack[n - 1].0)
    }
}

proof fn lemma_stack_same(
    data: Seq<u8>,
    a: Seq<(u64, u64)>,
    b: Seq<(u64, u64)>,
    n: nat,
    so_far: Visited,
)
    requires
        n <= a.len(),
        n <= b.len(),
        forall|i: int| 0 <= i < n ==> a[i] == b[i],
    ensures
        visit_stack(data, a, n, so_far) == visit_stack(data, b, n, so_far),
        stack_steps(data, a, n) == stack_steps(data, b, n),
    decreases n,
{
    if n > 0 {
        assert(a[n - 1] == b[n - 1]);
        lemma_stack_same(data, a, b, (n - 1) as nat, so_far);
        match visit(data, a[n - 1].0, a[n - 1].1, so_far) {
            Err(e) => {},
            Ok(more) => {
                lemma_stack_same(data, a, b, (n - 1) as nat, more);
            },
        }
    }
}

/// The edges of a node on top of a stack, the first on top.
spec fn stacked(base: Seq<(u64, u64)>, edges: Seq<Edge>) -> Seq<(u64, u64)>
    decreases edges.len(),
{
    if edges.len() == 0 {
        base
    } else {
        stacked(base, edges.skip(1)).push((edges[0].child_offset, edges[0].subtree))
    }
}

/// The children on top of the stack are visited first.
proof fn lemma_stacked(
    data: Seq<u8>,
    base: Seq<(u64, u64)>,
    offset: u64,
    edges: Seq<Edge>,
    so_far: Visited,
)
    requires
        forall|i: int| 0 <= i < edges.len() ==> (#[trigger] edges[i]).child_offset < offset,
    ensures
        stacked(base, edges).len() == base.len() + edges.len(),
        visit_stack(data, stacked(base, edges), stacked(base, edges).len(), so_far) == (
        match visit_edges(data, offset, edges, so_far) {
            Err(e) => Err(e),
            Ok(more) => visit_stack(data, base, base.len(), more),
        }),
        stack_steps(data, stacked(base, edges), stacked(base, edges).len()) == stack_steps(
            data,
            base,
            base.len(),
        ) + edges_steps(data, offset, edges),
    decreases edges.len(),
{
    if edges.len() > 0 {
        let rest = edges.skip(1);
        assert forall|i: int| 0 <= i < rest.len() implies (#[trigger] rest[i]).child_offset
            < offset by {
            assert(rest[i] == edges[i + 1]);
        }
        let below = stacked(base, rest);
        let all = stacked(base, edges);
        let n = below.len();
        lemma_stacked(data, base, offset, rest, so_far);
        assert(all[n as int] == (edges[0].child_offset, edges[0].subtree));
        match visit(data, edges[0].child_offset, edges[0].subtree, so_far) {
            Err(e) => {
                lemma_stack_same(data, all, below, n, so_far);
            },
            Ok(more) => {
                lemma_stack_same(data, all, below, n, more);
                lemma_stacked(data, base, offset, rest, more);
            },
        }
    }
}

/// The places met so far.
struct MetSet {
    places: HashSet<u64>,
}

impl View for MetSet {
    type V = Set<u64>;

    closed spec fn view(&self) -> Set<u64> {
        self.places@
    }
}

impl MetSet {
    spec fn wf(&self) -> bool {
        obeys_key_model::<u64>()
    }

    fn new() -> (r: Self)
        ensures
            r.wf(),
            r@ == Set::<u64>::empty(),
    {
        broadcast use vstd::std_specs::hash::group_hash_axioms;

        MetSet { places: HashSet::new() }
    }

    /// Adds a place, and tells whether it had been met.
    fn insert(&mut self, place: u64) -> (r: bool)
        requires
            old(self).wf(),
        ensures
            final(self).wf(),
            r == old(self)@.contains(place),
            final(self)@ == old(self)@.insert(place),
    {
        broadcast use vstd::std_specs::hash::group_hash_axioms;

        !self.places.insert(place)
    }
}

/// Checks that sorted spans follow each other without a gap.
fn check_tiling(spans: &Vec<(u64, u64)>) -> (r: Result<u64, IndexError>)
    ensures
        match (tiled(spans@, HEADER_LEN as u64), r) {
            (Ok(end), Ok(e)) => end == e,
            (Err(e), Err(f)) => f@ == e,
            _ => false,
        },
{
    let mut expected: u64 = HEADER_LEN as u64;
    let mut i: usize = 0;
    assert(spans@.skip(0) =~= spans@);
    while i < spans.len()
        invariant
            i <= spans.len(),
            tiled(spans@, HEADER_LEN as u64) == tiled(spans@.skip(i as int), expected),
        decreases spans.len() - i,
    {
        let (start, end) = spans[i];
        proof {
            assert(spans@.skip(i as int)[0] == spans@[i as int]);
            assert(spans@.skip(i as int).skip(1) =~= spans@.skip(i + 1));
        }
        if start != expected || end < start {
            return Err(
                IndexError::format(
                    start as usize,
                    "node payload contains a gap or overlapping node",
                ),
            );
        }
        expected = end;
        i += 1;
    }
    assert(spans@.skip(i as int).len() == 0);
    Ok(expected)
}

impl IndexReader {
    /// Visits every node that can be reached and checks it: its bytes, that
    /// nothing refers to it twice, and that the nodes fill the payload.
    pub fn validate_full(&self) -> (r: Result<ValidationStats, IndexError>)
        ensures
            match (check_index(self@), r) {
                (Ok(stats), Ok(s)) => s == stats,
                (Err(e), Err(f)) => f@ == e,
                _ => false,
            },
    {
        let ghost data = self@.data;
        let mut stack: Vec<(u64, u64)> = vec![(self.root_offset(), self.root_subtree())];
        let mut seen = MetSet::new();
        let mut spans: Vec<(u64, u64)> = Vec::new();
        let mut edge_count: u64 = 0;
        let ghost whole = visit(
            data,
            self@.root_offset,
            self@.root_subtree,
            Visited { spans: Seq::empty(), edges: 0 },
        );
        proof {
            let start = Visited { spans: Seq::empty(), edges: 0 };
            assert(spans@ =~= Seq::empty());
            assert(stack@[0] == (self@.root_offset, self@.root_subtree));
            assert(visit_stack(data, stack@, 1, start) == whole) by {
                match whole {
                    Err(e) => {},
                    Ok(more) => {
                        assert(visit_stack(data, stack@, 0, more) == Ok::<Visited, ErrorView>(more));
                    },
                }
            }
        }
        while stack.len() > 0
            invariant
                data == self@.data,
                seen.wf(),
                forall|x: u64| #[trigger] seen@.contains(x) == met(spans@, x),
                whole == visit(
                    data,
                    self@.root_offset,
                    self@.root_subtree,
                    Visited { spans: Seq::empty(), edges: 0 },
                ),
                visit_stack(
                    data,
                    stack@,
                    stack@.len(),
                    Visited { spans: spans@, edges: edge_count as nat },
                ) == whole,
            decreases stack_steps(data, stack@, stack@.len()),
        {
            let ghost before = stack@;
            let ghost so_far = Visited { spans: spans@, edges: edge_count as nat };
            let (offset, expected) = stack.pop().unwrap();
            proof {
                assert(before[before.len() - 1] == (offset, expected));
                assert(stack@ =~= before.drop_last());
            }
            if seen.insert(offset) {
                return Err(
                    IndexError::format(offset as usize, "node is referenced more than once"),
                );
            }
            let (node, end) = match self.node_and_end(offset) {
                Ok(x) => x,
                Err(e) => {
                    return Err(e);
                },
            };
            if node.subtree != expected {
                return Err(
                    IndexError::format(offset as usize, "parent edge has the wrong subtree count"),
                );
            }
            edge_count =
            match edge_count.checked_add(node.edges.len() as u64) {
                Some(n) => n,
                None => {
                    return Err(IndexError::Overflow("validated edge count"));
                },
            };
            let ghost older = spans@;
            spans.push((offset, end as u64));
            let ghost now = Visited { spans: spans@, edges: edge_count as nat };
            let ghost base = stack@;
            let ghost edges = node.edges@;
            proof {
                lemma_node_sound(data, offset);
                assert(edges_sound(edges, offset));
                lemma_stacked(data, base, offset, edges, now);
                lemma_stack_same(data, before, base, base.len(), so_far);
                match visit_edges(data, offset, edges, now) {
                    Err(e) => {},
                    Ok(more) => {
                        lemma_stack_same(data, before, base, base.len(), more);
                    },
                }
                assert(visit(data, offset, expected, so_far) == visit_edges(
                    data,
                    offset,
                    edges,
                    now,
                ));
                assert forall|x: u64| #[trigger] seen@.contains(x) == met(spans@, x) by {
                    lemma_met_push(older, (offset, end as u64), x);
                }
            }
            let mut i: usize = node.edges.len();
            assert(edges.skip(i as int).len() == 0);
            while i > 0
                invariant
                    i <= edges.len(),
                    edges == node.edges@,
                    stack@ == stacked(base, edges.skip(i as int)),
                decreases i,
            {
                i -= 1;
                let edge = node.edges[i];
                stack.push((edge.child_offset, edge.subtree));
                proof {
                    assert(edges.skip(i as int)[0] == edge);
                    assert(edges.skip(i as int).skip(1) =~= edges.skip(i + 1));
                }
            }
            assert(edges.skip(0) =~= edges);
        }
        if spans.len() as u64 != self.node_count() {
            return Err(IndexError::format(40, "reachable node count disagrees with the header"));
        }
        let ghost all = spans@;
        let node_count: u64 = spans.len() as u64;
        let spans = sort(spans);
        proof {
            assert(views(all) =~= all);
            assert(views(spans@) =~= spans@);
            let s = sorted_spans(all);
            assert(sorted::<(u64, u64)>(s) && s.to_multiset() == all.to_multiset()) by {
                assert(sorted::<(u64, u64)>(spans@) && spans@.to_multiset() == all.to_multiset());
            }
            lemma_sorted_unique::<(u64, u64)>(s, spans@);
        }
        let end: u64 = match check_tiling(&spans) {
            Ok(end) => end,
            Err(e) => {
                return Err(e);
            },
        };
        if end != self.as_bytes().len() as u64 {
            return Err(
                IndexError::format(
                    end as usize,
                    "node payload does not cover the declared file length",
                ),
            );
        }
        Ok(ValidationStats { node_count, edge_count })
    }
}

proof fn lemma_met_push(spans: Seq<(u64, u64)>, span: (u64, u64), x: u64)
    ensures
        met(spans.push(span), x) == (met(spans, x) || span.0 == x),
{
    let more = spans.push(span);
    if met(spans, x) {
        let i = choose|i: int| 0 <= i < spans.len() && (#[trigger] spans[i]).0 == x;
        assert(more[i].0 == x);
    }
    if span.0 == x {
        assert(more[spans.len() as int].0 == x);
    }
    if met(more, x) {
        let i = choose|i: int| 0 <= i < more.len() && (#[trigger] more[i]).0 == x;
        if i < spans.len() {
            assert(spans[i].0 == x);
        }
    }
}

} // verus!
