//! Nodes of an index: their bytes, and reading them back.
use crate::index::codec::{
    lemma_varint_at, lemma_varint_at_ok, lemma_varint_len, read_varint, varint, varint_at,
    write_varint, HEADER_LEN,
};
use crate::index::error::{format_fault, ErrorView, IndexError};
use crate::text::{lemma_same_code_point, scalar};
use vstd::prelude::*;

verus! {

/// An edge to a child node.
#[derive(Clone, Copy, Debug, PartialEq, Eq, Structural)]
pub struct Edge {
    pub label: char,
    pub child_offset: u64,
    pub subtree: u64,
}

/// A node as it is read.
#[derive(Clone, Debug, PartialEq, Eq)]
pub struct Node {
    pub offset: u64,
    /// The frequency of the key itself. In a pruned n-gram index, also the
    /// residual frequency of omitted descendants; the root's residual never
    /// stands for an empty result.
    pub terminal: u64,
    pub subtree: u64,
    pub edges: Vec<Edge>,
}

/// The mathematical content of a [`Node`].
pub struct NodeView {
    pub offset: u64,
    pub terminal: u64,
    pub subtree: u64,
    pub edges: Seq<Edge>,
}

impl View for Node {
    type V = NodeView;

    open spec fn view(&self) -> NodeView {
        NodeView {
            offset: self.offset,
            terminal: self.terminal,
            subtree: self.subtree,
            edges: self.edges@,
        }
    }
}

/// A child that has been written, with its label, place and frequency.
#[derive(Clone, Copy, Debug, PartialEq, Eq, Structural)]
pub struct WrittenChild {
    pub label: u32,
    pub offset: u64,
    pub subtree: u64,
}

/// The bytes of the edges of a node at `at`.
pub open spec fn edges_bytes(at: int, kids: Seq<WrittenChild>) -> Seq<u8>
    decreases kids.len(),
{
    if kids.len() == 0 {
        Seq::empty()
    } else {
        varint(kids[0].label as nat) + varint((at - kids[0].offset) as nat) + varint(
            kids[0].subtree as nat,
        ) + edges_bytes(at, kids.skip(1))
    }
}

/// The bytes of a node at `at`.
pub open spec fn node_bytes(at: int, terminal: nat, subtree: nat, kids: Seq<WrittenChild>) -> Seq<
    u8,
> {
    varint(terminal) + varint(subtree) + varint(kids.len()) + edges_bytes(at, kids)
}

/// The sum of the frequencies of the first `n` children.
pub open spec fn kids_total(kids: Seq<WrittenChild>, n: nat) -> nat
    decreases n,
{
    if n == 0 || n > kids.len() {
        0
    } else {
        kids_total(kids, (n - 1) as nat) + kids[n - 1].subtree as nat
    }
}

/// A node that can stand at `at`: its children stand before it, with labels
/// that ascend, and its frequency is what it says.
pub open spec fn node_fits(at: int, terminal: nat, subtree: nat, kids: Seq<WrittenChild>) -> bool {
    &&& HEADER_LEN <= at
    &&& subtree <= i64::MAX
    &&& terminal + kids_total(kids, kids.len()) == subtree
    &&& forall|i: int|
        0 <= i < kids.len() ==> {
            &&& scalar((#[trigger] kids[i]).label as int)
            &&& HEADER_LEN <= kids[i].offset < at
            &&& kids[i].subtree > 0
        }
    &&& forall|i: int, j: int|
        0 <= i < j < kids.len() ==> (#[trigger] kids[i]).label < (#[trigger] kids[j]).label
}

/// Reads the edges of a node that are left.
pub open spec fn edges_from(
    data: Seq<u8>,
    offset: u64,
    at: int,
    left: nat,
    edges: Seq<Edge>,
    total: nat,
) -> Result<(Seq<Edge>, int, nat), ErrorView>
    decreases left,
{
    if left == 0 {
        Ok((edges, at, total))
    } else {
        match varint_at(data, at) {
            Err(e) => Err(e),
            Ok((label, at1)) => if label > u32::MAX {
                Err(format_fault(at as usize, "label exceeds u32"@))
            } else if !scalar(label as int) {
                Err(format_fault(at as usize, "label is not a Unicode scalar value"@))
            } else if edges.len() > 0 && label <= edges.last().label as nat {
                Err(format_fault(at as usize, "edge labels are not strictly increasing"@))
            } else {
                match varint_at(data, at1) {
                    Err(e) => Err(e),
                    Ok((delta, at2)) => if delta == 0 || delta > offset - HEADER_LEN {
                        Err(
                            format_fault(
                                at1 as usize,
                                "child back-reference is outside the payload"@,
                            ),
                        )
                    } else {
                        match varint_at(data, at2) {
                            Err(e) => Err(e),
                            Ok((subtree, at3)) => if subtree == 0 {
                                Err(
                                    format_fault(
                                        at2 as usize,
                                        "non-root child has an empty subtree"@,
                                    ),
                                )
                            } else if subtree > i64::MAX {
                                Err(
                                    format_fault(
                                        at2 as usize,
                                        "child subtree count exceeds i64::MAX"@,
                                    ),
                                )
                            } else if total + subtree > u64::MAX {
                                Err(ErrorView::Overflow("decoded child counts"@))
                            } else {
                                edges_from(
                                    data,
                                    offset,
                                    at3,
                                    (left - 1) as nat,
                                    edges.push(
                                        Edge {
                                            label: label as char,
                                            child_offset: (offset - delta) as u64,
                                            subtree: subtree as u64,
                                        },
                                    ),
                                    total + subtree,
                                )
                            },
                        }
                    },
                }
            },
        }
    }
}

/// Reads the node at `offset`, with the place behind it.
pub open spec fn node_at(data: Seq<u8>, offset: u64) -> Result<(NodeView, int), ErrorView> {
    if offset < HEADER_LEN || offset >= data.len() {
        Err(
            format_fault(
                if offset <= usize::MAX {
                    offset as usize
                } else {
                    usize::MAX
                },
                "node offset is outside the payload"@,
            ),
        )
    } else {
        match varint_at(data, offset as int) {
            Err(e) => Err(e),
            Ok((terminal, at1)) => match varint_at(data, at1) {
                Err(e) => Err(e),
                Ok((subtree, at2)) => if terminal > i64::MAX || subtree > i64::MAX {
                    Err(format_fault(offset as usize, "node frequency exceeds i64::MAX"@))
                } else {
                    match varint_at(data, at2) {
                        Err(e) => Err(e),
                        Ok((count, at3)) => if count > usize::MAX {
                            Err(format_fault(at3 as usize, "edge count does not fit usize"@))
                        } else if count > (data.len() - at3) / 3 {
                            Err(format_fault(at3 as usize, "edge table is truncated"@))
                        } else {
                            match edges_from(data, offset, at3, count, Seq::empty(), 0) {
                                Err(e) => Err(e),
                                Ok((edges, end, total)) => if terminal + total > u64::MAX {
                                    Err(ErrorView::Overflow("decoded subtree count"@))
                                } else if terminal + total != subtree {
                                    Err(
                                        format_fault(
                                            offset as usize,
                                            "terminal and child counts do not equal the subtree count"@,
                                        ),
                                    )
                                } else {
                                    Ok(
                                        (
                                            NodeView {
                                                offset,
                                                terminal: terminal as u64,
                                                subtree: subtree as u64,
                                                edges,
                                            },
                                            end,
                                        ),
                                    )
                                },
                            }
                        },
                    }
                },
            },
        }
    }
}

/// The edge to a written child.
pub open spec fn edge_to(kid: WrittenChild) -> Edge {
    Edge { label: kid.label as char, child_offset: kid.offset, subtree: kid.subtree }
}

/// The edges to written children.
pub open spec fn edges_to(kids: Seq<WrittenChild>) -> Seq<Edge> {
    Seq::new(kids.len(), |i: int| edge_to(kids[i]))
}

/// Whether `data` holds `bytes` at `at`.
pub open spec fn holds(data: Seq<u8>, at: int, bytes: Seq<u8>) -> bool {
    0 <= at && at + bytes.len() <= data.len() && data.subrange(at, at + bytes.len()) == bytes
}

/// What is held is held in parts.
pub proof fn lemma_holds_split(data: Seq<u8>, at: int, a: Seq<u8>, b: Seq<u8>)
    requires
        holds(data, at, a + b),
    ensures
        holds(data, at, a),
        holds(data, at + a.len(), b),
{
    let whole = data.subrange(at, at + (a + b).len());
    assert(data.subrange(at, at + a.len()) =~= a) by {
        assert forall|i: int| 0 <= i < a.len() implies data.subrange(at, at + a.len())[i]
            == a[i] by {
            assert(whole[i] == (a + b)[i]);
        }
    }
    assert(data.subrange(at + a.len(), at + a.len() + b.len()) =~= b) by {
        assert forall|i: int| 0 <= i < b.len() implies data.subrange(
            at + a.len(),
            at + a.len() + b.len(),
        )[i] == b[i] by {
            assert(whole[i + a.len()] == (a + b)[i + a.len()]);
        }
    }
}

proof fn lemma_kids_total_mono(kids: Seq<WrittenChild>, m: nat, n: nat)
    requires
        m <= n <= kids.len(),
    ensures
        kids_total(kids, m) <= kids_total(kids, n),
    decreases n,
{
    if m < n {
        lemma_kids_total_mono(kids, m, (n - 1) as nat);
    }
}

proof fn lemma_edges_len(at: int, kids: Seq<WrittenChild>)
    ensures
        edges_bytes(at, kids).len() >= 3 * kids.len(),
    decreases kids.len(),
{
    if kids.len() > 0 {
        lemma_edges_len(at, kids.skip(1));
        lemma_varint_len(kids[0].label as nat);
        lemma_varint_len((at - kids[0].offset) as nat);
        lemma_varint_len(kids[0].subtree as nat);
    }
}

#[verifier::rlimit(50)]
proof fn lemma_edges_read_back(
    data: Seq<u8>,
    offset: u64,
    at: int,
    kids: Seq<WrittenChild>,
    done: int,
    terminal: nat,
    subtree: nat,
)
    requires
        node_fits(offset as int, terminal, subtree, kids),
        0 <= done <= kids.len(),
        holds(data, at, edges_bytes(offset as int, kids.skip(done))),
    ensures
        edges_from(
            data,
            offset,
            at,
            (kids.len() - done) as nat,
            edges_to(kids).take(done),
            kids_total(kids, done as nat),
        ) == Ok::<(Seq<Edge>, int, nat), ErrorView>(
            (
                edges_to(kids),
                at + edges_bytes(offset as int, kids.skip(done)).len(),
                kids_total(kids, kids.len()),
            ),
        ),
    decreases kids.len() - done,
{
    let edges = edges_to(kids);
    let rest = kids.skip(done);
    if done == kids.len() {
        assert(edges.take(done) =~= edges);
    } else {
        let kid = kids[done];
        assert(rest[0] == kid);
        assert(rest.skip(1) =~= kids.skip(done + 1));
        let a = varint(kid.label as nat);
        let delta = (offset - kid.offset) as nat;
        let b = varint(delta);
        let c = varint(kid.subtree as nat);
        let d = edges_bytes(offset as int, kids.skip(done + 1));
        assert(edges_bytes(offset as int, rest) == a + b + c + d);
        lemma_holds_split(data, at, a + b + c, d);
        lemma_holds_split(data, at, a + b, c);
        lemma_holds_split(data, at, a, b);
        assert((a + b + c).len() == a.len() + b.len() + c.len());
        assert((a + b).len() == a.len() + b.len());
        lemma_varint_at(data, at, kid.label as u64);
        lemma_varint_at(data, at + a.len(), delta as u64);
        lemma_varint_at(data, at + a.len() + b.len(), kid.subtree);
        lemma_kids_total_mono(kids, (done + 1) as nat, kids.len());
        let taken = edges.take(done);
        if done > 0 {
            assert(taken.last() == edge_to(kids[done - 1]));
            assert(kids[done - 1].label < kids[done].label);
            assert(scalar(kids[done - 1].label as int));
        }
        assert(edges.take(done + 1) =~= taken.push(edge_to(kid)));
        assert(offset - delta == kid.offset);
        lemma_edges_read_back(
            data,
            offset,
            at + a.len() + b.len() + c.len(),
            kids,
            done + 1,
            terminal,
            subtree,
        );
    }
}

/// A node reads back as it was written.
pub proof fn lemma_node_read_back(
    data: Seq<u8>,
    offset: u64,
    terminal: nat,
    subtree: nat,
    kids: Seq<WrittenChild>,
)
    requires
        data.len() <= usize::MAX,
        node_fits(offset as int, terminal, subtree, kids),
        holds(data, offset as int, node_bytes(offset as int, terminal, subtree, kids)),
    ensures
        node_at(data, offset) == Ok::<(NodeView, int), ErrorView>(
            (
                NodeView {
                    offset,
                    terminal: terminal as u64,
                    subtree: subtree as u64,
                    edges: edges_to(kids),
                },
                offset + node_bytes(offset as int, terminal, subtree, kids).len(),
            ),
        ),
{
    let at = offset as int;
    let a = varint(terminal);
    let b = varint(subtree);
    let c = varint(kids.len());
    let d = edges_bytes(at, kids);
    lemma_holds_split(data, at, a + b + c, d);
    lemma_holds_split(data, at, a + b, c);
    lemma_holds_split(data, at, a, b);
    lemma_varint_len(terminal);
    lemma_edges_len(at, kids);
    lemma_varint_at(data, at, terminal as u64);
    lemma_varint_at(data, at + a.len(), subtree as u64);
    lemma_varint_at(data, at + a.len() + b.len(), kids.len() as u64);
    let at3 = at + a.len() + b.len() + c.len();
    assert(kids.skip(0) =~= kids);
    assert(edges_to(kids).take(0) =~= Seq::empty());
    assert(kids.len() <= (data.len() - at3) / 3);
    lemma_edges_read_back(data, offset, at3, kids, 0, terminal, subtree);
}

/// The labels of the edges ascend.
pub open spec fn edges_ascend(edges: Seq<Edge>) -> bool {
    forall|i: int, j: int|
        0 <= i < j < edges.len() ==> ((#[trigger] edges[i]).label as u32) < (
        #[trigger] edges[j]).label as u32
}

/// The sum of the frequencies of the first `n` edges.
pub open spec fn edges_total(edges: Seq<Edge>, n: nat) -> nat
    decreases n,
{
    if n == 0 || n > edges.len() {
        0
    } else {
        edges_total(edges, (n - 1) as nat) + edges[n - 1].subtree as nat
    }
}

/// What holds of the edges of every node that is read: they ascend, lead back
/// to nodes behind the header, and none is empty.
pub open spec fn edges_sound(edges: Seq<Edge>, offset: u64) -> bool {
    &&& edges_ascend(edges)
    &&& forall|i: int|
        0 <= i < edges.len() ==> {
            &&& HEADER_LEN <= (#[trigger] edges[i]).child_offset < offset
            &&& 0 < edges[i].subtree <= i64::MAX
        }
}

proof fn lemma_edges_total_push(edges: Seq<Edge>, e: Edge, n: nat)
    requires
        n <= edges.len(),
    ensures
        edges_total(edges.push(e), n) == edges_total(edges, n),
    decreases n,
{
    if n > 0 {
        lemma_edges_total_push(edges, e, (n - 1) as nat);
        assert(edges.push(e)[n - 1] == edges[n - 1]);
    }
}

proof fn lemma_edges_sound(
    data: Seq<u8>,
    offset: u64,
    at: int,
    left: nat,
    edges: Seq<Edge>,
    total: nat,
)
    requires
        0 <= at <= data.len(),
        HEADER_LEN <= offset,
        edges_sound(edges, offset),
        total == edges_total(edges, edges.len()),
        edges_from(data, offset, at, left, edges, total) is Ok,
    ensures
        ({
            let (all, end, sum) = edges_from(data, offset, at, left, edges, total)->Ok_0;
            &&& edges_sound(all, offset)
            &&& all.len() == edges.len() + left
            &&& at <= end <= data.len()
            &&& sum == edges_total(all, all.len())
        }),
    decreases left,
{
    if left > 0 {
        let (label, at1) = varint_at(data, at)->Ok_0;
        lemma_varint_at_ok(data, at);
        let (delta, at2) = varint_at(data, at1)->Ok_0;
        lemma_varint_at_ok(data, at1);
        let (subtree, at3) = varint_at(data, at2)->Ok_0;
        lemma_varint_at_ok(data, at2);
        let e = Edge {
            label: label as char,
            child_offset: (offset - delta) as u64,
            subtree: subtree as u64,
        };
        let more = edges.push(e);
        assert(e.label as u32 == label);
        assert forall|i: int, j: int| 0 <= i < j < more.len() implies ((
        #[trigger] more[i]).label as u32) < (#[trigger] more[j]).label as u32 by {
            if j == edges.len() {
                if i < edges.len() - 1 {
                    assert((edges[i].label as u32) < edges[edges.len() - 1].label as u32);
                }
            }
        }
        lemma_edges_total_push(edges, e, edges.len());
        lemma_edges_sound(data, offset, at3, (left - 1) as nat, more, total + subtree);
    }
}

/// What holds of every node that is read.
pub proof fn lemma_node_sound(data: Seq<u8>, offset: u64)
    requires
        node_at(data, offset) is Ok,
    ensures
        ({
            let (node, end) = node_at(data, offset)->Ok_0;
            &&& HEADER_LEN <= offset < end <= data.len()
            &&& node.offset == offset
            &&& node.terminal <= i64::MAX
            &&& node.subtree <= i64::MAX
            &&& edges_sound(node.edges, offset)
            &&& node.subtree == node.terminal + edges_total(node.edges, node.edges.len())
        }),
{
    let (terminal, at1) = varint_at(data, offset as int)->Ok_0;
    lemma_varint_at_ok(data, offset as int);
    let (subtree, at2) = varint_at(data, at1)->Ok_0;
    lemma_varint_at_ok(data, at1);
    let (count, at3) = varint_at(data, at2)->Ok_0;
    lemma_varint_at_ok(data, at2);
    lemma_edges_sound(data, offset, at3, count, Seq::empty(), 0);
}

/// An edge is at most as frequent as its node.
pub proof fn lemma_edges_total_bound(edges: Seq<Edge>, i: int, n: nat)
    requires
        0 <= i < n <= edges.len(),
    ensures
        edges[i].subtree <= edges_total(edges, n),
    decreases n,
{
    if i < n - 1 {
        lemma_edges_total_bound(edges, i, (n - 1) as nat);
    }
}

/// Writes the bytes of a node behind what stands in `out`.
pub(crate) fn write_node(
    out: &mut Vec<u8>,
    terminal: u64,
    subtree: u64,
    kids: &Vec<WrittenChild>,
)
    requires
        forall|i: int|
            0 <= i < kids@.len() ==> (#[trigger] kids@[i]).offset <= old(out)@.len(),
    ensures
        final(out)@ == old(out)@ + node_bytes(
            old(out)@.len() as int,
            terminal as nat,
            subtree as nat,
            kids@,
        ),
{
    let at: u64 = out.len() as u64;
    let ghost start = out@;
    let ghost a = varint(terminal as nat);
    let ghost b = varint(subtree as nat);
    let ghost c = varint(kids@.len());
    write_varint(out, terminal);
    write_varint(out, subtree);
    write_varint(out, kids.len() as u64);
    let ghost all = edges_bytes(at as int, kids@);
    let mut i: usize = 0;
    assert(kids@.skip(0) =~= kids@);
    while i < kids.len()
        invariant
            i <= kids.len(),
            at == start.len(),
            all == edges_bytes(at as int, kids@),
            forall|i: int| 0 <= i < kids@.len() ==> (#[trigger] kids@[i]).offset <= at,
            out@ + edges_bytes(at as int, kids@.skip(i as int)) == start + a + b + c + all,
        decreases kids.len() - i,
    {
        let ghost before = out@;
        let kid = kids[i];
        write_varint(out, kid.label as u64);
        write_varint(out, at - kid.offset);
        write_varint(out, kid.subtree);
        proof {
            let rest = kids@.skip(i as int);
            assert(rest[0] == kid);
            assert(rest.skip(1) =~= kids@.skip(i + 1));
            let x = varint(kid.label as nat);
            let y = varint((at - kid.offset) as nat);
            let z = varint(kid.subtree as nat);
            let tail = edges_bytes(at as int, kids@.skip(i + 1));
            assert(before + (x + y + z + tail) =~= before + x + y + z + tail);
        }
        i += 1;
    }
    proof {
        assert(kids@.skip(i as int).len() == 0);
        assert(out@ =~= out@ + edges_bytes(at as int, kids@.skip(i as int)));
        assert(start + a + b + c + all =~= start + (a + b + c + all));
    }
}

/// Reads the node at `offset`, with the place behind it.
#[verifier::rlimit(50)]
pub(crate) fn parse_node(data: &[u8], offset: u64) -> (r: Result<(Node, usize), IndexError>)
    ensures
        match (node_at(data@, offset), r) {
            (Ok((node, end)), Ok((n, e))) => node == n@ && end == e,
            (Err(e), Err(f)) => e == f@,
            _ => false,
        },
{
    if offset < HEADER_LEN as u64 || offset >= data.len() as u64 {
        let place: usize = if offset <= usize::MAX as u64 {
            offset as usize
        } else {
            usize::MAX
        };
        return Err(IndexError::format(place, "node offset is outside the payload"));
    }
    let start: usize = offset as usize;
    let (terminal, at1) = match read_varint(data, start) {
        Ok(x) => x,
        Err(e) => {
            return Err(e);
        },
    };
    let (subtree, at2) = match read_varint(data, at1) {
        Ok(x) => x,
        Err(e) => {
            return Err(e);
        },
    };
    if terminal > i64::MAX as u64 || subtree > i64::MAX as u64 {
        return Err(IndexError::format(start, "node frequency exceeds i64::MAX"));
    }
    let (count, at3) = match read_varint(data, at2) {
        Ok(x) => x,
        Err(e) => {
            return Err(e);
        },
    };
    if count > usize::MAX as u64 {
        return Err(IndexError::format(at3, "edge count does not fit usize"));
    }
    if count > ((data.len() - at3) / 3) as u64 {
        return Err(IndexError::format(at3, "edge table is truncated"));
    }
    let mut edges: Vec<Edge> = Vec::new();
    let mut child_total: u64 = 0;
    let mut position: usize = at3;
    let mut left: u64 = count;
    let ghost whole = edges_from(data@, offset, at3 as int, count as nat, Seq::empty(), 0);
    assert(edges@ =~= Seq::empty());
    while left > 0
        invariant
            HEADER_LEN <= offset < data@.len(),
            position <= data@.len(),
            whole == edges_from(
                data@,
                offset,
                position as int,
                left as nat,
                edges@,
                child_total as nat,
            ),
            match (node_at(data@, offset), whole) {
                (Err(e), Err(f)) => e == f,
                (_, Ok(_)) => true,
                _ => false,
            },
        decreases left,
    {
        let label_offset: usize = position;
        let (label_value, p1) = match read_varint(data, position) {
            Ok(x) => x,
            Err(e) => {
                return Err(e);
            },
        };
        if label_value > u32::MAX as u64 {
            return Err(IndexError::format(label_offset, "label exceeds u32"));
        }
        let label = match char::from_u32(label_value as u32) {
            Some(c) => c,
            None => {
                return Err(
                    IndexError::format(label_offset, "label is not a Unicode scalar value"),
                );
            },
        };
        if edges.len() > 0 && label_value as u32 <= edges[edges.len() - 1].label as u32 {
            return Err(IndexError::format(label_offset, "edge labels are not strictly increasing"));
        }
        let (delta, p2) = match read_varint(data, p1) {
            Ok(x) => x,
            Err(e) => {
                return Err(e);
            },
        };
        if delta == 0 || delta > offset - HEADER_LEN as u64 {
            return Err(IndexError::format(p1, "child back-reference is outside the payload"));
        }
        let child_offset: u64 = offset - delta;
        let (child_subtree, p3) = match read_varint(data, p2) {
            Ok(x) => x,
            Err(e) => {
                return Err(e);
            },
        };
        if child_subtree == 0 {
            return Err(IndexError::format(p2, "non-root child has an empty subtree"));
        }
        if child_subtree > i64::MAX as u64 {
            return Err(IndexError::format(p2, "child subtree count exceeds i64::MAX"));
        }
        let sum: u64 = match child_total.checked_add(child_subtree) {
            Some(sum) => sum,
            None => {
                return Err(IndexError::Overflow("decoded child counts"));
            },
        };
        child_total = sum;
        proof {
            lemma_same_code_point(label, (label_value as nat) as char);
        }
        assert((offset - delta as nat) as u64 == child_offset);
        edges.push(Edge { label, child_offset, subtree: child_subtree });
        position = p3;
        left = left - 1;
    }
    let computed: u64 = match terminal.checked_add(child_total) {
        Some(sum) => sum,
        None => {
            return Err(IndexError::Overflow("decoded subtree count"));
        },
    };
    if computed != subtree {
        return Err(
            IndexError::format(start, "terminal and child counts do not equal the subtree count"),
        );
    }
    Ok((Node { offset, terminal, subtree, edges }, position))
}

} // verus!
