//! Walking over the keys of an index, in order.
use crate::index::error::{ErrorView, IndexError};
use crate::index::node::{edges_sound, lemma_node_sound, Node, NodeView};
use crate::index::reader::{follow, read_node, IndexReader};
use crate::text::string_of;
use vstd::prelude::*;

verus! {

/// A key of an index with its frequencies.
#[derive(Clone, Debug, PartialEq, Eq)]
pub struct WalkEntry {
    pub key: String,
    pub terminal: u64,
    pub subtree: u64,
}

/// The mathematical content of a [`WalkEntry`].
pub struct EntryView {
    pub key: Seq<char>,
    pub terminal: u64,
    pub subtree: u64,
}

impl View for WalkEntry {
    type V = EntryView;

    open spec fn view(&self) -> EntryView {
        EntryView { key: self.key@, terminal: self.terminal, subtree: self.subtree }
    }
}

/// What a walk gives: entries, and the fault at which it ends, if any.
pub struct Walk {
    pub entries: Seq<EntryView>,
    pub fault: Option<ErrorView>,
}

/// A walk that gives nothing.
pub open spec fn no_walk() -> Walk {
    Walk { entries: Seq::empty(), fault: None }
}

/// One walk after the other, unless the first ends at a fault.
pub open spec fn walk_on(a: Walk, b: Walk) -> Walk {
    if a.fault is Some {
        a
    } else {
        Walk { entries: a.entries + b.entries, fault: b.fault }
    }
}

/// The entry of a node, where it is one: the empty key is none, and without
/// implicit prefixes only a node with a frequency of its own is.
pub open spec fn walk_own(implicit: bool, node: NodeView, key: Seq<char>) -> Walk {
    if key.len() > 0 && (node.terminal > 0 || implicit) {
        Walk {
            entries: seq![EntryView { key, terminal: node.terminal, subtree: node.subtree }],
            fault: None,
        }
    } else {
        no_walk()
    }
}

/// The walk over a node and all below it.
pub open spec fn walk_node(data: Seq<u8>, implicit: bool, node: NodeView, key: Seq<char>) -> Walk
    decreases node.offset, node.edges.len() + 1,
{
    walk_on(walk_own(implicit, node, key), walk_edges(data, implicit, node, 0, key))
}

/// The walk over the children of a node from the `i`th on.
pub open spec fn walk_edges(
    data: Seq<u8>,
    implicit: bool,
    node: NodeView,
    i: int,
    key: Seq<char>,
) -> Walk
    decreases node.offset, node.edges.len() - i,
{
    if i < 0 || i >= node.edges.len() {
        no_walk()
    } else {
        match follow(data, node.edges[i]) {
            Err(e) => Walk { entries: Seq::empty(), fault: Some(e) },
            Ok(child) => if child.offset < node.offset {
                walk_on(
                    walk_node(data, implicit, child, key.push(node.edges[i].label)),
                    walk_edges(data, implicit, node, i + 1, key),
                )
            } else {
                no_walk()
            },
        }
    }
}

/// The steps that a walk over a node takes.
spec fn node_steps(data: Seq<u8>, node: NodeView) -> nat
    decreases node.offset, node.edges.len() + 1,
{
    2 + edges_steps(data, node, 0)
}

spec fn edges_steps(data: Seq<u8>, node: NodeView, i: int) -> nat
    decreases node.offset, node.edges.len() - i,
{
    if i < 0 || i >= node.edges.len() {
        0
    } else {
        match follow(data, node.edges[i]) {
            Err(e) => 1,
            Ok(child) => if child.offset < node.offset {
                1 + node_steps(data, child) + edges_steps(data, node, i + 1)
            } else {
                1
            },
        }
    }
}

struct WalkFrame {
    node: Node,
    next_edge: usize,
    yielded: bool,
}

/// A walk over the keys of an index.
pub struct IndexWalker<'a> {
    reader: &'a IndexReader,
    frames: Vec<WalkFrame>,
    key: Vec<char>,
    finished: bool,
}

/// What is left to walk at a node of the path.
spec fn frame_walk(data: Seq<u8>, implicit: bool, frame: WalkFrame, key: Seq<char>) -> Walk {
    walk_on(
        if frame.yielded {
            no_walk()
        } else {
            walk_own(implicit, frame.node@, key)
        },
        walk_edges(data, implicit, frame.node@, frame.next_edge as int, key),
    )
}

/// What is left to walk at the first `n` nodes of the path, the last first.
spec fn frames_walk(
    data: Seq<u8>,
    implicit: bool,
    frames: Seq<WalkFrame>,
    key: Seq<char>,
    n: nat,
) -> Walk
    decreases n,
{
    if n == 0 || n > frames.len() {
        no_walk()
    } else {
        walk_on(
            frame_walk(data, implicit, frames[n - 1], key.take(n - 1)),
            frames_walk(data, implicit, frames, key, (n - 1) as nat),
        )
    }
}

spec fn frame_steps(data: Seq<u8>, frame: WalkFrame) -> nat {
    edges_steps(data, frame.node@, frame.next_edge as int) + if frame.yielded {
        1nat
    } else {
        2
    }
}

spec fn frames_steps(data: Seq<u8>, frames: Seq<WalkFrame>, n: nat) -> nat
    decreases n,
{
    if n == 0 || n > frames.len() {
        0
    } else {
        frames_steps(data, frames, (n - 1) as nat) + frame_steps(data, frames[n - 1])
    }
}

/// The nodes below the last one are the same, so is what is left there.
proof fn lemma_frames_same(
    data: Seq<u8>,
    implicit: bool,
    a: Seq<WalkFrame>,
    b: Seq<WalkFrame>,
    key: Seq<char>,
    other: Seq<char>,
    n: nat,
)
    requires
        n <= a.len(),
        n <= b.len(),
        forall|i: int| 0 <= i < n ==> a[i] == b[i],
        n > 0 ==> key.len() >= n - 1 && other.len() >= n - 1 && key.take(n - 1) == other.take(
            n - 1,
        ),
    ensures
        frames_walk(data, implicit, a, key, n) == frames_walk(data, implicit, b, other, n),
        frames_steps(data, a, n) == frames_steps(data, b, n),
    decreases n,
{
    if n > 0 {
        if n > 1 {
            assert(key.take(n - 2) =~= key.take(n - 1).take(n - 2));
            assert(other.take(n - 2) =~= other.take(n - 1).take(n - 2));
        }
        lemma_frames_same(data, implicit, a, b, key, other, (n - 1) as nat);
        assert(a[n - 1] == b[n - 1]);
    }
}

proof fn lemma_walk_on(a: Walk, b: Walk, c: Walk)
    ensures
        walk_on(walk_on(a, b), c) == walk_on(a, walk_on(b, c)),
        walk_on(no_walk(), a) == a,
{
    assert((a.entries + b.entries) + c.entries =~= a.entries + (b.entries + c.entries));
    assert(no_walk().entries + a.entries =~= a.entries);
}

/// Every node of the path is sound.
spec fn frames_sound(frames: Seq<WalkFrame>) -> bool {
    forall|i: int|
        0 <= i < frames.len() ==> edges_sound(
            (#[trigger] frames[i]).node.edges@,
            frames[i].node.offset,
        )
}

/// Marking the last node as given leaves the rest of the walk.
proof fn lemma_mark(
    data: Seq<u8>,
    implicit: bool,
    frames: Seq<WalkFrame>,
    now: Seq<WalkFrame>,
    key: Seq<char>,
)
    requires
        frames.len() > 0,
        key.len() == frames.len() - 1,
        now.len() == frames.len(),
        forall|i: int| 0 <= i < frames.len() - 1 ==> now[i] == frames[i],
        !frames.last().yielded,
        now.last() == (WalkFrame { yielded: true, ..frames.last() }),
    ensures
        frames_walk(data, implicit, frames, key, frames.len()) == walk_on(
            walk_own(implicit, frames.last().node@, key),
            frames_walk(data, implicit, now, key, frames.len()),
        ),
        frames_steps(data, now, now.len()) + 1 == frames_steps(data, frames, frames.len()),
        frames_sound(frames) ==> frames_sound(now),
{
    let n = frames.len();
    let top = frames[n - 1];
    let marked = now[n - 1];
    assert(key.take(n - 1) =~= key);
    let below = frames_walk(data, implicit, frames, key, (n - 1) as nat);
    lemma_frames_same(data, implicit, frames, now, key, key, (n - 1) as nat);
    let own = walk_own(implicit, top.node@, key);
    let edges = walk_edges(data, implicit, top.node@, top.next_edge as int, key);
    lemma_walk_on(own, edges, below);
    lemma_walk_on(edges, below, below);
    assert(frame_walk(data, implicit, marked, key) == edges);
    if frames_sound(frames) {
        assert forall|i: int| 0 <= i < now.len() implies edges_sound(
            (#[trigger] now[i]).node.edges@,
            now[i].node.offset,
        ) by {
            assert(edges_sound(frames[i].node.edges@, frames[i].node.offset));
        }
    }
}

/// What is left of a walk whose last node has been given.
proof fn lemma_given(data: Seq<u8>, implicit: bool, frames: Seq<WalkFrame>, key: Seq<char>)
    requires
        frames.len() > 0,
        key.len() == frames.len() - 1,
        frames.last().yielded,
    ensures
        frames_walk(data, implicit, frames, key, frames.len()) == walk_on(
            walk_edges(
                data,
                implicit,
                frames.last().node@,
                frames.last().next_edge as int,
                key,
            ),
            frames_walk(data, implicit, frames, key, (frames.len() - 1) as nat),
        ),
{
    let n = frames.len();
    let top = frames[n - 1];
    assert(key.take(n - 1) =~= key);
    let edges = walk_edges(data, implicit, top.node@, top.next_edge as int, key);
    lemma_walk_on(edges, edges, edges);
}

/// Going down an edge leaves the rest of the walk as it is.
proof fn lemma_descend(
    data: Seq<u8>,
    implicit: bool,
    frames: Seq<WalkFrame>,
    now: Seq<WalkFrame>,
    key: Seq<char>,
)
    requires
        frames.len() > 0,
        key.len() == frames.len() - 1,
        frames.last().yielded,
        frames.last().next_edge < frames.last().node.edges@.len(),
        frames_sound(frames),
        now.len() == frames.len() + 1,
        forall|i: int| 0 <= i < frames.len() - 1 ==> now[i] == frames[i],
        now[frames.len() - 1].node == frames.last().node,
        now[frames.len() - 1].yielded,
        now[frames.len() - 1].next_edge == frames.last().next_edge + 1,
        !now.last().yielded,
        now.last().next_edge == 0,
        follow(data, frames.last().node.edges@[frames.last().next_edge as int]) == Ok::<
            NodeView,
            ErrorView,
        >(now.last().node@),
    ensures
        frames_walk(
            data,
            implicit,
            now,
            key.push(frames.last().node.edges@[frames.last().next_edge as int].label),
            now.len(),
        ) == frames_walk(data, implicit, frames, key, frames.len()),
        frames_steps(data, now, now.len()) + 1 == frames_steps(data, frames, frames.len()),
        frames_sound(now),
{
    let n = frames.len();
    let top = frames[n - 1];
    let marked = now[n - 1];
    let fresh = now[n as int];
    let at = top.next_edge as int;
    let edge = top.node.edges@[at];
    let longer = key.push(edge.label);
    let v = fresh.node@;
    assert(edges_sound(top.node.edges@, top.node.offset));
    lemma_node_sound(data, edge.child_offset);
    assert(v.offset < top.node.offset);
    assert(longer.take(n as int) =~= longer);
    assert(longer.take(n - 1) =~= key);
    assert(key.take(n - 1) =~= key);
    if n > 1 {
        assert(longer.take(n - 2) =~= key.take(n - 2));
    }
    let below = frames_walk(data, implicit, frames, key, (n - 1) as nat);
    lemma_frames_same(data, implicit, frames, now, key, longer, (n - 1) as nat);
    let a = walk_node(data, implicit, v, longer);
    let b = walk_edges(data, implicit, top.node@, at + 1, key);
    lemma_given(data, implicit, frames, key);
    lemma_walk_on(a, b, below);
    lemma_walk_on(b, below, below);
    assert(frame_walk(data, implicit, fresh, longer) == a);
    assert(frame_walk(data, implicit, marked, key) == b);
    assert(frames_walk(data, implicit, now, longer, n) == walk_on(b, below));
    assert(frames_walk(data, implicit, now, longer, n + 1) == walk_on(a, walk_on(b, below)));
    assert(frames_steps(data, now, n) == frames_steps(data, now, (n - 1) as nat) + frame_steps(
        data,
        marked,
    ));
    assert(frames_steps(data, now, n + 1) == frames_steps(data, now, n) + frame_steps(data, fresh));
    assert(frame_steps(data, fresh) == node_steps(data, v));
    assert(edges_steps(data, top.node@, at) == 1 + node_steps(data, v) + edges_steps(
        data,
        top.node@,
        at + 1,
    ));
    assert forall|i: int| 0 <= i < now.len() implies edges_sound(
        (#[trigger] now[i]).node.edges@,
        now[i].node.offset,
    ) by {
        if i < n - 1 {
            assert(edges_sound(frames[i].node.edges@, frames[i].node.offset));
        }
    }
}

/// A fault below the last node ends the walk.
proof fn lemma_stuck(
    data: Seq<u8>,
    implicit: bool,
    frames: Seq<WalkFrame>,
    key: Seq<char>,
    e: ErrorView,
)
    requires
        frames.len() > 0,
        key.len() == frames.len() - 1,
        frames.last().yielded,
        frames.last().next_edge < frames.last().node.edges@.len(),
        follow(data, frames.last().node.edges@[frames.last().next_edge as int]) == Err::<
            NodeView,
            ErrorView,
        >(e),
    ensures
        frames_walk(data, implicit, frames, key, frames.len()) == (Walk {
            entries: Seq::empty(),
            fault: Some(e),
        }),
{
    lemma_given(data, implicit, frames, key);
}

/// Going up from a node whose children are done.
proof fn lemma_ascend(
    data: Seq<u8>,
    implicit: bool,
    frames: Seq<WalkFrame>,
    key: Seq<char>,
    shorter: Seq<char>,
)
    requires
        frames.len() > 0,
        key.len() == frames.len() - 1,
        frames.last().yielded,
        frames.last().next_edge >= frames.last().node.edges@.len(),
        frames.len() > 1 ==> shorter == key.drop_last(),
    ensures
        frames_walk(data, implicit, frames.drop_last(), shorter, (frames.len() - 1) as nat)
            == frames_walk(data, implicit, frames, key, frames.len()),
        frames_steps(data, frames.drop_last(), (frames.len() - 1) as nat) < frames_steps(
            data,
            frames,
            frames.len(),
        ),
        frames_sound(frames) ==> frames_sound(frames.drop_last()),
{
    let n = frames.len();
    lemma_given(data, implicit, frames, key);
    let below = frames_walk(data, implicit, frames, key, (n - 1) as nat);
    lemma_walk_on(below, below, below);
    if n > 1 {
        assert(shorter.take(n - 2) =~= key.take(n - 2));
    }
    lemma_frames_same(
        data,
        implicit,
        frames,
        frames.drop_last(),
        key,
        shorter,
        (n - 1) as nat,
    );
    if frames_sound(frames) {
        let now = frames.drop_last();
        assert forall|i: int| 0 <= i < now.len() implies edges_sound(
            (#[trigger] now[i]).node.edges@,
            now[i].node.offset,
        ) by {
            assert(edges_sound(frames[i].node.edges@, frames[i].node.offset));
        }
    }
}

impl<'a> IndexWalker<'a> {
    /// What is left to walk.
    pub closed spec fn remaining(&self) -> Walk {
        if self.finished {
            no_walk()
        } else {
            frames_walk(
                self.reader@.data,
                self.reader@.mode is Ngrams,
                self.frames@,
                self.key@,
                self.frames@.len(),
            )
        }
    }

    /// The path of the walk is sound.
    pub closed spec fn wf(&self) -> bool {
        &&& self.finished || self.frames@.len() == 0 || self.key@.len() + 1 == self.frames@.len()
        &&& frames_sound(self.frames@)
    }

    /// The walk is at its start, and over the whole index.
    pub open spec fn starts(&self, reader: IndexReader, root: NodeView) -> bool {
        &&& self.wf()
        &&& self.remaining() == walk_node(
            reader@.data,
            reader@.mode is Ngrams,
            root,
            Seq::empty(),
        )
    }

    /// A walk over the keys of an index.
    pub fn new(reader: &'a IndexReader) -> (r: Result<Self, IndexError>)
        ensures
            match (read_node(reader@.data, reader@.root_offset), r) {
                (Ok(v), Ok(walker)) => walker.starts(*reader, v),
                (Err(e), Err(f)) => f@ == e,
                _ => false,
            },
    {
        let node = match reader.node(reader.root_offset()) {
            Ok(node) => node,
            Err(e) => {
                return Err(e);
            },
        };
        proof {
            lemma_node_sound(reader@.data, reader@.root_offset);
        }
        let ghost v = node@;
        let frame = WalkFrame { node, next_edge: 0, yielded: false };
        let frames: Vec<WalkFrame> = vec![frame];
        let key: Vec<char> = Vec::new();
        let w = IndexWalker { reader, frames, key, finished: false };
        proof {
            let data = reader@.data;
            let implicit = reader@.mode is Ngrams;
            assert(frames@[0] == frame);
            assert(key@.take(0) =~= Seq::empty());
            let whole = walk_node(data, implicit, v, Seq::empty());
            assert(frame_walk(data, implicit, frame, Seq::empty()) == whole);
            assert(frames_walk(data, implicit, frames@, key@, 0) == no_walk());
            assert(frames_walk(data, implicit, frames@, key@, 1) == walk_on(whole, no_walk()));
            assert(whole.entries + no_walk().entries =~= whole.entries);
        }
        Ok(w)
    }

    /// The next entry of the walk, or the fault at which it ends.
    pub fn next(&mut self) -> (r: Option<Result<WalkEntry, IndexError>>)
        requires
            old(self).wf(),
        ensures
            final(self).wf(),
            match r {
                None => old(self).remaining() == no_walk() && final(self).remaining() == no_walk(),
                Some(Ok(entry)) => {
                    let left = old(self).remaining();
                    &&& left.entries.len() > 0
                    &&& entry@ == left.entries[0]
                    &&& final(self).remaining() == (Walk {
                        entries: left.entries.skip(1),
                        fault: left.fault,
                    })
                },
                Some(Err(e)) => {
                    let left = old(self).remaining();
                    &&& left.entries.len() == 0
                    &&& left.fault == Some(e@)
                    &&& final(self).remaining() == no_walk()
                },
            },
    {
        if self.finished {
            return None;
        }
        let ghost left = self.remaining();
        let ghost data = self.reader@.data;
        let ghost implicit = self.reader@.mode is Ngrams;
        while self.frames.len() > 0
            invariant
                self.wf(),
                !self.finished,
                left == old(self).remaining(),
                self.remaining() == left,
                data == self.reader@.data,
                implicit == (self.reader@.mode is Ngrams),
            decreases frames_steps(data, self.frames@, self.frames@.len()),
        {
            let ghost frames = self.frames@;
            let ghost key = self.key@;
            let mut frame = self.frames.pop().unwrap();
            if !frame.yielded {
                frame.yielded = true;
                let is_entry = self.key.len() > 0 && (frame.node.terminal > 0
                    || self.reader.implicit_prefixes());
                let terminal: u64 = frame.node.terminal;
                let subtree: u64 = frame.node.subtree;
                self.frames.push(frame);
                proof {
                    lemma_mark(data, implicit, frames, self.frames@, key);
                    lemma_walk_on(self.remaining(), left, left);
                }
                if is_entry {
                    proof {
                        assert(left.entries.skip(1) =~= self.remaining().entries);
                    }
                    return Some(
                        Ok(WalkEntry { key: string_of(self.key.as_slice()), terminal, subtree }),
                    );
                }
            } else if frame.next_edge < frame.node.edges.len() {
                let edge = frame.node.edges[frame.next_edge];
                frame.next_edge = frame.next_edge + 1;
                self.frames.push(frame);
                match self.reader.child(edge) {
                    Ok(node) => {
                        self.frames.push(WalkFrame { node, next_edge: 0, yielded: false });
                        self.key.push(edge.label);
                        proof {
                            lemma_descend(data, implicit, frames, self.frames@, key);
                        }
                    },
                    Err(e) => {
                        self.finished = true;
                        proof {
                            lemma_stuck(data, implicit, frames, key, e@);
                            let now = self.frames@;
                            assert forall|i: int| 0 <= i < now.len() implies edges_sound(
                                (#[trigger] now[i]).node.edges@,
                                now[i].node.offset,
                            ) by {
                                assert(edges_sound(frames[i].node.edges@, frames[i].node.offset));
                            }
                        }
                        return Some(Err(e));
                    },
                }
            } else {
                if self.frames.len() > 0 {
                    let dropped = self.key.pop();
                }
                proof {
                    assert(self.frames@ =~= frames.drop_last());
                    lemma_ascend(data, implicit, frames, key, self.key@);
                }
            }
        }
        self.finished = true;
        None
    }
}

} // verus!
