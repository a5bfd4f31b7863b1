//! Where the nodes of a trie stand: children before their parent, one after
//! the other.
use crate::index::codec::{lemma_varint_len, HEADER_LEN};
use crate::index::error::ErrorView;
use crate::index::model::{
    forest_freq, forest_represents, freq, has_label, labels_ascend, lemma_total_mono, represents,
    total, Log, Trie,
};
use crate::index::node::{
    edge_to, edges_to, holds, kids_total, lemma_holds_split, lemma_node_read_back, node_at,
    node_bytes, node_fits, NodeView, WrittenChild,
};
use crate::text::scalar;
use vstd::prelude::*;

verus! {

/// The bytes of a trie that starts at `base`.
pub open spec fn trie_bytes(t: Trie, base: int) -> Seq<u8>
    decreases t, 0nat,
{
    let below = forest_bytes(t.children, t.children.len(), base);
    below + node_bytes(base + below.len(), t.terminal, freq(t), kids_of(t.children, base))
}

/// The bytes of the first `n` tries of a list that starts at `base`.
pub open spec fn forest_bytes(children: Seq<(u32, Trie)>, n: nat, base: int) -> Seq<u8>
    decreases children, n,
{
    if n == 0 || n > children.len() {
        Seq::empty()
    } else {
        let before = forest_bytes(children, (n - 1) as nat, base);
        before + trie_bytes(children[n - 1].1, base + before.len())
    }
}

/// Where the root of a trie stands that starts at `base`.
pub open spec fn trie_at(t: Trie, base: int) -> int
    decreases t, 1nat,
{
    base + forest_bytes(t.children, t.children.len(), base).len()
}

/// Where the `i`th trie of a list starts.
pub open spec fn child_base(children: Seq<(u32, Trie)>, i: int, base: int) -> int
    decreases children, i, 1nat,
{
    base + forest_bytes(children, i as nat, base).len()
}

/// The children of a node as they are written.
pub open spec fn kids_of(children: Seq<(u32, Trie)>, base: int) -> Seq<WrittenChild>
    decreases children, children.len() + 1,
{
    Seq::new(
        children.len(),
        |i: int|
            if 0 <= i < children.len() {
                WrittenChild {
                    label: children[i].0,
                    offset: trie_at(
                        children[i].1,
                        base + forest_bytes(children, i as nat, base).len(),
                    ) as u64,
                    subtree: freq(children[i].1) as u64,
                }
            } else {
                WrittenChild { label: 0, offset: 0, subtree: 0 }
            },
    )
}

/// The frequencies and labels of a trie can be written.
pub open spec fn trie_fits(t: Trie) -> bool
    decreases t,
{
    &&& freq(t) <= i64::MAX
    &&& forest_fits(t.children)
}

/// The frequencies and labels of a list of tries can be written.
pub open spec fn forest_fits(children: Seq<(u32, Trie)>) -> bool
    decreases children,
{
    &&& labels_ascend(children)
    &&& forall|i: int|
        0 <= i < children.len() ==> {
            &&& scalar((#[trigger] children[i]).0 as int)
            &&& freq(children[i].1) > 0
            &&& trie_fits(children[i].1)
        }
}

/// The bytes of a list with one trie more.
pub proof fn lemma_forest_push(children: Seq<(u32, Trie)>, x: (u32, Trie), n: nat, base: int)
    requires
        n <= children.len(),
    ensures
        forest_bytes(children.push(x), n, base) == forest_bytes(children, n, base),
    decreases n,
{
    if n > 0 {
        lemma_forest_push(children, x, (n - 1) as nat, base);
        assert(children.push(x)[n - 1] == children[n - 1]);
    }
}

pub proof fn lemma_forest_push_all(children: Seq<(u32, Trie)>, x: (u32, Trie), base: int)
    ensures
        ({
            let before = forest_bytes(children, children.len(), base);
            let more = children.push(x);
            &&& forest_bytes(more, more.len(), base) == before + trie_bytes(
                x.1,
                base + before.len(),
            )
            &&& kids_of(more, base) == kids_of(children, base).push(
                WrittenChild {
                    label: x.0,
                    offset: trie_at(x.1, base + before.len()) as u64,
                    subtree: freq(x.1) as u64,
                },
            )
        }),
{
    let before = forest_bytes(children, children.len(), base);
    let more = children.push(x);
    lemma_forest_push(children, x, children.len(), base);
    assert(more[children.len() as int] == x);
    let kids = kids_of(more, base);
    assert forall|i: int| 0 <= i < children.len() implies kids[i] == kids_of(children, base)[i] by {
        lemma_forest_push(children, x, i as nat, base);
        assert(more[i] == children[i]);
    }
    assert(kids =~= kids_of(children, base).push(
        WrittenChild {
            label: x.0,
            offset: trie_at(x.1, base + before.len()) as u64,
            subtree: freq(x.1) as u64,
        },
    ));
}

/// What holds the bytes of a list holds those of each trie in it.
pub proof fn lemma_forest_holds(
    data: Seq<u8>,
    children: Seq<(u32, Trie)>,
    n: nat,
    i: int,
    base: int,
)
    requires
        0 <= i < n <= children.len(),
        holds(data, base, forest_bytes(children, n, base)),
    ensures
        holds(
            data,
            child_base(children, i, base),
            trie_bytes(children[i].1, child_base(children, i, base)),
        ),
    decreases n,
{
    let before = forest_bytes(children, (n - 1) as nat, base);
    let last = trie_bytes(children[n - 1].1, base + before.len());
    lemma_holds_split(data, base, before, last);
    if i < n - 1 {
        lemma_forest_holds(data, children, (n - 1) as nat, i, base);
    }
}

/// Each trie of a list lies within the list.
pub proof fn lemma_child_within(children: Seq<(u32, Trie)>, n: nat, i: int, base: int)
    requires
        0 <= i < n <= children.len(),
    ensures
        ({
            let b = child_base(children, i, base);
            &&& base <= b
            &&& b <= trie_at(children[i].1, b)
            &&& trie_at(children[i].1, b) < b + trie_bytes(children[i].1, b).len()
            &&& b + trie_bytes(children[i].1, b).len() <= base + forest_bytes(
                children,
                n,
                base,
            ).len()
        }),
    decreases n,
{
    let b = child_base(children, i, base);
    lemma_varint_len(children[i].1.terminal);
    if i < n - 1 {
        lemma_child_within(children, (n - 1) as nat, i, base);
    }
}

proof fn lemma_kids_total(children: Seq<(u32, Trie)>, base: int, n: nat)
    requires
        n <= children.len(),
        forest_freq(children, n) <= u64::MAX,
    ensures
        kids_total(kids_of(children, base), n) == forest_freq(children, n),
    decreases n,
{
    if n > 0 {
        lemma_kids_total(children, base, (n - 1) as nat);
    }
}

/// The node of a trie can stand where the layout puts it.
pub proof fn lemma_node_fits(t: Trie, base: int)
    requires
        HEADER_LEN <= base,
        trie_fits(t),
        trie_at(t, base) <= u64::MAX,
    ensures
        node_fits(trie_at(t, base), t.terminal, freq(t), kids_of(t.children, base)),
{
    let kids = kids_of(t.children, base);
    let n = t.children.len();
    lemma_kids_total(t.children, base, n);
    assert(forest_fits(t.children));
    assert forall|i: int| 0 <= i < kids.len() implies {
        &&& scalar((#[trigger] kids[i]).label as int)
        &&& HEADER_LEN <= kids[i].offset < trie_at(t, base)
        &&& kids[i].subtree > 0
    } by {
        let child = t.children[i];
        assert(scalar(child.0 as int) && freq(child.1) > 0 && trie_fits(child.1));
        lemma_child_within(t.children, n, i, base);
    }
    assert forall|i: int, j: int| 0 <= i < j < kids.len() implies (#[trigger] kids[i]).label < (
    #[trigger] kids[j]).label by {
        assert(t.children[i].0 < t.children[j].0);
    }
}

/// The root of a trie reads back from bytes that hold the trie.
pub proof fn lemma_trie_read_back(data: Seq<u8>, t: Trie, base: int)
    requires
        data.len() <= usize::MAX,
        HEADER_LEN <= base,
        trie_fits(t),
        holds(data, base, trie_bytes(t, base)),
    ensures
        trie_at(t, base) < data.len(),
        node_at(data, trie_at(t, base) as u64) == Ok::<(NodeView, int), ErrorView>(
            (
                NodeView {
                    offset: trie_at(t, base) as u64,
                    terminal: t.terminal as u64,
                    subtree: freq(t) as u64,
                    edges: edges_to(kids_of(t.children, base)),
                },
                base + trie_bytes(t, base).len(),
            ),
        ),
        forall|i: int|
            0 <= i < t.children.len() ==> holds(
                data,
                #[trigger] child_base(t.children, i, base),
                trie_bytes(t.children[i].1, child_base(t.children, i, base)),
            ),
{
    let below = forest_bytes(t.children, t.children.len(), base);
    let at = trie_at(t, base);
    let own = node_bytes(at, t.terminal, freq(t), kids_of(t.children, base));
    lemma_holds_split(data, base, below, own);
    lemma_varint_len(t.terminal);
    lemma_node_fits(t, base);
    lemma_node_read_back(data, at as u64, t.terminal, freq(t), kids_of(t.children, base));
    assert forall|i: int| 0 <= i < t.children.len() implies holds(
        data,
        #[trigger] child_base(t.children, i, base),
        trie_bytes(t.children[i].1, child_base(t.children, i, base)),
    ) by {
        lemma_forest_holds(data, t.children, t.children.len(), i, base);
    }
}

/// The edges of the root of a trie.
pub proof fn lemma_trie_edges(t: Trie, base: int, i: int)
    requires
        0 <= i < t.children.len(),
    ensures
        edges_to(kids_of(t.children, base))[i] == edge_to(
            WrittenChild {
                label: t.children[i].0,
                offset: trie_at(t.children[i].1, child_base(t.children, i, base)) as u64,
                subtree: freq(t.children[i].1) as u64,
            },
        ),
{
}

/// The trie below a key.
pub open spec fn trie_find(t: Trie, key: Seq<u32>) -> Option<Trie>
    decreases key.len(),
{
    if key.len() == 0 {
        Some(t)
    } else if has_label(t.children, key[0]) {
        let i = choose|i: int| 0 <= i < t.children.len() && (#[trigger] t.children[i]).0 == key[0];
        trie_find(t.children[i].1, key.skip(1))
    } else {
        None
    }
}

/// A trie that represents the log holds a longer key exactly where the key is
/// frequent enough, and what it holds there represents the log from there on.
pub proof fn lemma_trie_find(t: Trie, log: Log, p: Seq<u32>, min: nat, key: Seq<u32>)
    requires
        represents(t, log, p, min),
    ensures
        match trie_find(t, key) {
            Some(u) => represents(u, log, p + key, min) && (key.len() > 0 ==> total(log, p + key)
                >= min),
            None => key.len() > 0 && total(log, p + key) < min,
        },
    decreases key.len(),
{
    if key.len() == 0 {
        assert(p + key =~= p);
    } else {
        let step = p.push(key[0]);
        assert(step + key.skip(1) =~= p + key);
        assert(has_label(t.children, key[0]) <==> total(log, step) >= min);
        if has_label(t.children, key[0]) {
            let i = choose|i: int|
                0 <= i < t.children.len() && (#[trigger] t.children[i]).0 == key[0];
            assert(forest_represents(t.children, log, p, min));
            assert(represents(t.children[i].1, log, p.push(t.children[i].0), min));
            lemma_trie_find(t.children[i].1, log, step, min, key.skip(1));
            if key.len() == 1 {
                assert(step =~= p + key);
            }
        } else {
            assert((p + key).take(step.len() as int) =~= step);
            lemma_total_mono(log, step, p + key);
        }
    }
}

} // verus!
