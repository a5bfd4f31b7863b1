//! The queue of a search as a line: what waits, in the order in which it came.
use crate::index::node::Edge;
use crate::query::expr::Re;
use crate::query::program::ProgramView;
use crate::search::course::{behind, first_place, is_first};
use crate::search::extent::state_after;
use crate::search::heap::{goes_first, QueueItem};
use crate::search::trail::Trail;
use crate::search::types::HitView;
use vstd::multiset::Multiset;
use vstd::prelude::*;

verus! {

/// The items of the queue stand in line by their serial numbers, and the trail
/// leads to each.
pub open spec fn line_ok(
    queue: Multiset<QueueItem>,
    trail: Trail,
    serial: u64,
    line: Seq<QueueItem>,
) -> bool {
    &&& line.to_multiset() == queue
    &&& serial + 1 == trail.count()
    &&& forall|i: int, j: int|
        0 <= i < j < line.len() ==> (#[trigger] line[i]).serial < (#[trigger] line[j]).serial
    &&& forall|i: int|
        0 <= i < line.len() ==> (#[trigger] line[i]).serial <= serial && line[i].step
            < trail.count()
}

/// What waits, with its frequency.
pub open spec fn line_texts(trail: Trail, line: Seq<QueueItem>) -> Seq<HitView> {
    Seq::new(
        line.len(),
        |i: int| HitView { text: trail.text(line[i].step), score: line[i].bound },
    )
}

/// What goes first in the queue is the first of the most frequent in line.
pub proof fn lemma_line_popped(
    queue: Multiset<QueueItem>,
    trail: Trail,
    serial: u64,
    line: Seq<QueueItem>,
    item: QueueItem,
)
    requires
        line_ok(queue, trail, serial, line),
        queue.count(item) > 0,
        forall|other: QueueItem| queue.count(other) > 0 ==> goes_first(item, other),
    ensures
        ({
            let p = first_place(line_texts(trail, line));
            &&& 0 <= p < line.len()
            &&& line[p] == item
            &&& line_ok(queue.remove(item), trail, serial, line.remove(p))
            &&& line_texts(trail, line.remove(p)) == line_texts(trail, line).remove(p)
        }),
{
    broadcast use vstd::seq_lib::group_to_multiset_ensures;

    let texts = line_texts(trail, line);
    assert(line.contains(item));
    let p = choose|p: int| 0 <= p < line.len() && line[p] == item;
    assert forall|j: int| 0 <= j < texts.len() implies (#[trigger] texts[j]).score
        <= texts[p].score && (j < p ==> texts[j].score < texts[p].score) by {
        assert(line.contains(line[j]));
        assert(queue.count(line[j]) > 0);
        assert(goes_first(item, line[j]));
    }
    assert(is_first(texts, p));
    let q = first_place(texts);
    assert(is_first(texts, q));
    assert(q == p) by {
        assert(texts[q].score <= texts[p].score);
        assert(texts[p].score <= texts[q].score);
    }
    let rest = line.remove(p);
    assert(rest.to_multiset() =~= queue.remove(item));
    assert forall|i: int, j: int| 0 <= i < j < rest.len() implies (#[trigger] rest[i]).serial < (
    #[trigger] rest[j]).serial by {
        let a = if i < p {
            i
        } else {
            i + 1
        };
        let b = if j < p {
            j
        } else {
            j + 1
        };
        assert(rest[i] == line[a] && rest[j] == line[b]);
    }
    assert forall|i: int| 0 <= i < rest.len() implies (#[trigger] rest[i]).serial <= serial
        && rest[i].step < trail.count() by {
        let a = if i < p {
            i
        } else {
            i + 1
        };
        assert(rest[i] == line[a]);
    }
    assert(line_texts(trail, rest) =~= texts.remove(p));
}

/// An empty queue has an empty line, and only that.
pub proof fn lemma_line_empty(
    queue: Multiset<QueueItem>,
    trail: Trail,
    serial: u64,
    line: Seq<QueueItem>,
)
    requires
        line_ok(queue, trail, serial, line),
    ensures
        queue == Multiset::<QueueItem>::empty() <==> line.len() == 0,
{
    broadcast use vstd::seq_lib::group_to_multiset_ensures;

    assert(queue.len() == line.len());
    if line.len() > 0 {
        assert(line.contains(line[0]));
        assert(queue.count(line[0]) > 0);
    } else {
        assert(queue =~= Multiset::empty());
    }
}

/// What comes to wait stands last in line.
pub proof fn lemma_line_pushed(
    queue: Multiset<QueueItem>,
    trail0: Trail,
    trail: Trail,
    line: Seq<QueueItem>,
    serial: u64,
    next: QueueItem,
)
    requires
        line_ok(queue, trail0, serial, line),
        next.serial == serial + 1,
        trail.count() == trail0.count() + 1,
        next.step < trail.count(),
        forall|k: usize| k < trail0.count() ==> trail.text(k) == trail0.text(k),
    ensures
        line_ok(queue.insert(next), trail, next.serial, line.push(next)),
        line_texts(trail, line.push(next)) == line_texts(trail0, line).push(
            HitView { text: trail.text(next.step), score: next.bound },
        ),
{
    broadcast use vstd::seq_lib::group_to_multiset_ensures;

    let more = line.push(next);
    assert(more.to_multiset() =~= queue.insert(next));
    assert forall|i: int, j: int| 0 <= i < j < more.len() implies (#[trigger] more[i]).serial < (
    #[trigger] more[j]).serial by {
        assert(more[i] == line[i]);
        if j < line.len() {
            assert(more[j] == line[j]);
        }
    }
    assert forall|i: int| 0 <= i < more.len() implies (#[trigger] more[i]).serial <= next.serial
        && more[i].step < trail.count() by {
        if i < line.len() {
            assert(more[i] == line[i]);
        }
    }
    assert forall|i: int| 0 <= i < more.len() implies #[trigger] line_texts(trail, more)[i]
        == line_texts(trail0, line).push(
        HitView { text: trail.text(next.step), score: next.bound },
    )[i] by {
        if i < line.len() {
            assert(more[i] == line[i]);
            assert(trail.text(line[i].step) == trail0.text(line[i].step));
        }
    }
    assert(line_texts(trail, more) =~= line_texts(trail0, line).push(
        HitView { text: trail.text(next.step), score: next.bound },
    ));
}

/// What comes to wait through one edge more.
pub proof fn lemma_behind_next(program: ProgramView, text: Seq<char>, edges: Seq<Edge>, i: int)
    requires
        0 <= i < edges.len(),
    ensures
        behind(program, text, edges.take(i + 1)) == (if state_after(
            program,
            text.push(edges[i].label),
        ) == Re::Empty {
            behind(program, text, edges.take(i))
        } else {
            behind(program, text, edges.take(i)).push(
                HitView { text: text.push(edges[i].label), score: edges[i].subtree },
            )
        }),
{
    assert(edges.take(i + 1).drop_last() =~= edges.take(i));
    assert(edges.take(i + 1).last() == edges[i]);
}

} // verus!
