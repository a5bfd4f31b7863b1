//! The queue of nodes to visit, the most frequent first.
use vstd::multiset::Multiset;
use vstd::prelude::*;

verus! {

/// A node to visit: its frequency, which no key below it exceeds, its place in
/// the order of insertion, its offset, the state of the query there, and the
/// step of the trail that leads to it.
#[derive(Clone, Copy, Debug, PartialEq, Eq, Structural)]
pub struct QueueItem {
    pub bound: u64,
    pub serial: u64,
    pub node_offset: u64,
    pub state: u32,
    pub step: usize,
}

/// `a` is visited no later than `b`: it is more frequent, or as frequent and
/// inserted no later.
pub open spec fn goes_first(a: QueueItem, b: QueueItem) -> bool {
    a.bound > b.bound || (a.bound == b.bound && a.serial <= b.serial)
}

fn comes_first(a: &QueueItem, b: &QueueItem) -> (r: bool)
    ensures
        r == goes_first(*a, *b),
{
    a.bound > b.bound || (a.bound == b.bound && a.serial <= b.serial)
}

/// A binary heap of nodes to visit.
pub struct Queue {
    items: Vec<QueueItem>,
}

/// The place above `i`.
spec fn above(i: int) -> int {
    (i - 1) / 2
}

/// Every item but those below `hole` comes behind the one above it, and those
/// below `hole` behind the one above `hole`.
spec fn heap_but_up(s: Seq<QueueItem>, hole: int) -> bool {
    &&& forall|i: int|
        0 < i < s.len() && i != hole ==> goes_first(s[above(i)], #[trigger] s[i])
    &&& forall|i: int|
        0 < i < s.len() && above(i) == hole && hole > 0 ==> goes_first(
            s[above(hole)],
            #[trigger] s[i],
        )
}

/// Every item comes behind the one above it, but for those below `hole`.
spec fn heap_but_down(s: Seq<QueueItem>, hole: int) -> bool {
    &&& forall|i: int|
        0 < i < s.len() && above(i) != hole ==> goes_first(s[above(i)], #[trigger] s[i])
    &&& forall|i: int|
        0 < i < s.len() && above(i) == hole && hole > 0 ==> goes_first(
            s[above(hole)],
            #[trigger] s[i],
        )
}

spec fn heap_ordered(s: Seq<QueueItem>) -> bool {
    forall|i: int| 0 < i < s.len() ==> goes_first(s[above(i)], #[trigger] s[i])
}

proof fn lemma_top_first(s: Seq<QueueItem>, i: int)
    requires
        heap_ordered(s),
        0 <= i < s.len(),
    ensures
        goes_first(s[0], s[i]),
    decreases i,
{
    if i > 0 {
        lemma_top_first(s, above(i));
        assert(goes_first(s[above(i)], s[i]));
    }
}

proof fn lemma_swap_multiset(s: Seq<QueueItem>, i: int, j: int)
    requires
        0 <= i < s.len(),
        0 <= j < s.len(),
    ensures
        s.update(i, s[j]).update(j, s[i]).to_multiset() == s.to_multiset(),
{
    broadcast use vstd::seq_lib::group_to_multiset_ensures;

    let a = s.update(i, s[j]);
    let b = a.update(j, s[i]);
    vstd::seq_lib::to_multiset_update(s, i, s[j]);
    vstd::seq_lib::to_multiset_update(a, j, s[i]);
    if i == j {
        assert(b =~= s);
    } else {
        assert(a[j] == s[j]);
        assert(s.contains(s[i]));
        assert(b.to_multiset() =~= s.to_multiset());
    }
}

impl View for Queue {
    type V = Multiset<QueueItem>;

    closed spec fn view(&self) -> Multiset<QueueItem> {
        self.items@.to_multiset()
    }
}

impl Queue {
    /// The items are ordered as in a heap.
    pub closed spec fn wf(&self) -> bool {
        heap_ordered(self.items@)
    }

    /// An empty queue.
    pub fn new() -> (r: Self)
        ensures
            r.wf(),
            r@ == Multiset::<QueueItem>::empty(),
    {
        let items: Vec<QueueItem> = Vec::new();
        proof {
            broadcast use vstd::seq_lib::group_to_multiset_ensures;

            assert(items@.to_multiset() =~= Multiset::empty());
        }
        Queue { items }
    }

    /// Swaps two items.
    fn exchange(&mut self, i: usize, j: usize)
        requires
            i < old(self).items@.len(),
            j < old(self).items@.len(),
        ensures
            final(self).items@ == old(self).items@.update(i as int, old(self).items@[j as int]).update(
                j as int,
                old(self).items@[i as int],
            ),
            final(self)@ == old(self)@,
    {
        proof {
            lemma_swap_multiset(self.items@, i as int, j as int);
        }
        let a = self.items[i];
        let b = self.items[j];
        self.items.set(i, b);
        self.items.set(j, a);
    }

    /// Adds an item.
    pub fn push(&mut self, item: QueueItem)
        requires
            old(self).wf(),
        ensures
            final(self).wf(),
            final(self)@ == old(self)@.insert(item),
    {
        let ghost before = self.items@;
        self.items.push(item);
        proof {
            broadcast use vstd::seq_lib::group_to_multiset_ensures;

            assert(self.items@.to_multiset() =~= before.to_multiset().insert(item));
            assert forall|i: int| 0 < i < self.items@.len() && i != before.len() implies goes_first(
                self.items@[above(i)],
                #[trigger] self.items@[i],
            ) by {
                assert(goes_first(before[above(i)], before[i]));
            }
        }
        let ghost whole = self@;
        let mut hole: usize = self.items.len() - 1;
        while hole > 0
            invariant
                hole < self.items@.len(),
                heap_but_up(self.items@, hole as int),
                self@ == whole,
            ensures
                heap_ordered(self.items@),
            decreases hole,
        {
            let up: usize = (hole - 1) / 2;
            if comes_first(&self.items[up], &self.items[hole]) {
                proof {
                    let s = self.items@;
                    assert forall|i: int| 0 < i < s.len() implies goes_first(
                        s[above(i)],
                        #[trigger] s[i],
                    ) by {
                        if i == hole {
                        }
                    }
                }
                break;
            }
            let ghost s = self.items@;
            self.exchange(up, hole);
            proof {
                let t = self.items@;
                assert forall|i: int| 0 < i < t.len() && i != up implies goes_first(
                    t[above(i)],
                    #[trigger] t[i],
                ) by {
                    if i == hole {
                    } else if above(i) == up {
                        assert(goes_first(s[above(i)], s[i]));
                    } else if above(i) == hole {
                        assert(goes_first(s[above(hole as int)], s[i]));
                    } else {
                        assert(goes_first(s[above(i)], s[i]));
                    }
                }
                assert forall|i: int| 0 < i < t.len() && above(i) == up && up > 0 implies goes_first(
                    t[above(up as int)],
                    #[trigger] t[i],
                ) by {
                    assert(goes_first(s[above(up as int)], s[up as int]));
                    if i != hole {
                        assert(goes_first(s[above(i)], s[i]));
                    }
                }
            }
            hole = up;
        }
    }

    /// Takes the item that goes first.
    pub fn pop(&mut self) -> (r: Option<QueueItem>)
        requires
            old(self).wf(),
        ensures
            final(self).wf(),
            match r {
                None => old(self)@ == Multiset::<QueueItem>::empty() && final(self)@ == old(self)@,
                Some(item) => {
                    &&& old(self)@.count(item) > 0
                    &&& final(self)@ == old(self)@.remove(item)
                    &&& forall|other: QueueItem|
                        old(self)@.count(other) > 0 ==> goes_first(item, other)
                },
            },
    {
        broadcast use vstd::seq_lib::group_to_multiset_ensures;

        let ghost before = self.items@;
        let n: usize = self.items.len();
        if n == 0 {
            proof {
                assert(before.to_multiset() =~= Multiset::empty());
            }
            return None;
        }
        let top = self.items[0];
        proof {
            assert(before.contains(before[0]));
            assert forall|other: QueueItem|
                before.to_multiset().count(other) > 0 implies goes_first(top, other) by {
                assert(before.contains(other));
                let i = choose|i: int| 0 <= i < before.len() && before[i] == other;
                lemma_top_first(before, i);
            }
        }
        self.exchange(0, n - 1);
        let ghost swapped = self.items@;
        let dropped = self.items.pop();
        let ghost rest = self.items@;
        proof {
            assert(swapped[n - 1] == top);
            assert(rest =~= swapped.drop_last());
            assert(swapped =~= rest.push(top));
            assert(rest.to_multiset() =~= before.to_multiset().remove(top));
            assert forall|i: int| 0 < i < rest.len() && above(i) != 0 implies goes_first(
                rest[above(i)],
                #[trigger] rest[i],
            ) by {
                assert(goes_first(before[above(i)], before[i]));
            }
        }
        let ghost whole = self@;
        let mut hole: usize = 0;
        while hole < self.items.len() / 2
            invariant
                heap_but_down(self.items@, hole as int),
                self@ == whole,
                hole <= self.items@.len(),
            ensures
                heap_ordered(self.items@),
            decreases self.items@.len() - hole,
        {
            let left: usize = 2 * hole + 1;
            let right: usize = left + 1;
            let child: usize = if right < self.items.len() && comes_first(
                &self.items[right],
                &self.items[left],
            ) {
                right
            } else {
                left
            };
            let ghost s = self.items@;
            if comes_first(&self.items[hole], &self.items[child]) {
                proof {
                    assert forall|i: int| 0 < i < s.len() implies goes_first(
                        s[above(i)],
                        #[trigger] s[i],
                    ) by {
                        if above(i) == hole {
                            assert(i == left || i == right);
                        }
                    }
                }
                break;
            }
            self.exchange(hole, child);
            proof {
                let t = self.items@;
                assert forall|i: int| 0 < i < t.len() && above(i) != child implies goes_first(
                    t[above(i)],
                    #[trigger] t[i],
                ) by {
                    if above(i) == hole {
                        assert(i == left || i == right);
                    } else if i == hole {
                        assert(goes_first(s[above(hole as int)], s[child as int]));
                    } else {
                        assert(goes_first(s[above(i)], s[i]));
                    }
                }
                assert forall|i: int| 0 < i < t.len() && above(i) == child && child > 0 implies goes_first(
                    t[above(child as int)],
                    #[trigger] t[i],
                ) by {
                    assert(goes_first(s[above(i)], s[i]));
                }
            }
            hole = child;
        }
        Some(top)
    }
}

} // verus!
