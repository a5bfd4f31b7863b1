//! The search itself.
use crate::index::error::{ErrorView, IndexError};
use crate::index::laws::starts_with;
use crate::index::node::{edges_sound, Edge, Node, NodeView};
use crate::index::reader::{edge_place, IndexReader, ReaderView};
use crate::ordered::views;
use crate::query::derive::re_derive;
use crate::query::expr::Re;
use crate::query::normal::{lemma_nullable_lang, Env};
use crate::query::program::{lemma_derive_string, Program, ProgramView};
use crate::search::course::{
    at_end, behind, best_among, comes_to, course_after, due, faults_first, first_place, goes_on,
    is_met, meets, meets_many, next_of, reports_course, reports_end, stands, stopped_by_fault,
    visit, within_states,
};
use crate::search::extent::{
    alive, distinct_live, distinct_states, edge_at, extent_is, least_score, led_to, live,
    live_state, may_meet, may_visit, meets_exactly, state_after, visits_exactly,
};
use crate::search::heap::{goes_first, Queue, QueueItem};
use crate::search::hits::{
    accepted, arrive, best_hits, better, is_hit, lemma_arrive_sound, lemma_route_bound,
    lemma_route_prefix, lemma_route_sound, no_text, ranked, retain_hit, route, settled, sound_hits,
    Ranked,
};
use crate::search::line::{
    lemma_behind_next, lemma_line_empty, lemma_line_popped, lemma_line_pushed, line_ok, line_texts,
};
use crate::search::machine::DerivativeMachine;
use crate::search::trail::Trail;
use crate::search::types::{
    HitView, SearchError, SearchErrorView, SearchHit, SearchOptions, SearchReport,
    SearchStopReason,
};
use crate::teller::{all_answered, Asker};
use crate::text::string_of;
use std::time::{Duration, Instant};
use vstd::multiset::Multiset;
use vstd::prelude::*;

verus! {

/// Why options cannot be used, if they cannot.
pub open spec fn options_fault(options: SearchOptions) -> Option<SearchErrorView> {
    if options.limit == 0 {
        Some(SearchErrorView::InvalidOptions("limit 必须大于零"@))
    } else if options.max_nodes == 0 {
        Some(SearchErrorView::InvalidOptions("max_nodes 必须大于零"@))
    } else if options.max_states == 0 || options.max_states > u32::MAX {
        Some(
            SearchErrorView::InvalidOptions("max_states 必须在 1..=u32::MAX 范围内"@),
        )
    } else {
        None
    }
}

/// A queue item leads where its text leads, in the state that the query has
/// there.
spec fn item_ok(
    reader: ReaderView,
    program: ProgramView,
    states: Seq<Re>,
    trail: Trail,
    item: QueueItem,
) -> bool {
    &&& item.step < trail.count()
    &&& item.state < states.len()
    &&& states[item.state as int] == state_after(program, trail.text(item.step))
    &&& alive(program, trail.text(item.step))
    &&& route(reader, trail.text(item.step)) == (match arrive(
        reader.data,
        item.node_offset,
        item.bound,
    ) {
        Ok(node) => Ok::<Option<NodeView>, ErrorView>(Some(node)),
        Err(e) => Err(e),
    })
}

/// A text on the way to `text` waits in the queue.
spec fn waiting(queue: Multiset<QueueItem>, trail: Trail, text: Seq<char>) -> bool {
    exists|item: QueueItem|
        #![trigger queue.count(item)]
        queue.count(item) > 0 && starts_with(trail.text(item.step), text)
}

/// The texts of the queue lie on no common way, and none leads to a text that
/// has been retained.
spec fn apart(queue: Multiset<QueueItem>, trail: Trail, retained: Seq<HitView>) -> bool {
    &&& forall|a: QueueItem|
        #![trigger queue.count(a)]
        queue.count(a) > 0 ==> queue.count(a) == 1 && a.step < trail.count()
    &&& forall|a: QueueItem, b: QueueItem|
        #![trigger queue.count(a), queue.count(b)]
        queue.count(a) > 0 && queue.count(b) > 0 && a != b ==> !starts_with(
            trail.text(a.step),
            trail.text(b.step),
        )
    &&& forall|a: QueueItem, i: int|
        #![trigger queue.count(a), retained[i]]
        queue.count(a) > 0 && 0 <= i < retained.len() ==> !starts_with(
            trail.text(a.step),
            retained[i].text,
        )
}

/// A search under way.
pub struct Run<'a> {
    index: &'a IndexReader,
    program: &'a Program,
    limit: usize,
    max_nodes: u64,
    machine: DerivativeMachine<'a>,
    queue: Queue,
    trail: Trail,
    serial: u64,
    retained: Vec<Ranked>,
    visited: u64,
    stop: Option<SearchStopReason>,
    /// The texts that have been visited, each with the frequency of its node.
    seen: Ghost<Seq<HitView>>,
    /// The items of the queue, in the order in which they came.
    line: Ghost<Seq<QueueItem>>,
}

/// One of the texts has been visited.
spec fn was_seen(seen: Seq<HitView>, text: Seq<char>) -> bool {
    exists|i: int| 0 <= i < seen.len() && (#[trigger] seen[i]).text == text
}

/// What has been visited: texts that lead to a node, none twice, none less
/// frequent than what waits or than the last of enough hits.
spec fn seen_ok(
    reader: ReaderView,
    program: ProgramView,
    limit: int,
    hits: Seq<HitView>,
    queue: Multiset<QueueItem>,
    trail: Trail,
    seen: Seq<HitView>,
) -> bool {
    &&& apart(queue, trail, seen)
    &&& forall|i: int, j: int|
        0 <= i < j < seen.len() ==> (#[trigger] seen[i]).text != (#[trigger] seen[j]).text
    &&& forall|i: int|
        0 <= i < seen.len() ==> alive(program, (#[trigger] seen[i]).text) && (route(
            reader,
            seen[i].text,
        ) matches Ok(Some(node)) && node.subtree == seen[i].score)
    &&& forall|a: QueueItem, i: int|
        #![trigger queue.count(a), seen[i]]
        queue.count(a) > 0 && 0 <= i < seen.len() ==> a.bound <= seen[i].score
    &&& forall|i: int|
        0 <= i < seen.len() ==> (#[trigger] seen[i]).score >= least_score(hits, limit)
}

/// Every text that a search may visit has been visited, or waits.
spec fn all_seen(
    reader: ReaderView,
    program: ProgramView,
    queue: Multiset<QueueItem>,
    trail: Trail,
    seen: Seq<HitView>,
) -> bool {
    forall|text: Seq<char>| #[trigger]
        live(reader, program, text) ==> was_seen(seen, text) || waiting(queue, trail, text)
}

/// The states are the query itself and what is left behind visited texts and an
/// edge.
spec fn states_known(
    reader: ReaderView,
    program: ProgramView,
    seen: Seq<HitView>,
    states: Seq<Re>,
) -> bool {
    &&& states.no_duplicates()
    &&& states.len() > 0 && states[0] == program.expr
    &&& forall|i: int|
        0 <= i < states.len() ==> #[trigger] states[i] == program.expr || exists|
            k: int,
            label: char,
        |
            0 <= k < seen.len() && #[trigger] led_to(
                reader,
                program,
                seen[k].text,
                label,
                states[i],
            )
}

/// What is left behind the first `n` visited texts and an edge is a state.
spec fn states_all(
    reader: ReaderView,
    program: ProgramView,
    seen: Seq<HitView>,
    n: int,
    states: Seq<Re>,
) -> bool {
    forall|k: int, label: char|
        0 <= k < n && #[trigger] edge_at(reader, seen[k].text, label) && state_after(
            program,
            seen[k].text.push(label),
        ) != Re::Empty ==> states.contains(state_after(program, seen[k].text.push(label)))
}

/// What one more node has brought.
#[derive(Clone, Copy, Debug, PartialEq, Eq, Structural)]
pub enum Progress {
    /// A node has been visited.
    Visited,
    /// The search has ended.
    Ended,
}

impl<'a> Run<'a> {
    pub closed spec fn reader(&self) -> ReaderView {
        self.index@
    }

    pub closed spec fn query(&self) -> ProgramView {
        self.program@
    }

    pub closed spec fn hits(&self) -> Seq<HitView> {
        views(self.retained@)
    }

    pub closed spec fn limit(&self) -> usize {
        self.limit
    }

    pub closed spec fn max_nodes(&self) -> u64 {
        self.max_nodes
    }

    pub closed spec fn max_states(&self) -> usize {
        self.machine.max_states()
    }

    pub closed spec fn visited(&self) -> u64 {
        self.visited
    }

    /// What the search was started with.
    pub open spec fn options(&self) -> SearchOptions {
        SearchOptions {
            limit: self.limit(),
            max_nodes: self.max_nodes(),
            max_states: self.max_states(),
        }
    }

    /// What has been visited came first, each in its turn.
    pub closed spec fn in_turn(&self) -> bool {
        let course = course_after(self.index@, self.program@, self.visited as nat);
        &&& line_ok(self.queue@, self.trail, self.serial, self.line@)
        &&& course.waiting == line_texts(self.trail, self.line@)
        &&& course.visited == texts_of(self.seen@)
        &&& comes_to(self.index@, self.program@, self.options(), self.visited as nat)
        &&& best_among(
            self.index@,
            self.program@,
            self.limit as int,
            course.visited,
            self.hits(),
        )
    }

    /// How a search stands that goes on.
    pub proof fn lemma_in_turn(&self)
        requires
            self.wf(),
            self.in_turn(),
        ensures
            stands(
                self.reader(),
                self.query(),
                self.options(),
                self.visited() as nat,
                self.hits(),
                self.state_count(),
                None,
            ),
    {
        self.machine.lemma_wf();
        lemma_meets(self.index@, self.program@, self.seen@, self.machine.states());
    }

    pub closed spec fn stop(&self) -> Option<SearchStopReason> {
        self.stop
    }

    pub closed spec fn state_count(&self) -> nat {
        self.machine.states().len()
    }

    /// What holds before and after every node.
    pub closed spec fn wf(&self) -> bool {
        &&& self.base_ok()
        &&& forall|hit: HitView|
            is_hit(self.index@, self.program@, hit) ==> #[trigger] settled(
                self.hits(),
                self.limit as int,
                hit,
            ) || waiting(self.queue@, self.trail, hit.text)
        &&& all_seen(self.index@, self.program@, self.queue@, self.trail, self.seen@)
        &&& self.seen@.len() == self.visited
        &&& states_all(
            self.index@,
            self.program@,
            self.seen@,
            self.seen@.len() as int,
            self.machine.states(),
        )
    }

    /// What holds of the parts of the search at any time.
    spec fn base_ok(&self) -> bool {
        &&& self.program@.wf()
        &&& self.machine.wf()
        &&& self.machine.program() == *self.program
        &&& self.limit > 0
        &&& self.visited <= self.max_nodes
        &&& self.queue.wf()
        &&& self.trail.wf()
        &&& self.stop is None
        &&& sound_hits(self.index@, self.program@, self.limit as int, self.hits())
        &&& forall|item: QueueItem|
            #![trigger self.queue@.count(item)]
            self.queue@.count(item) > 0 ==> item_ok(
                self.index@,
                self.program@,
                self.machine.states(),
                self.trail,
                item,
            )
        &&& apart(self.queue@, self.trail, self.hits())
        &&& seen_ok(
            self.index@,
            self.program@,
            self.limit as int,
            self.hits(),
            self.queue@,
            self.trail,
            self.seen@,
        )
        &&& states_known(self.index@, self.program@, self.seen@, self.machine.states())
    }

    /// What holds of a search that goes on.
    pub proof fn lemma_wf(&self)
        requires
            self.wf(),
        ensures
            self.visited() <= self.max_nodes(),
            self.state_count() <= self.max_states(),
            self.stop() is None,
            sound_hits(self.reader(), self.query(), self.limit() as int, self.hits()),
            may_visit(self.reader(), self.query(), self.visited() as nat),
            may_meet(self.reader(), self.query(), self.state_count()),
    {
        self.machine.lemma_wf();
        lemma_may_visit(
            self.index@,
            self.program@,
            self.limit as int,
            self.hits(),
            self.queue@,
            self.trail,
            self.seen@,
        );
        lemma_may_meet(self.index@, self.program@, self.seen@, self.machine.states());
    }

    /// The search at its start.
    fn start(
        index: &'a IndexReader,
        program: &'a Program,
        options: &SearchOptions,
    ) -> (r: Result<Self, SearchError>)
        requires
            program@.wf(),
        ensures
            match r {
                Ok(run) => options_fault(*options) is None && run.wf() && run.in_turn()
                    && run.reader() == index@
                    && run.query() == program@ && run.limit() == options.limit && run.max_nodes()
                    == options.max_nodes && run.max_states() == options.max_states && run.visited()
                    == 0 && run.state_count() == 1,
                Err(e) => options_fault(*options) == Some(e@),
            },
    {
        if options.limit == 0 {
            return Err(SearchError::InvalidOptions("limit 必须大于零".to_owned()));
        }
        if options.max_nodes == 0 {
            return Err(SearchError::InvalidOptions("max_nodes 必须大于零".to_owned()));
        }
        let machine = match DerivativeMachine::new(program, options.max_states) {
            Ok(machine) => machine,
            Err(e) => {
                return Err(e);
            },
        };
        let mut queue = Queue::new();
        let trail = Trail::new();
        let item = QueueItem {
            bound: index.root_subtree(),
            serial: 0,
            node_offset: index.root_offset(),
            state: 0,
            step: 0,
        };
        queue.push(item);
        let retained: Vec<Ranked> = Vec::new();
        let ghost nothing: Seq<HitView> = Seq::empty();
        let ghost alone = seq![item];
        let run = Run {
            index,
            program,
            limit: options.limit,
            max_nodes: options.max_nodes,
            machine,
            queue,
            trail,
            serial: 0,
            retained,
            visited: 0,
            stop: None,
            seen: Ghost(nothing),
            line: Ghost(alone),
        };
        proof {
            lemma_first_item(item);
            let course = course_after(index@, program@, 0);
            assert(course.waiting =~= line_texts(trail, alone));
            assert(course.visited =~= texts_of(nothing));
            let none = Seq::<char>::empty();
            assert(trail.text(0) == none);
            assert(run.hits() =~= Seq::empty());
            assert(machine.states()[0] == program@.expr);
            assert(state_after(program@, none) == program@.expr);
            assert forall|other: QueueItem| queue@.count(other) > 0 implies other == item by {
                assert(queue@ == Multiset::<QueueItem>::empty().insert(item));
            }
            assert(queue@.count(item) == 1);
            assert forall|hit: HitView|
                is_hit(index@, program@, hit) implies #[trigger] settled(
                run.hits(),
                run.limit as int,
                hit,
            ) || waiting(queue@, trail, hit.text) by {
                assert(hit.text.take(0) =~= none);
                assert(queue@.count(item) > 0 && starts_with(trail.text(item.step), hit.text));
            }
            assert forall|text: Seq<char>| #[trigger] live(index@, program@, text) implies waiting(
                queue@,
                trail,
                text,
            ) by {
                assert(text.take(0) =~= none);
                assert(queue@.count(item) > 0 && starts_with(trail.text(item.step), text));
            }
            assert(apart(queue@, trail, nothing)) by {
                assert forall|a: QueueItem, b: QueueItem|
                    #![trigger queue@.count(a), queue@.count(b)]
                    queue@.count(a) > 0 && queue@.count(b) > 0 && a != b implies !starts_with(
                    trail.text(a.step),
                    trail.text(b.step),
                ) by {}
            }
            assert(states_known(index@, program@, nothing, machine.states()));
        }
        Ok(run)
    }

    /// Visits the next node of the queue, or ends the search.
    #[verifier::rlimit(50)]
    fn visit_next(&mut self) -> (r: Result<Progress, SearchError>)
        requires
            old(self).wf(),
            old(self).in_turn(),
        ensures
            final(self).reader() == old(self).reader(),
            final(self).query() == old(self).query(),
            final(self).limit() == old(self).limit(),
            final(self).max_nodes() == old(self).max_nodes(),
            final(self).max_states() == old(self).max_states(),
            old(self).state_count() <= final(self).state_count() <= final(self).max_states(),
            match r {
                Ok(Progress::Visited) => {
                    &&& final(self).wf()
                    &&& final(self).in_turn()
                    &&& final(self).visited() == old(self).visited() + 1
                },
                Ok(Progress::Ended) => {
                    &&& final(self).visited() == old(self).visited() + (if final(self).stop()
                        == Some(SearchStopReason::StateLimit) {
                        1int
                    } else {
                        0
                    })
                    &&& stands(
                        final(self).reader(),
                        final(self).query(),
                        final(self).options(),
                        final(self).visited() as nat,
                        final(self).hits(),
                        final(self).state_count(),
                        final(self).stop(),
                    )
                    &&& final(self).stop() is None ==> at_end(
                        final(self).reader(),
                        final(self).query(),
                        final(self).options(),
                        final(self).visited() as nat,
                        final(self).hits(),
                    )
                    &&& sound_hits(
                        final(self).reader(),
                        final(self).query(),
                        final(self).limit() as int,
                        final(self).hits(),
                    )
                    &&& final(self).visited() <= final(self).max_nodes()
                    &&& may_visit(
                        final(self).reader(),
                        final(self).query(),
                        final(self).visited() as nat,
                    )
                    &&& may_meet(
                        final(self).reader(),
                        final(self).query(),
                        final(self).state_count(),
                    )
                    &&& match final(self).stop() {
                        None => best_hits(
                            final(self).reader(),
                            final(self).query(),
                            final(self).limit() as int,
                            final(self).hits(),
                        ) && extent_is(
                            final(self).reader(),
                            final(self).query(),
                            least_score(final(self).hits(), final(self).limit() as int),
                            final(self).visited() as nat,
                            final(self).state_count(),
                        ),
                        Some(SearchStopReason::NodeLimit) => final(self).visited() == final(
                            self).max_nodes() && may_visit(
                            final(self).reader(),
                            final(self).query(),
                            (final(self).max_nodes() + 1) as nat,
                        ),
                        Some(SearchStopReason::StateLimit) => final(self).state_count() == final(
                            self).max_states() && may_meet(
                            final(self).reader(),
                            final(self).query(),
                            (final(self).max_states() + 1) as nat,
                        ),
                    }
                },
                Err(e) => faulty(old(self).reader(), e@) && faults_first(
                    old(self).reader(),
                    old(self).query(),
                    old(self).options(),
                    old(self).visited() as nat,
                    e@,
                ),
            },
    {
        let ghost reader = self.index@;
        let ghost program = self.program@;
        let ghost limit = self.limit as int;
        let ghost queue0 = self.queue@;
        let ghost trail0 = self.trail;
        let ghost states0 = self.machine.states();
        let ghost hits0 = self.hits();
        let ghost seen0 = self.seen@;
        let ghost line0 = self.line@;
        let ghost serial0 = self.serial;
        let ghost n = self.visited as nat;
        let ghost options = self.options();
        let ghost course = course_after(reader, program, n);
        proof {
            self.lemma_in_turn();
            lemma_line_empty(queue0, trail0, serial0, line0);
            self.machine.lemma_wf();
            lemma_may_visit(reader, program, limit, hits0, queue0, trail0, seen0);
            lemma_may_meet(reader, program, seen0, states0);
        }
        let item = match self.queue.pop() {
            Some(item) => item,
            None => {
                proof {
                    lemma_complete(
                        reader,
                        program,
                        limit,
                        hits0,
                        queue0,
                        trail0,
                        seen0,
                        states0,
                    );
                    assert forall|hit: HitView| is_hit(reader, program, hit) implies #[trigger] settled(
                        hits0,
                        limit,
                        hit,
                    ) by {
                        if waiting(queue0, trail0, hit.text) {
                            let i = choose|i: QueueItem|
                                #![trigger queue0.count(i)]
                                queue0.count(i) > 0 && starts_with(trail0.text(i.step), hit.text);
                            assert(queue0.count(i) == 0);
                        }
                    }
                }
                return Ok(Progress::Ended);
            },
        };
        let ghost text = trail0.text(item.step);
        assert(item_ok(reader, program, states0, trail0, item));
        proof {
            lemma_line_popped(queue0, trail0, serial0, line0, item);
            assert(queue0.count(item) > 0);
            assert(next_of(course) == HitView { text, score: item.bound });
            lemma_item_apart(queue0, self.queue@, trail0, seen0, item);
        }
        if self.visited >= self.max_nodes {
            proof {
                lemma_one_more_text(reader, program, limit, hits0, queue0, trail0, seen0, text);
            }
            self.stop = Some(SearchStopReason::NodeLimit);
            return Ok(Progress::Ended);
        }
        if self.retained.len() == self.limit && item.bound < self.retained[self.limit - 1].score {
            proof {
                let worst = hits0[limit - 1];
                assert forall|other: QueueItem| queue0.count(other) > 0 implies other.bound
                    < least_score(hits0, limit) by {
                    assert(goes_first(item, other));
                }
                lemma_complete(reader, program, limit, hits0, queue0, trail0, seen0, states0);
                assert forall|hit: HitView| is_hit(reader, program, hit) implies #[trigger] settled(
                    hits0,
                    limit,
                    hit,
                ) by {
                    if !settled(hits0, limit, hit) {
                        lemma_waiting_bound(reader, program, states0, trail0, queue0, item, hit);
                        assert(hit.score < worst.score);
                        assert forall|i: int| 0 <= i < hits0.len() implies better(
                            #[trigger] hits0[i],
                            hit,
                        ) by {
                            if i < limit - 1 {
                                assert(better(hits0[i], worst));
                            }
                        }
                    }
                }
            }
            return Ok(Progress::Ended);
        }
        proof {
            lemma_due(reader, program, options, n, hits0);
        }
        self.visited = self.visited + 1;
        let node = match self.index.node(item.node_offset) {
            Ok(node) => node,
            Err(e) => {
                assert(route(reader, text) == Err::<Option<NodeView>, ErrorView>(e@));
                assert(comes_to(reader, program, options, n));
                return Err(SearchError::Index(e));
            },
        };
        if node.subtree != item.bound {
            let place: usize = if item.node_offset <= usize::MAX as u64 {
                item.node_offset as usize
            } else {
                usize::MAX
            };
            let e = IndexError::InvalidFormat {
                offset: place,
                message: "父边频次与子节点不一致".to_owned(),
            };
            assert(route(reader, text) == Err::<Option<NodeView>, ErrorView>(e@));
            assert(comes_to(reader, program, options, n));
            return Err(SearchError::Index(e));
        }
        assert(route(reader, text) == Ok::<Option<NodeView>, ErrorView>(Some(node@)));
        let ghost seen1 = seen0.push(HitView { text, score: node@.subtree });
        let ghost place = first_place(line_texts(trail0, line0));
        self.seen = Ghost(seen1);
        self.line = Ghost(line0.remove(place));
        proof {
            lemma_item_apart(queue0, self.queue@, trail0, hits0, item);
            lemma_seen_more(
                reader,
                program,
                limit,
                hits0,
                queue0,
                self.queue@,
                trail0,
                seen0,
                item,
                node@,
            );
            lemma_known_more(reader, program, seen0, seen1, states0);
        }
        self.offer(item, &node, Ghost(text));
        proof {
            lemma_popped(queue0, self.queue@, trail0, hits0, self.hits(), item);
            assert(still_apart(self.queue@, trail0, self.hits(), text, node@.edges, 0));
            assert forall|i: int| 0 <= i < seen1.len() implies (#[trigger] seen1[i]).text == text
                || seen0.contains(seen1[i]) by {
                if i < seen0.len() {
                    assert(seen1[i] == seen0[i]);
                }
            }
            lemma_popped(queue0, self.queue@, trail0, seen0, seen1, item);
            assert(still_apart(self.queue@, trail0, seen1, text, node@.edges, 0));
            assert forall|other: Seq<char>| #[trigger] live(reader, program, other) implies was_seen(
                seen1,
                other,
            ) || waiting(self.queue@, trail0, other) || below(text, node@.edges, 0, other) by {
                if was_seen(seen0, other) {
                    let k = choose|k: int|
                        0 <= k < seen0.len() && (#[trigger] seen0[k]).text == other;
                    assert(seen1[k].text == other);
                } else if other == text {
                    assert(seen1[seen0.len() as int].text == other);
                } else {
                    lemma_live_next(
                        reader,
                        program,
                        queue0,
                        self.queue@,
                        trail0,
                        item,
                        node@,
                        other,
                    );
                }
            }
            assert(states_all(reader, program, seen1, seen0.len() as int, states0)) by {
                assert forall|k: int, label: char|
                    0 <= k < seen0.len() && #[trigger] edge_at(reader, seen1[k].text, label)
                        && state_after(program, seen1[k].text.push(label)) != Re::Empty implies states0.contains(
                    state_after(program, seen1[k].text.push(label)),
                ) by {
                    assert(seen1[k] == seen0[k]);
                    assert(edge_at(reader, seen0[k].text, label));
                }
            }
            assert forall|hit: HitView| is_hit(reader, program, hit) implies #[trigger] settled(
                self.hits(),
                limit,
                hit,
            ) || waiting(self.queue@, trail0, hit.text) || below(
                text,
                node@.edges,
                0,
                hit.text,
            ) by {
                if !settled(self.hits(), limit, hit) {
                    assert(!settled(hits0, limit, hit));
                    lemma_where_next(reader, program, queue0, self.queue@, trail0, item, node@, hit);
                }
            }
        }
        proof {
            assert(seen1.drop_last() =~= seen0);
            lemma_best_now(reader, program, limit, hits0, self.hits(), seen0, seen1, text);
        }
        let more = self.expand(item, &node, Ghost(text));
        proof {
            let after = course_after(reader, program, n + 1);
            assert(after == visit(reader, program, course));
            assert(after.visited =~= texts_of(seen1));
            assert(comes_to(reader, program, options, n + 1)) by {
                assert(goes_on(reader, program, options, n));
            }
            lemma_may_visit(
                reader,
                program,
                limit,
                self.hits(),
                self.queue@,
                self.trail,
                self.seen@,
            );
            lemma_may_meet(reader, program, self.seen@, self.machine.states());
        }
        if more {
            Ok(Progress::Visited)
        } else {
            self.stop = Some(SearchStopReason::StateLimit);
            Ok(Progress::Ended)
        }
    }

    /// Adds the children of a node to the queue, unless that takes too many
    /// states.
    #[verifier::rlimit(50)]
    fn expand(&mut self, item: QueueItem, node: &Node, Ghost(text): Ghost<Seq<char>>) -> (r: bool)
        requires
            old(self).base_ok(),
            item.step < old(self).trail.count(),
            item.state < old(self).machine.states().len(),
            old(self).trail.text(item.step) == text,
            old(self).machine.states()[item.state as int] == state_after(
                old(self).program@,
                text,
            ),
            route(old(self).index@, text) == Ok::<Option<NodeView>, ErrorView>(Some(node@)),
            edges_sound(node@.edges, item.node_offset),
            still_apart(old(self).queue@, old(self).trail, old(self).hits(), text, node@.edges, 0),
            still_apart(old(self).queue@, old(self).trail, old(self).seen@, text, node@.edges, 0),
            line_ok(old(self).queue@, old(self).trail, old(self).serial, old(self).line@),
            old(self).seen@.len() == old(self).visited,
            old(self).visited > 0,
            old(self).seen@.last().text == text,
            forall|i: int|
                0 <= i < old(self).seen@.len() ==> (#[trigger] old(self).seen@[i]).score
                    >= node@.subtree,
            forall|other: Seq<char>| #[trigger]
                live(old(self).index@, old(self).program@, other) ==> was_seen(
                    old(self).seen@,
                    other,
                ) || waiting(old(self).queue@, old(self).trail, other) || below(
                    text,
                    node@.edges,
                    0,
                    other,
                ),
            states_all(
                old(self).index@,
                old(self).program@,
                old(self).seen@,
                old(self).seen@.len() - 1,
                old(self).machine.states(),
            ),
            forall|hit: HitView|
                is_hit(old(self).index@, old(self).program@, hit) ==> #[trigger] settled(
                    old(self).hits(),
                    old(self).limit as int,
                    hit,
                ) || waiting(old(self).queue@, old(self).trail, hit.text) || below(
                    text,
                    node@.edges,
                    0,
                    hit.text,
                ),
        ensures
            final(self).index == old(self).index,
            final(self).program == old(self).program,
            final(self).limit == old(self).limit,
            final(self).max_nodes == old(self).max_nodes,
            final(self).machine.max_states() == old(self).machine.max_states(),
            final(self).visited == old(self).visited,
            final(self).hits() == old(self).hits(),
            final(self).stop == old(self).stop,
            final(self).seen == old(self).seen,
            old(self).machine.states().len() <= final(self).machine.states().len(),
            final(self).machine.states().len() <= final(self).machine.max_states(),
            final(self).base_ok(),
            r ==> final(self).wf(),
            r ==> line_ok(
                final(self).queue@,
                final(self).trail,
                final(self).serial,
                final(self).line@,
            ),
            r ==> line_texts(final(self).trail, final(self).line@) == line_texts(
                old(self).trail,
                old(self).line@,
            ) + behind(old(self).program@, text, node@.edges),
            !r ==> final(self).machine.states().len() == final(self).machine.max_states()
                && may_meet(
                final(self).index@,
                final(self).program@,
                (final(self).machine.max_states() + 1) as nat,
            ) && meets_many(
                final(self).index@,
                final(self).program@,
                texts_of(final(self).seen@),
                (final(self).machine.max_states() + 1) as nat,
            ),
    {
        let ghost reader = self.index@;
        let ghost program = self.program@;
        let ghost limit = self.limit as int;
        let ghost hits1 = self.hits();
        let ghost states0 = self.machine.states();
        let ghost seen = self.seen@;
        let ghost waited = line_texts(self.trail, self.line@);
        proof {
            self.machine.lemma_wf();
            lemma_route_sound(reader, text);
            assert(node@.edges.take(0) =~= Seq::empty());
            assert(waited + behind(program, text, node@.edges.take(0)) =~= waited);
        }
        let mut i: usize = 0;
        while i < node.edges.len()
            invariant
                i <= node.edges@.len(),
                line_ok(self.queue@, self.trail, self.serial, self.line@),
                line_texts(self.trail, self.line@) == waited + behind(
                    program,
                    text,
                    node@.edges.take(i as int),
                ),
                self.base_ok(),
                self.index@ == reader,
                self.program@ == program,
                self.limit == limit,
                self.index == old(self).index,
                self.program == old(self).program,
                self.limit == old(self).limit,
                self.max_nodes == old(self).max_nodes,
                self.machine.max_states() == old(self).machine.max_states(),
                self.visited == old(self).visited,
                self.stop == old(self).stop,
                self.seen == old(self).seen,
                self.seen@ == seen,
                seen.len() == self.visited,
                seen.len() > 0,
                seen.last().text == text,
                forall|k: int| 0 <= k < seen.len() ==> (#[trigger] seen[k]).score >= node@.subtree,
                forall|k: int|
                    0 <= k < node@.edges.len() ==> (#[trigger] node@.edges[k]).subtree
                        <= node@.subtree,
                still_apart(self.queue@, self.trail, seen, text, node@.edges, i as int),
                forall|other: Seq<char>| #[trigger]
                    live(reader, program, other) ==> was_seen(seen, other) || waiting(
                        self.queue@,
                        self.trail,
                        other,
                    ) || below(text, node@.edges, i as int, other),
                states_all(reader, program, seen, seen.len() - 1, self.machine.states()),
                forall|k: int|
                    0 <= k < i ==> state_after(
                        program,
                        text.push((#[trigger] node@.edges[k]).label),
                    ) == Re::Empty || self.machine.states().contains(
                        state_after(program, text.push(node@.edges[k].label)),
                    ),
                old(self).hits() == hits1,
                self.hits() == hits1,
                states0.len() <= self.machine.states().len() <= self.machine.max_states(),
                states0 == old(self).machine.states(),
                item.step < self.trail.count(),
                item.state < self.machine.states().len(),
                self.trail.text(item.step) == text,
                self.machine.states()[item.state as int] == state_after(program, text),
                program.wf(),
                route(reader, text) == Ok::<Option<NodeView>, ErrorView>(Some(node@)),
                edges_sound(node@.edges, item.node_offset),
                still_apart(self.queue@, self.trail, hits1, text, node@.edges, i as int),
                forall|hit: HitView|
                    is_hit(reader, program, hit) ==> #[trigger] settled(hits1, limit, hit)
                        || waiting(self.queue@, self.trail, hit.text) || below(
                        text,
                        node@.edges,
                        i as int,
                        hit.text,
                    ),
            decreases node.edges.len() - i,
        {
            let edge = node.edges[i];
            let ghost before = *self;
            let ghost longer = text.push(edge.label);
            proof {
                assert(longer.drop_last() =~= text);
                assert(state_after(program, longer) == re_derive(
                    state_after(program, text),
                    edge.label,
                    program.classes,
                ));
                lemma_edge_route(reader, text, node@, i as int);
                assert(edge_at(reader, text, edge.label));
                assert(node@.edges[i as int].subtree <= node@.subtree);
                lemma_behind_next(program, text, node@.edges, i as int);
            }
            match self.machine.transition(item.state, edge.label) {
                Ok(Some(next_state)) => {
                    self.serial = self.serial.wrapping_add(1);
                    let step: usize = self.trail.extend(item.step, edge.label);
                    let next = QueueItem {
                        bound: edge.subtree,
                        serial: self.serial,
                        node_offset: edge.child_offset,
                        state: next_state,
                        step,
                    };
                    self.queue.push(next);
                    self.line = Ghost(self.line@.push(next));
                    proof {
                        lemma_line_pushed(
                            before.queue@,
                            before.trail,
                            self.trail,
                            before.line@,
                            before.serial,
                            next,
                        );
                        let came = behind(program, text, node@.edges.take(i as int));
                        let last = HitView { text: longer, score: next.bound };
                        assert((waited + came).push(last) =~= waited + came.push(last));
                        self.machine.lemma_wf();
                        lemma_states_more(
                            reader,
                            program,
                            seen,
                            before.machine.states(),
                            self.machine.states(),
                            text,
                            edge.label,
                        );
                        lemma_pushed(
                            reader,
                            program,
                            before.machine.states(),
                            self.machine.states(),
                            before.queue@,
                            self.queue@,
                            before.trail,
                            self.trail,
                            seen,
                            text,
                            node@.edges,
                            i as int,
                            next,
                        );
                        lemma_seen_pushed(
                            reader,
                            program,
                            limit,
                            hits1,
                            before.queue@,
                            self.queue@,
                            before.trail,
                            self.trail,
                            seen,
                            next,
                        );
                        assert forall|other: Seq<char>| #[trigger]
                            live(reader, program, other) implies was_seen(seen, other) || waiting(
                            self.queue@,
                            self.trail,
                            other,
                        ) || below(text, node@.edges, i + 1, other) by {
                            lemma_still_waiting(
                                before.queue@,
                                self.queue@,
                                before.trail,
                                self.trail,
                                hits1,
                                text,
                                node@.edges,
                                i as int,
                                next,
                                other,
                            );
                        }
                        lemma_pushed(
                            reader,
                            program,
                            before.machine.states(),
                            self.machine.states(),
                            before.queue@,
                            self.queue@,
                            before.trail,
                            self.trail,
                            hits1,
                            text,
                            node@.edges,
                            i as int,
                            next,
                        );
                        assert forall|hit: HitView|
                            is_hit(reader, program, hit) implies #[trigger] settled(
                            hits1,
                            limit,
                            hit,
                        ) || waiting(self.queue@, self.trail, hit.text) || below(
                            text,
                            node@.edges,
                            i + 1,
                            hit.text,
                        ) by {
                            lemma_still_waiting(
                                before.queue@,
                                self.queue@,
                                before.trail,
                                self.trail,
                                hits1,
                                text,
                                node@.edges,
                                i as int,
                                next,
                                hit.text,
                            );
                        }
                    }
                },
                Ok(None) => {
                    proof {
                        lemma_states_kept(
                            reader,
                            program,
                            before.machine.states(),
                            self.machine.states(),
                            self.queue@,
                            self.trail,
                        );
                        assert(still_apart(
                            self.queue@,
                            self.trail,
                            hits1,
                            text,
                            node@.edges,
                            i + 1,
                        ));
                        assert(self.machine.states() == before.machine.states());
                        assert(still_apart(
                            self.queue@,
                            self.trail,
                            seen,
                            text,
                            node@.edges,
                            i + 1,
                        ));
                        assert forall|other: Seq<char>| #[trigger]
                            live(reader, program, other) implies was_seen(seen, other) || waiting(
                            self.queue@,
                            self.trail,
                            other,
                        ) || below(text, node@.edges, i + 1, other) by {
                            if below(text, node@.edges, i as int, other) && !below(
                                text,
                                node@.edges,
                                i + 1,
                                other,
                            ) {
                                assert(starts_with(longer, other));
                                lemma_dead_text(program, longer, other);
                            }
                        }
                        assert forall|hit: HitView|
                            is_hit(reader, program, hit) implies #[trigger] settled(
                            hits1,
                            limit,
                            hit,
                        ) || waiting(self.queue@, self.trail, hit.text) || below(
                            text,
                            node@.edges,
                            i + 1,
                            hit.text,
                        ) by {
                            if below(text, node@.edges, i as int, hit.text) && !below(
                                text,
                                node@.edges,
                                i + 1,
                                hit.text,
                            ) {
                                assert(starts_with(longer, hit.text));
                                lemma_dead_below(program, longer, hit.text);
                            }
                        }
                    }
                },
                Err(e) => {
                    proof {
                        lemma_one_more_state(
                            reader,
                            program,
                            seen,
                            self.machine.states(),
                            longer,
                        );
                        lemma_meets_many(
                            reader,
                            program,
                            seen,
                            self.machine.states(),
                            text,
                            edge.label,
                        );
                    }
                    return false;
                },
            }
            proof {
                self.machine.lemma_wf();
            }
            i += 1;
        }
        proof {
            assert(node@.edges.take(i as int) =~= node@.edges);
            assert forall|hit: HitView| is_hit(reader, program, hit) implies #[trigger] settled(
                self.hits(),
                limit,
                hit,
            ) || waiting(self.queue@, self.trail, hit.text) by {
                assert(!below(text, node@.edges, i as int, hit.text));
            }
            assert forall|other: Seq<char>| #[trigger] live(reader, program, other) implies was_seen(
                seen,
                other,
            ) || waiting(self.queue@, self.trail, other) by {
                assert(!below(text, node@.edges, i as int, other));
            }
            let states = self.machine.states();
            assert forall|k: int, label: char|
                0 <= k < seen.len() && #[trigger] edge_at(reader, seen[k].text, label)
                    && state_after(program, seen[k].text.push(label)) != Re::Empty implies states.contains(
                state_after(program, seen[k].text.push(label)),
            ) by {
                if k == seen.len() - 1 {
                    let j = edge_place(node@.edges, label)->0;
                    lemma_edge_place(node@.edges, label);
                    assert(node@.edges[j].label == label);
                }
            }
        }
        true
    }

    /// Retains the text of an item where it is a hit.
    #[verifier::rlimit(50)]
    fn offer(&mut self, item: QueueItem, node: &Node, Ghost(text): Ghost<Seq<char>>)
        requires
            old(self).base_ok(),
            item.step < old(self).trail.count(),
            item.state < old(self).machine.states().len(),
            old(self).trail.text(item.step) == text,
            old(self).machine.states()[item.state as int] == state_after(
                old(self).program@,
                text,
            ),
            route(old(self).index@, text) == Ok::<Option<NodeView>, ErrorView>(Some(node@)),
            no_text(old(self).hits(), text),
            forall|i: int|
                0 <= i < old(self).seen@.len() ==> (#[trigger] old(self).seen@[i]).score
                    >= node@.subtree,
            forall|a: QueueItem|
                #![trigger old(self).queue@.count(a)]
                old(self).queue@.count(a) > 0 ==> !starts_with(
                    old(self).trail.text(a.step),
                    text,
                ),
        ensures
            final(self).base_ok(),
            final(self).index == old(self).index,
            final(self).program == old(self).program,
            final(self).limit == old(self).limit,
            final(self).max_nodes == old(self).max_nodes,
            final(self).machine == old(self).machine,
            final(self).queue == old(self).queue,
            final(self).trail == old(self).trail,
            final(self).visited == old(self).visited,
            final(self).seen == old(self).seen,
            final(self).serial == old(self).serial,
            final(self).line == old(self).line,
            forall|hit: HitView|
                settled(old(self).hits(), old(self).limit as int, hit) ==> #[trigger] settled(
                    final(self).hits(),
                    old(self).limit as int,
                    hit,
                ),
            forall|hit: HitView|
                is_hit(old(self).index@, old(self).program@, hit) && hit.text == text
                    ==> #[trigger] settled(final(self).hits(), old(self).limit as int, hit),
            forall|i: int|
                0 <= i < final(self).hits().len() ==> (#[trigger] final(self).hits()[i]).text == text
                    || old(self).hits().contains(final(self).hits()[i]),
    {
        let ghost program = self.program@;
        let ghost reader = self.index@;
        let ghost hits0 = self.hits();
        proof {
            lemma_derive_string(program.expr, text, program.classes, Seq::empty());
            lemma_nullable_lang(
                state_after(program, text),
                program.classes,
                Env::Free,
            );
            assert(text + Seq::<char>::empty() =~= text);
        }
        if item.step > 0 && self.machine.nullable(item.state) {
            let score: u64 = if self.index.implicit_prefixes() {
                node.subtree
            } else {
                node.terminal
            };
            let spelled = self.trail.spell(item.step);
            if spelled.len() > 0 && score > 0 {
                let accepted_text = self.program.capture_count == 0 || self.program.matches(
                    string_of(spelled.as_slice()).as_str(),
                );
                if accepted_text {
                    let candidate = Ranked { text: spelled, score };
                    let ghost c = candidate@;
                    assert(is_hit(reader, program, c));
                    retain_hit(&mut self.retained, self.limit, candidate);
                    proof {
                        let hits1 = self.hits();
                        lemma_route_sound(reader, text);
                        lemma_least(hits0, hits1, self.limit as int, c);
                        assert forall|i: int| 0 <= i < hits1.len() implies is_hit(
                            reader,
                            program,
                            #[trigger] hits1[i],
                        ) by {
                            if hits1[i] != c {
                                let k = choose|k: int| 0 <= k < hits0.len() && hits0[k] == hits1[i];
                                assert(is_hit(reader, program, hits0[k]));
                            }
                        }
                        assert forall|a: QueueItem, i: int|
                            #![trigger self.queue@.count(a), hits1[i]]
                            self.queue@.count(a) > 0 && 0 <= i < hits1.len() implies !starts_with(
                            self.trail.text(a.step),
                            hits1[i].text,
                        ) by {
                            if hits1[i] != c {
                                let k = choose|k: int| 0 <= k < hits0.len() && hits0[k] == hits1[i];
                                assert(!starts_with(self.trail.text(a.step), hits0[k].text));
                            }
                        }
                    }
                }
            }
        } else {
            proof {
                if item.step == 0 {
                    self.trail.lemma_start();
                }
            }
        }
        proof {
            let hits1 = self.hits();
            assert forall|i: int| 0 <= i < hits1.len() implies (#[trigger] hits1[i]).text == text
                || hits0.contains(hits1[i]) by {
                if hits1 == hits0 {
                    assert(hits0[i] == hits1[i]);
                }
            }
        }
    }

    /// The number of nodes visited so far.
    fn visited_nodes(&self) -> (r: u64)
        ensures
            r == self.visited(),
    {
        self.visited
    }

    /// The results so far.
    fn snapshot(&self) -> (r: SearchReport)
        ensures
            views(r.results@) == self.hits(),
            r.visited == self.visited(),
            r.derivative_states == self.state_count(),
            r.truncated == (self.stop() is Some),
            r.stop_reason == self.stop(),
    {
        let mut results: Vec<SearchHit> = Vec::new();
        let mut i: usize = 0;
        assert(views(results@) =~= self.hits().take(0));
        while i < self.retained.len()
            invariant
                i <= self.retained@.len(),
                views(results@) == self.hits().take(i as int),
            decreases self.retained.len() - i,
        {
            let ghost before = results@;
            let hit = SearchHit {
                text: string_of(self.retained[i].text.as_slice()),
                score: self.retained[i].score,
            };
            results.push(hit);
            proof {
                assert(self.hits()[i as int] == hit@);
                assert(views(results@) =~= views(before).push(hit@));
                assert(self.hits().take(i + 1) =~= self.hits().take(i as int).push(
                    self.hits()[i as int],
                ));
            }
            i += 1;
        }
        proof {
            assert(self.hits().take(i as int) =~= self.hits());
        }
        SearchReport {
            results,
            visited: self.visited,
            derivative_states: self.machine.state_count(),
            truncated: self.stop.is_some(),
            stop_reason: self.stop,
        }
    }
}

/// What a report of a search says: its results are hits, by rank, and within
/// the limits. As many nodes and states as it says there are to be visited and
/// met, and more than a limit where it has stopped there.
pub open spec fn reports(
    reader: ReaderView,
    program: ProgramView,
    options: SearchOptions,
    report: SearchReport,
) -> bool {
    &&& sound_hits(reader, program, options.limit as int, views(report.results@))
    &&& report.visited <= options.max_nodes
    &&& 1 <= report.derivative_states <= options.max_states
    &&& report.truncated == (report.stop_reason is Some)
    &&& may_visit(reader, program, report.visited as nat)
    &&& may_meet(reader, program, report.derivative_states as nat)
    &&& report.stop_reason == Some(SearchStopReason::NodeLimit) ==> report.visited
        == options.max_nodes && may_visit(reader, program, (options.max_nodes + 1) as nat)
    &&& report.stop_reason == Some(SearchStopReason::StateLimit) ==> report.derivative_states
        == options.max_states && may_meet(reader, program, (options.max_states + 1) as nat)
}

/// What a report of a complete search says: its results are the best hits of
/// the index, and its numbers are those of the nodes that had to be visited and
/// of the states on the way.
pub open spec fn reports_all(
    reader: ReaderView,
    program: ProgramView,
    options: SearchOptions,
    report: SearchReport,
) -> bool {
    let results = views(report.results@);
    &&& best_hits(reader, program, options.limit as int, results)
    &&& extent_is(
        reader,
        program,
        least_score(results, options.limit as int),
        report.visited as nat,
        report.derivative_states as nat,
    )
}

/// Searches an index for the keys that a query accepts, the most frequent
/// first. A node waits under its frequency, which no key below it exceeds: the
/// search is complete once enough results are at hand and what waits is less
/// frequent than the last of them.
pub fn search(index: &IndexReader, program: &Program, options: &SearchOptions) -> (r: Result<
    SearchReport,
    SearchError,
>)
    requires
        program@.wf(),
    ensures
        match options_fault(*options) {
            Some(e) => r matches Err(f) && f@ == e,
            None => match r {
                Ok(report) => reports(index@, program@, *options, report) && reports_end(
                    index@,
                    program@,
                    *options,
                    report,
                ) && (report.stop_reason is None ==> reports_all(
                    index@,
                    program@,
                    *options,
                    report,
                )),
                Err(e) => faulty(index@, e@) && stopped_by_fault(index@, program@, *options, e@),
            },
        },
{
    let mut run = match Run::start(index, program, options) {
        Ok(run) => run,
        Err(e) => {
            return Err(e);
        },
    };
    loop
        invariant
            options_fault(*options) is None,
            run.wf(),
            run.in_turn(),
            run.reader() == index@,
            run.query() == program@,
            run.limit() == options.limit,
            run.max_nodes() == options.max_nodes,
            run.max_states() == options.max_states,
            1 <= run.state_count(),
        decreases options.max_nodes - run.visited(),
    {
        proof {
            run.lemma_wf();
        }
        match run.visit_next() {
            Ok(Progress::Visited) => {
                proof {
                    run.lemma_wf();
                }
            },
            Ok(Progress::Ended) => {
                return Ok(run.snapshot());
            },
            Err(e) => {
                return Err(e);
            },
        }
    }
}

/// A point in time, as the standard library has it.
#[verifier::external_type_specification]
#[verifier::external_body]
pub struct ExInstant(std::time::Instant);

/// `Instant::now`: the present time, of which nothing is claimed.
#[verifier::external_body]
fn clock_now() -> (r: Instant) {
    Instant::now()
}

/// `Instant::elapsed`: the time that has passed. It depends on the clock, and
/// nothing is claimed of it.
#[verifier::external_body]
fn elapsed_since(since: &Instant) -> (r: Duration) {
    since.elapsed()
}

/// The nanoseconds of a span of time.
pub uninterp spec fn span_nanos(span: Duration) -> u128;

/// `Duration::as_nanos`: the span as a number of nanoseconds, which depends on
/// the span alone.
#[verifier::external_body]
fn nanos(span: Duration) -> (r: u128)
    ensures
        r == span_nanos(span),
{
    span.as_nanos()
}

/// A report is due after so many nodes and so much time since the last one.
/// Time is looked at after every node only where the interval is nothing.
pub open spec fn report_is_due(interval: u128, visited: u64, elapsed: u128) -> bool {
    (interval == 0 || visited % 256 == 0) && elapsed >= interval
}

/// Whether a report is due.
pub fn report_due(interval: u128, visited: u64, elapsed: u128) -> (r: bool)
    ensures
        r == report_is_due(interval, visited, elapsed),
{
    (interval == 0 || visited % 256 == 0) && elapsed >= interval
}

/// The nodes of a search after which it may be reported: all that have been
/// visited, but for one that takes too many states.
pub open spec fn nodes_done(report: SearchReport) -> nat {
    if report.stop_reason == Some(SearchStopReason::StateLimit) {
        (report.visited - 1) as nat
    } else {
        report.visited as nat
    }
}

/// A report from the middle of a search: it tells how the search stands.
pub open spec fn provisional(
    reader: ReaderView,
    program: ProgramView,
    options: SearchOptions,
    report: SearchReport,
) -> bool {
    &&& report.stop_reason is None
    &&& report.visited > 0
    &&& reports(reader, program, options, report)
    &&& reports_course(reader, program, options, report)
}

/// The reports of a search, with their answers, and how it ends. Every report
/// tells how the search stands, after more nodes than the one before. The search
/// goes on while it is told to, and ends with the first report that is answered
/// with `false`; else as it ends by itself. Where every node is reported, no node
/// is left out.
pub open spec fn search_told(
    reader: ReaderView,
    program: ProgramView,
    options: SearchOptions,
    every_node: bool,
    answers: Seq<(SearchReport, bool)>,
    r: Result<SearchReport, SearchErrorView>,
) -> bool {
    &&& forall|i: int|
        0 <= i < answers.len() ==> provisional(reader, program, options, (#[trigger] answers[i]).0)
    &&& forall|i: int, j: int|
        0 <= i < j < answers.len() ==> (#[trigger] answers[i]).0.visited < (
        #[trigger] answers[j]).0.visited
    &&& forall|i: int| 0 <= i < answers.len() - 1 ==> (#[trigger] answers[i]).1
    &&& every_node ==> forall|i: int|
        0 <= i < answers.len() ==> (#[trigger] answers[i]).0.visited == i + 1
    &&& if answers.len() > 0 && !answers.last().1 {
        r == Ok::<SearchReport, SearchErrorView>(answers.last().0)
    } else {
        match r {
            Ok(report) => {
                &&& reports(reader, program, options, report)
                &&& reports_end(reader, program, options, report)
                &&& report.stop_reason is None ==> reports_all(reader, program, options, report)
                &&& answers.len() > 0 ==> answers.last().0.visited <= nodes_done(report)
                &&& every_node ==> answers.len() == nodes_done(report)
            },
            Err(e) => faulty(reader, e) && exists|n: nat|
                {
                    &&& #[trigger] faults_first(reader, program, options, n, e)
                    &&& answers.len() > 0 ==> answers.last().0.visited <= n
                    &&& every_node ==> answers.len() == n
                },
        }
    }
}

/// The outcome of a search, with its error in mathematical terms.
pub open spec fn outcome_of(r: Result<SearchReport, SearchError>) -> Result<
    SearchReport,
    SearchErrorView,
> {
    match r {
        Ok(report) => Ok(report),
        Err(e) => Err(e@),
    }
}

/// What has been asked about so far, in a search that goes on.
spec fn asked_so_far(
    reader: ReaderView,
    program: ProgramView,
    options: SearchOptions,
    every_node: bool,
    answers: Seq<(SearchReport, bool)>,
    visited: u64,
) -> bool {
    &&& forall|i: int|
        0 <= i < answers.len() ==> provisional(reader, program, options, (#[trigger] answers[i]).0)
    &&& forall|i: int, j: int|
        0 <= i < j < answers.len() ==> (#[trigger] answers[i]).0.visited < (
        #[trigger] answers[j]).0.visited
    &&& forall|i: int| 0 <= i < answers.len() ==> (#[trigger] answers[i]).1
    &&& forall|i: int| 0 <= i < answers.len() ==> (#[trigger] answers[i]).0.visited <= visited
    &&& every_node ==> answers.len() == visited && forall|i: int|
        0 <= i < answers.len() ==> (#[trigger] answers[i]).0.visited == i + 1
}

/// One report more.
proof fn lemma_asked_more(
    reader: ReaderView,
    program: ProgramView,
    options: SearchOptions,
    every_node: bool,
    answers: Seq<(SearchReport, bool)>,
    visited: u64,
    report: SearchReport,
    go_on: bool,
)
    requires
        visited < u64::MAX,
        asked_so_far(reader, program, options, every_node, answers, visited),
        provisional(reader, program, options, report),
        report.visited == visited + 1,
    ensures
        ({
            let more = answers.push((report, go_on));
            &&& go_on ==> asked_so_far(
                reader,
                program,
                options,
                every_node,
                more,
                (visited + 1) as u64,
            )
            &&& !go_on ==> search_told(reader, program, options, every_node, more, Ok(report))
        }),
{
    let more = answers.push((report, go_on));
    assert forall|i: int| 0 <= i < more.len() implies provisional(
        reader,
        program,
        options,
        (#[trigger] more[i]).0,
    ) && more[i].0.visited <= visited + 1 && (i < answers.len() ==> more[i].1) && (every_node
        ==> more[i].0.visited == i + 1) by {
        if i < answers.len() {
            assert(more[i] == answers[i]);
        }
    }
    assert forall|i: int, j: int| 0 <= i < j < more.len() implies (#[trigger] more[i]).0.visited < (
    #[trigger] more[j]).0.visited by {
        assert(more[i] == answers[i]);
        if j < answers.len() {
            assert(more[j] == answers[j]);
        }
    }
}

/// Searches an index, and asks after some of the nodes whether to go on: after
/// each one where the interval is nothing, else as the clock decides.
#[verifier::rlimit(30)]
pub fn search_asking<F: FnMut(&SearchReport) -> bool>(
    index: &IndexReader,
    program: &Program,
    options: &SearchOptions,
    interval: Duration,
    asker: Asker<SearchReport, F>,
) -> (r: (Result<SearchReport, SearchError>, Asker<SearchReport, F>))
    requires
        program@.wf(),
        asker.wf(),
        asker.answers().len() == 0,
        forall|report: &SearchReport|
            provisional(index@, program@, *options, *report) ==> call_requires(
                asker.origin(),
                (report,),
            ),
    ensures
        r.1.wf(),
        r.1.origin() == asker.origin(),
        match options_fault(*options) {
            Some(e) => (r.0 matches Err(f) && f@ == e) && r.1.answers().len() == 0,
            None => search_told(
                index@,
                program@,
                *options,
                span_nanos(interval) == 0,
                r.1.answers(),
                outcome_of(r.0),
            ),
        },
{
    let mut heard = asker;
    let mut run = match Run::start(index, program, options) {
        Ok(run) => run,
        Err(e) => {
            return (Err(e), heard);
        },
    };
    let least: u128 = nanos(interval);
    let ghost every_node = least == 0;
    let mut last = clock_now();
    loop
        invariant
            options_fault(*options) is None,
            run.wf(),
            run.in_turn(),
            run.reader() == index@,
            run.query() == program@,
            run.limit() == options.limit,
            run.max_nodes() == options.max_nodes,
            run.max_states() == options.max_states,
            1 <= run.state_count(),
            least == span_nanos(interval),
            every_node == (least == 0),
            heard.wf(),
            heard.origin() == asker.origin(),
            forall|report: &SearchReport|
                provisional(index@, program@, *options, *report) ==> call_requires(
                    asker.origin(),
                    (report,),
                ),
            asked_so_far(
                index@,
                program@,
                *options,
                every_node,
                heard.answers(),
                run.visited(),
            ),
        decreases options.max_nodes - run.visited(),
    {
        proof {
            run.lemma_wf();
        }
        let ghost before = run.visited();
        let ghost answers = heard.answers();
        match run.visit_next() {
            Ok(Progress::Visited) => {
                proof {
                    run.lemma_wf();
                    run.lemma_in_turn();
                }
                let elapsed: u128 = nanos(elapsed_since(&last));
                if report_due(least, run.visited_nodes(), elapsed) {
                    let report = run.snapshot();
                    assert(provisional(index@, program@, *options, report));
                    let (asked, go_on) = heard.ask(&report);
                    heard = asked;
                    proof {
                        lemma_asked_more(
                            index@,
                            program@,
                            *options,
                            every_node,
                            answers,
                            before,
                            report,
                            go_on,
                        );
                    }
                    if !go_on {
                        return (Ok(report), heard);
                    }
                    last = clock_now();
                }
            },
            Ok(Progress::Ended) => {
                let report = run.snapshot();
                return (Ok(report), heard);
            },
            Err(e) => {
                proof {
                    assert(faults_first(index@, program@, *options, before as nat, e@));
                }
                return (Err(e), heard);
            },
        }
    }
}

/// Searches an index and reports the best results so far from time to time.
///
/// Such a report is provisional: further results may take the place of some.
/// The search ends once `progress` returns `false`, with the report that was
/// answered so. With an interval of nothing every node is reported; with another
/// the clock decides.
pub fn search_with_progress<F: FnMut(&SearchReport) -> bool>(
    index: &IndexReader,
    program: &Program,
    options: &SearchOptions,
    interval: Duration,
    progress: F,
) -> (r: Result<SearchReport, SearchError>)
    requires
        program@.wf(),
        forall|report: &SearchReport|
            provisional(index@, program@, *options, *report) ==> call_requires(
                progress,
                (report,),
            ),
    ensures
        match options_fault(*options) {
            Some(e) => r matches Err(f) && f@ == e,
            None => exists|answers: Seq<(SearchReport, bool)>| #[trigger]
                all_answered(progress, answers) && search_told(
                    index@,
                    program@,
                    *options,
                    span_nanos(interval) == 0,
                    answers,
                    outcome_of(r),
                ),
        },
{
    let (r, asker) = search_asking(index, program, options, interval, Asker::new(progress));
    proof {
        asker.lemma_answered();
    }
    r
}

/// The error is a fault of the index that some text leads to.
pub open spec fn faulty(reader: ReaderView, e: SearchErrorView) -> bool {
    e matches SearchErrorView::Index(fault) && exists|text: Seq<char>| #[trigger]
        route(reader, text) == Err::<Option<NodeView>, ErrorView>(fault)
}

/// The text goes on from `text` through an edge from the `i`th on.
spec fn below(text: Seq<char>, edges: Seq<Edge>, i: int, other: Seq<char>) -> bool {
    exists|j: int|
        i <= j < edges.len() && #[trigger] starts_with(text.push(edges[j].label), other)
}

/// The items of the queue lead nowhere through the edges from the `i`th on, nor
/// does any retained text go through them.
spec fn still_apart(
    queue: Multiset<QueueItem>,
    trail: Trail,
    hits: Seq<HitView>,
    text: Seq<char>,
    edges: Seq<Edge>,
    i: int,
) -> bool {
    &&& forall|j: int, a: QueueItem|
        #![trigger edges[j], queue.count(a)]
        i <= j < edges.len() && queue.count(a) > 0 ==> !starts_with(
            trail.text(a.step),
            text.push(edges[j].label),
        ) && !starts_with(text.push(edges[j].label), trail.text(a.step))
    &&& forall|j: int, k: int|
        #![trigger edges[j], hits[k]]
        i <= j < edges.len() && 0 <= k < hits.len() ==> !starts_with(
            text.push(edges[j].label),
            hits[k].text,
        )
}

proof fn lemma_starts_trans(a: Seq<char>, b: Seq<char>, c: Seq<char>)
    requires
        starts_with(a, b),
        starts_with(b, c),
    ensures
        starts_with(a, c),
{
    assert(c.take(a.len() as int) =~= c.take(b.len() as int).take(a.len() as int));
}

/// A text that starts with one more label starts without it too.
proof fn lemma_starts_longer(text: Seq<char>, c: char, other: Seq<char>)
    requires
        starts_with(text.push(c), other),
    ensures
        starts_with(text, other),
        other.len() > text.len(),
        other[text.len() as int] == c,
{
    assert(text.push(c).take(text.len() as int) =~= text);
    lemma_starts_trans(text, text.push(c), other);
    assert(other.take(text.len() as int + 1)[text.len() as int] == c);
}

/// A prefix of a text with one more label is a prefix of the text, or all of
/// it.
proof fn lemma_prefix_of_push(a: Seq<char>, text: Seq<char>, c: char)
    requires
        starts_with(a, text.push(c)),
    ensures
        starts_with(a, text) || a == text.push(c),
{
    if a.len() <= text.len() {
        assert(text.push(c).take(a.len() as int) =~= text.take(a.len() as int));
    } else {
        assert(text.push(c).take(a.len() as int) =~= text.push(c));
    }
}

/// What waits is no more frequent than the first item of the queue.
proof fn lemma_waiting_bound(
    reader: ReaderView,
    program: ProgramView,
    states: Seq<Re>,
    trail: Trail,
    queue: Multiset<QueueItem>,
    first: QueueItem,
    hit: HitView,
)
    requires
        is_hit(reader, program, hit),
        waiting(queue, trail, hit.text),
        forall|item: QueueItem|
            #![trigger queue.count(item)]
            queue.count(item) > 0 ==> item_ok(reader, program, states, trail, item),
        forall|item: QueueItem| queue.count(item) > 0 ==> goes_first(first, item),
    ensures
        hit.score <= first.bound,
{
    let item = choose|item: QueueItem|
        #![trigger queue.count(item)]
        queue.count(item) > 0 && starts_with(trail.text(item.step), hit.text);
    assert(item_ok(reader, program, states, trail, item));
    lemma_route_bound(reader, hit.text, trail.text(item.step));
    lemma_arrive_sound(reader.data, item.node_offset, item.bound);
    assert(goes_first(first, item));
}

/// The queue without its first item.
proof fn lemma_popped(
    queue: Multiset<QueueItem>,
    rest: Multiset<QueueItem>,
    trail: Trail,
    hits0: Seq<HitView>,
    hits1: Seq<HitView>,
    item: QueueItem,
)
    requires
        apart(queue, trail, hits0),
        queue.count(item) > 0,
        rest == queue.remove(item),
        forall|i: int|
            0 <= i < hits1.len() ==> (#[trigger] hits1[i]).text == trail.text(item.step)
                || hits0.contains(hits1[i]),
    ensures
        forall|edges: Seq<Edge>| #[trigger]
            still_apart(rest, trail, hits1, trail.text(item.step), edges, 0),
{
    let text = trail.text(item.step);
    assert forall|edges: Seq<Edge>| #[trigger]
        still_apart(rest, trail, hits1, text, edges, 0) by {
        assert forall|j: int, a: QueueItem|
            #![trigger edges[j], rest.count(a)]
            0 <= j < edges.len() && rest.count(a) > 0 implies !starts_with(
            trail.text(a.step),
            text.push(edges[j].label),
        ) && !starts_with(text.push(edges[j].label), trail.text(a.step)) by {
            assert(queue.count(a) > 0);
            assert(queue.count(item) == 1);
            assert(a != item);
            let other = trail.text(a.step);
            assert(!starts_with(other, text));
            assert(!starts_with(text, other));
            if starts_with(other, text.push(edges[j].label)) {
                lemma_prefix_of_push(other, text, edges[j].label);
                assert(other.take(text.len() as int) =~= text);
            }
            if starts_with(text.push(edges[j].label), other) {
                lemma_starts_longer(text, edges[j].label, other);
            }
        }
        assert forall|j: int, k: int|
            #![trigger edges[j], hits1[k]]
            0 <= j < edges.len() && 0 <= k < hits1.len() implies !starts_with(
            text.push(edges[j].label),
            hits1[k].text,
        ) by {
            if starts_with(text.push(edges[j].label), hits1[k].text) {
                lemma_starts_longer(text, edges[j].label, hits1[k].text);
                if hits1[k].text != text {
                    let m = choose|m: int| 0 <= m < hits0.len() && hits0[m] == hits1[k];
                    assert(queue.count(item) > 0);
                    assert(!starts_with(trail.text(item.step), hits0[m].text));
                }
            }
        }
    }
}

/// What holds of the first item of a queue and of the rest.
proof fn lemma_item_apart(
    queue: Multiset<QueueItem>,
    rest: Multiset<QueueItem>,
    trail: Trail,
    hits: Seq<HitView>,
    item: QueueItem,
)
    requires
        apart(queue, trail, hits),
        queue.count(item) > 0,
        rest == queue.remove(item),
    ensures
        apart(rest, trail, hits),
        no_text(hits, trail.text(item.step)),
        queue.count(item) == 1,
        forall|a: QueueItem|
            #![trigger rest.count(a)]
            rest.count(a) > 0 ==> !starts_with(trail.text(a.step), trail.text(item.step)),
{
    let text = trail.text(item.step);
    assert(text.take(text.len() as int) =~= text);
    assert forall|i: int| 0 <= i < hits.len() implies (#[trigger] hits[i]).text != text by {
        assert(!starts_with(text, hits[i].text));
    }
    assert(queue.count(item) == 1);
    assert forall|a: QueueItem|
        #![trigger rest.count(a)]
        rest.count(a) > 0 implies queue.count(a) > 0 && a != item && rest.count(a) == 1 by {
        assert(queue.count(a) > 0);
    }
    assert forall|a: QueueItem, b: QueueItem|
        #![trigger rest.count(a), rest.count(b)]
        rest.count(a) > 0 && rest.count(b) > 0 && a != b implies !starts_with(
        trail.text(a.step),
        trail.text(b.step),
    ) by {
        assert(queue.count(a) > 0 && queue.count(b) > 0);
    }
    assert forall|a: QueueItem, i: int|
        #![trigger rest.count(a), hits[i]]
        rest.count(a) > 0 && 0 <= i < hits.len() implies !starts_with(
        trail.text(a.step),
        hits[i].text,
    ) by {
        assert(queue.count(a) > 0);
    }
}

/// A hit that the first item of the queue leads to, and that is not settled
/// with it, goes on through one of its edges.
proof fn lemma_where_next(
    reader: ReaderView,
    program: ProgramView,
    queue: Multiset<QueueItem>,
    rest: Multiset<QueueItem>,
    trail: Trail,
    item: QueueItem,
    node: NodeView,
    hit: HitView,
)
    requires
        is_hit(reader, program, hit),
        waiting(queue, trail, hit.text),
        queue.count(item) == 1,
        rest == queue.remove(item),
        route(reader, trail.text(item.step)) == Ok::<Option<NodeView>, ErrorView>(Some(node)),
        hit.text != trail.text(item.step),
    ensures
        waiting(rest, trail, hit.text) || below(trail.text(item.step), node.edges, 0, hit.text),
{
    let text = trail.text(item.step);
    let a = choose|a: QueueItem|
        #![trigger queue.count(a)]
        queue.count(a) > 0 && starts_with(trail.text(a.step), hit.text);
    if a == item {
        let n = text.len() as int;
        if hit.text.len() == n {
            assert(hit.text.take(n) =~= hit.text);
        }
        lemma_route_prefix(reader, hit.text, n);
        let j = edge_place(node.edges, hit.text[n])->0;
        assert(node.edges[j].label == hit.text[n]);
        assert(hit.text.take(n + 1) =~= text.push(node.edges[j].label));
        assert(starts_with(text.push(node.edges[j].label), hit.text));
    } else {
        assert(rest.count(a) > 0);
    }
}

/// Where an edge leads.
proof fn lemma_edge_route(reader: ReaderView, text: Seq<char>, node: NodeView, i: int)
    requires
        route(reader, text) == Ok::<Option<NodeView>, ErrorView>(Some(node)),
        0 <= i < node.edges.len(),
        crate::index::node::edges_ascend(node.edges),
    ensures
        route(reader, text.push(node.edges[i].label)) == (match arrive(
            reader.data,
            node.edges[i].child_offset,
            node.edges[i].subtree,
        ) {
            Ok(child) => Ok::<Option<NodeView>, ErrorView>(Some(child)),
            Err(e) => Err(e),
        }),
{
    let longer = text.push(node.edges[i].label);
    assert(longer.drop_last() =~= text);
    let k = edge_place(node.edges, node.edges[i].label)->0;
    assert(node.edges[i].label == node.edges[i].label);
    if k < i {
        assert((node.edges[k].label as u32) < node.edges[i].label as u32);
    } else if i < k {
        assert((node.edges[i].label as u32) < node.edges[k].label as u32);
    }
}

/// New states leave the items of the queue right.
proof fn lemma_states_kept(
    reader: ReaderView,
    program: ProgramView,
    states: Seq<Re>,
    more: Seq<Re>,
    queue: Multiset<QueueItem>,
    trail: Trail,
)
    requires
        states.len() <= more.len(),
        forall|i: int| 0 <= i < states.len() ==> more[i] == states[i],
        forall|item: QueueItem|
            #![trigger queue.count(item)]
            queue.count(item) > 0 ==> item_ok(reader, program, states, trail, item),
    ensures
        forall|item: QueueItem|
            #![trigger queue.count(item)]
            queue.count(item) > 0 ==> item_ok(reader, program, more, trail, item),
{
    assert forall|item: QueueItem|
        #![trigger queue.count(item)]
        queue.count(item) > 0 implies item_ok(reader, program, more, trail, item) by {
        assert(item_ok(reader, program, states, trail, item));
    }
}

/// Adding the item of an edge keeps the queue right and apart.
#[verifier::rlimit(50)]
proof fn lemma_pushed(
    reader: ReaderView,
    program: ProgramView,
    states: Seq<Re>,
    more: Seq<Re>,
    queue: Multiset<QueueItem>,
    larger: Multiset<QueueItem>,
    trail: Trail,
    longer_trail: Trail,
    hits: Seq<HitView>,
    text: Seq<char>,
    edges: Seq<Edge>,
    i: int,
    next: QueueItem,
)
    requires
        states.len() <= more.len(),
        forall|k: int| 0 <= k < states.len() ==> more[k] == states[k],
        forall|item: QueueItem|
            #![trigger queue.count(item)]
            queue.count(item) > 0 ==> item_ok(reader, program, states, trail, item),
        larger == queue.insert(next),
        trail.count() <= longer_trail.count(),
        forall|k: usize| k < trail.count() ==> longer_trail.text(k) == trail.text(k),
        next.step >= trail.count(),
        0 <= i < edges.len(),
        crate::index::node::edges_ascend(edges),
        longer_trail.text(next.step) == text.push(edges[i].label),
        item_ok(reader, program, more, longer_trail, next),
        apart(queue, trail, hits),
        still_apart(queue, trail, hits, text, edges, i),
    ensures
        forall|item: QueueItem|
            #![trigger larger.count(item)]
            larger.count(item) > 0 ==> item_ok(reader, program, more, longer_trail, item),
        apart(larger, longer_trail, hits),
        still_apart(larger, longer_trail, hits, text, edges, i + 1),
{
    let here = text.push(edges[i].label);
    assert(queue.count(next) == 0);
    assert forall|item: QueueItem|
        #![trigger larger.count(item)]
        larger.count(item) > 0 implies item_ok(reader, program, more, longer_trail, item) by {
        if item != next {
            assert(queue.count(item) > 0);
            assert(item_ok(reader, program, states, trail, item));
        }
    }
    assert forall|a: QueueItem|
        #![trigger larger.count(a)]
        larger.count(a) > 0 implies larger.count(a) == 1 && a.step < longer_trail.count() by {
        if a != next {
            assert(queue.count(a) > 0);
        }
    }
    assert forall|a: QueueItem, b: QueueItem|
        #![trigger larger.count(a), larger.count(b)]
        larger.count(a) > 0 && larger.count(b) > 0 && a != b implies !starts_with(
        longer_trail.text(a.step),
        longer_trail.text(b.step),
    ) by {
        let e = edges[i];
        if a == next {
            assert(queue.count(b) > 0);
        } else if b == next {
            assert(queue.count(a) > 0);
        } else {
            assert(queue.count(a) > 0 && queue.count(b) > 0);
        }
    }
    assert forall|a: QueueItem, k: int|
        #![trigger larger.count(a), hits[k]]
        larger.count(a) > 0 && 0 <= k < hits.len() implies !starts_with(
        longer_trail.text(a.step),
        hits[k].text,
    ) by {
        let e = edges[i];
        if a != next {
            assert(queue.count(a) > 0);
        }
    }
    assert forall|j: int, a: QueueItem|
        #![trigger edges[j], larger.count(a)]
        i + 1 <= j < edges.len() && larger.count(a) > 0 implies !starts_with(
        longer_trail.text(a.step),
        text.push(edges[j].label),
    ) && !starts_with(text.push(edges[j].label), longer_trail.text(a.step)) by {
        let there = text.push(edges[j].label);
        if a == next {
            assert((edges[i].label as u32) < edges[j].label as u32);
            if starts_with(here, there) {
                assert(there.take(here.len() as int) =~= there);
                assert(here[text.len() as int] == there[text.len() as int]);
            }
            if starts_with(there, here) {
                assert(here.take(there.len() as int) =~= here);
                assert(here[text.len() as int] == there[text.len() as int]);
            }
        } else {
            assert(queue.count(a) > 0);
        }
    }
}

/// What waited still waits, and what goes through the edge waits with its
/// item.
proof fn lemma_still_waiting(
    queue: Multiset<QueueItem>,
    larger: Multiset<QueueItem>,
    trail: Trail,
    longer_trail: Trail,
    hits: Seq<HitView>,
    text: Seq<char>,
    edges: Seq<Edge>,
    i: int,
    next: QueueItem,
    other: Seq<char>,
)
    requires
        larger == queue.insert(next),
        forall|k: usize| k < trail.count() ==> longer_trail.text(k) == trail.text(k),
        longer_trail.text(next.step) == text.push(edges[i].label),
        apart(queue, trail, hits),
        0 <= i < edges.len(),
    ensures
        waiting(queue, trail, other) ==> waiting(larger, longer_trail, other),
        below(text, edges, i, other) ==> waiting(larger, longer_trail, other) || below(
            text,
            edges,
            i + 1,
            other,
        ),
{
    if waiting(queue, trail, other) {
        let a = choose|a: QueueItem|
            #![trigger queue.count(a)]
            queue.count(a) > 0 && starts_with(trail.text(a.step), other);
        assert(larger.count(a) > 0);
        assert(starts_with(longer_trail.text(a.step), other));
    }
    if below(text, edges, i, other) {
        let j = choose|j: int|
            i <= j < edges.len() && #[trigger] starts_with(text.push(edges[j].label), other);
        if j == i {
            assert(larger.count(next) > 0);
        }
    }
}

/// Nothing that starts with a text after which nothing is left is accepted.
proof fn lemma_dead_below(program: ProgramView, text: Seq<char>, other: Seq<char>)
    requires
        program.wf(),
        state_after(program, text) == Re::Empty,
        starts_with(text, other),
    ensures
        !program.accepts_approx(other),
{
    let rest = other.skip(text.len() as int);
    lemma_derive_string(program.expr, text, program.classes, rest);
    assert(text + rest =~= other) by {
        assert(other.take(text.len() as int) + rest =~= other);
    }
}

/// The texts that have been visited.
spec fn texts_of(seen: Seq<HitView>) -> Seq<Seq<char>> {
    Seq::new(seen.len(), |i: int| seen[i].text)
}

proof fn lemma_may_visit(
    reader: ReaderView,
    program: ProgramView,
    limit: int,
    hits: Seq<HitView>,
    queue: Multiset<QueueItem>,
    trail: Trail,
    seen: Seq<HitView>,
)
    requires
        seen_ok(reader, program, limit, hits, queue, trail, seen),
    ensures
        may_visit(reader, program, seen.len()),
        distinct_live(reader, program, texts_of(seen)),
{
    let texts = texts_of(seen);
    assert forall|i: int, j: int|
        0 <= i < texts.len() && 0 <= j < texts.len() && i != j implies texts[i] != texts[j] by {
        if i < j {
            assert(seen[i].text != seen[j].text);
        } else {
            assert(seen[j].text != seen[i].text);
        }
    }
    assert forall|i: int| 0 <= i < texts.len() implies live(reader, program, #[trigger] texts[i]) by {
        assert(alive(program, seen[i].text));
    }
    assert(distinct_live(reader, program, texts));
}

/// A further text that waits.
proof fn lemma_one_more_text(
    reader: ReaderView,
    program: ProgramView,
    limit: int,
    hits: Seq<HitView>,
    queue: Multiset<QueueItem>,
    trail: Trail,
    seen: Seq<HitView>,
    text: Seq<char>,
)
    requires
        seen_ok(reader, program, limit, hits, queue, trail, seen),
        no_text(seen, text),
        live(reader, program, text),
    ensures
        may_visit(reader, program, seen.len() + 1),
{
    lemma_may_visit(reader, program, limit, hits, queue, trail, seen);
    let texts = texts_of(seen);
    let more = texts.push(text);
    assert forall|i: int, j: int|
        0 <= i < more.len() && 0 <= j < more.len() && i != j implies more[i] != more[j] by {
        if i < texts.len() && j < texts.len() {
            assert(texts[i] != texts[j]);
        } else if i < texts.len() {
            assert(seen[i].text != text);
        } else if j < texts.len() {
            assert(seen[j].text != text);
        }
    }
    assert forall|i: int| 0 <= i < more.len() implies live(reader, program, #[trigger] more[i]) by {
        if i < texts.len() {
            assert(live(reader, program, texts[i]));
        }
    }
    assert(distinct_live(reader, program, more));
}

/// Where an edge leads from a text that leads to a node, there is something.
proof fn lemma_edge_live(reader: ReaderView, program: ProgramView, text: Seq<char>, label: char)
    requires
        edge_at(reader, text, label),
        state_after(program, text.push(label)) != Re::Empty,
    ensures
        live(reader, program, text.push(label)),
{
    let longer = text.push(label);
    assert(longer.drop_last() =~= text);
}

proof fn lemma_may_meet(
    reader: ReaderView,
    program: ProgramView,
    seen: Seq<HitView>,
    states: Seq<Re>,
)
    requires
        states_known(reader, program, seen, states),
    ensures
        may_meet(reader, program, states.len()),
        distinct_states(reader, program, states),
{
    assert forall|i: int| 0 <= i < states.len() implies live_state(
        reader,
        program,
        #[trigger] states[i],
    ) by {
        if states[i] == program.expr {
            let none = Seq::<char>::empty();
            assert(live(reader, program, none));
            assert(state_after(program, none) == program.expr);
        } else {
            let (k, label) = choose|k: int, label: char|
                0 <= k < seen.len() && #[trigger] led_to(
                    reader,
                    program,
                    seen[k].text,
                    label,
                    states[i],
                );
            lemma_edge_live(reader, program, seen[k].text, label);
        }
    }
    assert(distinct_states(reader, program, states));
}

/// A further state behind an edge.
proof fn lemma_one_more_state(
    reader: ReaderView,
    program: ProgramView,
    seen: Seq<HitView>,
    states: Seq<Re>,
    text: Seq<char>,
)
    requires
        states_known(reader, program, seen, states),
        live(reader, program, text),
        !states.contains(state_after(program, text)),
    ensures
        may_meet(reader, program, states.len() + 1),
{
    lemma_may_meet(reader, program, seen, states);
    let next = state_after(program, text);
    let more = states.push(next);
    assert forall|i: int, j: int|
        0 <= i < more.len() && 0 <= j < more.len() && i != j implies more[i] != more[j] by {
        if i < states.len() && j < states.len() {
            assert(states[i] != states[j]);
        }
    }
    assert forall|i: int| 0 <= i < more.len() implies live_state(
        reader,
        program,
        #[trigger] more[i],
    ) by {
        if i < states.len() {
            assert(live_state(reader, program, states[i]));
        } else {
            assert(live(reader, program, text));
        }
    }
    assert(distinct_states(reader, program, more));
}

/// The states are those that the visited texts lead to.
proof fn lemma_meets(
    reader: ReaderView,
    program: ProgramView,
    seen: Seq<HitView>,
    states: Seq<Re>,
)
    requires
        states_known(reader, program, seen, states),
        states_all(reader, program, seen, seen.len() as int, states),
    ensures
        meets(reader, program, texts_of(seen), states.len()),
{
    let texts = texts_of(seen);
    assert forall|state: Re| #[trigger] states.contains(state) implies state == program.expr
        || exists|text: Seq<char>, label: char|
        texts.contains(text) && #[trigger] led_to(reader, program, text, label, state) by {
        let i = choose|i: int| 0 <= i < states.len() && states[i] == state;
        if state != program.expr {
            assert(states[i] == program.expr || exists|k: int, label: char|
                0 <= k < seen.len() && #[trigger] led_to(
                    reader,
                    program,
                    seen[k].text,
                    label,
                    states[i],
                ));
            let (k, label) = choose|k: int, label: char|
                0 <= k < seen.len() && #[trigger] led_to(
                    reader,
                    program,
                    seen[k].text,
                    label,
                    states[i],
                );
            assert(texts[k] == seen[k].text);
            assert(texts.contains(seen[k].text));
        }
    }
    assert forall|state: Re|
        (state == program.expr || exists|text: Seq<char>, label: char|
            texts.contains(text) && #[trigger] led_to(reader, program, text, label, state))
        implies #[trigger] states.contains(state) by {
        if state == program.expr {
            assert(states[0] == state);
        } else {
            let (text, label) = choose|text: Seq<char>, label: char|
                texts.contains(text) && #[trigger] led_to(reader, program, text, label, state);
            let k = choose|k: int| 0 <= k < texts.len() && texts[k] == text;
            assert(seen[k].text == text);
            assert(edge_at(reader, seen[k].text, label));
        }
    }
    assert(meets_exactly(reader, program, texts, states));
}

/// A state that is not known yet makes one more.
proof fn lemma_meets_many(
    reader: ReaderView,
    program: ProgramView,
    seen: Seq<HitView>,
    states: Seq<Re>,
    text: Seq<char>,
    label: char,
)
    requires
        states_known(reader, program, seen, states),
        was_seen(seen, text),
        led_to(reader, program, text, label, state_after(program, text.push(label))),
        !states.contains(state_after(program, text.push(label))),
    ensures
        meets_many(reader, program, texts_of(seen), states.len() + 1),
{
    let texts = texts_of(seen);
    let next = state_after(program, text.push(label));
    let more = states.push(next);
    assert forall|i: int, j: int|
        0 <= i < more.len() && 0 <= j < more.len() && i != j implies more[i] != more[j] by {
        if i < states.len() && j < states.len() {
            assert(states[i] != states[j]);
        }
    }
    assert forall|i: int| 0 <= i < more.len() implies is_met(
        reader,
        program,
        texts,
        #[trigger] more[i],
    ) by {
        if i < states.len() {
            assert(more[i] == states[i]);
            if states[i] != program.expr {
                let (k, c) = choose|k: int, c: char|
                    0 <= k < seen.len() && #[trigger] led_to(
                        reader,
                        program,
                        seen[k].text,
                        c,
                        states[i],
                    );
                assert(texts[k] == seen[k].text);
                assert(texts.contains(seen[k].text));
            }
        } else {
            let k = choose|k: int| 0 <= k < seen.len() && (#[trigger] seen[k]).text == text;
            assert(texts[k] == text);
            assert(texts.contains(text));
        }
    }
    assert(more.no_duplicates());
}

/// One item alone in line.
proof fn lemma_first_item(item: QueueItem)
    ensures
        seq![item].to_multiset() == Multiset::<QueueItem>::empty().insert(item),
{
    broadcast use vstd::seq_lib::group_to_multiset_ensures;

    assert(seq![item] =~= Seq::empty().push(item));
    assert(seq![item].to_multiset() =~= Multiset::empty().insert(item));
}

/// Where what goes first may still be a result, it is to be visited.
proof fn lemma_due(
    reader: ReaderView,
    program: ProgramView,
    options: SearchOptions,
    n: nat,
    hits: Seq<HitView>,
)
    requires
        n < options.max_nodes,
        course_after(reader, program, n).waiting.len() > 0,
        exists|met: nat| stands(reader, program, options, n, hits, met, None),
        next_of(course_after(reader, program, n)).score >= least_score(
            hits,
            options.limit as int,
        ),
    ensures
        due(reader, program, options, n),
        within_states(reader, program, options, n),
{
}

/// The hits after a node are the best of those visited.
proof fn lemma_best_now(
    reader: ReaderView,
    program: ProgramView,
    limit: int,
    hits0: Seq<HitView>,
    hits: Seq<HitView>,
    seen0: Seq<HitView>,
    seen: Seq<HitView>,
    text: Seq<char>,
)
    requires
        best_among(reader, program, limit, texts_of(seen0), hits0),
        sound_hits(reader, program, limit, hits),
        seen.len() == seen0.len() + 1,
        seen.drop_last() == seen0,
        seen.last().text == text,
        forall|i: int|
            0 <= i < hits.len() ==> (#[trigger] hits[i]).text == text || hits0.contains(hits[i]),
        forall|hit: HitView|
            settled(hits0, limit, hit) ==> #[trigger] settled(hits, limit, hit),
        forall|hit: HitView|
            is_hit(reader, program, hit) && hit.text == text ==> #[trigger] settled(
                hits,
                limit,
                hit,
            ),
    ensures
        best_among(reader, program, limit, texts_of(seen), hits),
{
    let texts0 = texts_of(seen0);
    let texts = texts_of(seen);
    assert(texts =~= texts0.push(text)) by {
        assert forall|i: int| 0 <= i < seen0.len() implies seen[i] == seen0[i] by {
            assert(seen.drop_last()[i] == seen0[i]);
        }
    }
    assert(texts[seen0.len() as int] == text);
    assert forall|i: int| 0 <= i < hits.len() implies is_hit(reader, program, #[trigger] hits[i])
        && texts.contains(hits[i].text) by {
        if hits[i].text != text {
            let k = choose|k: int| 0 <= k < hits0.len() && hits0[k] == hits[i];
            assert(texts0.contains(hits0[k].text));
            let m = choose|m: int| 0 <= m < texts0.len() && texts0[m] == hits0[k].text;
            assert(texts[m] == texts0[m]);
        }
    }
    assert forall|hit: HitView|
        is_hit(reader, program, hit) && texts.contains(hit.text) implies #[trigger] settled(
        hits,
        limit,
        hit,
    ) by {
        if hit.text != text {
            let m = choose|m: int| 0 <= m < texts.len() && texts[m] == hit.text;
            assert(texts0[m] == hit.text);
            assert(settled(hits0, limit, hit));
        }
    }
}

/// Where nothing that counts waits, everything that counts has been visited.
proof fn lemma_complete(
    reader: ReaderView,
    program: ProgramView,
    limit: int,
    hits: Seq<HitView>,
    queue: Multiset<QueueItem>,
    trail: Trail,
    seen: Seq<HitView>,
    states: Seq<Re>,
)
    requires
        seen_ok(reader, program, limit, hits, queue, trail, seen),
        all_seen(reader, program, queue, trail, seen),
        states_known(reader, program, seen, states),
        states_all(reader, program, seen, seen.len() as int, states),
        forall|item: QueueItem|
            #![trigger queue.count(item)]
            queue.count(item) > 0 ==> item_ok(reader, program, states, trail, item),
        forall|item: QueueItem|
            #![trigger queue.count(item)]
            queue.count(item) > 0 ==> item.bound < least_score(hits, limit),
    ensures
        extent_is(reader, program, least_score(hits, limit), seen.len(), states.len()),
{
    let least = least_score(hits, limit);
    let texts = texts_of(seen);
    lemma_may_visit(reader, program, limit, hits, queue, trail, seen);
    assert forall|text: Seq<char>| #[trigger] texts.contains(text) <==> (alive(program, text) && (
    route(reader, text) matches Ok(Some(node)) && node.subtree >= least)) by {
        if texts.contains(text) {
            let i = choose|i: int| 0 <= i < texts.len() && texts[i] == text;
            assert(alive(program, seen[i].text));
            assert(seen[i].score >= least);
        }
        if alive(program, text) && (route(reader, text) matches Ok(Some(node)) && node.subtree
            >= least) {
            assert(live(reader, program, text));
            if was_seen(seen, text) {
                let i = choose|i: int| 0 <= i < seen.len() && (#[trigger] seen[i]).text == text;
                assert(texts[i] == text);
            } else {
                let item = choose|item: QueueItem|
                    #![trigger queue.count(item)]
                    queue.count(item) > 0 && starts_with(trail.text(item.step), text);
                assert(item_ok(reader, program, states, trail, item));
                lemma_route_bound(reader, text, trail.text(item.step));
                lemma_arrive_sound(reader.data, item.node_offset, item.bound);
            }
        }
    }
    assert forall|state: Re| #[trigger] states.contains(state) <==> (state == program.expr
        || exists|text: Seq<char>, label: char|
        texts.contains(text) && #[trigger] led_to(reader, program, text, label, state)) by {
        if states.contains(state) && state != program.expr {
            let i = choose|i: int| 0 <= i < states.len() && states[i] == state;
            assert(states[i] == state);
            let (k, label) = choose|k: int, label: char|
                0 <= k < seen.len() && #[trigger] led_to(
                    reader,
                    program,
                    seen[k].text,
                    label,
                    states[i],
                );
            assert(texts[k] == seen[k].text);
            assert(texts.contains(seen[k].text) && led_to(
                reader,
                program,
                seen[k].text,
                label,
                state,
            ));
        }
        if state == program.expr {
            assert(states[0] == state);
        } else if exists|text: Seq<char>, label: char|
            texts.contains(text) && #[trigger] led_to(reader, program, text, label, state) {
            let (text, label) = choose|text: Seq<char>, label: char|
                texts.contains(text) && #[trigger] led_to(reader, program, text, label, state);
            let k = choose|k: int| 0 <= k < texts.len() && texts[k] == text;
            assert(edge_at(reader, seen[k].text, label));
        }
    }
    assert(visits_exactly(reader, program, least, texts));
    assert(meets_exactly(reader, program, texts, states));
    assert(states.len() == states.len());
}

/// A further text that has been visited.
proof fn lemma_seen_more(
    reader: ReaderView,
    program: ProgramView,
    limit: int,
    hits: Seq<HitView>,
    queue: Multiset<QueueItem>,
    rest: Multiset<QueueItem>,
    trail: Trail,
    seen: Seq<HitView>,
    item: QueueItem,
    node: NodeView,
)
    requires
        seen_ok(reader, program, limit, hits, queue, trail, seen),
        queue.count(item) > 0,
        rest == queue.remove(item),
        forall|other: QueueItem| queue.count(other) > 0 ==> goes_first(item, other),
        alive(program, trail.text(item.step)),
        route(reader, trail.text(item.step)) == Ok::<Option<NodeView>, ErrorView>(Some(node)),
        node.subtree == item.bound,
        item.bound >= least_score(hits, limit),
    ensures
        ({
            let more = seen.push(HitView { text: trail.text(item.step), score: node.subtree });
            &&& seen_ok(reader, program, limit, hits, rest, trail, more)
            &&& forall|i: int| 0 <= i < more.len() ==> (#[trigger] more[i]).score >= node.subtree
        }),
{
    let text = trail.text(item.step);
    let more = seen.push(HitView { text, score: node.subtree });
    lemma_item_apart(queue, rest, trail, seen, item);
    assert forall|i: int, j: int| 0 <= i < j < more.len() implies (#[trigger] more[i]).text != (
    #[trigger] more[j]).text by {
        if j < seen.len() {
            assert(seen[i].text != seen[j].text);
        } else {
            assert(seen[i].text != text);
        }
    }
    assert forall|i: int| 0 <= i < more.len() implies alive(program, (#[trigger] more[i]).text) && (
    route(reader, more[i].text) matches Ok(Some(n)) && n.subtree == more[i].score) by {
        if i < seen.len() {
            assert(more[i] == seen[i]);
        }
    }
    assert forall|i: int| 0 <= i < more.len() implies (#[trigger] more[i]).score >= node.subtree by {
        if i < seen.len() {
            assert(queue.count(item) > 0);
            assert(more[i] == seen[i]);
        }
    }
    assert forall|a: QueueItem, i: int|
        #![trigger rest.count(a), more[i]]
        rest.count(a) > 0 && 0 <= i < more.len() implies a.bound <= more[i].score by {
        assert(queue.count(a) > 0);
        assert(goes_first(item, a));
    }
    assert forall|i: int| 0 <= i < more.len() implies (#[trigger] more[i]).score >= least_score(
        hits,
        limit,
    ) by {
        if i < seen.len() {
            assert(more[i] == seen[i]);
        }
    }
    assert forall|a: QueueItem, i: int|
        #![trigger rest.count(a), more[i]]
        rest.count(a) > 0 && 0 <= i < more.len() implies !starts_with(
        trail.text(a.step),
        more[i].text,
    ) by {
        if i < seen.len() {
            assert(more[i] == seen[i]);
        }
    }
    assert(apart(rest, trail, more));
}

proof fn lemma_known_more(
    reader: ReaderView,
    program: ProgramView,
    seen: Seq<HitView>,
    more: Seq<HitView>,
    states: Seq<Re>,
)
    requires
        states_known(reader, program, seen, states),
        seen.len() <= more.len(),
        forall|i: int| 0 <= i < seen.len() ==> more[i] == seen[i],
    ensures
        states_known(reader, program, more, states),
{
    assert forall|i: int| 0 <= i < states.len() implies #[trigger] states[i] == program.expr
        || exists|k: int, label: char|
        0 <= k < more.len() && #[trigger] led_to(
            reader,
            program,
            more[k].text,
            label,
            states[i],
        ) by {
        if states[i] != program.expr {
            let (k, label) = choose|k: int, label: char|
                0 <= k < seen.len() && #[trigger] led_to(
                    reader,
                    program,
                    seen[k].text,
                    label,
                    states[i],
                );
            assert(more[k] == seen[k]);
            assert(led_to(reader, program, more[k].text, label, states[i]));
        }
    }
}

/// The least score that counts is at most that of a hit that was retained.
proof fn lemma_least(hits0: Seq<HitView>, hits1: Seq<HitView>, limit: int, c: HitView)
    requires
        ranked(hits1),
        hits1 == hits0 || hits1.contains(c),
    ensures
        hits1 == hits0 || least_score(hits1, limit) <= c.score,
{
    if hits1 != hits0 {
        let i = choose|i: int| 0 <= i < hits1.len() && hits1[i] == c;
        if 0 < hits1.len() == limit && i < limit - 1 {
            assert(better(hits1[i], hits1[limit - 1]));
        }
    }
}

/// A text that a search may visit, and that the first item of the queue leads
/// to, goes on through one of its edges.
proof fn lemma_live_next(
    reader: ReaderView,
    program: ProgramView,
    queue: Multiset<QueueItem>,
    rest: Multiset<QueueItem>,
    trail: Trail,
    item: QueueItem,
    node: NodeView,
    other: Seq<char>,
)
    requires
        live(reader, program, other),
        waiting(queue, trail, other),
        queue.count(item) == 1,
        rest == queue.remove(item),
        route(reader, trail.text(item.step)) == Ok::<Option<NodeView>, ErrorView>(Some(node)),
        other != trail.text(item.step),
    ensures
        waiting(rest, trail, other) || below(trail.text(item.step), node.edges, 0, other),
{
    let text = trail.text(item.step);
    let a = choose|a: QueueItem|
        #![trigger queue.count(a)]
        queue.count(a) > 0 && starts_with(trail.text(a.step), other);
    if a == item {
        let n = text.len() as int;
        if other.len() == n {
            assert(other.take(n) =~= other);
        }
        let longer = text.push(other[n]);
        assert(other.take(n + 1) =~= longer);
        lemma_route_none(reader, other, n + 1);
        assert(longer.drop_last() =~= text);
        lemma_edge_place(node.edges, other[n]);
        let j = edge_place(node.edges, other[n])->0;
        assert(node.edges[j].label == other[n]);
        assert(starts_with(text.push(node.edges[j].label), other));
    } else {
        assert(rest.count(a) > 0);
    }
}

/// Where a prefix leads nowhere, the text leads nowhere.
proof fn lemma_route_none(reader: ReaderView, text: Seq<char>, n: int)
    requires
        0 <= n <= text.len(),
        route(reader, text) != Ok::<Option<NodeView>, ErrorView>(None),
    ensures
        route(reader, text.take(n)) != Ok::<Option<NodeView>, ErrorView>(None),
    decreases text.len(),
{
    if n < text.len() {
        lemma_route_none(reader, text.drop_last(), n);
        assert(text.drop_last().take(n) =~= text.take(n));
    } else {
        assert(text.take(n) =~= text);
    }
}

proof fn lemma_edge_place(edges: Seq<Edge>, label: char)
    ensures
        edge_place(edges, label) matches Some(j) ==> 0 <= j < edges.len() && edges[j].label
            == label,
{
}

/// Nothing is left behind a text after which nothing is left.
proof fn lemma_dead_text(program: ProgramView, text: Seq<char>, other: Seq<char>)
    requires
        state_after(program, text) == Re::Empty,
        starts_with(text, other),
    ensures
        state_after(program, other) == Re::Empty,
    decreases other.len(),
{
    if other.len() == text.len() {
        assert(other.take(text.len() as int) =~= other);
    } else {
        let init = other.drop_last();
        assert(init.take(text.len() as int) =~= other.take(text.len() as int));
        lemma_dead_text(program, text, init);
    }
}

/// The states after a further step.
proof fn lemma_states_more(
    reader: ReaderView,
    program: ProgramView,
    seen: Seq<HitView>,
    states: Seq<Re>,
    more: Seq<Re>,
    text: Seq<char>,
    label: char,
)
    requires
        states_known(reader, program, seen, states),
        more.no_duplicates(),
        seen.len() > 0,
        seen.last().text == text,
        edge_at(reader, text, label),
        state_after(program, text.push(label)) != Re::Empty,
        more == states || more == states.push(state_after(program, text.push(label))),
    ensures
        states_known(reader, program, seen, more),
{
    let next = state_after(program, text.push(label));
    assert forall|i: int| 0 <= i < more.len() implies #[trigger] more[i] == program.expr || exists|
        k: int,
        l: char,
    |
        0 <= k < seen.len() && #[trigger] led_to(reader, program, seen[k].text, l, more[i]) by {
        if i < states.len() {
            assert(more[i] == states[i]);
            if states[i] != program.expr {
                let (k, l) = choose|k: int, l: char|
                    0 <= k < seen.len() && #[trigger] led_to(
                        reader,
                        program,
                        seen[k].text,
                        l,
                        states[i],
                    );
                assert(led_to(reader, program, seen[k].text, l, more[i]));
            }
        } else {
            let k = seen.len() - 1;
            assert(led_to(reader, program, seen[k].text, label, more[i]));
        }
    }
}

/// What has been visited is in order with a further item that waits.
proof fn lemma_seen_pushed(
    reader: ReaderView,
    program: ProgramView,
    limit: int,
    hits: Seq<HitView>,
    queue: Multiset<QueueItem>,
    larger: Multiset<QueueItem>,
    trail: Trail,
    longer_trail: Trail,
    seen: Seq<HitView>,
    next: QueueItem,
)
    requires
        seen_ok(reader, program, limit, hits, queue, trail, seen),
        larger == queue.insert(next),
        apart(larger, longer_trail, seen),
        forall|i: int| 0 <= i < seen.len() ==> next.bound <= (#[trigger] seen[i]).score,
    ensures
        seen_ok(reader, program, limit, hits, larger, longer_trail, seen),
{
    assert forall|a: QueueItem, i: int|
        #![trigger larger.count(a), seen[i]]
        larger.count(a) > 0 && 0 <= i < seen.len() implies a.bound <= seen[i].score by {
        if a != next {
            assert(queue.count(a) > 0);
        }
    }
}

} // verus!
