//! The course of a search: what it visits, and in which order.
use crate::index::error::ErrorView;
use crate::index::node::{Edge, NodeView};
use crate::index::reader::ReaderView;
use crate::ordered::views;
use crate::query::expr::Re;
use crate::query::program::ProgramView;
use crate::search::extent::{least_score, led_to, meets_exactly, state_after};
use crate::search::hits::{is_hit, ranked, route, settled};
use crate::search::types::{
    HitView, SearchErrorView, SearchOptions, SearchReport, SearchStopReason,
};
use vstd::prelude::*;

verus! {

/// How far a search has come: the texts visited, one after the other, and those
/// that wait, each with the frequency of its node, in the order in which they
/// came.
pub struct Course {
    pub visited: Seq<Seq<char>>,
    pub waiting: Seq<HitView>,
}

/// Nothing is more frequent than what waits at this place, and nothing as
/// frequent came before it.
pub open spec fn is_first(waiting: Seq<HitView>, place: int) -> bool {
    &&& 0 <= place < waiting.len()
    &&& forall|j: int|
        0 <= j < waiting.len() ==> (#[trigger] waiting[j]).score <= waiting[place].score && (j
            < place ==> waiting[j].score < waiting[place].score)
}

/// The place of what is visited next.
pub open spec fn first_place(waiting: Seq<HitView>) -> int {
    choose|place: int| is_first(waiting, place)
}

/// What is visited next.
pub open spec fn next_of(course: Course) -> HitView {
    course.waiting[first_place(course.waiting)]
}

/// What comes to wait behind a text: one label more along each edge, where that
/// leaves something of the query.
pub open spec fn behind(program: ProgramView, text: Seq<char>, edges: Seq<Edge>) -> Seq<HitView>
    decreases edges.len(),
{
    if edges.len() == 0 {
        Seq::empty()
    } else {
        let before = behind(program, text, edges.drop_last());
        let longer = text.push(edges.last().label);
        if state_after(program, longer) == Re::Empty {
            before
        } else {
            before.push(HitView { text: longer, score: edges.last().subtree })
        }
    }
}

/// The search one node further.
pub open spec fn visit(reader: ReaderView, program: ProgramView, course: Course) -> Course {
    let text = next_of(course).text;
    Course {
        visited: course.visited.push(text),
        waiting: course.waiting.remove(first_place(course.waiting)) + match route(reader, text) {
            Ok(Some(node)) => behind(program, text, node.edges),
            _ => Seq::empty(),
        },
    }
}

/// The search after so many nodes.
pub open spec fn course_after(reader: ReaderView, program: ProgramView, n: nat) -> Course
    decreases n,
{
    if n == 0 {
        Course {
            visited: Seq::empty(),
            waiting: seq![HitView { text: Seq::empty(), score: reader.root_subtree }],
        }
    } else {
        visit(reader, program, course_after(reader, program, (n - 1) as nat))
    }
}

/// The results are the best of the hits among the texts, by rank, as many as
/// the limit allows.
pub open spec fn best_among(
    reader: ReaderView,
    program: ProgramView,
    limit: int,
    texts: Seq<Seq<char>>,
    results: Seq<HitView>,
) -> bool {
    &&& results.len() <= limit
    &&& ranked(results)
    &&& forall|i: int|
        0 <= i < results.len() ==> is_hit(reader, program, #[trigger] results[i])
            && texts.contains(results[i].text)
    &&& forall|hit: HitView|
        is_hit(reader, program, hit) && texts.contains(hit.text) ==> #[trigger] settled(
            results,
            limit,
            hit,
        )
}

/// What waits next may still be among the results.
pub open spec fn may_matter(
    reader: ReaderView,
    program: ProgramView,
    limit: int,
    course: Course,
) -> bool {
    exists|results: Seq<HitView>| #[trigger]
        best_among(reader, program, limit, course.visited, results) && next_of(course).score
            >= least_score(results, limit)
}

/// After so many nodes another is to be visited.
pub open spec fn due(
    reader: ReaderView,
    program: ProgramView,
    options: SearchOptions,
    n: nat,
) -> bool {
    let course = course_after(reader, program, n);
    &&& n < options.max_nodes
    &&& course.waiting.len() > 0
    &&& may_matter(reader, program, options.limit as int, course)
}

/// What the texts lead to by one edge, and the query itself, are so many states.
pub open spec fn meets(
    reader: ReaderView,
    program: ProgramView,
    texts: Seq<Seq<char>>,
    n: nat,
) -> bool {
    exists|states: Seq<Re>| #[trigger]
        meets_exactly(reader, program, texts, states) && states.len() == n
}

/// The state is the query itself, or what is left of it behind one of the texts
/// and an edge.
pub open spec fn is_met(
    reader: ReaderView,
    program: ProgramView,
    texts: Seq<Seq<char>>,
    state: Re,
) -> bool {
    state == program.expr || exists|text: Seq<char>, label: char|
        texts.contains(text) && #[trigger] led_to(reader, program, text, label, state)
}

/// There are so many states, or more, that the texts lead to by one edge.
pub open spec fn meets_many(
    reader: ReaderView,
    program: ProgramView,
    texts: Seq<Seq<char>>,
    n: nat,
) -> bool {
    exists|states: Seq<Re>|
        {
            &&& #[trigger] states.no_duplicates()
            &&& states.len() == n
            &&& forall|i: int|
                0 <= i < states.len() ==> is_met(reader, program, texts, #[trigger] states[i])
        }
}

/// After so many nodes the search has met no more states than it may.
pub open spec fn within_states(
    reader: ReaderView,
    program: ProgramView,
    options: SearchOptions,
    n: nat,
) -> bool {
    exists|met: nat|
        met <= options.max_states && #[trigger] meets(
            reader,
            program,
            course_after(reader, program, n).visited,
            met,
        )
}

/// The search goes on from its `n`th node to the next, which can be read.
pub open spec fn goes_on(
    reader: ReaderView,
    program: ProgramView,
    options: SearchOptions,
    n: nat,
) -> bool {
    &&& due(reader, program, options, n)
    &&& within_states(reader, program, options, n)
    &&& route(reader, next_of(course_after(reader, program, n)).text) is Ok
}

/// The search comes to its `n`th node.
pub open spec fn comes_to(
    reader: ReaderView,
    program: ProgramView,
    options: SearchOptions,
    n: nat,
) -> bool {
    forall|k: nat| k < n ==> #[trigger] goes_on(reader, program, options, k)
}

/// A search that has come to its `n`th node has these hits, the best of what
/// was found there, and has met so many states. Where it has stopped, it has
/// come to a limit: there is one more node to visit, or one more state.
pub open spec fn stands(
    reader: ReaderView,
    program: ProgramView,
    options: SearchOptions,
    n: nat,
    hits: Seq<HitView>,
    met: nat,
    stop: Option<SearchStopReason>,
) -> bool {
    let course = course_after(reader, program, n);
    &&& comes_to(reader, program, options, n)
    &&& best_among(reader, program, options.limit as int, course.visited, hits)
    &&& met <= options.max_states
    &&& match stop {
        None => meets(reader, program, course.visited, met),
        Some(SearchStopReason::NodeLimit) => {
            &&& meets(reader, program, course.visited, met)
            &&& n == options.max_nodes
            &&& course.waiting.len() > 0
        },
        Some(SearchStopReason::StateLimit) => {
            &&& n > 0
            &&& met == options.max_states
            &&& meets_many(reader, program, course.visited, (options.max_states + 1) as nat)
        },
    }
}

/// The search has come to its end: nothing waits, or nothing that may still be
/// among the results.
pub open spec fn at_end(
    reader: ReaderView,
    program: ProgramView,
    options: SearchOptions,
    n: nat,
    hits: Seq<HitView>,
) -> bool {
    let course = course_after(reader, program, n);
    course.waiting.len() == 0 || (n < options.max_nodes && next_of(course).score < least_score(
        hits,
        options.limit as int,
    ))
}

/// What a report says of a search is how it stands.
pub open spec fn reports_course(
    reader: ReaderView,
    program: ProgramView,
    options: SearchOptions,
    report: SearchReport,
) -> bool {
    &&& report.truncated == (report.stop_reason is Some)
    &&& stands(
        reader,
        program,
        options,
        report.visited as nat,
        views(report.results@),
        report.derivative_states as nat,
        report.stop_reason,
    )
}

/// What a report says is how the search stands at its end, or at a limit.
pub open spec fn reports_end(
    reader: ReaderView,
    program: ProgramView,
    options: SearchOptions,
    report: SearchReport,
) -> bool {
    &&& reports_course(reader, program, options, report)
    &&& report.stop_reason is None ==> at_end(
        reader,
        program,
        options,
        report.visited as nat,
        views(report.results@),
    )
}

/// The next node after so many cannot be read, for this fault.
pub open spec fn faults_at(
    reader: ReaderView,
    program: ProgramView,
    n: nat,
    e: SearchErrorView,
) -> bool {
    e matches SearchErrorView::Index(fault) && route(
        reader,
        next_of(course_after(reader, program, n)).text,
    ) == Err::<Option<NodeView>, ErrorView>(fault)
}

/// The search comes to its `n`th node, and the next one cannot be read.
pub open spec fn faults_first(
    reader: ReaderView,
    program: ProgramView,
    options: SearchOptions,
    n: nat,
    e: SearchErrorView,
) -> bool {
    &&& comes_to(reader, program, options, n)
    &&& due(reader, program, options, n)
    &&& within_states(reader, program, options, n)
    &&& faults_at(reader, program, n, e)
}

/// The search has come to a node that cannot be read.
pub open spec fn stopped_by_fault(
    reader: ReaderView,
    program: ProgramView,
    options: SearchOptions,
    e: SearchErrorView,
) -> bool {
    exists|n: nat| #[trigger] faults_first(reader, program, options, n, e)
}

} // verus!
