//! A search has one outcome.
use crate::index::reader::ReaderView;
use crate::ordered::views;
use crate::query::expr::Re;
use crate::query::program::ProgramView;
use crate::search::course::{
    best_among, course_after, due, faults_first, goes_on, is_met, meets, meets_many, next_of,
    reports_end, stopped_by_fault, within_states,
};
use crate::search::extent::{least_score, meets_exactly};
use crate::search::hits::{better, is_hit, lemma_better_order, settled};
use crate::search::run::search_told;
use crate::search::types::{HitView, SearchErrorView, SearchOptions, SearchReport};
use vstd::prelude::*;

verus! {

/// The same hit stands at the same place of both lists, as long as there are
/// any.
proof fn lemma_same_until(
    reader: ReaderView,
    program: ProgramView,
    limit: int,
    texts: Seq<Seq<char>>,
    a: Seq<HitView>,
    b: Seq<HitView>,
    i: int,
)
    requires
        best_among(reader, program, limit, texts, a),
        best_among(reader, program, limit, texts, b),
        0 <= i <= a.len(),
        i <= b.len(),
    ensures
        forall|k: int| 0 <= k < i ==> #[trigger] a[k] == b[k],
    decreases i,
{
    if i > 0 {
        let at = i - 1;
        lemma_same_until(reader, program, limit, texts, a, b, at);
        if a[at] != b[at] {
            let x = a[at];
            let y = b[at];
            assert(is_hit(reader, program, x) && is_hit(reader, program, y));
            assert(x.text != y.text);
            lemma_better_order(x, y, x);
            if better(x, y) {
                lemma_not_missed(reader, program, limit, texts, a, b, at);
            } else {
                lemma_better_order(y, x, y);
                lemma_not_missed(reader, program, limit, texts, b, a, at);
            }
        }
    }
}

/// A hit of one list cannot be better than what the other has in its place.
proof fn lemma_not_missed(
    reader: ReaderView,
    program: ProgramView,
    limit: int,
    texts: Seq<Seq<char>>,
    a: Seq<HitView>,
    b: Seq<HitView>,
    at: int,
)
    requires
        best_among(reader, program, limit, texts, a),
        best_among(reader, program, limit, texts, b),
        0 <= at < a.len(),
        at < b.len(),
        forall|k: int| 0 <= k < at ==> #[trigger] a[k] == b[k],
    ensures
        !better(a[at], b[at]),
{
    let x = a[at];
    let y = b[at];
    if better(x, y) {
        lemma_better_order(x, y, x);
        assert(is_hit(reader, program, x) && texts.contains(x.text));
        assert(settled(b, limit, x));
        if b.contains(x) {
            let j = choose|j: int| 0 <= j < b.len() && b[j] == x;
            if j < at {
                assert(a[j] == b[j]);
                assert(better(a[j], a[at]));
                lemma_better_order(a[j], a[at], x);
            } else if j > at {
                assert(better(b[at], b[j]));
            }
        } else {
            assert(better(b[at], x));
        }
    }
}

/// The best of some texts are only these.
proof fn lemma_best_is_one(
    reader: ReaderView,
    program: ProgramView,
    limit: int,
    texts: Seq<Seq<char>>,
    a: Seq<HitView>,
    b: Seq<HitView>,
)
    requires
        best_among(reader, program, limit, texts, a),
        best_among(reader, program, limit, texts, b),
    ensures
        a == b,
{
    if a.len() < b.len() {
        lemma_no_more(reader, program, limit, texts, a, b);
    } else if b.len() < a.len() {
        lemma_no_more(reader, program, limit, texts, b, a);
    }
    lemma_same_until(reader, program, limit, texts, a, b, a.len() as int);
    assert(a =~= b);
}

proof fn lemma_no_more(
    reader: ReaderView,
    program: ProgramView,
    limit: int,
    texts: Seq<Seq<char>>,
    a: Seq<HitView>,
    b: Seq<HitView>,
)
    requires
        best_among(reader, program, limit, texts, a),
        best_among(reader, program, limit, texts, b),
    ensures
        b.len() <= a.len(),
{
    if a.len() < b.len() {
        let n = a.len() as int;
        lemma_same_until(reader, program, limit, texts, a, b, n);
        let x = b[n];
        assert(is_hit(reader, program, x) && texts.contains(x.text));
        assert(settled(a, limit, x));
        if a.contains(x) {
            let j = choose|j: int| 0 <= j < a.len() && a[j] == x;
            assert(a[j] == b[j]);
            assert(better(b[j], b[n]));
            lemma_better_order(b[j], b[n], x);
        }
    }
}

/// Distinct states that are all among others are no more than these.
proof fn lemma_no_more_states(few: Seq<Re>, many: Seq<Re>)
    requires
        many.no_duplicates(),
        forall|i: int| 0 <= i < many.len() ==> few.contains(#[trigger] many[i]),
    ensures
        many.len() <= few.len(),
{
    few.lemma_cardinality_of_set();
    many.unique_seq_to_set();
    assert(many.to_set().subset_of(few.to_set())) by {
        assert forall|state: Re| many.to_set().contains(state) implies few.to_set().contains(
            state,
        ) by {
            let i = choose|i: int| 0 <= i < many.len() && many[i] == state;
            assert(few.contains(many[i]));
        }
    }
    vstd::seq_lib::seq_to_set_is_finite(few);
    vstd::set_lib::lemma_len_subset(many.to_set(), few.to_set());
}

/// The states that texts lead to are no fewer than any that are among them.
proof fn lemma_states_bound(
    reader: ReaderView,
    program: ProgramView,
    texts: Seq<Seq<char>>,
    n: nat,
    m: nat,
)
    requires
        meets(reader, program, texts, n),
        meets_many(reader, program, texts, m),
    ensures
        m <= n,
{
    let few = choose|states: Seq<Re>| #[trigger]
        meets_exactly(reader, program, texts, states) && states.len() == n;
    let many = choose|states: Seq<Re>|
        {
            &&& #[trigger] states.no_duplicates()
            &&& states.len() == m
            &&& forall|i: int|
                0 <= i < states.len() ==> is_met(reader, program, texts, #[trigger] states[i])
        };
    assert forall|i: int| 0 <= i < many.len() implies few.contains(#[trigger] many[i]) by {
        assert(is_met(reader, program, texts, many[i]));
    }
    lemma_no_more_states(few, many);
}

/// The states that texts lead to have one number.
proof fn lemma_states_are_so_many(
    reader: ReaderView,
    program: ProgramView,
    texts: Seq<Seq<char>>,
    n: nat,
    m: nat,
)
    requires
        meets(reader, program, texts, n),
        meets(reader, program, texts, m),
    ensures
        m == n,
{
    let a = choose|states: Seq<Re>| #[trigger]
        meets_exactly(reader, program, texts, states) && states.len() == n;
    let b = choose|states: Seq<Re>| #[trigger]
        meets_exactly(reader, program, texts, states) && states.len() == m;
    assert forall|i: int| 0 <= i < a.len() implies b.contains(#[trigger] a[i]) by {
        assert(a.contains(a[i]));
    }
    assert forall|i: int| 0 <= i < b.len() implies a.contains(#[trigger] b[i]) by {
        assert(b.contains(b[i]));
    }
    lemma_no_more_states(a, b);
    lemma_no_more_states(b, a);
}

/// A search does not go on from where it has ended.
proof fn lemma_does_not_go_on(
    reader: ReaderView,
    program: ProgramView,
    options: SearchOptions,
    report: SearchReport,
)
    requires
        reports_end(reader, program, options, report),
    ensures
        !(due(reader, program, options, report.visited as nat) && within_states(
            reader,
            program,
            options,
            report.visited as nat,
        )),
{
    let n = report.visited as nat;
    let course = course_after(reader, program, n);
    let results = views(report.results@);
    let limit = options.limit as int;
    if due(reader, program, options, n) && within_states(reader, program, options, n) {
        let other = choose|other: Seq<HitView>| #[trigger]
            best_among(reader, program, limit, course.visited, other) && next_of(course).score
                >= least_score(other, limit);
        lemma_best_is_one(reader, program, limit, course.visited, results, other);
        let met = choose|met: nat|
            met <= options.max_states && #[trigger] meets(reader, program, course.visited, met);
        if meets_many(reader, program, course.visited, (options.max_states + 1) as nat) {
            lemma_states_bound(
                reader,
                program,
                course.visited,
                met,
                (options.max_states + 1) as nat,
            );
        }
    }
}

/// Two searches of one index for one query with the same options end with the
/// same report: the same results in the same order, after as many nodes and
/// states, and for the same reason.
pub proof fn law_search_has_one_outcome(
    reader: ReaderView,
    program: ProgramView,
    options: SearchOptions,
    a: SearchReport,
    b: SearchReport,
)
    requires
        reports_end(reader, program, options, a),
        reports_end(reader, program, options, b),
    ensures
        views(a.results@) == views(b.results@),
        a.visited == b.visited,
        a.derivative_states == b.derivative_states,
        a.truncated == b.truncated,
        a.stop_reason == b.stop_reason,
{
    let n = a.visited as nat;
    let m = b.visited as nat;
    lemma_does_not_go_on(reader, program, options, a);
    lemma_does_not_go_on(reader, program, options, b);
    if n < m {
        assert(goes_on(reader, program, options, n));
    }
    if m < n {
        assert(goes_on(reader, program, options, m));
    }
    let visited = course_after(reader, program, n).visited;
    lemma_best_is_one(
        reader,
        program,
        options.limit as int,
        visited,
        views(a.results@),
        views(b.results@),
    );
    let met = a.derivative_states as nat;
    let also = b.derivative_states as nat;
    if meets(reader, program, visited, met) && meets(reader, program, visited, also) {
        lemma_states_are_so_many(reader, program, visited, met, also);
    }
    let beyond = (options.max_states + 1) as nat;
    if meets_many(reader, program, visited, beyond) {
        if meets(reader, program, visited, met) {
            lemma_states_bound(reader, program, visited, met, beyond);
        }
        if meets(reader, program, visited, also) {
            lemma_states_bound(reader, program, visited, also, beyond);
        }
    }
}

/// A search that comes to a node that cannot be read fails with that fault, and
/// with no other; and it gives no report.
pub proof fn law_fault_is_the_one_outcome(
    reader: ReaderView,
    program: ProgramView,
    options: SearchOptions,
    e: SearchErrorView,
    other: SearchErrorView,
    report: SearchReport,
)
    requires
        stopped_by_fault(reader, program, options, e),
    ensures
        stopped_by_fault(reader, program, options, other) ==> other == e,
        !reports_end(reader, program, options, report),
{
    let n = choose|n: nat| #[trigger] faults_first(reader, program, options, n, e);
    if stopped_by_fault(reader, program, options, other) {
        let m = choose|m: nat| #[trigger] faults_first(reader, program, options, m, other);
        if m < n {
            assert(goes_on(reader, program, options, m));
        }
        if n < m {
            assert(goes_on(reader, program, options, n));
        }
    }
    if reports_end(reader, program, options, report) {
        let m = report.visited as nat;
        lemma_does_not_go_on(reader, program, options, report);
        if m < n {
            assert(goes_on(reader, program, options, m));
        }
        if n < m {
            assert(goes_on(reader, program, options, n));
        }
    }
}

/// Reports do not change how a search ends: where none is answered with `false`,
/// it ends as a search without reports does.
pub proof fn law_reports_do_not_change_the_outcome(
    reader: ReaderView,
    program: ProgramView,
    options: SearchOptions,
    every_node: bool,
    answers: Seq<(SearchReport, bool)>,
    a: SearchReport,
    b: SearchReport,
)
    requires
        search_told(reader, program, options, every_node, answers, Ok(a)),
        forall|i: int| 0 <= i < answers.len() ==> (#[trigger] answers[i]).1,
        reports_end(reader, program, options, b),
    ensures
        views(a.results@) == views(b.results@),
        a.visited == b.visited,
        a.derivative_states == b.derivative_states,
        a.truncated == b.truncated,
        a.stop_reason == b.stop_reason,
{
    if answers.len() > 0 {
        assert(answers[answers.len() - 1].1);
    }
    law_search_has_one_outcome(reader, program, options, a, b);
}

/// A report that is answered with `false` is the last one, and the search ends
/// with it.
pub proof fn law_a_refused_report_ends_the_search(
    reader: ReaderView,
    program: ProgramView,
    options: SearchOptions,
    every_node: bool,
    answers: Seq<(SearchReport, bool)>,
    r: Result<SearchReport, SearchErrorView>,
    i: int,
)
    requires
        search_told(reader, program, options, every_node, answers, r),
        0 <= i < answers.len(),
        !answers[i].1,
    ensures
        i == answers.len() - 1,
        r == Ok::<SearchReport, SearchErrorView>(answers[i].0),
{
}

/// Each report is made after more nodes than the one before, and the search ends
/// after no fewer than the last of them.
pub proof fn law_reports_follow_the_search(
    reader: ReaderView,
    program: ProgramView,
    options: SearchOptions,
    every_node: bool,
    answers: Seq<(SearchReport, bool)>,
    report: SearchReport,
    i: int,
    j: int,
)
    requires
        search_told(reader, program, options, every_node, answers, Ok(report)),
        0 <= i < j < answers.len(),
    ensures
        answers[i].0.visited < answers[j].0.visited <= report.visited,
{
    let last = answers.len() - 1;
    assert(answers[j].0.visited <= answers[last].0.visited);
}

} // verus!
