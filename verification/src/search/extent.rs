//! How far a search goes: the texts that it has to visit, and the states that
//! it meets on the way.
use crate::index::error::ErrorView;
use crate::index::node::NodeView;
use crate::index::reader::{edge_place, ReaderView};
use crate::query::expr::Re;
use crate::query::program::{derive_string, ProgramView};
use crate::search::hits::route;
use crate::search::types::HitView;
use vstd::prelude::*;

verus! {

/// What is left of the query after a text.
pub open spec fn state_after(program: ProgramView, text: Seq<char>) -> Re {
    derive_string(program.expr, text, program.classes)
}

/// Something is left of the query after the text, or nothing has been read.
pub open spec fn alive(program: ProgramView, text: Seq<char>) -> bool {
    text.len() == 0 || state_after(program, text) != Re::Empty
}

/// The text leads somewhere in the index, and something is left of the query.
pub open spec fn live(reader: ReaderView, program: ProgramView, text: Seq<char>) -> bool {
    alive(program, text) && route(reader, text) != Ok::<Option<NodeView>, ErrorView>(None)
}

/// An edge with the label goes out from where the text leads.
pub open spec fn edge_at(reader: ReaderView, text: Seq<char>, label: char) -> bool {
    route(reader, text) matches Ok(Some(node)) && edge_place(node.edges, label) is Some
}

/// Texts that a search may visit, none of them twice.
pub open spec fn distinct_live(
    reader: ReaderView,
    program: ProgramView,
    texts: Seq<Seq<char>>,
) -> bool {
    &&& texts.no_duplicates()
    &&& forall|i: int| 0 <= i < texts.len() ==> live(reader, program, #[trigger] texts[i])
}

/// What is left of the query after a text that a search may visit.
pub open spec fn live_state(reader: ReaderView, program: ProgramView, state: Re) -> bool {
    exists|text: Seq<char>| #[trigger]
        live(reader, program, text) && state_after(program, text) == state
}

/// States that a search may meet, none of them twice.
pub open spec fn distinct_states(
    reader: ReaderView,
    program: ProgramView,
    states: Seq<Re>,
) -> bool {
    &&& states.no_duplicates()
    &&& forall|i: int| 0 <= i < states.len() ==> live_state(reader, program, #[trigger] states[i])
}

/// The least frequency that counts: that of the last result, where the results
/// are as many as are wanted.
pub open spec fn least_score(results: Seq<HitView>, limit: int) -> u64 {
    if 0 < results.len() == limit {
        results[limit - 1].score
    } else {
        0
    }
}

/// The texts are those after which something is left of the query, and that
/// lead to a node that is frequent enough.
pub open spec fn visits_exactly(
    reader: ReaderView,
    program: ProgramView,
    least: u64,
    texts: Seq<Seq<char>>,
) -> bool {
    &&& texts.no_duplicates()
    &&& forall|text: Seq<char>| #[trigger]
        texts.contains(text) <==> (alive(program, text) && (route(reader, text) matches Ok(
            Some(node),
        ) && node.subtree >= least))
}

/// The state is what is left, and not nothing, behind one of the texts and an
/// edge.
pub open spec fn led_to(
    reader: ReaderView,
    program: ProgramView,
    text: Seq<char>,
    label: char,
    state: Re,
) -> bool {
    edge_at(reader, text, label) && state == state_after(program, text.push(label)) && state
        != Re::Empty
}

/// The states are the query itself and what is left of it behind the texts and
/// one edge more.
pub open spec fn meets_exactly(
    reader: ReaderView,
    program: ProgramView,
    texts: Seq<Seq<char>>,
    states: Seq<Re>,
) -> bool {
    &&& states.no_duplicates()
    &&& forall|state: Re| #[trigger]
        states.contains(state) <==> (state == program.expr || exists|text: Seq<char>, label: char|
            texts.contains(text) && #[trigger] led_to(reader, program, text, label, state))
}

/// A number of distinct texts that a search may visit.
pub open spec fn may_visit(reader: ReaderView, program: ProgramView, n: nat) -> bool {
    exists|texts: Seq<Seq<char>>| #[trigger]
        distinct_live(reader, program, texts) && texts.len() == n
}

/// A number of distinct states that a search may meet.
pub open spec fn may_meet(reader: ReaderView, program: ProgramView, n: nat) -> bool {
    exists|states: Seq<Re>| #[trigger]
        distinct_states(reader, program, states) && states.len() == n
}

/// The numbers of nodes visited and of states met by a search that is complete.
pub open spec fn extent_is(
    reader: ReaderView,
    program: ProgramView,
    least: u64,
    visited: nat,
    met: nat,
) -> bool {
    exists|texts: Seq<Seq<char>>, states: Seq<Re>|
        #![trigger visits_exactly(reader, program, least, texts), states.len()]
        {
            &&& visits_exactly(reader, program, least, texts)
            &&& texts.len() == visited
            &&& meets_exactly(reader, program, texts, states)
            &&& states.len() == met
        }
}

} // verus!
