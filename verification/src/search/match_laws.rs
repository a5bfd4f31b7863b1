//! What a search has to do with matching: its results are the texts that the query
//! matches, with one character for each of its groups.
use crate::chinese::data::DataView;
use crate::chinese::han::all_han;
use crate::index::error::ErrorView;
use crate::index::mode::{mode_fault, IndexMode};
use crate::index::model::Log;
use crate::index::pending::log_ok;
use crate::index::reader::{open_index, ReaderView};
use crate::index::writer::{written_index, IndexWriteStats};
use crate::ordered::views;
use crate::query::grammar::read_query;
use crate::query::groups::lemma_query_groups;
use crate::query::laws::{
    group_free, law_matches_imply_approximate_matches, law_matching_without_groups_is_exact,
};
use crate::query::normal::{lang, Env};
use crate::query::program::ProgramView;
use crate::search::hits::{accepted, best_hits, better, is_hit};
use crate::search::laws::{
    law_search_gives_the_best_of_what_was_pushed, pushed_score,
};
use crate::search::run::reports;
use crate::search::types::{HitView, SearchOptions, SearchReport};
use vstd::prelude::*;

verus! {

/// A program counts its groups: where it has none, its expression has none.
pub open spec fn counts_groups(program: ProgramView) -> bool {
    program.wf() && (program.capture_count == 0 ==> group_free(program.expr))
}

/// The program of a query counts its groups.
pub proof fn law_program_of_a_query_counts_its_groups(
    q: Seq<char>,
    data: DataView,
    program: ProgramView,
)
    requires
        program.wf(),
        read_query(q, data) matches Ok((re, end)) && program.expr == re && program.classes
            == end.classes && program.capture_count == end.groups.len() as u32
            && end.groups.len() <= u32::MAX,
    ensures
        counts_groups(program),
{
    lemma_query_groups(q, data);
}

/// What a search takes for a match is a match: the whole text is made of Han
/// characters and is in the language of the query, where each of its groups, however
/// many, stands for one character throughout.
pub proof fn law_search_accepts_the_matches(program: ProgramView, text: Seq<char>)
    requires
        counts_groups(program),
    ensures
        accepted(program, text) <==> all_han(text) && exists|sigma: Seq<char>|
            sigma.len() == program.capture_count && #[trigger] lang(
                program.expr,
                program.classes,
                Env::Bound(sigma),
            ).contains(text),
        accepted(program, text) <==> program.accepts(text),
{
    if program.accepts(text) {
        law_matches_imply_approximate_matches(program, text);
    }
    if program.capture_count == 0 {
        law_matching_without_groups_is_exact(program, text);
    }
}

/// Every text that a search returns matches the query, also where the search ends
/// early; none is returned twice, and the more frequent stand first.
pub proof fn law_results_match_the_query(
    reader: ReaderView,
    program: ProgramView,
    options: SearchOptions,
    report: SearchReport,
    i: int,
)
    requires
        counts_groups(program),
        reports(reader, program, options, report),
        0 <= i < report.results@.len(),
    ensures
        program.accepts(views(report.results@)[i].text),
        views(report.results@)[i].text.len() > 0,
        views(report.results@)[i].score > 0,
        forall|j: int|
            0 <= j < i ==> {
                let earlier = #[trigger] views(report.results@)[j];
                let later = views(report.results@)[i];
                &&& earlier.text != later.text
                &&& earlier.score >= later.score
            },
{
    let results = views(report.results@);
    assert(is_hit(reader, program, results[i]));
    law_search_accepts_the_matches(program, results[i].text);
    assert forall|j: int| 0 <= j < i implies {
        let earlier = #[trigger] results[j];
        &&& earlier.text != results[i].text
        &&& earlier.score >= results[i].score
    } by {
        assert(better(results[j], results[i]));
        assert(is_hit(reader, program, results[j]));
    }
}

/// A complete search of an index that was written returns exactly the keys that were
/// pushed and that match the query, each with its frequency, as far as the limit
/// allows: every result is such a key, and such a key that is no result is outranked
/// by as many results as the limit.
pub proof fn law_search_finds_the_matches(
    mode: IndexMode,
    min: nat,
    log: Log,
    bytes: Seq<u8>,
    stats: IndexWriteStats,
    reader: ReaderView,
    program: ProgramView,
    limit: int,
    results: Seq<HitView>,
    text: Seq<char>,
)
    requires
        counts_groups(program),
        written_index(mode, min, log, bytes, stats),
        open_index(bytes) == Ok::<ReaderView, ErrorView>(reader),
        log_ok(log),
        mode_fault(mode) is None,
        mode is Records ==> min == 1,
        best_hits(reader, program, limit, results),
        pushed_score(mode, min, log, text) <= u64::MAX,
    ensures
        results.len() <= limit,
        (exists|i: int| 0 <= i < results.len() && (#[trigger] results[i]).text == text)
            ==> program.accepts(text) && text.len() > 0 && pushed_score(mode, min, log, text) > 0,
        program.accepts(text) && text.len() > 0 && pushed_score(mode, min, log, text) > 0
            && results.len() < limit ==> exists|i: int|
            0 <= i < results.len() && (#[trigger] results[i]).text == text,
        forall|i: int|
            0 <= i < results.len() && (#[trigger] results[i]).text == text ==> results[i].score
                == pushed_score(mode, min, log, text),
        program.accepts(text) && text.len() > 0 && pushed_score(mode, min, log, text) > 0 ==> (
        exists|i: int| 0 <= i < results.len() && (#[trigger] results[i]).text == text) || forall|
            i: int,
        |
            0 <= i < results.len() ==> (#[trigger] results[i]).score >= pushed_score(
                mode,
                min,
                log,
                text,
            ),
{
    law_search_gives_the_best_of_what_was_pushed(
        mode,
        min,
        log,
        bytes,
        stats,
        reader,
        program,
        limit,
        results,
    );
    law_search_accepts_the_matches(program, text);
    let score = pushed_score(mode, min, log, text);
    let hit = HitView { text, score: score as u64 };
    if program.accepts(text) && text.len() > 0 && score > 0 {
        assert(crate::search::hits::settled(results, limit, hit));
        if results.contains(hit) {
            let i = choose|i: int| 0 <= i < results.len() && results[i] == hit;
            assert(results[i].text == text);
        }
    }
}

} // verus!
