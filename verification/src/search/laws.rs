//! What a search of an index that was written finds.
use crate::index::error::ErrorView;
use crate::index::laws::law_find_gives_what_was_pushed;
use crate::index::mode::{mode_fault, IndexMode};
use crate::index::merge::label_count;
use crate::index::model::{exact, is_prefix, lemma_residual_of_all, total, Log};
use crate::index::node::NodeView;
use crate::index::pending::{lemma_total_witness, log_ok};
use crate::index::reader::{
    edge_place, find_from, find_key, follow, open_index, read_node, ReaderView,
};
use crate::index::writer::{key_of, written_index, IndexWriteStats};
use crate::query::expr::Re;
use crate::query::program::ProgramView;
use crate::search::extent::{
    distinct_live, distinct_states, live, live_state, may_meet, may_visit, state_after,
};
use crate::search::hits::{accepted, best_hits, is_hit, lemma_route_is_find, ranked, route, settled};
use crate::search::run::{faulty, reports};
use crate::search::types::{
    HitView, SearchErrorView, SearchOptions, SearchReport, SearchStopReason,
};
use crate::text::lemma_same_code_point;
use vstd::prelude::*;
use vstd::relations::injective_on;
use vstd::set_lib::{
    lemma_int_range, lemma_len_subset, lemma_map_size, lemma_set_disjoint_lens, set_int_range,
};

verus! {

/// The frequency with which a key was pushed: its own count in an index of
/// records; in one of n-grams that of all keys that start with it, where it is
/// kept.
pub open spec fn pushed_score(mode: IndexMode, min: nat, log: Log, text: Seq<char>) -> nat {
    match mode {
        IndexMode::Records => exact(log, key_of(text)),
        IndexMode::Ngrams { window_codepoints } => if total(log, key_of(text)) >= min {
            total(log, key_of(text))
        } else {
            0
        },
    }
}

/// The hits of an index that was written are the keys that were pushed and
/// that the query accepts, each with the frequency of what was pushed.
pub proof fn law_hits_are_what_was_pushed(
    mode: IndexMode,
    min: nat,
    log: Log,
    bytes: Seq<u8>,
    stats: IndexWriteStats,
    reader: ReaderView,
    program: ProgramView,
    hit: HitView,
)
    requires
        written_index(mode, min, log, bytes, stats),
        open_index(bytes) == Ok::<ReaderView, ErrorView>(reader),
        log_ok(log),
        mode_fault(mode) is None,
        mode is Records ==> min == 1,
    ensures
        is_hit(reader, program, hit) <==> {
            &&& hit.text.len() > 0
            &&& hit.score > 0
            &&& accepted(program, hit.text)
            &&& hit.score == pushed_score(mode, min, log, hit.text)
        },
{
    let key = hit.text;
    lemma_same_reader(mode, min, log, bytes, stats, reader);
    if key.len() > 0 {
        law_find_gives_what_was_pushed(mode, min, log, bytes, stats, reader, key);
        match find_key(reader, key) {
            Ok(Some(node)) => {
                lemma_route_is_find(reader, key, node);
            },
            _ => {
                if let Ok(Some(node)) = route(reader, key) {
                    lemma_route_is_find(reader, key, node);
                }
            },
        }
        if mode is Records {
            lemma_residual_of_all(log, key_of(key));
            if total(log, key_of(key)) == 0 {
                lemma_exact_within(log, key_of(key));
            }
        }
    }
}

proof fn lemma_exact_within(log: Log, key: Seq<u32>)
    ensures
        exact(log, key) <= total(log, key),
{
    assert forall|k: Seq<u32>| crate::index::model::is_key(
        key,
        k,
    ) implies crate::index::model::is_prefix(key, k) by {
        assert(k.take(key.len() as int) =~= key);
    }
    crate::index::model::lemma_wsum_mono(
        log,
        |k: Seq<u32>| crate::index::model::is_key(key, k),
        |k: Seq<u32>| crate::index::model::is_prefix(key, k),
    );
}

proof fn lemma_same_reader(
    mode: IndexMode,
    min: nat,
    log: Log,
    bytes: Seq<u8>,
    stats: IndexWriteStats,
    reader: ReaderView,
)
    requires
        written_index(mode, min, log, bytes, stats),
        open_index(bytes) == Ok::<ReaderView, ErrorView>(reader),
        log_ok(log),
        mode_fault(mode) is None,
        mode is Records ==> min == 1,
    ensures
        reader.data == bytes,
        reader.mode == mode,
{
    let t = crate::index::laws::trie_of(mode, min, log, bytes, stats);
    crate::index::laws::lemma_reader_of(mode, min, log, bytes, stats, reader, t);
}

/// A complete search of an index that was written gives the keys that were
/// pushed and that the query accepts, the most frequent first, and among those
/// of one frequency the lesser first: every such key is among the results, or
/// the results are as many as the limit allows and all rank before it.
pub proof fn law_search_gives_the_best_of_what_was_pushed(
    mode: IndexMode,
    min: nat,
    log: Log,
    bytes: Seq<u8>,
    stats: IndexWriteStats,
    reader: ReaderView,
    program: ProgramView,
    limit: int,
    results: Seq<HitView>,
)
    requires
        written_index(mode, min, log, bytes, stats),
        open_index(bytes) == Ok::<ReaderView, ErrorView>(reader),
        log_ok(log),
        mode_fault(mode) is None,
        mode is Records ==> min == 1,
        best_hits(reader, program, limit, results),
    ensures
        ranked(results),
        results.len() <= limit,
        forall|i: int|
            0 <= i < results.len() ==> {
                let hit = #[trigger] results[i];
                &&& hit.text.len() > 0
                &&& accepted(program, hit.text)
                &&& hit.score > 0
                &&& hit.score == pushed_score(mode, min, log, hit.text)
            },
        forall|hit: HitView|
            hit.text.len() > 0 && hit.score > 0 && accepted(program, hit.text) && hit.score
                == pushed_score(mode, min, log, hit.text) ==> #[trigger] settled(
                results,
                limit,
                hit,
            ),
{
    assert forall|i: int| 0 <= i < results.len() implies {
        let hit = #[trigger] results[i];
        &&& hit.text.len() > 0
        &&& accepted(program, hit.text)
        &&& hit.score > 0
        &&& hit.score == pushed_score(mode, min, log, hit.text)
    } by {
        assert(is_hit(reader, program, results[i]));
        law_hits_are_what_was_pushed(mode, min, log, bytes, stats, reader, program, results[i]);
    }
    assert forall|hit: HitView|
        hit.text.len() > 0 && hit.score > 0 && accepted(program, hit.text) && hit.score
            == pushed_score(mode, min, log, hit.text) implies #[trigger] settled(
        results,
        limit,
        hit,
    ) by {
        law_hits_are_what_was_pushed(mode, min, log, bytes, stats, reader, program, hit);
    }
}

proof fn lemma_find_push(data: Seq<u8>, node: NodeView, text: Seq<char>, c: char, n: NodeView)
    requires
        find_from(data, node, text) == Ok::<Option<NodeView>, ErrorView>(Some(n)),
    ensures
        find_from(data, node, text.push(c)) == (match edge_place(n.edges, c) {
            None => Ok::<Option<NodeView>, ErrorView>(None),
            Some(i) => match follow(data, n.edges[i]) {
                Err(e) => Err(e),
                Ok(child) => Ok(Some(child)),
            },
        }),
    decreases text.len(),
{
    let more = text.push(c);
    if text.len() == 0 {
        assert(more[0] == c);
        assert(more.skip(1).len() == 0);
        match edge_place(n.edges, c) {
            None => {},
            Some(i) => match follow(data, n.edges[i]) {
                Err(e) => {},
                Ok(child) => {
                    assert(find_from(data, child, more.skip(1)) == Ok::<
                        Option<NodeView>,
                        ErrorView,
                    >(Some(child)));
                },
            },
        }
    } else {
        assert(more[0] == text[0]);
        assert(more.skip(1) =~= text.skip(1).push(c));
        let i = edge_place(node.edges, text[0])->0;
        let child = follow(data, node.edges[i])->Ok_0;
        lemma_find_push(data, child, text.skip(1), c, n);
    }
}

/// No text leads to a fault in an index that was written.
proof fn lemma_no_fault(
    mode: IndexMode,
    min: nat,
    log: Log,
    bytes: Seq<u8>,
    stats: IndexWriteStats,
    reader: ReaderView,
    text: Seq<char>,
)
    requires
        written_index(mode, min, log, bytes, stats),
        open_index(bytes) == Ok::<ReaderView, ErrorView>(reader),
        log_ok(log),
        mode_fault(mode) is None,
        mode is Records ==> min == 1,
    ensures
        route(reader, text) is Ok,
    decreases text.len(),
{
    lemma_same_reader(mode, min, log, bytes, stats, reader);
    if text.len() > 0 {
        let init = text.drop_last();
        let c = text.last();
        assert(init.push(c) =~= text);
        lemma_no_fault(mode, min, log, bytes, stats, reader, init);
        if let Ok(Some(node)) = route(reader, init) {
            lemma_route_is_find(reader, init, node);
            let root = read_node(reader.data, reader.root_offset)->Ok_0;
            lemma_find_push(reader.data, root, init, c, node);
            law_find_gives_what_was_pushed(mode, min, log, bytes, stats, reader, text);
            if let Some(i) = edge_place(node.edges, c) {
                assert(follow(reader.data, node.edges[i]) is Ok);
            }
        }
    }
}

/// A search of an index that was written meets no fault.
pub proof fn law_search_of_written_index_has_no_fault(
    mode: IndexMode,
    min: nat,
    log: Log,
    bytes: Seq<u8>,
    stats: IndexWriteStats,
    reader: ReaderView,
    e: SearchErrorView,
)
    requires
        written_index(mode, min, log, bytes, stats),
        open_index(bytes) == Ok::<ReaderView, ErrorView>(reader),
        log_ok(log),
        mode_fault(mode) is None,
        mode is Records ==> min == 1,
    ensures
        !faulty(reader, e),
{
    if faulty(reader, e) {
        let fault = e->Index_0;
        let text = choose|text: Seq<char>| #[trigger]
            route(reader, text) == Err::<Option<NodeView>, ErrorView>(fault);
        lemma_no_fault(mode, min, log, bytes, stats, reader, text);
    }
}

/// The non-empty prefixes of one key are no more than its labels.
proof fn lemma_prefixes_of_one(key: Seq<u32>, prefixes: Set<Seq<u32>>)
    requires
        prefixes.finite(),
        forall|p: Seq<u32>| #[trigger] prefixes.contains(p) ==> p.len() > 0 && is_prefix(p, key),
    ensures
        prefixes.len() <= key.len(),
{
    let length = |p: Seq<u32>| p.len() as int;
    let lengths = prefixes.map(length);
    assert(injective_on(length, prefixes)) by {
        assert forall|p: Seq<u32>, q: Seq<u32>|
            prefixes.contains(p) && prefixes.contains(q) && #[trigger] length(p) == #[trigger] length(
                q,
            ) implies p == q by {
            assert(p == key.take(p.len() as int));
            assert(q == key.take(q.len() as int));
        }
    }
    lemma_map_size(prefixes, lengths, length);
    let n = key.len() as int;
    lemma_int_range(1, n + 1);
    assert(lengths.subset_of(set_int_range(1, n + 1))) by {
        assert forall|x: int| lengths.contains(x) implies set_int_range(1, n + 1).contains(x) by {
            let p = choose|p: Seq<u32>| prefixes.contains(p) && length(p) == x;
            assert(prefixes.contains(p));
        }
    }
    lemma_len_subset(lengths, set_int_range(1, n + 1));
}

/// The non-empty prefixes of all keys are no more than their labels.
proof fn lemma_prefixes_of_all(log: Log, prefixes: Set<Seq<u32>>)
    requires
        prefixes.finite(),
        forall|p: Seq<u32>| #[trigger]
            prefixes.contains(p) ==> p.len() > 0 && exists|i: int|
                0 <= i < log.len() && is_prefix(p, (#[trigger] log[i]).0),
    ensures
        prefixes.len() <= label_count(log),
    decreases log.len(),
{
    if log.len() == 0 {
        assert(prefixes =~= Set::empty());
    } else {
        let key = log.last().0;
        let here = prefixes.filter(|p: Seq<u32>| is_prefix(p, key));
        let others = prefixes.difference(here);
        lemma_len_subset(here, prefixes);
        lemma_len_subset(others, prefixes);
        lemma_prefixes_of_one(key, here);
        assert forall|p: Seq<u32>| #[trigger] others.contains(p) implies p.len() > 0 && exists|i: int|
            0 <= i < log.drop_last().len() && is_prefix(p, (#[trigger] log.drop_last()[i]).0) by {
            assert(prefixes.contains(p));
            let i = choose|i: int| 0 <= i < log.len() && is_prefix(p, (#[trigger] log[i]).0);
            if i == log.len() - 1 {
                assert(here.contains(p));
            }
            assert(log.drop_last()[i] == log[i]);
        }
        lemma_prefixes_of_all(log.drop_last(), others);
        lemma_set_disjoint_lens(here, others);
        assert(here + others =~= prefixes);
    }
}

/// Distinct texts that a search of an index that was written may visit are no
/// more than the labels that were pushed, and one.
proof fn lemma_texts_within(
    mode: IndexMode,
    min: nat,
    log: Log,
    bytes: Seq<u8>,
    stats: IndexWriteStats,
    reader: ReaderView,
    program: ProgramView,
    texts: Seq<Seq<char>>,
)
    requires
        written_index(mode, min, log, bytes, stats),
        open_index(bytes) == Ok::<ReaderView, ErrorView>(reader),
        log_ok(log),
        mode_fault(mode) is None,
        mode is Records ==> min == 1,
        min > 0,
        distinct_live(reader, program, texts),
    ensures
        texts.len() <= label_count(log) + 1,
{
    lemma_same_reader(mode, min, log, bytes, stats, reader);
    let all = texts.to_set();
    texts.unique_seq_to_set();
    let none = Seq::<char>::empty();
    let rest = all.remove(none);
    let keys = rest.map(|t: Seq<char>| key_of(t));
    assert(injective_on(|t: Seq<char>| key_of(t), rest)) by {
        assert forall|a: Seq<char>, b: Seq<char>|
            rest.contains(a) && rest.contains(b) && key_of(a) == key_of(b) implies a == b by {
            assert(key_of(a).len() == key_of(b).len());
            assert forall|k: int| 0 <= k < a.len() implies a[k] == b[k] by {
                assert(key_of(a)[k] == key_of(b)[k]);
                lemma_same_code_point(a[k], b[k]);
            }
            assert(a =~= b);
        }
    }
    lemma_map_size(rest, keys, |t: Seq<char>| key_of(t));
    assert forall|p: Seq<u32>| #[trigger] keys.contains(p) implies p.len() > 0 && exists|i: int|
        0 <= i < log.len() && is_prefix(p, (#[trigger] log[i]).0) by {
        let t = choose|t: Seq<char>| rest.contains(t) && key_of(t) == p;
        assert(all.contains(t));
        let k = choose|k: int| 0 <= k < texts.len() && texts[k] == t;
        assert(live(reader, program, texts[k]));
        if t.len() == 0 {
            assert(t =~= none);
        }
        lemma_no_fault(mode, min, log, bytes, stats, reader, t);
        let node = route(reader, t)->Ok_0->0;
        lemma_route_is_find(reader, t, node);
        law_find_gives_what_was_pushed(mode, min, log, bytes, stats, reader, t);
        let i = lemma_total_witness(log, p);
        assert(is_prefix(p, log[i].0));
    }
    lemma_prefixes_of_all(log, keys);
}

/// A search of an index that was written stops at no limit, where the labels
/// that were pushed are fewer than the nodes and the states that it may take:
/// its results are then all there is to find.
pub proof fn law_search_of_small_index_is_complete(
    mode: IndexMode,
    min: nat,
    log: Log,
    bytes: Seq<u8>,
    stats: IndexWriteStats,
    reader: ReaderView,
    program: ProgramView,
    options: SearchOptions,
    report: SearchReport,
)
    requires
        written_index(mode, min, log, bytes, stats),
        open_index(bytes) == Ok::<ReaderView, ErrorView>(reader),
        log_ok(log),
        mode_fault(mode) is None,
        mode is Records ==> min == 1,
        min > 0,
        label_count(log) < options.max_nodes,
        label_count(log) < options.max_states,
        reports(reader, program, options, report),
    ensures
        report.stop_reason is None,
{
    if let Some(SearchStopReason::NodeLimit) = report.stop_reason {
        let n = (options.max_nodes + 1) as nat;
        assert(may_visit(reader, program, n));
        let texts = choose|texts: Seq<Seq<char>>| #[trigger]
            distinct_live(reader, program, texts) && texts.len() == n;
        lemma_texts_within(mode, min, log, bytes, stats, reader, program, texts);
        assert(false);
    }
    if let Some(SearchStopReason::StateLimit) = report.stop_reason {
        let n = (options.max_states + 1) as nat;
        assert(may_meet(reader, program, n));
        let states = choose|states: Seq<Re>| #[trigger]
            distinct_states(reader, program, states) && states.len() == n;
        let texts = Seq::new(
            states.len(),
            |i: int|
                choose|text: Seq<char>| #[trigger]
                    live(reader, program, text) && state_after(program, text) == states[i],
        );
        assert forall|i: int| 0 <= i < texts.len() implies live(
            reader,
            program,
            #[trigger] texts[i],
        ) && state_after(program, texts[i]) == states[i] by {
            assert(live_state(reader, program, states[i]));
        }
        assert forall|i: int, j: int|
            0 <= i < texts.len() && 0 <= j < texts.len() && i != j implies texts[i] != texts[j] by {
            assert(states[i] != states[j]);
            assert(state_after(program, texts[i]) == states[i]);
            assert(state_after(program, texts[j]) == states[j]);
        }
        assert(distinct_live(reader, program, texts));
        lemma_texts_within(mode, min, log, bytes, stats, reader, program, texts);
        assert(false);
    }
}

} // verus!
