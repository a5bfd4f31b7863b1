//! Merging the texts of shards.
use crate::index::error::{ErrorView, IndexError};
use crate::index::measure::{
    capped, lemma_everything_before, lemma_nothing_before, lemma_one_line, lemma_size_within,
    shards_size, size_before,
};
use crate::index::mode::IndexMode;
use crate::index::model::Log;
use crate::index::merge::{
    is_least, is_ready, joined_log, lemma_logs_within, lemma_overflow_within, merge_fault,
    merged_index, overflow_met, read_logs, taken_logs, MergeRun,
};
use crate::index::reports::{
    is_end, is_start, lemma_told_all, lemma_told_more, merge_step, merge_told, never_back,
    none_complete, told_so_far, MergeProgress, MergeReports,
};
use crate::index::shard::{
    lemma_sound_records_all, lemma_sound_records_ascend, lemma_sound_records_within, raw_lines,
    read_shard, shard_records, sound_records, split_raw_lines, stops, stops_within, ShardCursor,
};
use crate::index::writer::IndexWriteStats;
use crate::ordered::{lemma_lex_total_order, lex_leq, views};
use crate::teller::{all_told, Teller};
use crate::text::{chars_of, lemma_utf8_size, lemma_utf8_size_push, utf8_size, width_of};
use vstd::prelude::*;
use vstd::string::*;

verus! {

/// A shard with its text.
#[derive(Clone, Debug, PartialEq, Eq)]
pub struct TextShard {
    pub path: String,
    pub text: String,
}

/// What a merge gave.
#[derive(Clone, Debug, PartialEq, Eq)]
pub struct MergeReport {
    pub output_path: String,
    pub shard_count: usize,
    pub min_subtree_count: u64,
    pub index: IndexWriteStats,
}

/// The logs are what the shards hold.
pub open spec fn shards_hold(shards: Seq<TextShard>, mode: IndexMode, logs: Seq<Log>) -> bool {
    &&& logs.len() == shards.len()
    &&& forall|i: int|
        0 <= i < shards.len() ==> read_shard(
            (#[trigger] shards[i]).path@,
            mode,
            raw_lines(shards[i].text@),
        ) == Ok::<Log, ErrorView>(logs[i])
}

/// What can be read of each shard: its records up to the first fault.
pub open spec fn read_parts(shards: Seq<TextShard>, mode: IndexMode) -> Seq<Log> {
    Seq::new(
        shards.len(),
        |i: int| sound_records(shards[i].path@, mode, raw_lines(shards[i].text@)),
    )
}

/// What shards hold that can be read is what can be read of them.
pub proof fn lemma_parts_are_held(shards: Seq<TextShard>, mode: IndexMode, logs: Seq<Log>)
    requires
        shards_hold(shards, mode, logs),
    ensures
        read_parts(shards, mode) == logs,
{
    assert forall|i: int| 0 <= i < shards.len() implies read_parts(shards, mode)[i] == logs[i] by {
        assert(read_shard(shards[i].path@, mode, raw_lines(shards[i].text@)) == Ok::<
            Log,
            ErrorView,
        >(logs[i]));
        lemma_sound_records_all(shards[i].path@, mode, raw_lines(shards[i].text@));
    }
    assert(read_parts(shards, mode) =~= logs);
}

/// The fault of a shard, with what can be read before it, is met no later than that
/// of another: when the shards are opened, where nothing can be read before it, one
/// shard after the other; else when its last record is taken, the least key first
/// and the first shard of several.
pub open spec fn met_no_later(a: Log, i: int, b: Log, j: int) -> bool {
    if a.len() == 0 {
        b.len() > 0 || i <= j
    } else {
        b.len() > 0 && lex_leq::<u32>(a.last().0, b.last().0) && (a.last().0 == b.last().0 ==> i
            <= j)
    }
}

/// The shard cannot be read, for this fault, which is met first.
pub open spec fn is_first_fault(
    shards: Seq<TextShard>,
    mode: IndexMode,
    i: int,
    e: ErrorView,
) -> bool {
    &&& 0 <= i < shards.len()
    &&& read_shard(shards[i].path@, mode, raw_lines(shards[i].text@)) == Err::<Log, ErrorView>(e)
    &&& forall|j: int|
        0 <= j < shards.len() && read_shard(
            (#[trigger] shards[j]).path@,
            mode,
            raw_lines(shards[j].text@),
        ) is Err ==> met_no_later(read_parts(shards, mode)[i], i, read_parts(shards, mode)[j], j)
}

/// The fault is the first one that is met.
pub open spec fn first_fault(shards: Seq<TextShard>, mode: IndexMode, e: ErrorView) -> bool {
    exists|i: int| #[trigger] is_first_fault(shards, mode, i, e)
}

/// The outcome of a merge: an index of what the shards hold; or the fault of
/// the arguments, or the first one of a shard that is met, or that the sums of what
/// can be read are too large.
pub open spec fn merge_outcome(
    shards: Seq<TextShard>,
    mode: IndexMode,
    min: u64,
    r: Result<(Vec<u8>, IndexWriteStats), ErrorView>,
) -> bool {
    match r {
        Ok((bytes, stats)) => {
            &&& merge_fault(mode, min) is None
            &&& exists|logs: Seq<Log>| #[trigger]
                shards_hold(shards, mode, logs) && merged_index(
                    mode,
                    min as nat,
                    joined_log(logs),
                    bytes@,
                    stats,
                )
        },
        Err(e) => match merge_fault(mode, min) {
            Some(fault) => e == fault,
            None => first_fault(shards, mode, e) || overflow_met(
                joined_log(read_parts(shards, mode)),
                e,
            ),
        },
    }
}

/// How many lines of a shard are read before anything is merged: the two of its
/// head, and the first record, if it has one.
pub open spec fn opening_lines(shard: TextShard) -> usize {
    let n = raw_lines(shard.text@).len();
    if n < 3 {
        n as usize
    } else {
        3
    }
}

/// The number of bytes of a line, as far as it can be counted.
fn size_of_line(line: &Vec<char>) -> (r: u64)
    ensures
        r == capped(utf8_size(line@)),
{
    let mut n: u64 = 0;
    let mut i: usize = 0;
    assert(line@.take(0) =~= Seq::empty());
    while i < line.len()
        invariant
            i <= line@.len(),
            n == capped(utf8_size(line@.take(i as int))),
        decreases line.len() - i,
    {
        proof {
            assert(line@.take(i + 1) =~= line@.take(i as int).push(line@[i as int]));
            lemma_utf8_size_push(line@.take(i as int), line@[i as int]);
        }
        let width: usize = width_of(line[i]);
        n = n.saturating_add(width as u64);
        i += 1;
    }
    assert(line@.take(i as int) =~= line@);
    n
}

/// The size of all texts, for reports of progress.
fn sizes_of(shards: &[TextShard]) -> (r: u64)
    ensures
        r == capped(shards_size(shards@)),
{
    let mut all: u64 = 0;
    let mut i: usize = 0;
    assert(shards@.take(0) =~= Seq::empty());
    while i < shards.len()
        invariant
            i <= shards@.len(),
            all == capped(shards_size(shards@.take(i as int))),
        decreases shards.len() - i,
    {
        let size: usize = shards[i].text.as_str().as_bytes().len();
        proof {
            assert(shards@.take(i + 1).drop_last() =~= shards@.take(i as int));
            lemma_utf8_size(shards@[i as int].text@);
        }
        all = all.saturating_add(size as u64);
        i += 1;
    }
    assert(shards@.take(i as int) =~= shards@);
    all
}

/// The shard has been read up to a line.
spec fn fed(cursor: ShardCursor, shard: TextShard, at: usize) -> bool {
    let lines = raw_lines(shard.text@);
    &&& cursor.path() == shard.path@
    &&& at <= lines.len()
    &&& cursor.lines() == lines.take(at as int)
    &&& cursor.ended() ==> at == lines.len() && cursor.taken() == cursor.records().len()
}

/// Each shard has been read up to its line.
spec fn all_fed(cursors: Seq<ShardCursor>, shards: Seq<TextShard>, at: Seq<usize>) -> bool {
    &&& cursors.len() == shards.len() == at.len()
    &&& forall|i: int| 0 <= i < shards.len() ==> fed(#[trigger] cursors[i], shards[i], at[i])
}

/// How much there is left to read of a shard.
spec fn left_of(cursor: ShardCursor, shard: TextShard) -> nat {
    (raw_lines(shard.text@).len() - cursor.lines().len() + if cursor.ended() {
        0int
    } else {
        1int
    }) as nat
}

/// How much there is left to read of the first `n` shards.
spec fn left(cursors: Seq<ShardCursor>, shards: Seq<TextShard>, n: nat) -> nat
    decreases n,
{
    if n == 0 {
        0
    } else {
        left(cursors, shards, (n - 1) as nat) + left_of(cursors[n - 1], shards[n - 1])
    }
}

proof fn lemma_left(a: Seq<ShardCursor>, b: Seq<ShardCursor>, shards: Seq<TextShard>, k: int, n: nat)
    requires
        a.len() == b.len() == shards.len(),
        n <= a.len(),
        0 <= k < a.len(),
        forall|i: int| 0 <= i < a.len() && i != k ==> a[i] == b[i],
        left_of(b[k], shards[k]) < left_of(a[k], shards[k]),
    ensures
        left(b, shards, n) <= left(a, shards, n),
        k < n ==> left(b, shards, n) < left(a, shards, n),
    decreases n,
{
    if n > 0 {
        lemma_left(a, b, shards, k, (n - 1) as nat);
    }
}

/// Reads the next line of a shard, or its end.
fn feed_next(
    run: &mut MergeRun,
    i: usize,
    lines: &Vec<Vec<char>>,
    at: &mut Vec<usize>,
    Ghost(shards): Ghost<Seq<TextShard>>,
) -> (r: Result<u64, IndexError>)
    requires
        old(run).wf(),
        all_fed(old(run).cursors(), shards, old(at)@),
        i < shards.len(),
        views(lines@) == raw_lines(shards[i as int].text@),
        !old(run).cursors()[i as int].ended(),
        old(run).cursors()[i as int].taken() == old(run).cursors()[i as int].records().len(),
    ensures
        match r {
            Ok(n) => {
                let before = old(run).cursors()[i as int];
                let after = final(run).cursors()[i as int];
                let was = size_before(shards, old(at)@, shards.len());
                let is = size_before(shards, final(at)@, shards.len());
                &&& was <= is && n == capped((is - was) as nat)
                &&& after.taken() == before.taken()
                &&& final(run).keys() == old(run).keys()
                &&& joined_log(taken_logs(final(run).cursors())).len() == joined_log(
                    taken_logs(old(run).cursors()),
                ).len()
                &&& forall|k: int|
                    0 <= k < shards.len() && k != i ==> final(at)@[k] == old(at)@[k]
                &&& final(run).wf()
                &&& final(run).mode() == old(run).mode()
                &&& final(run).min() == old(run).min()
                &&& all_fed(final(run).cursors(), shards, final(at)@)
                &&& forall|k: int|
                    0 <= k < shards.len() && k != i ==> final(run).cursors()[k] == old(
                        run).cursors()[k]
                &&& left_of(after, shards[i as int]) < left_of(before, shards[i as int])
                &&& left(final(run).cursors(), shards, shards.len()) < left(
                    old(run).cursors(),
                    shards,
                    shards.len(),
                )
                &&& !is_ready(after) ==> !after.ended() && after.taken() == after.records().len()
                &&& before.lines().len() >= 2 ==> is_ready(after)
            },
            Err(e) => stops(
                shards[i as int].path@,
                old(run).mode(),
                raw_lines(shards[i as int].text@),
                old(run).cursors()[i as int].records(),
                e@,
            ),
        },
{
    let ghost all = run.cursors();
    let ghost whole = raw_lines(shards[i as int].text@);
    let ghost before = all[i as int];
    let ghost places = at@;
    proof {
        run.lemma_wf();
        assert(fed(all[i as int], shards[i as int], at@[i as int]));
        assert(whole.len() == lines@.len());
    }
    let place: usize = at[i];
    if place < lines.len() {
        proof {
            assert(whole[place as int] == lines@[place as int]@);
            assert(whole.take(place as int).push(whole[place as int]) =~= whole.take(place + 1));
        }
        let n: u64 = size_of_line(&lines[place]);
        let line = lines[place].as_slice();
        if let Err(e) = run.feed(i, Some(line)) {
            proof {
                assert(stops_within(
                    shards[i as int].path@,
                    old(run).mode(),
                    before.lines().push(line@),
                    before.records(),
                    e@,
                ));
                let rest = whole.skip(place + 1);
                assert(before.lines().push(line@) + rest =~= whole);
                assert(stops(
                    shards[i as int].path@,
                    old(run).mode(),
                    whole,
                    before.records(),
                    e@,
                ));
            }
            return Err(e);
        }
        at.set(i, place + 1);
        proof {
            lemma_one_line(shards, places, at@, i as int, shards.len());
            let now = run.cursors();
            run.lemma_wf();
            assert(now[i as int].wf());
            now[i as int].lemma_wf();
            assert forall|k: int| 0 <= k < shards.len() implies fed(
                #[trigger] now[k],
                shards[k],
                at@[k],
            ) by {
                if k != i {
                    assert(now[k] == all[k]);
                    assert(at@[k] == places[k]);
                }
            }
            lemma_left(all, now, shards, i as int, shards.len());
        }
        Ok(n)
    } else {
        assert(whole.take(place as int) =~= whole);
        if let Err(e) = run.feed(i, None) {
            return Err(e);
        }
        proof {
            let now = run.cursors();
            assert forall|k: int| 0 <= k < shards.len() implies fed(
                #[trigger] now[k],
                shards[k],
                at@[k],
            ) by {
                if k != i {
                    assert(now[k] == all[k]);
                }
            }
            lemma_left(all, now, shards, i as int, shards.len());
        }
        Ok(0)
    }
}

/// What has been read of the shards is within what can be read of them.
proof fn lemma_read_within(
    cursors: Seq<ShardCursor>,
    shards: Seq<TextShard>,
    at: Seq<usize>,
    mode: IndexMode,
    e: ErrorView,
)
    requires
        forall|i: int|
            0 <= i < cursors.len() ==> (#[trigger] cursors[i]).wf() && cursors[i].mode() == mode,
        all_fed(cursors, shards, at),
        overflow_met(joined_log(read_logs(cursors)), e),
    ensures
        overflow_met(joined_log(read_parts(shards, mode)), e),
{
    let part = read_logs(cursors);
    let logs = read_parts(shards, mode);
    assert forall|i: int| 0 <= i < part.len() implies (#[trigger] part[i]).len() <= logs[i].len()
        && part[i] == logs[i].take(part[i].len() as int) by {
        let c = cursors[i];
        assert(fed(c, shards[i], at[i]));
        assert(c.wf());
        c.lemma_wf();
        lemma_sound_records_within(
            shards[i].path@,
            mode,
            raw_lines(shards[i].text@),
            at[i] as nat,
        );
    }
    lemma_logs_within(part, logs);
    lemma_overflow_within(joined_log(part), joined_log(logs), e);
}

/// What is at hand of a shard that cannot be read comes no later than what can be
/// read of it ends.
proof fn lemma_at_hand(cursor: ShardCursor, shard: TextShard, at: usize, mode: IndexMode)
    requires
        cursor.wf(),
        cursor.mode() == mode,
        fed(cursor, shard, at),
        is_ready(cursor),
        read_shard(shard.path@, mode, raw_lines(shard.text@)) is Err,
    ensures
        ({
            let part = sound_records(shard.path@, mode, raw_lines(shard.text@));
            &&& !cursor.ended()
            &&& cursor.taken() + 1 == cursor.records().len()
            &&& part.len() > 0
            &&& lex_leq::<u32>(cursor.records().last().0, part.last().0)
        }),
{
    let lines = raw_lines(shard.text@);
    let part = sound_records(shard.path@, mode, lines);
    cursor.lemma_wf();
    if cursor.ended() {
        assert(lines.take(at as int) =~= lines);
    }
    lemma_sound_records_within(shard.path@, mode, lines, at as nat);
    lemma_sound_records_ascend(shard.path@, mode, lines);
    let n = cursor.records().len() as int;
    assert(part[n - 1] == cursor.records()[n - 1]);
    if n < part.len() {
        assert(lex_leq::<u32>(part[n - 1].0, part[part.len() - 1].0));
    } else {
        lemma_lex_total_order::<u32>(part.last().0, part.last().0, part.last().0);
    }
}

/// A fault that is met while the shards are opened, one after the other, is the
/// first.
proof fn lemma_fault_at_opening(
    cursors: Seq<ShardCursor>,
    shards: Seq<TextShard>,
    at: Seq<usize>,
    mode: IndexMode,
    i: int,
    e: ErrorView,
)
    requires
        all_fed(cursors, shards, at),
        0 <= i < shards.len(),
        forall|k: int|
            0 <= k < cursors.len() ==> (#[trigger] cursors[k]).wf() && cursors[k].mode() == mode,
        forall|k: int| 0 <= k < i ==> is_ready(#[trigger] cursors[k]),
        cursors[i].records().len() == 0,
        stops(
            shards[i].path@,
            mode,
            raw_lines(shards[i].text@),
            cursors[i].records(),
            e,
        ),
    ensures
        first_fault(shards, mode, e),
{
    let parts = read_parts(shards, mode);
    assert forall|j: int|
        0 <= j < shards.len() && read_shard(
            (#[trigger] shards[j]).path@,
            mode,
            raw_lines(shards[j].text@),
        ) is Err implies met_no_later(parts[i], i, parts[j], j) by {
        if j < i {
            assert(is_ready(cursors[j]));
            assert(fed(cursors[j], shards[j], at[j]));
            lemma_at_hand(cursors[j], shards[j], at[j], mode);
        }
    }
    assert(is_first_fault(shards, mode, i, e));
}

/// A fault that is met behind the least record at hand is the first.
proof fn lemma_fault_behind(
    cursors: Seq<ShardCursor>,
    shards: Seq<TextShard>,
    at: Seq<usize>,
    mode: IndexMode,
    i: int,
    e: ErrorView,
)
    requires
        all_fed(cursors, shards, at),
        0 <= i < shards.len(),
        forall|k: int|
            0 <= k < cursors.len() ==> (#[trigger] cursors[k]).wf() && cursors[k].mode() == mode,
        forall|k: int| 0 <= k < cursors.len() ==> is_ready(#[trigger] cursors[k]),
        cursors[i].records().len() > 0,
        is_least(cursors, i),
        stops(
            shards[i].path@,
            mode,
            raw_lines(shards[i].text@),
            cursors[i].records(),
            e,
        ),
    ensures
        first_fault(shards, mode, e),
{
    let parts = read_parts(shards, mode);
    let key = cursors[i].records().last().0;
    assert forall|j: int|
        0 <= j < shards.len() && read_shard(
            (#[trigger] shards[j]).path@,
            mode,
            raw_lines(shards[j].text@),
        ) is Err implies met_no_later(parts[i], i, parts[j], j) by {
        assert(is_ready(cursors[j]));
        assert(fed(cursors[j], shards[j], at[j]));
        lemma_at_hand(cursors[j], shards[j], at[j], mode);
        let head = cursors[j].records().last().0;
        let last = parts[j].last().0;
        lemma_lex_total_order::<u32>(key, head, last);
        lemma_lex_total_order::<u32>(head, last, head);
        if key == last {
            assert(head == key);
        }
    }
    assert(is_first_fault(shards, mode, i, e));
}

/// What has been read of the shards is no more than there is.
proof fn lemma_places_within(cursors: Seq<ShardCursor>, shards: Seq<TextShard>, at: Seq<usize>)
    requires
        all_fed(cursors, shards, at),
    ensures
        size_before(shards, at, shards.len()) <= shards_size(shards),
{
    assert forall|k: int| 0 <= k < shards.len() implies (#[trigger] at[k]) <= raw_lines(
        shards[k].text@,
    ).len() by {
        assert(fed(cursors[k], shards[k], at[k]));
    }
    lemma_size_within(shards, at, shards.len());
    assert(shards.take(shards.len() as int) =~= shards);
}

/// The fault of the line behind the record that has been taken from a shard, if it
/// has one.
fn fault_behind(
    run: &mut MergeRun,
    shard: usize,
    lines: &Vec<Vec<char>>,
    place: usize,
    Ghost(shards): Ghost<Seq<TextShard>>,
) -> (r: Option<IndexError>)
    requires
        shard < shards.len(),
        old(run).cursors().len() == shards.len(),
        old(run).cursors()[shard as int].wf(),
        fed(old(run).cursors()[shard as int], shards[shard as int], place),
        !old(run).cursors()[shard as int].ended(),
        old(run).cursors()[shard as int].taken() == old(
            run).cursors()[shard as int].records().len(),
        views(lines@) == raw_lines(shards[shard as int].text@),
    ensures
        r matches Some(e) ==> stops(
            shards[shard as int].path@,
            old(run).cursors()[shard as int].mode(),
            raw_lines(shards[shard as int].text@),
            old(run).cursors()[shard as int].records(),
            e@,
        ),
{
    let ghost whole = raw_lines(shards[shard as int].text@);
    let ghost before = run.cursors()[shard as int];
    let ghost mode = before.mode();
    assert(whole.len() == lines@.len());
    if place < lines.len() {
        proof {
            assert(whole[place as int] == lines@[place as int]@);
        }
        let found = run.fault_behind(shard, Some(lines[place].as_slice()));
        proof {
            if found is Some {
                let rest = whole.skip(place + 1);
                assert(before.lines().push(whole[place as int]) + rest =~= whole);
                assert(stops(
                    shards[shard as int].path@,
                    mode,
                    whole,
                    before.records(),
                    found->Some_0@,
                ));
            }
        }
        found
    } else {
        assert(whole.take(place as int) =~= whole);
        run.fault_behind(shard, None)
    }
}

/// Merges sorted shards. Branches below the least count are left out of an
/// index of n-grams, and stay in the counts of what is above them.
#[verifier::rlimit(80)]
pub fn merge_telling<F: FnMut(MergeProgress)>(
    shards: &[TextShard],
    mode: IndexMode,
    min_subtree_count: u64,
    teller: Teller<MergeProgress, F>,
) -> (r: (Result<(Vec<u8>, IndexWriteStats), IndexError>, Teller<MergeProgress, F>))
    requires
        teller.wf(),
        teller.told().len() == 0,
        forall|p: MergeProgress|
            merge_step(shards@, p) ==> call_requires(teller.origin(), (p,)),
    ensures
        merge_outcome(
            shards@,
            mode,
            min_subtree_count,
            match r.0 {
                Ok(made) => Ok(made),
                Err(e) => Err(e@),
            },
        ),
        r.1.wf(),
        r.1.origin() == teller.origin(),
        match r.0 {
            Ok(made) => merge_told(shards@, mode, made.1, r.1.told()),
            Err(_) => never_back(r.1.told()) && none_complete(r.1.told()),
        },
{
    let mut heard = teller;
    let mut paths: Vec<String> = Vec::new();
    let mut lines: Vec<Vec<Vec<char>>> = Vec::new();
    let mut at: Vec<usize> = Vec::new();
    let mut i: usize = 0;
    while i < shards.len()
        invariant
            i <= shards@.len(),
            paths@.len() == i,
            lines@.len() == i,
            at@.len() == i,
            forall|k: int|
                0 <= k < i ==> (#[trigger] paths@[k])@ == shards@[k].path@ && views(lines@[k]@)
                    == raw_lines(shards@[k].text@) && at@[k] == 0,
        decreases shards.len() - i,
    {
        paths.push(shards[i].path.as_str().to_owned());
        let text = chars_of(shards[i].text.as_str());
        lines.push(split_raw_lines(text.as_slice()));
        at.push(0);
        i += 1;
    }
    let mut run = match MergeRun::new(&paths, mode, min_subtree_count) {
        Ok(run) => run,
        Err(e) => {
            return (Err(e), heard);
        },
    };
    let bytes_total: u64 = sizes_of(shards);
    let ghost texts = shards@;
    proof {
        assert forall|k: int| 0 <= k < texts.len() implies fed(
            #[trigger] run.cursors()[k],
            texts[k],
            at@[k],
        ) by {
            assert(paths@[k]@ == shards@[k].path@);
            assert(run.cursors()[k].lines() =~= raw_lines(texts[k].text@).take(0));
        }
        assert forall|k: int| 0 <= k < texts.len() implies views((#[trigger] lines@[k])@)
            == raw_lines(texts[k].text@) by {
            assert(paths@[k]@ == shards@[k].path@);
        }
    }
    let shard_count: usize = shards.len();
    let mut reports = MergeReports::new(bytes_total, shard_count);
    proof {
        assert forall|k: int| 0 <= k < texts.len() implies #[trigger] at@[k] == 0 by {
            assert(paths@[k]@ == shards@[k].path@);
        }
        lemma_nothing_before(texts, at@, texts.len());
    }
    i = 0;
    while i < shards.len()
        invariant
            i <= shards@.len(),
            heard.wf(),
            heard.origin() == teller.origin(),
            heard.told().len() == 0,
            texts == shards@,
            reports.bytes_read == capped(size_before(texts, at@, texts.len())),
            reports.bytes_total == capped(shards_size(texts)),
            reports.shard_count == texts.len(),
            run.wf(),
            run.mode() == mode,
            run.min() == min_subtree_count,
            merge_fault(mode, min_subtree_count) is None,
            all_fed(run.cursors(), texts, at@),
            lines@.len() == texts.len(),
            forall|k: int|
                0 <= k < texts.len() ==> views((#[trigger] lines@[k])@) == raw_lines(
                    texts[k].text@,
                ),
            forall|k: int|
                0 <= k < i ==> is_ready(#[trigger] run.cursors()[k]) && run.cursors()[k].taken()
                    == 0 && at@[k] == opening_lines(texts[k]),
            forall|k: int|
                i <= k < texts.len() ==> (#[trigger] run.cursors()[k]).taken() == 0,
            forall|k: int|
                i <= k < texts.len() ==> !(#[trigger] run.cursors()[k]).ended()
                    && run.cursors()[k].taken() == run.cursors()[k].records().len(),
        decreases shards.len() - i,
    {
        let mut ready = false;
        assert(!run.cursors()[i as int].ended());
        while !ready
            invariant
                i < shards@.len(),
                heard.wf(),
                heard.origin() == teller.origin(),
                heard.told().len() == 0,
                texts == shards@,
                reports.bytes_read == capped(size_before(texts, at@, texts.len())),
            reports.bytes_total == capped(shards_size(texts)),
            reports.shard_count == texts.len(),
                run.wf(),
                run.mode() == mode,
                run.min() == min_subtree_count,
                merge_fault(mode, min_subtree_count) is None,
                all_fed(run.cursors(), texts, at@),
                lines@.len() == texts.len(),
                forall|k: int|
                    0 <= k < texts.len() ==> views((#[trigger] lines@[k])@) == raw_lines(
                        texts[k].text@,
                    ),
                forall|k: int|
                    0 <= k < i ==> is_ready(#[trigger] run.cursors()[k]) && run.cursors()[k].taken()
                        == 0 && at@[k] == opening_lines(texts[k]),
                forall|k: int|
                    i <= k < texts.len() ==> (#[trigger] run.cursors()[k]).taken() == 0,
                forall|k: int|
                    i < k < texts.len() ==> !(#[trigger] run.cursors()[k]).ended()
                        && run.cursors()[k].taken() == run.cursors()[k].records().len(),
                ready ==> is_ready(run.cursors()[i as int]),
                !ready ==> !run.cursors()[i as int].ended() && run.cursors()[i as int].taken()
                    == run.cursors()[i as int].records().len(),
            decreases left(run.cursors(), texts, texts.len()) + if ready {
                0int
            } else {
                1int
            },
        {
            let ghost before = run.cursors();
            let ghost opened_at = at@;
            proof {
                run.lemma_wf();
            }
            assert(views(lines@[i as int]@) == raw_lines(texts[i as int].text@));
            match feed_next(&mut run, i, &lines[i], &mut at, Ghost(texts)) {
                Ok(n) => {
                    reports.read(n);
                },
                Err(e) => {
                    proof {
                        lemma_fault_at_opening(before, texts, opened_at, mode, i as int, e@);
                    }
                    return (Err(e), heard);
                },
            }
            ready = run.is_shard_ready(i);
            proof {
                assert forall|k: int| 0 <= k < i implies is_ready(#[trigger] run.cursors()[k])
                    && run.cursors()[k].taken() == 0 && at@[k] == opening_lines(texts[k]) by {
                    assert(run.cursors()[k] == before[k]);
                }
                assert forall|k: int| i < k < texts.len() implies !(
                #[trigger] run.cursors()[k]).ended() && run.cursors()[k].taken()
                    == run.cursors()[k].records().len() by {
                    assert(run.cursors()[k] == before[k]);
                }
            }
        }
        proof {
            run.lemma_wf();
            let c = run.cursors()[i as int];
            assert(fed(c, texts[i as int], at@[i as int]));
            assert(c.wf());
            c.lemma_wf();
            lemma_record_lines(c.path(), c.lines(), c.lines().len());
            assert(at@[i as int] == opening_lines(texts[i as int]));
        }
        i += 1;
    }
    proof {
        assert(at@ =~= Seq::new(texts.len(), |k: int| opening_lines(texts[k]))) by {
            assert forall|k: int| 0 <= k < texts.len() implies at@[k] == opening_lines(texts[k]) by {
                assert(is_ready(run.cursors()[k]));
            }
        }
        lemma_places_within(run.cursors(), texts, at@);
    }
    let first = reports.report(0, 0);
    assert(is_start(texts, first));
    heard = heard.tell(first);
    proof {
        assert(heard.told() =~= seq![first]);
        assert(told_so_far(texts, heard.told(), reports.bytes_read, 0, 0));
    }
    let mut done = false;
    while !done
        invariant
            texts == shards@,
            shard_count == shards@.len(),
            reports.bytes_read == capped(size_before(texts, at@, texts.len())),
            reports.bytes_total == capped(shards_size(texts)),
            reports.shard_count == texts.len(),
            heard.wf(),
            heard.origin() == teller.origin(),
            forall|p: MergeProgress|
                merge_step(texts, p) ==> call_requires(teller.origin(), (p,)),
            told_so_far(
                texts,
                heard.told(),
                reports.bytes_read,
                joined_log(taken_logs(run.cursors())).len(),
                run.keys(),
            ),
            reports.reported == heard.told().last().bytes_read,
            run.wf(),
            run.mode() == mode,
            run.min() == min_subtree_count,
            merge_fault(mode, min_subtree_count) is None,
            all_fed(run.cursors(), texts, at@),
            lines@.len() == texts.len(),
            forall|k: int|
                0 <= k < texts.len() ==> views((#[trigger] lines@[k])@) == raw_lines(
                    texts[k].text@,
                ),
            forall|k: int| 0 <= k < texts.len() ==> is_ready(#[trigger] run.cursors()[k]),
            done ==> forall|k: int|
                0 <= k < texts.len() ==> (#[trigger] run.cursors()[k]).ended()
                    && run.cursors()[k].taken() == run.cursors()[k].records().len(),
        decreases left(run.cursors(), texts, texts.len()) + if done {
            0int
        } else {
            1int
        },
    {
        let ghost run0 = run;
        let ghost cursors0 = run.cursors();
        let taken = run.take_least();
        match taken {
            Err((shard, e)) => {
                proof {
                    run0.lemma_wf();
                    lemma_read_within(cursors0, texts, at@, mode, e@);
                    assert(fed(cursors0[shard as int], texts[shard as int], at@[shard as int]));
                    assert(cursors0[shard as int].wf());
                    assert(views(lines@[shard as int]@) == raw_lines(texts[shard as int].text@));
                }
                // the line behind a record is read before the record is counted
                match fault_behind(&mut run, shard, &lines[shard], at[shard], Ghost(texts)) {
                    Some(fault) => {
                        proof {
                            lemma_fault_behind(
                                cursors0,
                                texts,
                                at@,
                                mode,
                                shard as int,
                                fault@,
                            );
                        }
                        return (Err(fault), heard);
                    },
                    None => {
                        return (Err(e), heard);
                    },
                }
            },
            Ok(None) => {
                done = true;
            },
            Ok(Some(shard)) => {
                let ghost cursors1 = run.cursors();
                let ghost taken_at = at@;
                proof {
                    assert forall|k: int| 0 <= k < texts.len() implies fed(
                        #[trigger] cursors1[k],
                        texts[k],
                        at@[k],
                    ) by {
                        assert(fed(cursors0[k], texts[k], at@[k]));
                        if k != shard {
                            assert(cursors1[k] == cursors0[k]);
                        }
                    }
                    assert(fed(cursors0[shard as int], texts[shard as int], at@[shard as int]));
                    run0.lemma_wf();
                    assert(cursors0[shard as int].wf());
                    cursors0[shard as int].lemma_wf();
                    lemma_left_same(cursors0, cursors1, texts, texts.len());
                    assert(views(lines@[shard as int]@) == raw_lines(texts[shard as int].text@));
                }
                match feed_next(&mut run, shard, &lines[shard], &mut at, Ghost(texts)) {
                    Ok(n) => {
                        reports.read(n);
                    },
                    Err(e) => {
                        proof {
                            lemma_fault_behind(
                                cursors0,
                                texts,
                                taken_at,
                                mode,
                                shard as int,
                                e@,
                            );
                        }
                        return (Err(e), heard);
                    },
                }
                proof {
                    let now = run.cursors();
                    assert forall|k: int| 0 <= k < texts.len() implies is_ready(
                        #[trigger] now[k],
                    ) by {
                        if k != shard {
                            assert(now[k] == cursors1[k]);
                            assert(cursors1[k] == cursors0[k]);
                            assert(is_ready(cursors0[k]));
                        }
                    }
                }
                let (records, keys): (u64, u64) = run.counts();
                let ghost told = heard.told();
                proof {
                    lemma_places_within(run.cursors(), texts, at@);
                }
                if let Some(event) = reports.report_if_due(records, keys) {
                    proof {
                        assert(merge_step(texts, event));
                        lemma_told_more(texts, told, event, true);
                    }
                    heard = heard.tell(event);
                }
            },
        }
    }
    let (shard_records_read, written): (u64, u64) = run.counts();
    let ghost logs = read_logs(run.cursors());
    proof {
        run.lemma_wf();
        assert forall|k: int| 0 <= k < texts.len() implies read_shard(
            (#[trigger] texts[k]).path@,
            mode,
            raw_lines(texts[k].text@),
        ) == Ok::<Log, ErrorView>(logs[k]) by {
            let c = run.cursors()[k];
            assert(fed(c, texts[k], at@[k]));
            assert(c.wf());
            c.lemma_wf();
            assert(c.ended());
            assert(raw_lines(texts[k].text@).take(at@[k] as int) =~= raw_lines(texts[k].text@));
        }
        assert(shards_hold(texts, mode, logs));
        assert forall|k: int| 0 <= k < texts.len() implies #[trigger] at@[k] == raw_lines(
            texts[k].text@,
        ).len() by {
            assert(fed(run.cursors()[k], texts[k], at@[k]));
            assert(run.cursors()[k].ended());
        }
        lemma_everything_before(texts, at@, texts.len());
        assert(texts.take(texts.len() as int) =~= texts);
        assert(taken_logs(run.cursors()) =~= logs) by {
            assert forall|k: int| 0 <= k < logs.len() implies taken_logs(run.cursors())[k]
                == logs[k] by {
                let c = run.cursors()[k];
                assert(c.taken() == c.records().len());
                assert(c.records().take(c.taken() as int) =~= c.records());
            }
        }
    }
    let unique_keys_written: u64 = MergeReports::keys_in_all(shard_records_read, written);
    let all_read = reports.report(shard_records_read, unique_keys_written);
    let ghost told = heard.told();
    proof {
        assert(merge_step(texts, all_read));
        lemma_told_more(texts, told, all_read, false);
    }
    heard = heard.tell(all_read);
    let ghost run0 = run;
    match run.finish() {
        Err(e) => {
            proof {
                run0.lemma_wf();
                lemma_read_within(run0.cursors(), texts, at@, mode, e@);
                lemma_only_open(told, all_read);
            }
            (Err(e), heard)
        },
        Ok((bytes, stats)) => {
            let end = reports.complete(shard_records_read, unique_keys_written);
            proof {
                assert(shards_hold(texts, mode, logs));
                assert(is_end(texts, mode, stats, all_read, false));
                assert(is_end(texts, mode, stats, end, true));
                lemma_told_all(texts, mode, stats, told, all_read, end);
            }
            heard = heard.tell(end);
            (Ok((bytes, stats)), heard)
        },
    }
}

/// Reports of which none is complete, with one more such.
proof fn lemma_only_open(events: Seq<MergeProgress>, p: MergeProgress)
    requires
        none_complete(events),
        !p.complete,
    ensures
        none_complete(events.push(p)),
{
    assert forall|i: int| 0 <= i < events.push(p).len() implies !(
    #[trigger] events.push(p)[i]).complete by {
        if i < events.len() {
            assert(events.push(p)[i] == events[i]);
        }
    }
}

/// Behind the two lines of its head, each line of a shard is a record.
proof fn lemma_record_lines(path: Seq<char>, lines: Seq<Seq<char>>, n: nat)
    requires
        n <= lines.len(),
        shard_records(path, lines, n) is Ok,
    ensures
        shard_records(path, lines, n)->Ok_0.len() == if n < 2 {
            0
        } else {
            (n - 2) as nat
        },
    decreases n,
{
    if n > 2 {
        lemma_record_lines(path, lines, (n - 1) as nat);
    }
}

proof fn lemma_left_same(a: Seq<ShardCursor>, b: Seq<ShardCursor>, shards: Seq<TextShard>, n: nat)
    requires
        a.len() == b.len() == shards.len(),
        n <= a.len(),
        forall|i: int|
            0 <= i < a.len() ==> (#[trigger] a[i]).lines() == b[i].lines() && a[i].ended()
                == b[i].ended(),
    ensures
        left(b, shards, n) == left(a, shards, n),
    decreases n,
{
    if n > 0 {
        lemma_left_same(a, b, shards, (n - 1) as nat);
        assert(a[n - 1].lines() == b[n - 1].lines());
    }
}

/// Merges sorted shards, with reports of how far it has come.
pub fn merge_text_shards_with_min_count_and_progress<F: FnMut(MergeProgress)>(
    shards: &[TextShard],
    output_path: &str,
    mode: IndexMode,
    min_subtree_count: u64,
    progress: F,
) -> (r: Result<(Vec<u8>, MergeReport), IndexError>)
    requires
        forall|p: MergeProgress| merge_step(shards@, p) ==> call_requires(progress, (p,)),
    ensures
        merge_reported(shards@, output_path@, mode, min_subtree_count, r),
        exists|events: Seq<MergeProgress>| #[trigger]
            all_told(progress, events) && (match r {
                Ok((_, report)) => merge_told(shards@, mode, report.index, events),
                Err(_) => never_back(events) && none_complete(events),
            }),
{
    let shard_count: usize = shards.len();
    let (made, teller) = merge_telling(shards, mode, min_subtree_count, Teller::new(progress));
    proof {
        teller.lemma_told();
    }
    match made {
        Ok((bytes, index)) => Ok(
            (
                bytes,
                MergeReport {
                    output_path: output_path.to_owned(),
                    shard_count,
                    min_subtree_count,
                    index,
                },
            ),
        ),
        Err(e) => Err(e),
    }
}

/// The outcome of a merge, with its report.
pub open spec fn merge_reported(
    shards: Seq<TextShard>,
    output_path: Seq<char>,
    mode: IndexMode,
    min: u64,
    r: Result<(Vec<u8>, MergeReport), IndexError>,
) -> bool {
    match r {
        Ok((bytes, report)) => {
            &&& merge_outcome(shards, mode, min, Ok((bytes, report.index)))
            &&& report.output_path@ == output_path
            &&& report.shard_count == shards.len()
            &&& report.min_subtree_count == min
        },
        Err(e) => merge_outcome(shards, mode, min, Err(e@)),
    }
}

/// Takes a report and does nothing.
fn quiet(_progress: MergeProgress) {
}

/// Merges sorted shards, and leaves out branches below the least count.
pub fn merge_text_shards_with_min_count(
    shards: &[TextShard],
    output_path: &str,
    mode: IndexMode,
    min_subtree_count: u64,
) -> (r: Result<(Vec<u8>, MergeReport), IndexError>)
    ensures
        merge_reported(shards@, output_path@, mode, min_subtree_count, r),
{
    merge_text_shards_with_min_count_and_progress(
        shards,
        output_path,
        mode,
        min_subtree_count,
        quiet,
    )
}

/// Merges sorted shards.
pub fn merge_text_shards(shards: &[TextShard], output_path: &str, mode: IndexMode) -> (r: Result<
    (Vec<u8>, MergeReport),
    IndexError,
>)
    ensures
        merge_reported(shards@, output_path@, mode, 1, r),
{
    merge_text_shards_with_min_count(shards, output_path, mode, 1)
}

} // verus!
