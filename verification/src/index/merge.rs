//! Merging sorted shards into an index.
use crate::index::error::{ErrorView, IndexError};
use crate::index::mode::{mode_fault, IndexMode};
use crate::index::model::{
    exact, is_key, is_prefix, key_too_frequent, lemma_wsum_at_least, lemma_wsum_push, total, wsum,
    Log,
};
use crate::index::pending::{log_ok, scalars};
use crate::index::shard::{shard_records, stops, stops_within, strictly_ascending, ShardCursor};
use crate::index::writer::{
    distinct_keys, distinct_prefixes, last_key, lemma_shared, push_fault, writer_fault, written_index,
    IndexWriteStats, TrieWriter,
};
use crate::ordered::{lemma_lex_total_order, lex_leq, slice_is_leq};
use vstd::prelude::*;
use vstd::string::*;

verus! {

/// How many bytes are read between two reports of progress.
pub const MERGE_PROGRESS_STEP: u64 = 1048576;

/// Two logs give the same sums, whatever keys are summed.
pub open spec fn same_sums(a: Log, b: Log) -> bool {
    forall|f: spec_fn(Seq<u32>) -> bool| #[trigger] wsum(a, f) == wsum(b, f)
}

/// One log after the other.
pub open spec fn joined_log(logs: Seq<Log>) -> Log
    decreases logs.len(),
{
    if logs.len() == 0 {
        Seq::empty()
    } else {
        joined_log(logs.drop_last()) + logs.last()
    }
}

/// The number of labels of all keys.
pub open spec fn label_count(log: Log) -> nat
    decreases log.len(),
{
    if log.len() == 0 {
        0
    } else {
        label_count(log.drop_last()) + log.last().0.len()
    }
}

pub proof fn lemma_wsum_append(a: Log, b: Log, f: spec_fn(Seq<u32>) -> bool)
    ensures
        wsum(a + b, f) == wsum(a, f) + wsum(b, f),
    decreases b.len(),
{
    if b.len() == 0 {
        assert(a + b =~= a);
    } else {
        lemma_wsum_append(a, b.drop_last(), f);
        assert((a + b).drop_last() =~= a + b.drop_last());
        assert((a + b).last() == b.last());
    }
}

pub proof fn lemma_label_append(a: Log, b: Log)
    ensures
        label_count(a + b) == label_count(a) + label_count(b),
    decreases b.len(),
{
    if b.len() == 0 {
        assert(a + b =~= a);
    } else {
        lemma_label_append(a, b.drop_last());
        assert((a + b).drop_last() =~= a + b.drop_last());
        assert((a + b).last() == b.last());
    }
}

pub proof fn lemma_label_push(log: Log, key: Seq<u32>, count: u64)
    ensures
        label_count(log.push((key, count))) == label_count(log) + key.len(),
{
    assert(log.push((key, count)).drop_last() =~= log);
}

/// Adding a record to one of the logs adds it to all of them together.
proof fn lemma_joined_push(
    logs: Seq<Log>,
    i: int,
    key: Seq<u32>,
    count: u64,
    f: spec_fn(Seq<u32>) -> bool,
)
    requires
        0 <= i < logs.len(),
    ensures
        wsum(joined_log(logs.update(i, logs[i].push((key, count)))), f) == wsum(
            joined_log(logs),
            f,
        ) + if f(key) {
            count as nat
        } else {
            0
        },
        label_count(joined_log(logs.update(i, logs[i].push((key, count))))) == label_count(
            joined_log(logs),
        ) + key.len(),
        joined_log(logs.update(i, logs[i].push((key, count)))).len() == joined_log(logs).len() + 1,
    decreases logs.len(),
{
    let more = logs.update(i, logs[i].push((key, count)));
    lemma_wsum_append(joined_log(more.drop_last()), more.last(), f);
    lemma_wsum_append(joined_log(logs.drop_last()), logs.last(), f);
    lemma_label_append(joined_log(more.drop_last()), more.last());
    lemma_label_append(joined_log(logs.drop_last()), logs.last());
    if i == logs.len() - 1 {
        assert(more.drop_last() =~= logs.drop_last());
        lemma_wsum_push(logs[i], key, count, f);
        lemma_label_push(logs[i], key, count);
    } else {
        assert(more.drop_last() =~= logs.drop_last().update(
            i,
            logs.drop_last()[i].push((key, count)),
        ));
        lemma_joined_push(logs.drop_last(), i, key, count, f);
    }
}

/// Records whose keys have labels are no more than the labels.
pub proof fn lemma_records_within(log: Log)
    requires
        log_ok(log),
    ensures
        log.len() <= label_count(log),
    decreases log.len(),
{
    if log.len() > 0 {
        let init = log.drop_last();
        assert forall|i: int| 0 <= i < init.len() implies {
            &&& (#[trigger] init[i]).0.len() > 0
            &&& 0 < init[i].1 <= i64::MAX
            &&& scalars(init[i].0)
        } by {
            assert(init[i] == log[i]);
        }
        lemma_records_within(init);
        assert(log[log.len() - 1].0.len() > 0);
    }
}

/// The logs are sound where each is.
proof fn lemma_joined_ok(logs: Seq<Log>)
    requires
        forall|i: int| 0 <= i < logs.len() ==> log_ok(#[trigger] logs[i]),
    ensures
        log_ok(joined_log(logs)),
    decreases logs.len(),
{
    if logs.len() > 0 {
        assert forall|i: int| 0 <= i < logs.drop_last().len() implies log_ok(
            #[trigger] logs.drop_last()[i],
        ) by {
            assert(logs.drop_last()[i] == logs[i]);
        }
        lemma_joined_ok(logs.drop_last());
        let a = joined_log(logs.drop_last());
        let b = logs[logs.len() - 1];
        assert(log_ok(b));
        let all = joined_log(logs);
        assert forall|i: int| 0 <= i < all.len() implies {
            &&& (#[trigger] all[i]).0.len() > 0
            &&& 0 < all[i].1 <= i64::MAX
            &&& scalars(all[i].0)
        } by {
            if i < a.len() {
                assert(all[i] == a[i]);
            } else {
                assert(all[i] == b[i - a.len()]);
            }
        }
    }
}

/// A log has no more prefixes than labels.
proof fn lemma_prefixes_within(log: Log)
    ensures
        distinct_prefixes(log) <= label_count(log),
    decreases log.len(),
{
    if log.len() > 0 {
        lemma_prefixes_within(log.drop_last());
        lemma_shared(last_key(log.drop_last()), log.last().0);
    }
}

/// Why shards cannot be merged, if they cannot.
pub open spec fn merge_fault(mode: IndexMode, min: u64) -> Option<ErrorView> {
    writer_fault(Seq::empty(), mode, min)
}

/// The sums are too large for an index: of the counts, or of the labels.
pub open spec fn too_large(log: Log) -> bool {
    total(log, Seq::empty()) > i64::MAX || label_count(log) > u64::MAX
}

/// The sums cannot even be counted: of the counts, or of the labels.
pub open spec fn uncountable(log: Log) -> bool {
    total(log, Seq::empty()) > u64::MAX || label_count(log) > u64::MAX
}

/// What is said of a log whose sums are too large: that a key is too frequent, or
/// a prefix, as long as the sums can be counted.
pub open spec fn overflow_met(log: Log, e: ErrorView) -> bool {
    &&& too_large(log)
    &&& e is Overflow
    &&& {
        ||| e == ErrorView::Overflow("subtree frequency"@)
        ||| e == ErrorView::Overflow("merged frequency"@) && key_too_frequent(log)
        ||| uncountable(log)
    }
}

/// What is said of a log can be said of one with larger sums.
pub proof fn lemma_overflow_within(a: Log, b: Log, e: ErrorView)
    requires
        overflow_met(a, e),
        label_count(a) <= label_count(b),
        forall|f: spec_fn(Seq<u32>) -> bool| #[trigger] wsum(a, f) <= wsum(b, f),
    ensures
        overflow_met(b, e),
{
    lemma_total_within(a, b);
    if key_too_frequent(a) {
        let key = choose|key: Seq<u32>| #[trigger] exact(a, key) > i64::MAX;
        let f = |k: Seq<u32>| is_key(key, k);
        assert(wsum(a, f) <= wsum(b, f));
        assert(exact(b, key) > i64::MAX);
    }
}

/// A merge under way.
pub struct MergeRun {
    cursors: Vec<ShardCursor>,
    writer: TrieWriter,
    pending: Option<(Vec<u32>, u64)>,
    records_read: u64,
    keys_written: u64,
}

/// The records that have been taken from each shard.
pub open spec fn taken_logs(cursors: Seq<ShardCursor>) -> Seq<Log> {
    Seq::new(cursors.len(), |i: int| cursors[i].records().take(cursors[i].taken() as int))
}

/// The records that have been read of each shard.
pub open spec fn read_logs(cursors: Seq<ShardCursor>) -> Seq<Log> {
    Seq::new(cursors.len(), |i: int| cursors[i].records())
}

/// The log with the pending record.
pub open spec fn with_pending(log: Log, pending: Option<(Seq<u32>, u64)>) -> Log {
    match pending {
        Some((key, count)) => log.push((key, count)),
        None => log,
    }
}

/// A shard has its next record at hand, or has none left.
pub open spec fn is_ready(cursor: ShardCursor) -> bool {
    cursor.ended() || cursor.taken() + 1 == cursor.records().len()
}

/// No shard has a lesser key at hand, and none before this one the same.
pub open spec fn is_least(cursors: Seq<ShardCursor>, i: int) -> bool {
    forall|k: int|
        0 <= k < cursors.len() && (#[trigger] cursors[k]).taken() + 1 == cursors[k].records().len()
            ==> lex_leq::<u32>(cursors[i].records().last().0, cursors[k].records().last().0) && (
        cursors[i].records().last().0 == cursors[k].records().last().0 ==> i <= k)
}

/// The record at hand of a shard has been taken.
pub open spec fn just_taken(before: ShardCursor, after: ShardCursor) -> bool {
    &&& after.wf()
    &&& after.path() == before.path()
    &&& after.mode() == before.mode()
    &&& after.lines() == before.lines()
    &&& after.records() == before.records()
    &&& after.ended() == before.ended()
    &&& after.taken() == before.records().len()
}

/// What a shard has at hand does not come before the last key taken, nor will
/// what it has next.
spec fn keeps_order(cursor: ShardCursor, last: Seq<u32>) -> bool {
    if cursor.taken() + 1 == cursor.records().len() {
        lex_leq::<u32>(last, cursor.records().last().0)
    } else {
        cursor.ended() || (cursor.records().len() > 0 && cursor.records().last().0 == last)
    }
}

impl MergeRun {
    pub closed spec fn cursors(&self) -> Seq<ShardCursor> {
        self.cursors@
    }

    pub closed spec fn mode(&self) -> IndexMode {
        self.writer.mode()
    }

    pub closed spec fn min(&self) -> u64 {
        self.writer.min()
    }

    spec fn pending_view(&self) -> Option<(Seq<u32>, u64)> {
        match self.pending {
            Some((key, count)) => Some((key@, count)),
            None => None,
        }
    }

    /// What has been written, with the pending record.
    spec fn merged(&self) -> Log {
        with_pending(self.writer.log(), self.pending_view())
    }

    /// What has been taken from the shards has been merged.
    pub closed spec fn wf(&self) -> bool {
        &&& self.writer.wf()
        &&& forall|i: int|
            0 <= i < self.cursors@.len() ==> (#[trigger] self.cursors@[i]).wf()
                && self.cursors@[i].mode() == self.writer.mode()
        &&& strictly_ascending(self.merged())
        &&& log_ok(self.merged())
        &&& self.pending is None ==> self.writer.log().len() == 0
        &&& self.pending_view() matches Some((key, count)) ==> forall|i: int|
            0 <= i < self.cursors@.len() ==> keeps_order(#[trigger] self.cursors@[i], key)
        &&& self.pending is None ==> forall|i: int|
            0 <= i < self.cursors@.len() ==> (#[trigger] self.cursors@[i]).taken() == 0
        &&& same_sums(self.merged(), joined_log(taken_logs(self.cursors@)))
        &&& label_count(self.merged()) <= label_count(joined_log(taken_logs(self.cursors@)))
        &&& self.records_read == joined_log(taken_logs(self.cursors@)).len()
        &&& self.keys_written == self.writer.log().len()
    }

    /// The shards of a merge are sound.
    pub proof fn lemma_wf(&self)
        requires
            self.wf(),
        ensures
            forall|i: int|
                0 <= i < self.cursors().len() ==> (#[trigger] self.cursors()[i]).wf()
                    && self.cursors()[i].mode() == self.mode(),
            mode_fault(self.mode()) is None,
            1 <= self.min() <= i64::MAX,
            self.mode() is Records ==> self.min() == 1,
    {
        self.writer.lemma_wf();
    }

    /// A merge of shards of which nothing has been read.
    pub fn new(paths: &Vec<String>, mode: IndexMode, min_subtree_count: u64) -> (r: Result<
        Self,
        IndexError,
    >)
        ensures
            match r {
                Ok(run) => {
                    &&& merge_fault(mode, min_subtree_count) is None
                    &&& run.wf()
                    &&& run.mode() == mode
                    &&& run.min() == min_subtree_count
                    &&& run.cursors().len() == paths@.len()
                    &&& forall|i: int|
                        0 <= i < paths@.len() ==> (#[trigger] run.cursors()[i]).path()
                            == paths@[i]@ && run.cursors()[i].lines().len() == 0
                            && run.cursors()[i].records().len() == 0
                            && run.cursors()[i].taken() == 0 && !run.cursors()[i].ended()
                },
                Err(e) => merge_fault(mode, min_subtree_count) == Some(e@),
            },
    {
        let empty: Vec<u8> = Vec::new();
        proof {
            assert(empty@ =~= Seq::empty());
        }
        let writer = match TrieWriter::with_min_subtree_count(empty, mode, min_subtree_count) {
            Ok(writer) => writer,
            Err(e) => {
                return Err(e);
            },
        };
        let mut cursors: Vec<ShardCursor> = Vec::new();
        let mut i: usize = 0;
        while i < paths.len()
            invariant
                i <= paths@.len(),
                cursors@.len() == i,
                forall|k: int|
                    0 <= k < i ==> (#[trigger] cursors@[k]).wf() && cursors@[k].path()
                        == paths@[k]@ && cursors@[k].mode() == mode && cursors@[k].lines().len()
                        == 0 && cursors@[k].records().len() == 0 && cursors@[k].taken() == 0
                        && !cursors@[k].ended(),
            decreases paths.len() - i,
        {
            cursors.push(ShardCursor::new(paths[i].as_str(), mode));
            i += 1;
        }
        let run = MergeRun { cursors, writer, pending: None, records_read: 0, keys_written: 0 };
        proof {
            assert(run.merged() =~= Seq::empty());
            lemma_no_records(taken_logs(cursors@));
            assert(joined_log(taken_logs(cursors@)) =~= Seq::empty());
        }
        Ok(run)
    }

    /// The number of keys written.
    pub closed spec fn keys(&self) -> nat {
        self.writer.log().len()
    }

    /// The number of records taken and of keys written.
    pub fn counts(&self) -> (r: (u64, u64))
        requires
            self.wf(),
        ensures
            r.0 == joined_log(taken_logs(self.cursors())).len(),
            r.1 == self.keys(),
    {
        (self.records_read, self.keys_written)
    }

    /// Whether a shard has its next record at hand, or has none left.
    pub fn is_shard_ready(&self, shard: usize) -> (r: bool)
        requires
            self.wf(),
            shard < self.cursors().len(),
        ensures
            r == is_ready(self.cursors()[shard as int]),
    {
        proof {
            assert(self.cursors@[shard as int].wf());
        }
        self.cursors[shard].is_ended() || self.cursors[shard].current().is_some()
    }

    /// Reads a further line of a shard, or its end.
    pub fn feed(&mut self, shard: usize, raw: Option<&[char]>) -> (r: Result<(), IndexError>)
        requires
            old(self).wf(),
            shard < old(self).cursors().len(),
            !old(self).cursors()[shard as int].ended(),
            old(self).cursors()[shard as int].taken() == old(
                self).cursors()[shard as int].records().len(),
            raw is Some ==> old(self).cursors()[shard as int].lines().len() < usize::MAX,
        ensures
            match r {
                Ok(()) => {
                    let before = old(self).cursors()[shard as int];
                    let after = final(self).cursors()[shard as int];
                    &&& final(self).wf()
                    &&& final(self).mode() == old(self).mode()
                    &&& final(self).min() == old(self).min()
                    &&& final(self).cursors().len() == old(self).cursors().len()
                    &&& forall|i: int|
                        0 <= i < final(self).cursors().len() && i != shard ==> final(
                            self).cursors()[i] == old(self).cursors()[i]
                    &&& final(self).keys() == old(self).keys()
                    &&& joined_log(taken_logs(final(self).cursors())).len() == joined_log(
                        taken_logs(old(self).cursors()),
                    ).len()
                    &&& after.path() == before.path()
                    &&& after.taken() == before.taken()
                    &&& match raw {
                        Some(line) => {
                            &&& after.lines() == before.lines().push(line@)
                            &&& !after.ended()
                            &&& before.lines().len() >= 2 ==> after.records().len()
                                == before.records().len() + 1
                            &&& before.lines().len() < 2 ==> after.records() == before.records()
                        },
                        None => after.lines() == before.lines() && after.ended()
                            && after.records() == before.records(),
                    }
                },
                Err(e) => {
                    let before = old(self).cursors()[shard as int];
                    match raw {
                        Some(line) => stops_within(
                            before.path(),
                            old(self).mode(),
                            before.lines().push(line@),
                            before.records(),
                            e@,
                        ),
                        None => stops(
                            before.path(),
                            old(self).mode(),
                            before.lines(),
                            before.records(),
                            e@,
                        ),
                    }
                },
            },
    {
        let ghost all = self.cursors@;
        let ghost before = all[shard as int];
        proof {
            assert(before.wf());
            before.lemma_wf();
        }
        let fed = self.cursors[shard].feed(raw);
        if let Err(e) = fed {
            return Err(e);
        }
        proof {
            let now = self.cursors@;
            let after = now[shard as int];
            after.lemma_wf();
            assert(now =~= all.update(shard as int, after));
            assert(taken_logs(now) =~= taken_logs(all)) by {
                assert(after.records().take(after.taken() as int) =~= before.records().take(
                    before.taken() as int,
                )) by {
                    if after.records().len() == before.records().len() + 1 {
                        assert(after.records().drop_last() == before.records());
                        assert(after.records().take(after.taken() as int)
                            =~= after.records().drop_last());
                    }
                    assert(before.records().take(before.taken() as int) =~= before.records());
                }
            }
            assert forall|i: int| 0 <= i < now.len() implies (#[trigger] now[i]).wf()
                && now[i].mode() == self.writer.mode() by {
                if i != shard {
                    assert(now[i] == all[i]);
                }
            }
            if let Some((key, count)) = self.pending_view() {
                assert(keeps_order(before, key));
                assert(keeps_order(after, key)) by {
                    if after.records().len() == before.records().len() + 1 {
                        let log = after.records();
                        assert(log.drop_last() == before.records());
                        assert(before.records().len() > 0);
                        assert(log[log.len() - 2] == before.records().last());
                        assert(lex_leq::<u32>(log[log.len() - 2].0, log[log.len() - 1].0));
                    }
                }
                assert forall|i: int| 0 <= i < now.len() implies keeps_order(
                    #[trigger] now[i],
                    key,
                ) by {
                    if i != shard {
                        assert(now[i] == all[i]);
                    }
                }
            } else {
                assert forall|i: int| 0 <= i < now.len() implies (
                #[trigger] now[i]).taken() == 0 by {
                    if i != shard {
                        assert(now[i] == all[i]);
                    }
                }
            }
        }
        Ok(())
    }

    /// The shard with the least key at hand, the first of several.
    fn least(&self) -> (r: Option<usize>)
        requires
            self.wf(),
        ensures
            match r {
                Some(i) => {
                    &&& i < self.cursors@.len()
                    &&& self.cursors@[i as int].taken() + 1
                        == self.cursors@[i as int].records().len()
                    &&& is_least(self.cursors@, i as int)
                },
                None => forall|k: int|
                    0 <= k < self.cursors@.len() ==> (#[trigger] self.cursors@[k]).taken()
                        == self.cursors@[k].records().len(),
            },
    {
        let mut best: Option<usize> = None;
        let mut i: usize = 0;
        while i < self.cursors.len()
            invariant
                i <= self.cursors@.len(),
                self.wf(),
                match best {
                    Some(b) => {
                        &&& b < i
                        &&& self.cursors@[b as int].taken() + 1
                            == self.cursors@[b as int].records().len()
                        &&& forall|k: int|
                            0 <= k < i && (#[trigger] self.cursors@[k]).taken() + 1
                                == self.cursors@[k].records().len() ==> lex_leq::<u32>(
                                self.cursors@[b as int].records().last().0,
                                self.cursors@[k].records().last().0,
                            ) && (self.cursors@[b as int].records().last().0
                                == self.cursors@[k].records().last().0 ==> b <= k)
                    },
                    None => forall|k: int|
                        0 <= k < i ==> (#[trigger] self.cursors@[k]).taken()
                            == self.cursors@[k].records().len(),
                },
            decreases self.cursors.len() - i,
        {
            let ghost here = self.cursors@[i as int];
            assert(here.wf());
            if let Some(record) = self.cursors[i].current() {
                match best {
                    None => {
                        proof {
                            lemma_lex_total_order::<u32>(
                                here.records().last().0,
                                here.records().last().0,
                                here.records().last().0,
                            );
                        }
                        best = Some(i);
                    },
                    Some(b) => {
                        assert(self.cursors@[b as int].wf());
                        if let Some(known) = self.cursors[b].current() {
                            let below = slice_is_leq(known.0.as_slice(), record.0.as_slice());
                            if !below {
                                proof {
                                    let x = self.cursors@[b as int].records().last().0;
                                    let y = here.records().last().0;
                                    lemma_lex_total_order::<u32>(x, y, y);
                                    lemma_lex_total_order::<u32>(y, y, y);
                                    assert forall|k: int|
                                        0 <= k < i + 1 && (
                                        #[trigger] self.cursors@[k]).taken() + 1
                                            == self.cursors@[k].records().len() implies lex_leq::<
                                        u32,
                                    >(y, self.cursors@[k].records().last().0) && (y
                                        == self.cursors@[k].records().last().0 ==> i <= k) by {
                                        if k < i {
                                            lemma_lex_total_order::<u32>(
                                                y,
                                                x,
                                                self.cursors@[k].records().last().0,
                                            );
                                        }
                                    }
                                }
                                best = Some(i);
                            }
                        }
                    },
                }
            }
            i += 1;
        }
        best
    }

    /// Takes the least record at hand, and tells from which shard; none where
    /// all shards have ended.
    #[verifier::rlimit(60)]
    pub fn take_least(&mut self) -> (r: Result<Option<usize>, (usize, IndexError)>)
        requires
            old(self).wf(),
            forall|i: int|
                0 <= i < old(self).cursors().len() ==> is_ready(#[trigger] old(self).cursors()[i]),
        ensures
            match r {
                Ok(None) => *final(self) == *old(self) && forall|i: int|
                    0 <= i < old(self).cursors().len() ==> (
                    #[trigger] old(self).cursors()[i]).ended() && old(self).cursors()[i].taken()
                        == old(self).cursors()[i].records().len(),
                Ok(Some(shard)) => {
                    &&& final(self).wf()
                    &&& final(self).mode() == old(self).mode()
                    &&& final(self).min() == old(self).min()
                    &&& shard < old(self).cursors().len()
                    &&& final(self).cursors().len() == old(self).cursors().len()
                    &&& forall|i: int|
                        0 <= i < final(self).cursors().len() && i != shard ==> final(
                            self).cursors()[i] == old(self).cursors()[i]
                    &&& final(self).cursors()[shard as int].path() == old(
                        self).cursors()[shard as int].path()
                    &&& final(self).cursors()[shard as int].lines() == old(
                        self).cursors()[shard as int].lines()
                    &&& final(self).cursors()[shard as int].records() == old(
                        self).cursors()[shard as int].records()
                    &&& final(self).cursors()[shard as int].ended() == old(
                        self).cursors()[shard as int].ended()
                    &&& old(self).cursors()[shard as int].taken() + 1 == old(
                        self).cursors()[shard as int].records().len()
                    &&& final(self).cursors()[shard as int].taken() == old(
                        self).cursors()[shard as int].records().len()
                    &&& is_least(old(self).cursors(), shard as int)
                    &&& old(self).keys() <= final(self).keys()
                    &&& joined_log(taken_logs(final(self).cursors())).len() == joined_log(
                        taken_logs(old(self).cursors()),
                    ).len() + 1
                },
                Err((shard, e)) => {
                    &&& overflow_met(joined_log(read_logs(old(self).cursors())), e@)
                    &&& shard < old(self).cursors().len()
                    &&& is_least(old(self).cursors(), shard as int)
                    &&& final(self).cursors().len() == old(self).cursors().len()
                    &&& old(self).cursors()[shard as int].taken() + 1 == old(
                        self).cursors()[shard as int].records().len()
                    &&& just_taken(
                        old(self).cursors()[shard as int],
                        final(self).cursors()[shard as int],
                    )
                },
            },
    {
        let shard: usize = match self.least() {
            Some(shard) => shard,
            None => {
                return Ok(None);
            },
        };
        let ghost all = self.cursors@;
        let ghost before = all[shard as int];
        let ghost merged0 = self.merged();
        let ghost taken0 = joined_log(taken_logs(all));
        proof {
            assert(before.wf());
            before.lemma_wf();
        }
        let (key, count) = match self.cursors[shard].take() {
            Some(record) => record,
            None => {
                return Ok(None);
            },
        };
        let ghost now = self.cursors@;
        let ghost after = now[shard as int];
        let ghost record = (key@, count);
        let ghost taken1 = joined_log(taken_logs(now));
        proof {
            assert(now =~= all.update(shard as int, after));
            let logs = taken_logs(all);
            assert(record == before.records()[before.taken() as int]);
            assert(taken_logs(now) =~= logs.update(
                shard as int,
                logs[shard as int].push(record),
            )) by {
                assert(after.records().take(after.taken() as int) =~= before.records().take(
                    before.taken() as int,
                ).push(record));
            }
            assert forall|f: spec_fn(Seq<u32>) -> bool| #[trigger]
                wsum(taken1, f) == wsum(taken0, f) + if f(record.0) {
                    record.1 as nat
                } else {
                    0
                } by {
                lemma_joined_push(logs, shard as int, record.0, record.1, f);
            }
            lemma_joined_push(logs, shard as int, record.0, record.1, |k: Seq<u32>| true);
            let part = taken_logs(now);
            let whole = read_logs(now);
            assert forall|i: int| 0 <= i < part.len() implies (#[trigger] part[i]).len()
                <= whole[i].len() && part[i] == whole[i].take(part[i].len() as int) by {
                if i != shard {
                    assert(now[i] == all[i]);
                    assert(all[i].wf());
                    all[i].lemma_wf();
                }
            }
            lemma_logs_within(part, whole);
            assert(joined_log(read_logs(now)) == joined_log(read_logs(all))) by {
                assert(read_logs(now) =~= read_logs(all));
            }
            assert forall|i: int| 0 <= i < now.len() implies (#[trigger] now[i]).wf()
                && now[i].mode() == self.writer.mode() by {
                if i != shard {
                    assert(now[i] == all[i]);
                }
            }
            assert forall|i: int| 0 <= i < now.len() implies keeps_order(
                #[trigger] now[i],
                record.0,
            ) by {
                if i != shard {
                    assert(now[i] == all[i]);
                    assert(is_ready(old(self).cursors()[i]));
                }
            }
            assert(log_ok(before.records()));
            assert(before.records()[before.taken() as int].0.len() > 0);
            if let Some((k, c)) = self.pending_view() {
                assert(keeps_order(before, k));
            }
            lemma_taken_ok(now);
            lemma_records_within(taken1);
            lemma_records_within(merged0);
        }
        self.records_read =
        match self.records_read.checked_add(1) {
            Some(n) => n,
            None => {
                return Err((shard, IndexError::Overflow("merged shard records")));
            },
        };
        let pending = self.pending.take();
        match pending {
            None => {
                self.pending = Some((key, count));
                proof {
                    let merged1 = self.merged();
                    assert(merged1 =~= Log::empty().push(record));
                    assert(merged0 =~= Seq::empty());
                    lemma_sums_push(merged0, taken0, taken1, record.0, record.1);
                    lemma_label_push(merged0, record.0, record.1);
                    lemma_one_record(record.0, record.1);
                }
                Ok(Some(shard))
            },
            Some((old_key, old_count)) => {
                let ghost old_record = (old_key@, old_count);
                let ghost base = self.writer.log();
                let same = slice_is_leq(key.as_slice(), old_key.as_slice());
                proof {
                    assert(merged0 == base.push(old_record));
                    assert(lex_leq::<u32>(old_key@, key@));
                    lemma_lex_total_order::<u32>(old_key@, key@, key@);
                    assert(same ==> old_key@ == key@);
                }
                if same {
                    let sum: u64 = match old_count.checked_add(count) {
                        Some(sum) => sum,
                        None => {
                            proof {
                                lemma_record_counts(merged0, taken0, taken1, record, base.len() as int);
                                lemma_overflow_within(
                                    taken1,
                                    joined_log(read_logs(now)),
                                    ErrorView::Overflow("merged frequency"@),
                                );
                            }
                            return Err((shard, IndexError::Overflow("merged frequency")));
                        },
                    };
                    if sum > i64::MAX as u64 {
                        proof {
                            lemma_record_counts(merged0, taken0, taken1, record, base.len() as int);
                            lemma_overflow_within(
                                taken1,
                                joined_log(read_logs(now)),
                                ErrorView::Overflow("merged frequency"@),
                            );
                        }
                        return Err((shard, IndexError::Overflow("merged frequency")));
                    }
                    self.pending = Some((old_key, sum));
                    proof {
                        let merged1 = self.merged();
                        assert(merged1 == base.push((old_key@, sum)));
                        lemma_add_to_last(base, old_record, record, merged1);
                        assert forall|f: spec_fn(Seq<u32>) -> bool| #[trigger]
                            wsum(merged1, f) == wsum(taken1, f) by {
                            lemma_wsum_push(base, old_key@, old_count, f);
                            lemma_wsum_push(base, old_key@, sum, f);
                            assert(wsum(merged0, f) == wsum(taken0, f));
                        }
                        lemma_label_push(base, old_key@, old_count);
                        lemma_label_push(base, old_key@, sum);
                    }
                    Ok(Some(shard))
                } else {
                    proof {
                        self.writer.lemma_wf();
                        lemma_push_is_fine(base, old_record);
                        lemma_prefixes_within(merged0);
                        lemma_total_within(taken1, joined_log(read_logs(now)));
                        lemma_sum_grows(merged0, taken0, taken1, record);
                    }
                    if let Err(e) = self.writer.push_sorted(old_key.as_slice(), old_count) {
                        return Err((shard, e));
                    }
                    self.keys_written =
                    match self.keys_written.checked_add(1) {
                        Some(n) => n,
                        None => {
                            return Err((shard, IndexError::Overflow("merged unique keys")));
                        },
                    };
                    self.pending = Some((key, count));
                    proof {
                        let merged1 = self.merged();
                        assert(merged1 == merged0.push(record));
                        lemma_sums_push(merged0, taken0, taken1, record.0, record.1);
                        lemma_label_push(merged0, record.0, record.1);
                        lemma_ascending_more(merged0, record.0, record.1);
                    }
                    Ok(Some(shard))
                }
            },
        }
    }

    /// The fault of the line behind the record that was taken last from a shard, or
    /// of its end, if there is one. A merge that cannot go on asks for it: that
    /// line is read before the record is counted.
    pub fn fault_behind(&mut self, shard: usize, raw: Option<&[char]>) -> (r: Option<IndexError>)
        requires
            shard < old(self).cursors().len(),
            old(self).cursors()[shard as int].wf(),
            !old(self).cursors()[shard as int].ended(),
            old(self).cursors()[shard as int].taken() == old(
                self).cursors()[shard as int].records().len(),
            raw is Some ==> old(self).cursors()[shard as int].lines().len() < usize::MAX,
        ensures
            r matches Some(e) ==> {
                let before = old(self).cursors()[shard as int];
                match raw {
                    Some(line) => stops_within(
                        before.path(),
                        before.mode(),
                        before.lines().push(line@),
                        before.records(),
                        e@,
                    ),
                    None => stops(
                        before.path(),
                        before.mode(),
                        before.lines(),
                        before.records(),
                        e@,
                    ),
                }
            },
            r is None ==> {
                let before = old(self).cursors()[shard as int];
                match raw {
                    Some(line) => shard_records(
                        before.path(),
                        before.lines().push(line@),
                        before.lines().len() + 1,
                    ) is Ok,
                    None => true,
                }
            },
    {
        match self.cursors[shard].feed(raw) {
            Ok(()) => {
                proof {
                    self.cursors@[shard as int].lemma_wf();
                }
                None
            },
            Err(e) => Some(e),
        }
    }

    /// Writes what is left and gives the bytes of the index.
    pub fn finish(self) -> (r: Result<(Vec<u8>, IndexWriteStats), IndexError>)
        requires
            self.wf(),
            forall|i: int|
                0 <= i < self.cursors().len() ==> (#[trigger] self.cursors()[i]).ended()
                    && self.cursors()[i].taken() == self.cursors()[i].records().len(),
        ensures
            match r {
                Ok((bytes, stats)) => merged_index(
                    self.mode(),
                    self.min() as nat,
                    joined_log(read_logs(self.cursors())),
                    bytes@,
                    stats,
                ) && stats.key_count == self.keys() + (if joined_log(
                    taken_logs(self.cursors()),
                ).len() > 0 {
                    1nat
                } else {
                    0
                }),
                Err(e) => overflow_met(joined_log(read_logs(self.cursors())), e@),
            },
    {
        let mut run = self;
        let ghost all = run.cursors@;
        let ghost merged = run.merged();
        let ghost taken = joined_log(taken_logs(all));
        proof {
            assert(taken_logs(all) =~= read_logs(all)) by {
                assert forall|i: int| 0 <= i < all.len() implies taken_logs(all)[i]
                    == read_logs(all)[i] by {
                    assert(self.cursors()[i].taken() == self.cursors()[i].records().len());
                    assert(all[i].records().take(all[i].taken() as int) =~= all[i].records());
                }
            }
            lemma_prefixes_within(merged);
            lemma_total_of_sums(merged, taken);
            lemma_keys_differ(merged);
            if run.pending is None {
                assert forall|i: int| 0 <= i < taken_logs(all).len() implies (
                #[trigger] taken_logs(all)[i]).len() == 0 by {
                    assert(all[i].taken() == 0);
                }
                lemma_no_records(taken_logs(all));
            } else {
                lemma_some_records(merged, taken);
            }
        }
        let pending = run.pending.take();
        if let Some((key, count)) = pending {
            let ghost base = run.writer.log();
            proof {
                assert(merged == base.push((key@, count)));
                run.writer.lemma_wf();
                lemma_push_is_fine(base, (key@, count));
            }
            if let Err(e) = run.writer.push_sorted(key.as_slice(), count) {
                return Err(e);
            }
        }
        match run.writer.finish() {
            Ok((bytes, stats)) => {
                proof {
                    assert(strictly_ascending(merged) && log_ok(merged) && same_sums(merged, taken)
                        && written_index(
                        self.mode(),
                        self.min() as nat,
                        merged,
                        bytes@,
                        stats,
                    ));
                }
                Ok((bytes, stats))
            },
            Err(e) => Err(e),
        }
    }
}

/// The bytes are an index of keys that ascend, with the same sums as the log.
pub open spec fn merged_index(
    mode: IndexMode,
    min: nat,
    records: Log,
    bytes: Seq<u8>,
    stats: IndexWriteStats,
) -> bool {
    exists|log: Log|
        {
            &&& strictly_ascending(log)
            &&& log_ok(log)
            &&& same_sums(log, records)
            &&& #[trigger] written_index(mode, min, log, bytes, stats)
        }
}

proof fn lemma_no_records(logs: Seq<Log>)
    requires
        forall|i: int| 0 <= i < logs.len() ==> (#[trigger] logs[i]).len() == 0,
    ensures
        joined_log(logs).len() == 0,
    decreases logs.len(),
{
    if logs.len() > 0 {
        assert forall|i: int| 0 <= i < logs.drop_last().len() implies (
        #[trigger] logs.drop_last()[i]).len() == 0 by {
            assert(logs.drop_last()[i] == logs[i]);
        }
        lemma_no_records(logs.drop_last());
        assert(logs[logs.len() - 1].len() == 0);
    }
}

/// Keys that ascend are all distinct.
proof fn lemma_keys_differ(log: Log)
    requires
        strictly_ascending(log),
        log_ok(log),
    ensures
        distinct_keys(log) == log.len(),
    decreases log.len(),
{
    if log.len() > 0 {
        let init = log.drop_last();
        assert forall|i: int| 0 <= i < init.len() implies {
            &&& (#[trigger] init[i]).0.len() > 0
            &&& 0 < init[i].1 <= i64::MAX
            &&& scalars(init[i].0)
        } by {
            assert(init[i] == log[i]);
        }
        assert forall|i: int, j: int| 0 <= i < j < init.len() implies lex_leq::<u32>(
            (#[trigger] init[i]).0,
            (#[trigger] init[j]).0,
        ) && init[i].0 != init[j].0 by {
            assert(init[i] == log[i] && init[j] == log[j]);
        }
        lemma_keys_differ(init);
        assert(log[log.len() - 1].0.len() > 0);
        if init.len() > 0 {
            assert(log[log.len() - 2].0 != log[log.len() - 1].0);
        }
    }
}

/// Records with counts have the sums of some records.
proof fn lemma_some_records(merged: Log, taken: Log)
    requires
        merged.len() > 0,
        log_ok(merged),
        same_sums(merged, taken),
    ensures
        taken.len() > 0,
{
    let f = |k: Seq<u32>| true;
    assert(wsum(merged, f) == wsum(taken, f));
    lemma_wsum_push(merged.drop_last(), merged.last().0, merged.last().1, f);
    assert(merged.drop_last().push((merged.last().0, merged.last().1)) =~= merged);
    assert(merged[merged.len() - 1].1 > 0);
}

proof fn lemma_one_record(key: Seq<u32>, count: u64)
    ensures
        strictly_ascending(Log::empty().push((key, count))),
{
}

pub proof fn lemma_sums_push(merged: Log, taken: Log, more: Log, key: Seq<u32>, count: u64)
    requires
        same_sums(merged, taken),
        forall|f: spec_fn(Seq<u32>) -> bool| #[trigger]
            wsum(more, f) == wsum(taken, f) + if f(key) {
                count as nat
            } else {
                0
            },
    ensures
        same_sums(merged.push((key, count)), more),
{
    assert forall|f: spec_fn(Seq<u32>) -> bool| #[trigger]
        wsum(merged.push((key, count)), f) == wsum(more, f) by {
        lemma_wsum_push(merged, key, count, f);
        assert(wsum(merged, f) == wsum(taken, f));
    }
}

pub proof fn lemma_total_of_sums(a: Log, b: Log)
    requires
        same_sums(a, b),
    ensures
        total(a, Seq::empty()) == total(b, Seq::empty()),
{
    let none = Seq::<u32>::empty();
    let f = |k: Seq<u32>| is_prefix(none, k);
    assert(wsum(a, f) == wsum(b, f));
}

/// What has been taken is sound.
proof fn lemma_taken_ok(cursors: Seq<ShardCursor>)
    requires
        forall|i: int| 0 <= i < cursors.len() ==> (#[trigger] cursors[i]).wf(),
    ensures
        log_ok(joined_log(taken_logs(cursors))),
{
    let logs = taken_logs(cursors);
    assert forall|i: int| 0 <= i < logs.len() implies log_ok(#[trigger] logs[i]) by {
        assert(cursors[i].wf());
        cursors[i].lemma_wf();
        let whole = cursors[i].records();
        assert forall|k: int| 0 <= k < logs[i].len() implies {
            &&& (#[trigger] logs[i][k]).0.len() > 0
            &&& 0 < logs[i][k].1 <= i64::MAX
            &&& scalars(logs[i][k].0)
        } by {
            assert(logs[i][k] == whole[k]);
        }
    }
    lemma_joined_ok(logs);
}

/// What is the beginning of each log is within all logs.
pub proof fn lemma_logs_within(part: Seq<Log>, logs: Seq<Log>)
    requires
        part.len() == logs.len(),
        forall|i: int|
            0 <= i < part.len() ==> (#[trigger] part[i]).len() <= logs[i].len() && part[i]
                == logs[i].take(part[i].len() as int),
    ensures
        label_count(joined_log(part)) <= label_count(joined_log(logs)),
        forall|f: spec_fn(Seq<u32>) -> bool| #[trigger]
            wsum(joined_log(part), f) <= wsum(joined_log(logs), f),
    decreases logs.len(),
{
    if logs.len() > 0 {
        let a = part.drop_last();
        let b = logs.drop_last();
        assert forall|i: int| 0 <= i < a.len() implies (#[trigger] a[i]).len() <= b[i].len()
            && a[i] == b[i].take(a[i].len() as int) by {
            assert(a[i] == part[i] && b[i] == logs[i]);
        }
        lemma_logs_within(a, b);
        let x = part[part.len() - 1];
        let y = logs[logs.len() - 1];
        assert(x.len() <= y.len() && x == y.take(x.len() as int));
        lemma_label_append(joined_log(a), x);
        lemma_label_append(joined_log(b), y);
        lemma_part_within(y, x.len() as int);
        assert forall|f: spec_fn(Seq<u32>) -> bool| #[trigger]
            wsum(joined_log(part), f) <= wsum(joined_log(logs), f) by {
            lemma_wsum_append(joined_log(a), x, f);
            lemma_wsum_append(joined_log(b), y, f);
            assert(wsum(joined_log(a), f) <= wsum(joined_log(b), f));
            assert(wsum(y.take(x.len() as int), f) <= wsum(y, f));
        }
    }
}

proof fn lemma_part_within(log: Log, n: int)
    requires
        0 <= n <= log.len(),
    ensures
        label_count(log.take(n)) <= label_count(log),
        forall|f: spec_fn(Seq<u32>) -> bool| #[trigger] wsum(log.take(n), f) <= wsum(log, f),
    decreases log.len(),
{
    if n < log.len() {
        lemma_part_within(log.drop_last(), n);
        assert(log.drop_last().take(n) =~= log.take(n));
        assert forall|f: spec_fn(Seq<u32>) -> bool| #[trigger] wsum(log.take(n), f) <= wsum(
            log,
            f,
        ) by {
            assert(wsum(log.drop_last().take(n), f) <= wsum(log.drop_last(), f));
        }
    } else {
        assert(log.take(n) =~= log);
    }
}

pub proof fn lemma_total_within(a: Log, b: Log)
    requires
        forall|f: spec_fn(Seq<u32>) -> bool| #[trigger] wsum(a, f) <= wsum(b, f),
    ensures
        total(a, Seq::empty()) <= total(b, Seq::empty()),
{
    let none = Seq::<u32>::empty();
    let f = |k: Seq<u32>| is_prefix(none, k);
    assert(wsum(a, f) <= wsum(b, f));
}

proof fn lemma_sum_grows(merged: Log, taken: Log, more: Log, record: (Seq<u32>, u64))
    requires
        same_sums(merged, taken),
        forall|f: spec_fn(Seq<u32>) -> bool| #[trigger]
            wsum(more, f) == wsum(taken, f) + if f(record.0) {
                record.1 as nat
            } else {
                0
            },
    ensures
        total(merged, Seq::empty()) <= total(more, Seq::empty()),
{
    let none = Seq::<u32>::empty();
    let f = |k: Seq<u32>| is_prefix(none, k);
    assert(wsum(more, f) >= wsum(taken, f));
    assert(wsum(merged, f) == wsum(taken, f));
}

/// The count of a record that is merged with another is within the sum of all.
pub proof fn lemma_record_counts(
    merged: Log,
    taken: Log,
    more: Log,
    record: (Seq<u32>, u64),
    i: int,
)
    requires
        same_sums(merged, taken),
        0 <= i < merged.len(),
        forall|f: spec_fn(Seq<u32>) -> bool| #[trigger]
            wsum(more, f) == wsum(taken, f) + if f(record.0) {
                record.1 as nat
            } else {
                0
            },
    ensures
        merged[i].1 + record.1 <= total(more, Seq::empty()),
        merged[i].0 == record.0 ==> merged[i].1 + record.1 <= exact(more, record.0),
{
    let none = Seq::<u32>::empty();
    let f = |k: Seq<u32>| is_prefix(none, k);
    assert forall|k: Seq<u32>| #[trigger] is_prefix(none, k) by {
        assert(k.take(0) =~= none);
    }
    lemma_wsum_at_least(merged, f, i);
    assert(wsum(merged, f) == wsum(taken, f));
    assert(wsum(more, f) == wsum(taken, f) + record.1);
    if merged[i].0 == record.0 {
        let g = |k: Seq<u32>| is_key(record.0, k);
        assert(is_key(record.0, record.0));
        lemma_wsum_at_least(merged, g, i);
        assert(wsum(merged, g) == wsum(taken, g));
        assert(wsum(more, g) == wsum(taken, g) + record.1);
    }
}

/// The last record with more to its count.
pub proof fn lemma_add_to_last(base: Log, old: (Seq<u32>, u64), record: (Seq<u32>, u64), now: Log)
    requires
        strictly_ascending(base.push(old)),
        log_ok(base.push(old)),
        old.0 == record.0,
        old.1 + record.1 <= i64::MAX,
        now == base.push((old.0, (old.1 + record.1) as u64)),
    ensures
        strictly_ascending(now),
        log_ok(now),
{
    let before = base.push(old);
    assert forall|i: int, j: int| 0 <= i < j < now.len() implies lex_leq::<u32>(
        (#[trigger] now[i]).0,
        (#[trigger] now[j]).0,
    ) && now[i].0 != now[j].0 by {
        assert(now[i].0 == before[i].0 && now[j].0 == before[j].0);
    }
    assert forall|i: int| 0 <= i < now.len() implies {
        &&& (#[trigger] now[i]).0.len() > 0
        &&& 0 < now[i].1 <= i64::MAX
        &&& scalars(now[i].0)
    } by {
        assert(before[i].0.len() > 0 && 0 < before[i].1 && scalars(before[i].0));
        assert(now[i].0 == before[i].0);
    }
}

/// The last record of an ascending log can be pushed behind the others.
proof fn lemma_push_is_fine(base: Log, record: (Seq<u32>, u64))
    requires
        strictly_ascending(base.push(record)),
        log_ok(base.push(record)),
    ensures
        push_fault(last_key(base), record.0, record.1) is None,
{
    let all = base.push(record);
    let n = base.len() as int;
    assert(all[n] == record);
    lemma_no_bad_scalar(record.0);
    if base.len() > 0 {
        assert(all[n - 1] == base[n - 1]);
        assert(lex_leq::<u32>(all[n - 1].0, all[n].0));
    }
}

proof fn lemma_no_bad_scalar(key: Seq<u32>)
    requires
        scalars(key),
    ensures
        crate::index::writer::first_non_scalar(key) is None,
    decreases key.len(),
{
    if key.len() > 0 {
        assert(crate::text::scalar(key[0] as int));
        assert forall|i: int| 0 <= i < key.skip(1).len() implies crate::text::scalar(
            #[trigger] key.skip(1)[i] as int,
        ) by {
            assert(key.skip(1)[i] == key[i + 1]);
        }
        lemma_no_bad_scalar(key.skip(1));
    }
}

/// A further record behind the last.
pub proof fn lemma_ascending_more(log: Log, key: Seq<u32>, count: u64)
    requires
        strictly_ascending(log),
        log_ok(log),
        log.len() > 0,
        lex_leq::<u32>(log.last().0, key),
        log.last().0 != key,
        key.len() > 0,
        0 < count <= i64::MAX,
        scalars(key),
    ensures
        strictly_ascending(log.push((key, count))),
        log_ok(log.push((key, count))),
{
    let more = log.push((key, count));
    let last = log[log.len() - 1].0;
    assert forall|i: int, j: int| 0 <= i < j < more.len() implies lex_leq::<u32>(
        (#[trigger] more[i]).0,
        (#[trigger] more[j]).0,
    ) && more[i].0 != more[j].0 by {
        if j < log.len() {
            assert(more[i] == log[i] && more[j] == log[j]);
        } else if i < log.len() - 1 {
            assert(lex_leq::<u32>(log[i].0, log[log.len() - 1].0));
            lemma_lex_total_order::<u32>(log[i].0, last, key);
            lemma_lex_total_order::<u32>(last, key, last);
        }
    }
    assert forall|i: int| 0 <= i < more.len() implies {
        &&& (#[trigger] more[i]).0.len() > 0
        &&& 0 < more[i].1 <= i64::MAX
        &&& scalars(more[i].0)
    } by {
        if i < log.len() {
            assert(more[i] == log[i]);
        }
    }
}

} // verus!
