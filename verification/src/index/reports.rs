//! The reports of a merge: how far it has come.
use crate::index::measure::{capped, shards_size, size_before};
use crate::index::merge::{joined_log, MERGE_PROGRESS_STEP};
use crate::index::merge_text::{opening_lines, shards_hold, TextShard};
use crate::index::mode::IndexMode;
use crate::index::model::Log;
use crate::index::writer::IndexWriteStats;
use vstd::prelude::*;

verus! {

/// How far a merge has come.
#[derive(Clone, Copy, Debug, PartialEq, Eq)]
pub struct MergeProgress {
    pub bytes_read: u64,
    pub bytes_total: u64,
    pub shard_records_read: u64,
    pub unique_keys_written: u64,
    pub shard_count: usize,
    pub complete: bool,
}

/// A report is due: enough has been read since the last, or everything has.
pub open spec fn merge_report_due(read: u64, last: u64, all: u64) -> bool {
    read - last >= MERGE_PROGRESS_STEP || read >= all
}

/// Whether a report is due.
pub fn is_merge_report_due(read: u64, last: u64, all: u64) -> (r: bool)
    ensures
        r == merge_report_due(read, last, all),
{
    (read >= last && read - last >= MERGE_PROGRESS_STEP) || read >= all
}

/// The keys of a merge when all are written: the last one waits for its sum until
/// then.
pub open spec fn all_keys(records: u64, written: u64) -> u64 {
    if records > 0 {
        capped(written as nat + 1)
    } else {
        written
    }
}

/// How far a merge has come, and what has been reported of it.
#[derive(Clone, Copy, Debug, PartialEq, Eq)]
pub struct MergeReports {
    pub bytes_total: u64,
    pub shard_count: usize,
    pub bytes_read: u64,
    pub reported: u64,
}

/// What is told of a merge.
pub open spec fn report_of(
    reports: MergeReports,
    records: u64,
    keys: u64,
    complete: bool,
) -> MergeProgress {
    MergeProgress {
        bytes_read: reports.bytes_read,
        bytes_total: reports.bytes_total,
        shard_records_read: records,
        unique_keys_written: keys,
        shard_count: reports.shard_count,
        complete,
    }
}

impl MergeReports {
    /// Nothing has been read.
    pub fn new(bytes_total: u64, shard_count: usize) -> (r: Self)
        ensures
            r == (MergeReports { bytes_total, shard_count, bytes_read: 0, reported: 0 }),
    {
        MergeReports { bytes_total, shard_count, bytes_read: 0, reported: 0 }
    }

    /// Counts further bytes.
    pub fn read(&mut self, n: u64)
        ensures
            *final(self) == (MergeReports {
                bytes_read: capped(old(self).bytes_read as nat + n as nat),
                ..*old(self)
            }),
            final(self).bytes_read >= old(self).bytes_read,
    {
        self.bytes_read = self.bytes_read.saturating_add(n);
    }

    /// A report of how far the merge has come, which is not its end.
    pub fn report(&mut self, records: u64, keys: u64) -> (r: MergeProgress)
        ensures
            r == report_of(*old(self), records, keys, false),
            *final(self) == (MergeReports { reported: old(self).bytes_read, ..*old(self) }),
    {
        self.reported = self.bytes_read;
        MergeProgress {
            bytes_read: self.bytes_read,
            bytes_total: self.bytes_total,
            shard_records_read: records,
            unique_keys_written: keys,
            shard_count: self.shard_count,
            complete: false,
        }
    }

    /// The next report, where one is due.
    pub fn report_if_due(&mut self, records: u64, keys: u64) -> (r: Option<MergeProgress>)
        ensures
            if merge_report_due(
                old(self).bytes_read,
                old(self).reported,
                old(self).bytes_total,
            ) {
                &&& r == Some(report_of(*old(self), records, keys, false))
                &&& *final(self) == (MergeReports { reported: old(self).bytes_read, ..*old(self) })
            } else {
                r is None && *final(self) == *old(self)
            },
    {
        if is_merge_report_due(self.bytes_read, self.reported, self.bytes_total) {
            Some(self.report(records, keys))
        } else {
            None
        }
    }

    /// The report with which the merge ends.
    pub fn complete(&self, records: u64, keys: u64) -> (r: MergeProgress)
        ensures
            r == report_of(*self, records, keys, true),
    {
        MergeProgress {
            bytes_read: self.bytes_read,
            bytes_total: self.bytes_total,
            shard_records_read: records,
            unique_keys_written: keys,
            shard_count: self.shard_count,
            complete: true,
        }
    }

    /// The keys of the merge when all are written.
    pub fn keys_in_all(records: u64, written: u64) -> (r: u64)
        ensures
            r == all_keys(records, written),
    {
        if records > 0 {
            written.saturating_add(1)
        } else {
            written
        }
    }
}

/// A report that a merge of these shards may make.
pub open spec fn merge_step(shards: Seq<TextShard>, p: MergeProgress) -> bool {
    &&& p.shard_count == shards.len()
    &&& p.bytes_total == capped(shards_size(shards))
    &&& p.bytes_read <= p.bytes_total
    &&& p.complete ==> p.bytes_read == p.bytes_total
}

/// No report goes back behind an earlier one.
pub open spec fn never_back(events: Seq<MergeProgress>) -> bool {
    forall|i: int, j: int|
        0 <= i < j < events.len() ==> {
            &&& (#[trigger] events[i]).bytes_read <= (#[trigger] events[j]).bytes_read
            &&& events[i].shard_records_read <= events[j].shard_records_read
            &&& events[i].unique_keys_written <= events[j].unique_keys_written
        }
}

/// No report says that the merge is complete.
pub open spec fn none_complete(events: Seq<MergeProgress>) -> bool {
    forall|i: int| 0 <= i < events.len() ==> !(#[trigger] events[i]).complete
}

/// The first report of a merge: that the shards have been opened, and nothing has
/// been merged.
pub open spec fn is_start(shards: Seq<TextShard>, p: MergeProgress) -> bool {
    &&& merge_step(shards, p)
    &&& !p.complete
    &&& p.bytes_read == capped(
        size_before(
            shards,
            Seq::new(shards.len(), |k: int| opening_lines(shards[k])),
            shards.len(),
        ),
    )
    &&& p.shard_records_read == 0
    &&& p.unique_keys_written == 0
}

/// A report of a merge with all that was read and written: that it is complete,
/// or is about to be.
pub open spec fn is_end(
    shards: Seq<TextShard>,
    mode: IndexMode,
    stats: IndexWriteStats,
    p: MergeProgress,
    complete: bool,
) -> bool {
    &&& merge_step(shards, p)
    &&& p.complete == complete
    &&& p.bytes_read == p.bytes_total
    &&& exists|logs: Seq<Log>| #[trigger]
        shards_hold(shards, mode, logs) && p.shard_records_read == joined_log(logs).len()
    &&& p.unique_keys_written == stats.key_count
}

/// The reports between the first and the last two are made when they are due.
pub open spec fn due_between(events: Seq<MergeProgress>, n: int) -> bool {
    forall|i: int|
        0 < i < n ==> merge_report_due(
            (#[trigger] events[i]).bytes_read,
            events[i - 1].bytes_read,
            events[i].bytes_total,
        )
}

/// The reports of a merge, in order: that the shards have been opened; how far it
/// has come, whenever enough has been read; that all has been read; and, last and
/// only then, that it is complete. None goes back behind an earlier one.
pub open spec fn merge_told(
    shards: Seq<TextShard>,
    mode: IndexMode,
    stats: IndexWriteStats,
    events: Seq<MergeProgress>,
) -> bool {
    let n = events.len() as int;
    &&& n >= 3
    &&& is_start(shards, events[0])
    &&& is_end(shards, mode, stats, events[n - 2], false)
    &&& is_end(shards, mode, stats, events[n - 1], true)
    &&& never_back(events)
    &&& none_complete(events.drop_last())
    &&& forall|i: int| 0 <= i < n ==> merge_step(shards, #[trigger] events[i])
    &&& due_between(events, n - 2)
}

/// The reports of a merge that goes on.
pub open spec fn told_so_far(
    shards: Seq<TextShard>,
    events: Seq<MergeProgress>,
    bytes_read: u64,
    records: nat,
    keys: nat,
) -> bool {
    &&& events.len() > 0
    &&& is_start(shards, events[0])
    &&& never_back(events)
    &&& none_complete(events)
    &&& forall|i: int| 0 <= i < events.len() ==> merge_step(shards, #[trigger] events[i])
    &&& due_between(events, events.len() as int)
    &&& events.last().bytes_read <= bytes_read
    &&& events.last().shard_records_read <= records
    &&& events.last().unique_keys_written <= keys
}

/// One report more, of how far the merge has come.
pub proof fn lemma_told_more(
    shards: Seq<TextShard>,
    events: Seq<MergeProgress>,
    p: MergeProgress,
    is_due: bool,
)
    requires
        told_so_far(
            shards,
            events,
            p.bytes_read,
            p.shard_records_read as nat,
            p.unique_keys_written as nat,
        ),
        merge_step(shards, p),
        is_due ==> merge_report_due(p.bytes_read, events.last().bytes_read, p.bytes_total),
    ensures
        never_back(events.push(p)),
        none_complete(events.push(p).drop_last()),
        forall|i: int|
            0 <= i < events.len() + 1 ==> merge_step(shards, #[trigger] events.push(p)[i]),
        due_between(events.push(p), events.len() as int),
        is_due && !p.complete ==> told_so_far(
            shards,
            events.push(p),
            p.bytes_read,
            p.shard_records_read as nat,
            p.unique_keys_written as nat,
        ),
{
    let more = events.push(p);
    let n = events.len() as int;
    assert forall|i: int, j: int| 0 <= i < j < more.len() implies {
        &&& (#[trigger] more[i]).bytes_read <= (#[trigger] more[j]).bytes_read
        &&& more[i].shard_records_read <= more[j].shard_records_read
        &&& more[i].unique_keys_written <= more[j].unique_keys_written
    } by {
        assert(more[i] == events[i]);
        if j < n {
            assert(more[j] == events[j]);
        } else if i < n - 1 {
            assert(events[i].bytes_read <= events[n - 1].bytes_read);
        }
    }
    assert(more.drop_last() =~= events);
    assert forall|i: int| 0 <= i < n + 1 implies merge_step(shards, #[trigger] more[i]) by {
        if i < n {
            assert(more[i] == events[i]);
        }
    }
    assert forall|i: int| 0 < i < n implies merge_report_due(
        (#[trigger] more[i]).bytes_read,
        more[i - 1].bytes_read,
        more[i].bytes_total,
    ) by {
        assert(more[i] == events[i] && more[i - 1] == events[i - 1]);
    }
    if is_due && !p.complete {
        assert forall|i: int| 0 < i < n + 1 implies merge_report_due(
            (#[trigger] more[i]).bytes_read,
            more[i - 1].bytes_read,
            more[i].bytes_total,
        ) by {
            if i < n {
                assert(more[i] == events[i] && more[i - 1] == events[i - 1]);
            }
        }
        assert forall|i: int| 0 <= i < more.len() implies !(#[trigger] more[i]).complete by {
            if i < n {
                assert(more[i] == events[i]);
            }
        }
    }
}

/// The last two reports of a merge.
pub proof fn lemma_told_all(
    shards: Seq<TextShard>,
    mode: IndexMode,
    stats: IndexWriteStats,
    events: Seq<MergeProgress>,
    p: MergeProgress,
    end: MergeProgress,
)
    requires
        told_so_far(
            shards,
            events,
            p.bytes_read,
            p.shard_records_read as nat,
            p.unique_keys_written as nat,
        ),
        is_end(shards, mode, stats, p, false),
        is_end(shards, mode, stats, end, true),
        end == (MergeProgress { complete: true, ..p }),
    ensures
        merge_told(shards, mode, stats, events.push(p).push(end)),
        never_back(events.push(p)),
        none_complete(events.push(p)),
{
    let more = events.push(p);
    let all = more.push(end);
    let n = all.len() as int;
    lemma_told_more(shards, events, p, false);
    assert(all[0] == events[0]);
    assert(all[n - 2] == p && all[n - 1] == end);
    assert forall|i: int, j: int| 0 <= i < j < all.len() implies {
        &&& (#[trigger] all[i]).bytes_read <= (#[trigger] all[j]).bytes_read
        &&& all[i].shard_records_read <= all[j].shard_records_read
        &&& all[i].unique_keys_written <= all[j].unique_keys_written
    } by {
        assert(all[i] == more[i]);
        if j < n - 1 {
            assert(all[j] == more[j]);
        } else if i < n - 2 {
            assert(more[i].bytes_read <= more[n - 2].bytes_read);
        }
    }
    assert(all.drop_last() =~= more);
    assert forall|i: int| 0 <= i < more.len() implies !(#[trigger] more[i]).complete by {
        if i < events.len() {
            assert(more[i] == events[i]);
        }
    }
    assert forall|i: int| 0 <= i < n implies merge_step(shards, #[trigger] all[i]) by {
        if i < n - 1 {
            assert(all[i] == more[i]);
        }
    }
    assert forall|i: int| 0 < i < n - 2 implies merge_report_due(
        (#[trigger] all[i]).bytes_read,
        all[i - 1].bytes_read,
        all[i].bytes_total,
    ) by {
        assert(all[i] == more[i] && all[i - 1] == more[i - 1]);
    }
}

} // verus!
