//! Building an index by way of sorted shards.
use crate::index::aggregate::aggregate;
use crate::index::error::{ErrorView, IndexError};
use crate::index::merge::{
    joined_log, label_count, lemma_label_append, lemma_overflow_within, lemma_wsum_append,
    merged_index, overflow_met, same_sums, too_large,
};
use crate::index::merge_text::{
    lemma_parts_are_held, merge_text_shards_with_min_count_and_progress, shards_hold, TextShard,
};
use crate::index::mode::{mode_fault, IndexMode};
use crate::index::model::{
    exact, is_key, is_prefix, key_too_frequent, lemma_wsum_mono, total, wsum, Log,
};
use crate::index::naming::{prefix_fault, shard_path, shard_path_of, validate_shard_prefix};
use crate::index::pending::{log_ok, scalars};
use crate::index::reports::{
    due_between, merge_step, merge_told, never_back, none_complete, MergeProgress,
};
use crate::index::shard::{
    entries_log, raw_lines, read_shard, shard_text, strictly_ascending, write_shard,
};
use crate::index::shard_laws::law_shard_reads_back;
use crate::index::writer::{key_of, writer_fault, IndexWriteStats};
use crate::teller::all_told;
use crate::text::{chars_of, lemma_code_point, scalar};
use vstd::prelude::*;
use vstd::string::*;

verus! {

/// How many keys are held before a shard is written, unless set otherwise.
pub const DEFAULT_MAX_ENTRIES: usize = 1_000_000;

/// What an index is built from and to.
#[derive(Clone, Debug)]
pub struct BuildOptions {
    pub output_path: String,
    pub shard_dir: String,
    pub shard_prefix: String,
    pub mode: IndexMode,
    /// Number of raw keys retained before a sorted text shard is written.
    pub max_entries_in_memory: usize,
    /// Retain only n-gram prefixes with at least this weighted corpus count.
    /// Shards hold all raw chains, so counts across shards stay exact: the rest
    /// is left out by the merge.
    pub min_subtree_count: u64,
}

/// What was built.
#[derive(Clone, Debug, PartialEq, Eq)]
pub struct BuildReport {
    pub output_path: String,
    pub shard_paths: Vec<String>,
    pub records_seen: u64,
    pub empty_records: u64,
    pub chains_emitted: u64,
    pub min_subtree_count: u64,
    pub index: IndexWriteStats,
}

/// A text with its count.
#[derive(Clone, Debug, PartialEq, Eq)]
pub struct IndexRecord {
    pub text: String,
    pub count: u64,
}

impl IndexRecord {
    pub fn new(text: &str, count: u64) -> (r: Self)
        ensures
            r.text@ == text@,
            r.count == count,
    {
        IndexRecord { text: text.to_owned(), count }
    }
}

/// The fault of the options, if any.
pub open spec fn build_fault(o: BuildOptions) -> Option<ErrorView> {
    if mode_fault(o.mode) is Some {
        mode_fault(o.mode)
    } else if o.max_entries_in_memory == 0 {
        Some(ErrorView::InvalidArgument("max_entries_in_memory must be greater than zero"@))
    } else if o.min_subtree_count == 0 || o.min_subtree_count > i64::MAX {
        Some(ErrorView::InvalidArgument("min_subtree_count must be between 1 and i64::MAX"@))
    } else if o.min_subtree_count != 1 && !(o.mode is Ngrams) {
        Some(ErrorView::InvalidArgument("subtree pruning is only supported for n-gram indexes"@))
    } else if prefix_fault(o.shard_prefix@) is Some {
        prefix_fault(o.shard_prefix@)
    } else if o.output_path@.len() == 0 {
        Some(ErrorView::InvalidArgument("an explicit output path is required"@))
    } else if o.shard_dir@.len() == 0 {
        Some(ErrorView::InvalidArgument("an explicit shard directory is required"@))
    } else {
        None
    }
}

impl BuildOptions {
    pub fn new(output_path: &str, shard_dir: &str, shard_prefix: &str, mode: IndexMode) -> (r: Self)
        ensures
            r.output_path@ == output_path@,
            r.shard_dir@ == shard_dir@,
            r.shard_prefix@ == shard_prefix@,
            r.mode == mode,
            r.max_entries_in_memory == DEFAULT_MAX_ENTRIES,
            r.min_subtree_count == 1,
    {
        BuildOptions {
            output_path: output_path.to_owned(),
            shard_dir: shard_dir.to_owned(),
            shard_prefix: shard_prefix.to_owned(),
            mode,
            max_entries_in_memory: DEFAULT_MAX_ENTRIES,
            min_subtree_count: 1,
        }
    }

    /// Refuses options that cannot be built from.
    pub fn validate(&self) -> (r: Result<(), IndexError>)
        ensures
            match r {
                Ok(()) => build_fault(*self) is None,
                Err(e) => build_fault(*self) == Some(e@),
            },
    {
        if let Err(e) = self.mode.validate() {
            return Err(e);
        }
        if self.max_entries_in_memory == 0 {
            return Err(IndexError::argument("max_entries_in_memory must be greater than zero"));
        }
        if self.min_subtree_count == 0 || self.min_subtree_count > i64::MAX as u64 {
            return Err(IndexError::argument("min_subtree_count must be between 1 and i64::MAX"));
        }
        if self.min_subtree_count != 1 && !self.mode.implicit_prefixes() {
            return Err(
                IndexError::argument("subtree pruning is only supported for n-gram indexes"),
            );
        }
        if let Err(e) = validate_shard_prefix(self.shard_prefix.as_str()) {
            return Err(e);
        }
        if chars_of(self.output_path.as_str()).len() == 0 {
            return Err(IndexError::argument("an explicit output path is required"));
        }
        if chars_of(self.shard_dir.as_str()).len() == 0 {
            return Err(IndexError::argument("an explicit shard directory is required"));
        }
        Ok(())
    }
}

/// The keys that a text is indexed by: itself, or a window at each place.
pub open spec fn chains(mode: IndexMode, text: Seq<char>, count: u64) -> Log {
    let labels = key_of(text);
    match mode {
        IndexMode::Records => if labels.len() == 0 {
            Seq::empty()
        } else {
            seq![(labels, count)]
        },
        IndexMode::Ngrams { window_codepoints } => Seq::new(
            labels.len(),
            |i: int|
                (
                    labels.subrange(
                        i,
                        if i + window_codepoints < labels.len() {
                            i + window_codepoints
                        } else {
                            labels.len() as int
                        },
                    ),
                    count,
                ),
        ),
    }
}

/// The keys of several texts.
pub open spec fn all_chains(mode: IndexMode, records: Seq<(Seq<char>, u64)>) -> Log
    decreases records.len(),
{
    if records.len() == 0 {
        Seq::empty()
    } else {
        all_chains(mode, records.drop_last()) + chains(mode, records.last().0, records.last().1)
    }
}

/// How many of the texts are empty.
pub open spec fn empty_texts(records: Seq<(Seq<char>, u64)>) -> nat
    decreases records.len(),
{
    if records.len() == 0 {
        0
    } else {
        empty_texts(records.drop_last()) + if records.last().0.len() == 0 {
            1nat
        } else {
            0nat
        }
    }
}

/// The fault of a count, if any.
pub open spec fn count_fault(count: u64) -> Option<ErrorView> {
    if count == 0 {
        Some(ErrorView::InvalidArgument("record counts must be greater than zero"@))
    } else if count > i64::MAX {
        Some(ErrorView::InvalidArgument("record counts must fit in a signed 64-bit integer"@))
    } else {
        None
    }
}

/// The runs that have been spilled, and what is pending, after a further key.
pub open spec fn emit(s: (Seq<Log>, Log), record: (Seq<u32>, u64), max: nat) -> (Seq<Log>, Log) {
    let pending = s.1.push(record);
    if pending.len() >= max {
        (s.0.push(pending), Seq::empty())
    } else {
        (s.0, pending)
    }
}

/// The runs that have been spilled, and what is pending, after further keys.
pub open spec fn emit_all(s: (Seq<Log>, Log), records: Log, max: nat) -> (Seq<Log>, Log)
    decreases records.len(),
{
    if records.len() == 0 {
        s
    } else {
        emit(emit_all(s, records.drop_last(), max), records.last(), max)
    }
}

/// Why further keys cannot be added, if they cannot: there are more of them than
/// can be counted, or a run that is to be spilled holds a key that is too
/// frequent. So many have been added before.
pub open spec fn emit_fault(
    s: (Seq<Log>, Log),
    records: Log,
    max: nat,
    emitted: nat,
) -> Option<ErrorView>
    decreases records.len(),
{
    if records.len() == 0 {
        None
    } else {
        let init = records.drop_last();
        match emit_fault(s, init, max, emitted) {
            Some(fault) => Some(fault),
            None => one_fault(emit_all(s, init, max), records.last(), max, emitted + init.len()),
        }
    }
}

/// Why one key more cannot be added, if it cannot.
pub open spec fn one_fault(
    s: (Seq<Log>, Log),
    record: (Seq<u32>, u64),
    max: nat,
    emitted: nat,
) -> Option<ErrorView> {
    let pending = s.1.push(record);
    if emitted >= u64::MAX {
        Some(ErrorView::Overflow("emitted chain count"@))
    } else if pending.len() >= max && key_too_frequent(pending) {
        Some(ErrorView::Overflow("shard frequency"@))
    } else {
        None
    }
}

/// Why a text cannot be added to what has been added, if it cannot.
pub open spec fn record_fault(
    o: BuildOptions,
    records: Seq<(Seq<char>, u64)>,
    s: (Seq<Log>, Log),
    text: Seq<char>,
    count: u64,
) -> Option<ErrorView> {
    if count_fault(count) is Some {
        count_fault(count)
    } else if records.len() >= u64::MAX {
        Some(ErrorView::Overflow("record count"@))
    } else {
        emit_fault(
            s,
            chains(o.mode, text, count),
            o.max_entries_in_memory as nat,
            all_chains(o.mode, records).len(),
        )
    }
}

/// The runs and what is pending after texts have been added one after the other.
pub open spec fn emitted_by(o: BuildOptions, records: Seq<(Seq<char>, u64)>) -> (Seq<Log>, Log)
    decreases records.len(),
{
    if records.len() == 0 {
        (Seq::empty(), Seq::empty())
    } else {
        emit_all(
            emitted_by(o, records.drop_last()),
            chains(o.mode, records.last().0, records.last().1),
            o.max_entries_in_memory as nat,
        )
    }
}

/// The fault of the first text that cannot be added.
pub open spec fn records_fault(o: BuildOptions, records: Seq<(Seq<char>, u64)>) -> Option<ErrorView>
    decreases records.len(),
{
    if records.len() == 0 {
        None
    } else {
        let init = records.drop_last();
        match records_fault(o, init) {
            Some(fault) => Some(fault),
            None => record_fault(
                o,
                init,
                emitted_by(o, init),
                records.last().0,
                records.last().1,
            ),
        }
    }
}

/// Builds an index from records in any order. What has been added is spilled to
/// sorted shards from time to time, and the shards are merged in the end.
pub struct ExternalIndexBuilder {
    options: BuildOptions,
    entries: Vec<(Vec<u32>, u64)>,
    shards: Vec<TextShard>,
    shard_paths: Vec<String>,
    records_seen: u64,
    empty_records: u64,
    chains_emitted: u64,
    records: Ghost<Seq<(Seq<char>, u64)>>,
    runs: Ghost<Seq<Log>>,
    logs: Ghost<Seq<Log>>,
}

/// A shard holds a run: sorted, with equal keys in one.
pub open spec fn holds_run(log: Log, run: Log) -> bool {
    &&& strictly_ascending(log)
    &&& log_ok(log)
    &&& same_sums(log, run)
    &&& label_count(log) <= label_count(run)
    &&& run.len() > 0
}

/// The reports of a build, in order: that the shards have been opened, how far the
/// merge has come, that everything has been read, and, last and only then, that
/// the index is complete. None goes back behind an earlier one.
pub open spec fn build_told(report: BuildReport, events: Seq<MergeProgress>) -> bool {
    told_of_build(report.shard_paths@.len(), report.index, events)
}

/// The reports of a build from so many shards, with these statistics.
pub open spec fn told_of_build(
    shard_count: nat,
    stats: IndexWriteStats,
    events: Seq<MergeProgress>,
) -> bool {
    let n = events.len() as int;
    &&& n >= 3
    &&& never_back(events)
    &&& none_complete(events.drop_last())
    &&& forall|i: int| 0 <= i < n ==> build_step(shard_count, #[trigger] events[i])
    &&& events[0].shard_records_read == 0 && events[0].unique_keys_written == 0
    &&& events[n - 1].complete
    &&& events[n - 1].bytes_read == events[n - 1].bytes_total
    &&& events[n - 1].unique_keys_written == stats.key_count
    &&& events[n - 2] == (MergeProgress { complete: false, ..events[n - 1] })
    &&& due_between(events, n - 2)
}

/// A report that a build from so many shards may make.
pub open spec fn build_step(shard_count: nat, p: MergeProgress) -> bool {
    &&& p.shard_count == shard_count
    &&& p.bytes_read <= p.bytes_total
    &&& p.complete ==> p.bytes_read == p.bytes_total
}

/// The number of shards that a builder ends with.
pub open spec fn shards_in_all(b: ExternalIndexBuilder) -> nat {
    b.runs().len() + if b.pending().len() > 0 {
        1nat
    } else {
        0nat
    }
}

impl ExternalIndexBuilder {
    pub closed spec fn spec_options(&self) -> BuildOptions {
        self.options
    }

    /// The texts that have been added.
    pub closed spec fn records(&self) -> Seq<(Seq<char>, u64)> {
        self.records@
    }

    /// The runs that have been spilled, each with its keys in the order in which
    /// they came.
    pub closed spec fn runs(&self) -> Seq<Log> {
        self.runs@
    }

    /// The keys that have not been spilled.
    pub closed spec fn pending(&self) -> Log {
        entries_log(self.entries@)
    }

    /// The shards at hand.
    pub closed spec fn shards(&self) -> Seq<TextShard> {
        self.shards@
    }

    /// All but what the records say of the keys.
    spec fn sound(&self) -> bool {
        &&& build_fault(self.options) is None
        &&& self.runs@.len() == self.logs@.len()
        &&& self.shard_paths@.len() == self.logs@.len()
        &&& self.shards@.len() <= self.logs@.len()
        &&& forall|i: int|
            0 <= i < self.shard_paths@.len() ==> (#[trigger] self.shard_paths@[i])@
                == shard_path_of(self.options.shard_dir@, self.options.shard_prefix@, i as nat)
        &&& forall|i: int|
            0 <= i < self.logs@.len() ==> holds_run(#[trigger] self.logs@[i], self.runs@[i])
        &&& forall|i: int|
            0 <= i < self.shards@.len() ==> (#[trigger] self.shards@[i]).path@
                == self.shard_paths@[i + self.logs@.len() - self.shards@.len()]@
                && self.shards@[i].text@ == shard_text(
                self.options.mode,
                self.logs@[i + self.logs@.len() - self.shards@.len()],
            )
        &&& log_ok(self.pending())
        &&& self.records_seen == self.records@.len()
        &&& self.empty_records == empty_texts(self.records@)
    }

    /// What has been added stands in the runs and in what is pending.
    pub closed spec fn wf(&self) -> bool {
        &&& self.sound()
        &&& self.chains_emitted == all_chains(self.options.mode, self.records@).len()
        &&& joined_log(self.runs@) + self.pending() == all_chains(self.options.mode, self.records@)
        &&& log_ok(all_chains(self.options.mode, self.records@))
    }

    /// What holds of every builder: the options are sound, and each shard at
    /// hand has its path and the text of what it holds.
    pub proof fn lemma_wf(&self)
        requires
            self.wf(),
        ensures
            build_fault(self.spec_options()) is None,
            joined_log(self.runs()) + self.pending() == all_chains(
                self.spec_options().mode,
                self.records(),
            ),
            self.shards().len() <= self.runs().len(),
            forall|i: int|
                0 <= i < self.shards().len() ==> {
                    let k = i + self.runs().len() - self.shards().len();
                    &&& (#[trigger] self.shards()[i]).path@ == shard_path_of(
                        self.spec_options().shard_dir@,
                        self.spec_options().shard_prefix@,
                        k as nat,
                    )
                    &&& exists|log: Log| #[trigger]
                        holds_run(log, self.runs()[k]) && self.shards()[i].text@ == shard_text(
                            self.spec_options().mode,
                            log,
                        )
                },
    {
        assert forall|i: int| 0 <= i < self.shards().len() implies {
            let k = i + self.runs().len() - self.shards().len();
            &&& (#[trigger] self.shards()[i]).path@ == shard_path_of(
                self.spec_options().shard_dir@,
                self.spec_options().shard_prefix@,
                k as nat,
            )
            &&& exists|log: Log| #[trigger]
                holds_run(log, self.runs()[k]) && self.shards()[i].text@ == shard_text(
                    self.spec_options().mode,
                    log,
                )
        } by {
            let k = i + self.logs@.len() - self.shards@.len();
            assert(self.shards@[i].path@ == self.shard_paths@[k]@);
            assert(holds_run(self.logs@[k], self.runs@[k]));
        }
    }

    /// A builder to which nothing has been added.
    pub fn new(options: BuildOptions) -> (r: Result<Self, IndexError>)
        ensures
            match r {
                Ok(b) => {
                    &&& build_fault(options) is None
                    &&& b.wf()
                    &&& b.spec_options() == options
                    &&& b.records() == Seq::<(Seq<char>, u64)>::empty()
                    &&& b.runs() == Seq::<Log>::empty()
                    &&& b.pending() == Log::empty()
                    &&& b.shards().len() == 0
                },
                Err(e) => build_fault(options) == Some(e@),
            },
    {
        if let Err(e) = options.validate() {
            return Err(e);
        }
        let ghost no_records: Seq<(Seq<char>, u64)> = Seq::empty();
        let ghost no_logs: Seq<Log> = Seq::empty();
        let b = ExternalIndexBuilder {
            options,
            entries: Vec::new(),
            shards: Vec::new(),
            shard_paths: Vec::new(),
            records_seen: 0,
            empty_records: 0,
            chains_emitted: 0,
            records: Ghost(no_records),
            runs: Ghost(no_logs),
            logs: Ghost(no_logs),
        };
        proof {
            assert(b.pending() =~= Seq::empty());
            assert(joined_log(b.runs@) + b.pending() =~= Seq::empty());
        }
        Ok(b)
    }

    pub fn options(&self) -> (r: &BuildOptions)
        ensures
            *r == self.spec_options(),
    {
        &self.options
    }

    /// The paths of all shards so far.
    pub fn shard_paths(&self) -> (r: &[String])
        requires
            self.wf(),
        ensures
            r@.len() == self.runs().len(),
            forall|i: int|
                0 <= i < r@.len() ==> (#[trigger] r@[i])@ == shard_path_of(
                    self.spec_options().shard_dir@,
                    self.spec_options().shard_prefix@,
                    i as nat,
                ),
    {
        self.shard_paths.as_slice()
    }

    pub fn pending_entries(&self) -> (r: usize)
        ensures
            r == self.pending().len(),
    {
        self.entries.len()
    }

    /// Hands out the shards at hand.
    pub fn take_shards(&mut self) -> (r: Vec<TextShard>)
        requires
            old(self).wf(),
        ensures
            final(self).wf(),
            r@ == old(self).shards(),
            final(self).shards().len() == 0,
            final(self).spec_options() == old(self).spec_options(),
            final(self).records() == old(self).records(),
            final(self).runs() == old(self).runs(),
            final(self).pending() == old(self).pending(),
    {
        let mut out: Vec<TextShard> = Vec::new();
        std::mem::swap(&mut out, &mut self.shards);
        out
    }

    /// Spills what is pending.
    fn spill_pending(&mut self) -> (r: Result<(), IndexError>)
        requires
            old(self).sound(),
            old(self).pending().len() > 0,
        ensures
            match r {
                Ok(()) => {
                    &&& final(self).sound()
                    &&& final(self).options == old(self).options
                    &&& final(self).records == old(self).records
                    &&& final(self).chains_emitted == old(self).chains_emitted
                    &&& final(self).runs() == old(self).runs().push(old(self).pending())
                    &&& final(self).pending() == Log::empty()
                    &&& final(self).shards@.len() == old(self).shards@.len() + 1
                },
                Err(e) => e@ == ErrorView::Overflow("shard frequency"@),
            },
            r is Err <==> key_too_frequent(old(self).pending()),
    {
        let ghost before = *self;
        let path = shard_path(
            self.options.shard_dir.as_str(),
            self.options.shard_prefix.as_str(),
            self.shard_paths.len() as u64,
        );
        let mut entries: Vec<(Vec<u32>, u64)> = Vec::new();
        std::mem::swap(&mut entries, &mut self.entries);
        let ghost run = entries_log(entries@);
        let made = match aggregate(entries) {
            Ok(made) => made,
            Err(e) => {
                return Err(e);
            },
        };
        let text = write_shard(self.options.mode, &made);
        let ghost log = entries_log(made@);
        self.shards.push(TextShard { path: path.as_str().to_owned(), text });
        self.shard_paths.push(path);
        self.runs = Ghost(before.runs@.push(run));
        self.logs = Ghost(before.logs@.push(log));
        proof {
            assert(holds_run(log, run));
            let n = before.logs@.len() as int;
            let m = before.shards@.len() as int;
            assert forall|i: int| 0 <= i < self.shard_paths@.len() implies (
            #[trigger] self.shard_paths@[i])@ == shard_path_of(
                self.options.shard_dir@,
                self.options.shard_prefix@,
                i as nat,
            ) by {
                if i < n {
                    assert(self.shard_paths@[i] == before.shard_paths@[i]);
                }
            }
            assert forall|i: int| 0 <= i < self.logs@.len() implies holds_run(
                #[trigger] self.logs@[i],
                self.runs@[i],
            ) by {
                if i < n {
                    assert(holds_run(before.logs@[i], before.runs@[i]));
                    assert(self.logs@[i] == before.logs@[i]);
                    assert(self.runs@[i] == before.runs@[i]);
                } else {
                    assert(self.logs@[i] == log);
                    assert(self.runs@[i] == run);
                }
            }
            assert forall|i: int| 0 <= i < self.shards@.len() implies (
            #[trigger] self.shards@[i]).path@ == self.shard_paths@[i + self.logs@.len()
                - self.shards@.len()]@ && self.shards@[i].text@ == shard_text(
                self.options.mode,
                self.logs@[i + self.logs@.len() - self.shards@.len()],
            ) by {
                if i < m {
                    assert(self.shards@[i] == before.shards@[i]);
                    assert(self.shard_paths@[i + n - m] == before.shard_paths@[i + n - m]);
                    assert(self.logs@[i + n - m] == before.logs@[i + n - m]);
                }
            }
            assert(self.pending() =~= Seq::empty());
        }
        Ok(())
    }

    /// Spills what is pending to a shard, and gives its path; none where nothing
    /// is pending.
    pub fn spill(&mut self) -> (r: Result<Option<String>, IndexError>)
        requires
            old(self).wf(),
        ensures
            match r {
                Ok(None) => old(self).pending().len() == 0 && *final(self) == *old(self),
                Ok(Some(path)) => {
                    &&& old(self).pending().len() > 0
                    &&& path@ == shard_path_of(
                        old(self).spec_options().shard_dir@,
                        old(self).spec_options().shard_prefix@,
                        old(self).runs().len(),
                    )
                    &&& final(self).wf()
                    &&& final(self).spec_options() == old(self).spec_options()
                    &&& final(self).records() == old(self).records()
                    &&& final(self).runs() == old(self).runs().push(old(self).pending())
                    &&& final(self).pending() == Log::empty()
                    &&& final(self).shards().len() == old(self).shards().len() + 1
                },
                Err(e) => old(self).pending().len() > 0 && e@ == ErrorView::Overflow(
                    "shard frequency"@,
                ),
            },
            r is Err <==> key_too_frequent(old(self).pending()),
    {
        if self.entries.len() == 0 {
            proof {
                assert forall|key: Seq<u32>| #[trigger] exact(self.pending(), key) == 0 by {}
            }
            return Ok(None);
        }
        let ghost before = *self;
        let n: usize = self.shard_paths.len();
        if let Err(e) = self.spill_pending() {
            return Err(e);
        }
        proof {
            lemma_joined_more(before.runs@, before.pending());
            assert(joined_log(self.runs@) + self.pending() =~= joined_log(before.runs@)
                + before.pending());
            assert(self.shard_paths@.len() == n + 1);
        }
        let path = self.shard_paths[n].as_str().to_owned();
        Ok(Some(path))
    }

    /// Adds a key, and spills when enough is pending.
    fn push_key(&mut self, key: Vec<u32>, count: u64) -> (r: Result<(), IndexError>)
        requires
            old(self).sound(),
            scalars(key@),
            key@.len() > 0,
            0 < count <= i64::MAX,
        ensures
            match r {
                Ok(()) => {
                    &&& final(self).sound()
                    &&& final(self).options == old(self).options
                    &&& final(self).records == old(self).records
                    &&& final(self).chains_emitted == old(self).chains_emitted + 1
                    &&& (final(self).runs(), final(self).pending()) == emit(
                        (old(self).runs(), old(self).pending()),
                        (key@, count),
                        old(self).options.max_entries_in_memory as nat,
                    )
                    &&& final(self).shards@.len() - old(self).shards@.len() == final(
                        self).runs().len() - old(self).runs().len()
                },
                Err(e) => true,
            },
            match one_fault(
                (old(self).runs(), old(self).pending()),
                (key@, count),
                old(self).options.max_entries_in_memory as nat,
                old(self).chains_emitted as nat,
            ) {
                Some(fault) => r matches Err(e) && e@ == fault,
                None => r is Ok,
            },
    {
        let ghost before = *self;
        let ghost record = (key@, count);
        self.entries.push((key, count));
        proof {
            let more = before.pending().push(record);
            assert(self.pending() =~= more);
            assert forall|i: int| 0 <= i < more.len() implies {
                &&& (#[trigger] more[i]).0.len() > 0
                &&& 0 < more[i].1 <= i64::MAX
                &&& scalars(more[i].0)
            } by {
                if i < before.pending().len() {
                    assert(more[i] == before.pending()[i]);
                }
            }
        }
        self.chains_emitted =
        match self.chains_emitted.checked_add(1) {
            Some(n) => n,
            None => {
                return Err(IndexError::Overflow("emitted chain count"));
            },
        };
        if self.entries.len() >= self.options.max_entries_in_memory {
            if let Err(e) = self.spill_pending() {
                return Err(e);
            }
        }
        Ok(())
    }

    /// Adds a text that has been seen `count` times.
    #[verifier::rlimit(50)]
    pub fn push_record(&mut self, text: &str, count: u64) -> (r: Result<(), IndexError>)
        requires
            old(self).wf(),
        ensures
            match count_fault(count) {
                Some(fault) => (r matches Err(e) && e@ == fault) && *final(self) == *old(self),
                None => match r {
                    Ok(()) => {
                        &&& final(self).wf()
                        &&& final(self).spec_options() == old(self).spec_options()
                        &&& final(self).records() == old(self).records().push((text@, count))
                        &&& (final(self).runs(), final(self).pending()) == emit_all(
                            (old(self).runs(), old(self).pending()),
                            chains(old(self).spec_options().mode, text@, count),
                            old(self).spec_options().max_entries_in_memory as nat,
                        )
                        &&& final(self).shards().len() - old(self).shards().len() == final(
                            self).runs().len() - old(self).runs().len()
                    },
                    Err(e) => record_fault(
                        old(self).spec_options(),
                        old(self).records(),
                        (old(self).runs(), old(self).pending()),
                        text@,
                        count,
                    ) == Some(e@),
                },
            },
            r is Ok ==> record_fault(
                old(self).spec_options(),
                old(self).records(),
                (old(self).runs(), old(self).pending()),
                text@,
                count,
            ) is None,
    {
        if count == 0 {
            return Err(IndexError::argument("record counts must be greater than zero"));
        }
        if count > i64::MAX as u64 {
            return Err(IndexError::argument("record counts must fit in a signed 64-bit integer"));
        }
        let ghost before = *self;
        let ghost mode = self.options.mode;
        let ghost records = self.records@.push((text@, count));
        let ghost added = chains(mode, text@, count);
        let ghost known = all_chains(mode, before.records@);
        let ghost max = self.options.max_entries_in_memory as nat;
        let ghost start = (before.runs(), before.pending());
        proof {
            assert(records.drop_last() =~= before.records@);
            assert(all_chains(mode, records) == known + added);
            lemma_chains_ok(mode, text@, count);
            lemma_joined_ok_two(known, added);
        }
        self.records_seen =
        match self.records_seen.checked_add(1) {
            Some(n) => n,
            None => {
                return Err(IndexError::Overflow("record count"));
            },
        };
        let ghost more = records;
        self.records = Ghost(more);
        let chars = chars_of(text);
        let mut labels: Vec<u32> = Vec::new();
        let mut i: usize = 0;
        while i < chars.len()
            invariant
                i <= chars@.len(),
                labels@.len() == i,
                forall|k: int| 0 <= k < i ==> labels@[k] == chars@[k] as u32,
            decreases chars.len() - i,
        {
            labels.push(chars[i] as u32);
            i += 1;
        }
        proof {
            assert(labels@ =~= key_of(text@));
            assert forall|k: int| 0 <= k < labels@.len() implies scalar(
                #[trigger] labels@[k] as int,
            ) by {
                lemma_code_point(chars@[k]);
            }
            lemma_empty_texts(before.records@);
        }
        if labels.len() == 0 {
            self.empty_records =
            match self.empty_records.checked_add(1) {
                Some(n) => n,
                None => {
                    return Err(IndexError::Overflow("empty record count"));
                },
            };
            proof {
                assert(added =~= Seq::empty());
                assert(known + added =~= known);
            }
            return Ok(());
        }
        match self.options.mode {
            IndexMode::Records => {
                proof {
                    assert(added =~= seq![(labels@, count)]);
                    assert(added.drop_last() =~= Seq::empty());
                    assert(emit_all(start, added.drop_last(), max) == start);
                    assert(known + added =~= joined_log(before.runs@) + before.pending().push(
                        (labels@, count),
                    ));
                    assert(emit_fault(start, added.drop_last(), max, known.len()) is None);
                }
                if let Err(e) = self.push_key(labels, count) {
                    return Err(e);
                }
                proof {
                    lemma_emitted(start, added, max);
                }
            },
            IndexMode::Ngrams { window_codepoints } => {
                let mut at: usize = 0;
                proof {
                    assert(added.take(0) =~= Seq::empty());
                }
                while at < labels.len()
                    invariant
                        at <= labels@.len(),
                        labels@ == key_of(text@),
                        mode == (IndexMode::Ngrams { window_codepoints }),
                        window_codepoints > 0,
                        added == chains(mode, text@, count),
                        records == old(self).records().push((text@, count)),
                        mode == old(self).spec_options().mode,
                        count_fault(count) is None,
                        all_chains(mode, records) == known + added,
                        log_ok(known + added),
                        log_ok(added),
                        0 < count <= i64::MAX,
                        self.sound(),
                        self.options == before.options,
                        self.records@ == records,
                        max == self.options.max_entries_in_memory,
                        start == (before.runs(), before.pending()),
                        known == joined_log(before.runs()) + before.pending(),
                        self.chains_emitted == known.len() + at,
                        (self.runs(), self.pending()) == emit_all(start, added.take(at as int), max),
                        emit_fault(start, added.take(at as int), max, known.len()) is None,
                        known.len() == all_chains(mode, old(self).records()).len(),
                        old(self).records().len() < u64::MAX,
                        before == *old(self),
                        self.shards@.len() - before.shards@.len() == self.runs().len()
                            - before.runs().len(),
                    decreases labels.len() - at,
                {
                    let end: usize = if labels.len() - at <= window_codepoints {
                        labels.len()
                    } else {
                        at + window_codepoints
                    };
                    let key = copy_labels(&labels, at, end);
                    proof {
                        let record = (key@, count);
                        assert(added[at as int] == record);
                        assert(added[at as int].0.len() > 0);
                        let part = added.take(at as int);
                        let more = added.take(at + 1);
                        assert(more.drop_last() =~= part);
                        assert(more.last() == record);
                        lemma_emitted(start, part, max);
                        assert(joined_log(self.runs@) + self.pending() == known + part);
                        assert(more =~= part.push(record));
                        assert(known + more =~= (known + part).push(record));
                        assert(joined_log(self.runs@) + self.pending().push(record) =~= (
                        joined_log(self.runs@) + self.pending()).push(record));
                    }
                    if let Err(e) = self.push_key(key, count) {
                        proof {
                            let fault = emit_fault(start, added.take(at + 1), max, known.len());
                            assert(fault == Some(e@));
                            lemma_fault_stays(start, added, at + 1, max, known.len());
                        }
                        return Err(e);
                    }
                    at += 1;
                }
                proof {
                    assert(added.take(at as int) =~= added);
                    lemma_emitted(start, added, max);
                }
            },
        }
        Ok(())
    }

    /// Merges the shards.
    pub fn finish(self) -> (r: Result<(Vec<u8>, BuildReport), IndexError>)
        requires
            self.wf(),
            self.shards().len() == self.runs().len(),
        ensures
            match r {
                Ok((bytes, report)) => built(self, bytes@, report),
                Err(e) => finish_overflow(
                    self.pending(),
                    all_chains(self.spec_options().mode, self.records()),
                    e@,
                ),
            },
            key_too_frequent(self.pending()) ==> (r matches Err(e) && e@ == ErrorView::Overflow(
                "shard frequency"@,
            )),
    {
        self.finish_with_progress(quiet)
    }

    /// Merges the shards, with reports of how far it has come.
    #[verifier::rlimit(50)]
    pub fn finish_with_progress<F: FnMut(MergeProgress)>(self, progress: F) -> (r: Result<
        (Vec<u8>, BuildReport),
        IndexError,
    >)
        requires
            self.wf(),
            self.shards().len() == self.runs().len(),
            forall|p: MergeProgress|
                build_step(shards_in_all(self), p) ==> call_requires(progress, (p,)),
        ensures
            match r {
                Ok((bytes, report)) => built(self, bytes@, report),
                Err(e) => finish_overflow(
                    self.pending(),
                    all_chains(self.spec_options().mode, self.records()),
                    e@,
                ),
            },
            key_too_frequent(self.pending()) ==> (r matches Err(e) && e@ == ErrorView::Overflow(
                "shard frequency"@,
            )),
            exists|events: Seq<MergeProgress>| #[trigger]
                all_told(progress, events) && (match r {
                    Ok((_, report)) => build_told(report, events),
                    Err(_) => never_back(events) && none_complete(events),
                }),
    {
        let mut this = self;
        let ghost mode = self.options.mode;
        let ghost all = all_chains(mode, self.records@);
        proof {
            lemma_step_large(self.runs@, self.pending(), all);
            if key_too_frequent(self.pending()) {
                lemma_key_within_total(self.pending());
            }
        }
        if let Err(e) = this.spill() {
            proof {
                assert(all_told(progress, Seq::<MergeProgress>::empty()));
            }
            return Err(e);
        }
        let ghost logs = this.logs@;
        let ghost texts = this.shards@;
        proof {
            assert(joined_log(this.runs@) + this.pending() == all);
            assert(this.pending().len() == 0);
            assert(joined_log(this.runs@) + this.pending() =~= joined_log(this.runs@));
            lemma_same_joined(logs, this.runs@);
            assert forall|i: int| 0 <= i < texts.len() implies read_shard(
                (#[trigger] texts[i]).path@,
                mode,
                raw_lines(texts[i].text@),
            ) == Ok::<Log, ErrorView>(logs[i]) by {
                assert(texts[i].path@ == this.shard_paths@[i]@);
                assert(holds_run(logs[i], this.runs@[i]));
                law_shard_reads_back(texts[i].path@, mode, logs[i]);
            }
            assert(shards_hold(texts, mode, logs));
            lemma_parts_are_held(texts, mode, logs);
            assert(texts.len() == shards_in_all(self));
            assert forall|p: MergeProgress| merge_step(texts, p) implies call_requires(
                progress,
                (p,),
            ) by {
                assert(build_step(shards_in_all(self), p));
            }
        }
        match merge_text_shards_with_min_count_and_progress(
            this.shards.as_slice(),
            this.options.output_path.as_str(),
            this.options.mode,
            this.options.min_subtree_count,
            progress,
        ) {
            Err(e) => {
                proof {
                    assert(writer_fault(Seq::empty(), mode, self.options.min_subtree_count)
                        is None);
                    lemma_overflow_within(joined_log(logs), all, e@);
                }
                Err(e)
            },
            Ok((bytes, merge)) => {
                proof {
                    let held = choose|held: Seq<Log>| #[trigger]
                        shards_hold(texts, mode, held) && merged_index(
                            mode,
                            self.options.min_subtree_count as nat,
                            joined_log(held),
                            bytes@,
                            merge.index,
                        );
                    assert(held =~= logs) by {
                        assert forall|i: int| 0 <= i < held.len() implies held[i] == logs[i] by {
                            assert(texts[i].path@ == texts[i].path@);
                        }
                    }
                    let log = choose|log: Log|
                        {
                            &&& strictly_ascending(log)
                            &&& log_ok(log)
                            &&& same_sums(log, joined_log(logs))
                            &&& #[trigger] crate::index::writer::written_index(
                                mode,
                                self.options.min_subtree_count as nat,
                                log,
                                bytes@,
                                merge.index,
                            )
                        };
                    assert(same_sums(log, all)) by {
                        assert forall|f: spec_fn(Seq<u32>) -> bool| #[trigger]
                            wsum(log, f) == wsum(all, f) by {
                            assert(wsum(log, f) == wsum(joined_log(logs), f));
                        }
                    }
                    assert forall|events: Seq<MergeProgress>| #[trigger]
                        merge_told(texts, mode, merge.index, events) implies told_of_build(
                        texts.len(),
                        merge.index,
                        events,
                    ) by {
                        lemma_build_told(texts, mode, merge.index, events);
                    }
                }
                Ok(
                    (
                        bytes,
                        BuildReport {
                            output_path: merge.output_path,
                            shard_paths: this.shard_paths,
                            records_seen: this.records_seen,
                            empty_records: this.empty_records,
                            chains_emitted: this.chains_emitted,
                            min_subtree_count: merge.min_subtree_count,
                            index: merge.index,
                        },
                    ),
                )
            },
        }
    }

    /// The report on what was added, for an index that was written from the
    /// shards.
    pub fn report(self, index: IndexWriteStats) -> (r: BuildReport)
        requires
            self.wf(),
            self.pending().len() == 0,
        ensures
            reported(self, r),
            r.index == index,
    {
        BuildReport {
            output_path: self.options.output_path,
            shard_paths: self.shard_paths,
            records_seen: self.records_seen,
            empty_records: self.empty_records,
            chains_emitted: self.chains_emitted,
            min_subtree_count: self.options.min_subtree_count,
            index,
        }
    }
}

/// The report says what was added, and to which shards.
pub open spec fn reported(b: ExternalIndexBuilder, report: BuildReport) -> bool {
    let o = b.spec_options();
    &&& report.output_path@ == o.output_path@
    &&& report.shard_paths@.len() == b.runs().len() + if b.pending().len() > 0 {
        1nat
    } else {
        0nat
    }
    &&& forall|i: int|
        0 <= i < report.shard_paths@.len() ==> (#[trigger] report.shard_paths@[i])@
            == shard_path_of(o.shard_dir@, o.shard_prefix@, i as nat)
    &&& report.records_seen == b.records().len()
    &&& report.empty_records == empty_texts(b.records())
    &&& report.chains_emitted == all_chains(o.mode, b.records()).len()
    &&& report.min_subtree_count == o.min_subtree_count
}

/// The bytes are an index of all keys of what was added.
pub open spec fn built(b: ExternalIndexBuilder, bytes: Seq<u8>, report: BuildReport) -> bool {
    let o = b.spec_options();
    &&& reported(b, report)
    &&& merged_index(
        o.mode,
        o.min_subtree_count as nat,
        all_chains(o.mode, b.records()),
        bytes,
        report.index,
    )
}

/// Takes a report and does nothing.
fn quiet(_progress: MergeProgress) {
}

/// The reports of a merge are those of a build.
proof fn lemma_build_told(
    shards: Seq<TextShard>,
    mode: IndexMode,
    stats: IndexWriteStats,
    events: Seq<MergeProgress>,
)
    requires
        merge_told(shards, mode, stats, events),
    ensures
        told_of_build(shards.len(), stats, events),
{
    let n = events.len() as int;
    let p = events[n - 2];
    let end = events[n - 1];
    let a = choose|logs: Seq<Log>| #[trigger]
        shards_hold(shards, mode, logs) && p.shard_records_read == joined_log(logs).len();
    let b = choose|logs: Seq<Log>| #[trigger]
        shards_hold(shards, mode, logs) && end.shard_records_read == joined_log(logs).len();
    lemma_parts_are_held(shards, mode, a);
    lemma_parts_are_held(shards, mode, b);
    assert forall|i: int| 0 <= i < n implies build_step(shards.len(), #[trigger] events[i]) by {
        assert(merge_step(shards, events[i]));
    }
}

/// A part of the labels.
fn copy_labels(labels: &Vec<u32>, from: usize, to: usize) -> (r: Vec<u32>)
    requires
        from <= to <= labels@.len(),
    ensures
        r@ == labels@.subrange(from as int, to as int),
{
    let mut out: Vec<u32> = Vec::new();
    let mut i: usize = from;
    while i < to
        invariant
            from <= i <= to <= labels@.len(),
            out@ == labels@.subrange(from as int, i as int),
        decreases to - i,
    {
        out.push(labels[i]);
        assert(out@ =~= labels@.subrange(from as int, i + 1));
        i += 1;
    }
    out
}

pub proof fn lemma_joined_more(runs: Seq<Log>, run: Log)
    ensures
        joined_log(runs.push(run)) == joined_log(runs) + run,
{
    assert(runs.push(run).drop_last() =~= runs);
}

proof fn lemma_chains_ok(mode: IndexMode, text: Seq<char>, count: u64)
    requires
        mode_fault(mode) is None,
        0 < count <= i64::MAX,
    ensures
        log_ok(chains(mode, text, count)),
{
    let labels = key_of(text);
    let log = chains(mode, text, count);
    assert forall|k: int| 0 <= k < labels.len() implies scalar(#[trigger] labels[k] as int) by {
        lemma_code_point(text[k]);
    }
    assert forall|i: int| 0 <= i < log.len() implies {
        &&& (#[trigger] log[i]).0.len() > 0
        &&& 0 < log[i].1 <= i64::MAX
        &&& scalars(log[i].0)
    } by {
        if mode is Ngrams {
            let key = log[i].0;
            assert forall|k: int| 0 <= k < key.len() implies scalar(#[trigger] key[k] as int) by {
                assert(key[k] == labels[i + k]);
            }
        }
    }
}

proof fn lemma_joined_ok_two(a: Log, b: Log)
    requires
        log_ok(a),
        log_ok(b),
    ensures
        log_ok(a + b),
{
    let all = a + b;
    assert forall|i: int| 0 <= i < all.len() implies {
        &&& (#[trigger] all[i]).0.len() > 0
        &&& 0 < all[i].1 <= i64::MAX
        &&& scalars(all[i].0)
    } by {
        if i < a.len() {
            assert(all[i] == a[i]);
        } else {
            assert(all[i] == b[i - a.len()]);
        }
    }
}

proof fn lemma_empty_texts(records: Seq<(Seq<char>, u64)>)
    ensures
        empty_texts(records) <= records.len(),
    decreases records.len(),
{
    if records.len() > 0 {
        lemma_empty_texts(records.drop_last());
    }
}

/// What is pending counts no more than everything.
proof fn lemma_step_large(runs: Seq<Log>, pending: Log, all: Log)
    requires
        all == joined_log(runs) + pending,
    ensures
        total(pending, Seq::empty()) <= total(all, Seq::empty()),
{
    let none = Seq::<u32>::empty();
    let f = |k: Seq<u32>| is_prefix(none, k);
    lemma_wsum_append(joined_log(runs), pending, f);
}

/// A key is no more frequent than all keys together.
proof fn lemma_key_within_total(log: Log)
    requires
        key_too_frequent(log),
    ensures
        total(log, Seq::empty()) > i64::MAX,
{
    let key = choose|key: Seq<u32>| #[trigger] exact(log, key) > i64::MAX;
    let none = Seq::<u32>::empty();
    assert forall|k: Seq<u32>| #[trigger] is_prefix(none, k) by {
        assert(k.take(0) =~= none);
    }
    lemma_wsum_mono(log, |k: Seq<u32>| is_key(key, k), |k: Seq<u32>| is_prefix(none, k));
}

/// What keeps the first keys from being added keeps all from it.
proof fn lemma_fault_stays(start: (Seq<Log>, Log), added: Log, n: int, max: nat, emitted: nat)
    requires
        0 <= n <= added.len(),
        emit_fault(start, added.take(n), max, emitted) is Some,
    ensures
        emit_fault(start, added, max, emitted) == emit_fault(start, added.take(n), max, emitted),
    decreases added.len() - n,
{
    if n < added.len() {
        assert(added.take(n + 1).drop_last() =~= added.take(n));
        lemma_fault_stays(start, added, n + 1, max, emitted);
    } else {
        assert(added.take(n) =~= added);
    }
}

/// What keeps the first texts from being added keeps all from it.
proof fn lemma_records_fault_stays(o: BuildOptions, records: Seq<(Seq<char>, u64)>, n: int)
    requires
        0 <= n <= records.len(),
        records_fault(o, records.take(n)) is Some,
    ensures
        records_fault(o, records) == records_fault(o, records.take(n)),
    decreases records.len() - n,
{
    if n < records.len() {
        assert(records.take(n + 1).drop_last() =~= records.take(n));
        lemma_records_fault_stays(o, records, n + 1);
    } else {
        assert(records.take(n) =~= records);
    }
}

/// Keys that are added stand in the runs or are pending.
proof fn lemma_emitted(start: (Seq<Log>, Log), added: Log, max: nat)
    ensures
        ({
            let now = emit_all(start, added, max);
            joined_log(now.0) + now.1 == joined_log(start.0) + start.1 + added
        }),
    decreases added.len(),
{
    if added.len() == 0 {
        assert(joined_log(start.0) + start.1 + added =~= joined_log(start.0) + start.1);
    } else {
        lemma_emitted(start, added.drop_last(), max);
        let before = emit_all(start, added.drop_last(), max);
        let now = emit_all(start, added, max);
        let pending = before.1.push(added.last());
        lemma_joined_more(before.0, pending);
        assert(joined_log(before.0) + pending =~= joined_log(before.0) + before.1 + seq![
            added.last(),
        ]);
        assert(added =~= added.drop_last() + seq![added.last()]);
        assert(joined_log(start.0) + start.1 + added.drop_last() + seq![added.last()]
            =~= joined_log(start.0) + start.1 + added);
        assert(joined_log(before.0.push(pending)) + Log::empty() =~= joined_log(before.0)
            + pending);
    }
}

/// Shards that hold runs hold together what the runs do.
proof fn lemma_same_joined(logs: Seq<Log>, runs: Seq<Log>)
    requires
        logs.len() == runs.len(),
        forall|i: int| 0 <= i < logs.len() ==> holds_run(#[trigger] logs[i], runs[i]),
    ensures
        same_sums(joined_log(logs), joined_log(runs)),
        label_count(joined_log(logs)) <= label_count(joined_log(runs)),
    decreases logs.len(),
{
    if logs.len() > 0 {
        let a = logs.drop_last();
        let b = runs.drop_last();
        assert forall|i: int| 0 <= i < a.len() implies holds_run(#[trigger] a[i], b[i]) by {
            assert(holds_run(logs[i], runs[i]));
        }
        lemma_same_joined(a, b);
        let n = logs.len() - 1;
        assert(holds_run(logs[n], runs[n]));
        lemma_label_append(joined_log(a), logs[n]);
        lemma_label_append(joined_log(b), runs[n]);
        assert forall|f: spec_fn(Seq<u32>) -> bool| #[trigger] wsum(joined_log(logs), f) == wsum(
            joined_log(runs),
            f,
        ) by {
            lemma_wsum_append(joined_log(a), logs[n], f);
            lemma_wsum_append(joined_log(b), runs[n], f);
            assert(wsum(joined_log(a), f) == wsum(joined_log(b), f));
            assert(wsum(logs[n], f) == wsum(runs[n], f));
        }
    }
}

/// What is said where keys are too many for an index: that one of those that are
/// pending is too frequent for a shard, or what the merge meets.
pub open spec fn finish_overflow(pending: Log, all: Log, e: ErrorView) -> bool {
    if key_too_frequent(pending) {
        e == ErrorView::Overflow("shard frequency"@) && too_large(all)
    } else {
        overflow_met(all, e)
    }
}

/// The texts of the records with their counts.
pub open spec fn given(records: Seq<IndexRecord>) -> Seq<(Seq<char>, u64)> {
    Seq::new(records.len(), |i: int| (records[i].text@, records[i].count))
}

/// Builds an index of the records.
pub fn build_index(records: &Vec<IndexRecord>, options: BuildOptions) -> (r: Result<
    (Vec<u8>, BuildReport),
    IndexError,
>)
    ensures
        match build_fault(options) {
            Some(fault) => r matches Err(e) && e@ == fault,
            None => match records_fault(options, given(records@)) {
                Some(fault) => r matches Err(e) && e@ == fault,
                None => match r {
                    Ok((bytes, report)) => {
                        let s = emitted_by(options, given(records@));
                        &&& !key_too_frequent(s.1)
                        &&& merged_index(
                            options.mode,
                            options.min_subtree_count as nat,
                            all_chains(options.mode, given(records@)),
                            bytes@,
                            report.index,
                        )
                        &&& report.output_path@ == options.output_path@
                        &&& report.records_seen == records@.len()
                        &&& report.empty_records == empty_texts(given(records@))
                        &&& report.chains_emitted == all_chains(
                            options.mode,
                            given(records@),
                        ).len()
                        &&& report.min_subtree_count == options.min_subtree_count
                        &&& report.shard_paths@.len() == s.0.len() + if s.1.len() > 0 {
                            1nat
                        } else {
                            0nat
                        }
                        &&& forall|i: int|
                            0 <= i < report.shard_paths@.len() ==> (
                            #[trigger] report.shard_paths@[i])@ == shard_path_of(
                                options.shard_dir@,
                                options.shard_prefix@,
                                i as nat,
                            )
                    },
                    Err(e) => finish_overflow(
                        emitted_by(options, given(records@)).1,
                        all_chains(options.mode, given(records@)),
                        e@,
                    ),
                },
            },
        },
{
    let ghost mode = options.mode;
    let ghost fixed = options;
    let mut builder = match ExternalIndexBuilder::new(options) {
        Ok(builder) => builder,
        Err(e) => {
            return Err(e);
        },
    };
    let mut i: usize = 0;
    proof {
        assert(given(records@).take(0) =~= Seq::empty());
    }
    while i < records.len()
        invariant
            i <= records@.len(),
            builder.wf(),
            build_fault(fixed) is None,
            builder.spec_options() == fixed,
            fixed == options,
            mode == fixed.mode,
            builder.records() == given(records@).take(i as int),
            builder.shards().len() == builder.runs().len(),
            (builder.runs(), builder.pending()) == emitted_by(fixed, given(records@).take(i as int)),
            records_fault(fixed, given(records@).take(i as int)) is None,
        decreases records.len() - i,
    {
        proof {
            assert(given(records@).take(i + 1) =~= given(records@).take(i as int).push(
                (records@[i as int].text@, records@[i as int].count),
            ));
            assert(given(records@).take(i + 1).drop_last() =~= given(records@).take(i as int));
        }
        if let Err(e) = builder.push_record(records[i].text.as_str(), records[i].count) {
            proof {
                lemma_records_fault_stays(fixed, given(records@), i + 1);
            }
            return Err(e);
        }
        i += 1;
    }
    proof {
        assert(given(records@).take(i as int) =~= given(records@));
    }
    builder.finish()
}

} // verus!
