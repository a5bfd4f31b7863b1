//! Which files make up a source, and how far they have been read.
use crate::corpus::preparer::{
    bump, bumped, nothing_prepared, with_file_counted, Prepared, Preparer,
};
use crate::corpus::source::{process_file, with_file};
use crate::corpus::types::{
    kind_name, lower_chars, lowered, PrepareError, PrepareProgress, PrepareReport, ProgressView,
    SourceKind, WeightedRecord,
};
use crate::ordered::views;
use crate::teller::{all_told, Teller};
use crate::text::{chars_of, find_last_char, join2, last_place, spells};
use vstd::prelude::*;
use vstd::string::*;

verus! {

/// A file with what it holds.
#[derive(Clone, Debug, PartialEq, Eq)]
pub struct SourceFile {
    pub path: String,
    pub bytes: Vec<u8>,
}

/// What a path is.
#[derive(Clone, Copy, Debug, PartialEq, Eq, Structural)]
pub enum PathKind {
    File,
    Directory,
    Other,
}

/// Which files make up a source.
#[derive(Clone, Copy, Debug, PartialEq, Eq, Structural)]
pub enum Selection {
    /// The path itself.
    Single,
    /// The shards under the directory.
    WikipediaShards,
    /// The collections of poems under the directory.
    PoetryCollections,
}

/// Which files make up a source, or why it cannot be read from a path.
pub open spec fn selection_of(kind: SourceKind, path: Seq<char>, shape: PathKind) -> Result<
    Selection,
    Seq<char>,
> {
    if shape is File {
        if kind is Poetry {
            Err("poetry 来源必须传 chinese-poetry 仓库根目录："@ + path)
        } else {
            Ok(Selection::Single)
        }
    } else if shape is Directory && kind is Wikipedia {
        Ok(Selection::WikipediaShards)
    } else if shape is Directory && kind is Poetry {
        Ok(Selection::PoetryCollections)
    } else {
        Err(kind_name(kind) + " 来源需要常规文件："@ + path)
    }
}

/// Which files make up a source.
pub fn select_source(kind: SourceKind, path: &str, shape: PathKind) -> (r: Result<
    Selection,
    PrepareError,
>)
    ensures
        match selection_of(kind, path@, shape) {
            Ok(selection) => r == Ok::<Selection, PrepareError>(selection),
            Err(message) => r matches Err(PrepareError::InvalidInput(m)) && m@ == message,
        },
{
    if shape == PathKind::File {
        if kind == SourceKind::Poetry {
            return Err(
                PrepareError::InvalidInput(
                    join2("poetry 来源必须传 chinese-poetry 仓库根目录：", path),
                ),
            );
        }
        return Ok(Selection::Single);
    }
    if shape == PathKind::Directory && kind == SourceKind::Wikipedia {
        return Ok(Selection::WikipediaShards);
    }
    if shape == PathKind::Directory && kind == SourceKind::Poetry {
        return Ok(Selection::PoetryCollections);
    }
    let mut message = kind.to_text().to_owned();
    message.append(" 来源需要常规文件：");
    message.append(path);
    Err(PrepareError::InvalidInput(message))
}

/// The name is that of a shard of Wikipedia.
pub open spec fn wikipedia_shard(name: Seq<char>) -> bool {
    name.len() >= 5 && name.take(5) == "wiki_"@
}

/// Whether the name is that of a shard of Wikipedia.
pub fn is_wikipedia_shard(name: &str) -> (r: bool)
    ensures
        r == wikipedia_shard(name@),
{
    let chars = chars_of(name);
    if chars.len() < 5 {
        return false;
    }
    proof {
        assert(chars@.subrange(0, 5) =~= chars@.take(5));
    }
    spells(&chars[0..5], "wiki_")
}

/// The collections of poems.
pub open spec fn poetry_collection(name: Seq<char>) -> bool {
    name == "曹操诗集"@ || name == "楚辞"@ || name == "论语"@ || name == "蒙学"@ || name
        == "纳兰性德"@ || name == "全唐诗"@ || name == "诗经"@ || name == "水墨唐诗"@ || name
        == "四书五经"@ || name == "宋词"@ || name == "五代诗词"@ || name == "幽梦影"@ || name
        == "御定全唐詩"@ || name == "元曲"@
}

/// The names of the collections of poems.
pub fn poetry_collections() -> (r: Vec<&'static str>)
    ensures
        r@.len() == 14,
        forall|i: int| 0 <= i < r@.len() ==> poetry_collection((#[trigger] r@[i])@),
        forall|name: Seq<char>| #[trigger]
            poetry_collection(name) ==> exists|i: int|
                0 <= i < r@.len() && (#[trigger] r@[i])@ == name,
{
    let r: Vec<&'static str> = vec![
        "曹操诗集",
        "楚辞",
        "论语",
        "蒙学",
        "纳兰性德",
        "全唐诗",
        "诗经",
        "水墨唐诗",
        "四书五经",
        "宋词",
        "五代诗词",
        "幽梦影",
        "御定全唐詩",
        "元曲",
    ];
    proof {
        assert(r@[0]@ == "曹操诗集"@);
        assert(r@[1]@ == "楚辞"@);
        assert(r@[2]@ == "论语"@);
        assert(r@[3]@ == "蒙学"@);
        assert(r@[4]@ == "纳兰性德"@);
        assert(r@[5]@ == "全唐诗"@);
        assert(r@[6]@ == "诗经"@);
        assert(r@[7]@ == "水墨唐诗"@);
        assert(r@[8]@ == "四书五经"@);
        assert(r@[9]@ == "宋词"@);
        assert(r@[10]@ == "五代诗词"@);
        assert(r@[11]@ == "幽梦影"@);
        assert(r@[12]@ == "御定全唐詩"@);
        assert(r@[13]@ == "元曲"@);
    }
    r
}

fn is_poetry_collection(name: &[char]) -> (r: bool)
    ensures
        r == poetry_collection(name@),
{
    spells(name, "曹操诗集") || spells(name, "楚辞") || spells(name, "论语") || spells(name, "蒙学")
        || spells(name, "纳兰性德") || spells(name, "全唐诗") || spells(name, "诗经") || spells(
        name,
        "水墨唐诗",
    ) || spells(name, "四书五经") || spells(name, "宋词") || spells(name, "五代诗词") || spells(
        name,
        "幽梦影",
    ) || spells(name, "御定全唐詩") || spells(name, "元曲")
}

/// The ending of a file's name, behind its last dot. A name that only begins
/// with a dot has none.
pub open spec fn extension_of(name: Seq<char>) -> Option<Seq<char>> {
    match last_place(name, '.') {
        Some(i) => if i > 0 {
            Some(name.skip(i + 1))
        } else {
            None
        },
        None => None,
    }
}

/// Such a file does not hold poems.
pub open spec fn no_poems(name: Seq<char>) -> bool {
    let low = lowered(name);
    low == "authors.tang.json"@ || low == "authors.song.json"@ || low == "author.song.json"@ || low
        == "authors.json"@ || name == "表面结构字.json"@
}

/// A file under the root, given by the names on the way to it, is one of poems:
/// in a collection, JSON, neither in error nor a list of authors.
pub open spec fn poetry_file(names: Seq<Seq<char>>) -> bool {
    &&& names.len() > 0
    &&& poetry_collection(names[0])
    &&& extension_of(names.last()) matches Some(ending) && lowered(ending) == "json"@
    &&& forall|i: int| 0 <= i < names.len() ==> lowered(#[trigger] names[i]) != "error"@
    &&& !no_poems(names.last())
}

/// Whether the file under the root, given by the names on the way to it, is one
/// of poems.
pub fn is_poetry_source_path(names: &Vec<String>) -> (r: bool)
    ensures
        r == poetry_file(views(names@)),
{
    let ghost all = views(names@);
    let n: usize = names.len();
    if n == 0 {
        return false;
    }
    let first = chars_of(names[0].as_str());
    assert(all[0] == names@[0]@);
    assert(all.last() == names@[n - 1]@);
    if !is_poetry_collection(first.as_slice()) {
        return false;
    }
    let last = chars_of(names[n - 1].as_str());
    let length: usize = last.len();
    match find_last_char(last.as_slice(), '.') {
        None => {
            return false;
        },
        Some(i) => {
            if i == 0 {
                return false;
            }
            let ending = lower_chars(&last[i + 1..length]);
            proof {
                assert(last@.subrange(i + 1, length as int) =~= last@.skip(i + 1));
            }
            if !spells(ending.as_slice(), "json") {
                return false;
            }
        },
    }
    let mut i: usize = 0;
    while i < n
        invariant
            i <= n,
            n == names@.len(),
            all == views(names@),
            forall|k: int| 0 <= k < i ==> lowered(#[trigger] all[k]) != "error"@,
        decreases n - i,
    {
        let name = chars_of(names[i].as_str());
        let low = lower_chars(name.as_slice());
        assert(all[i as int] == name@);
        if spells(low.as_slice(), "error") {
            return false;
        }
        i += 1;
    }
    let low = lower_chars(last.as_slice());
    let low = low.as_slice();
    !(spells(low, "authors.tang.json") || spells(low, "authors.song.json") || spells(
        low,
        "author.song.json",
    ) || spells(low, "authors.json") || spells(last.as_slice(), "表面结构字.json"))
}

/// Counts what has been read of a file, and of all files.
#[derive(Clone, Debug)]
pub struct ProgressReader {
    pub source: String,
    pub file_index: usize,
    pub file_count: usize,
    pub file_bytes_read: u64,
    pub file_bytes_total: u64,
    pub completed_bytes: u64,
    pub total_bytes: u64,
}

/// What is told of a file of which so much has been read.
pub open spec fn tells(p: PrepareProgress, reader: ProgressReader, read: u64, all: u64) -> bool {
    &&& p.source@ == reader.source@
    &&& p.file_index == reader.file_index
    &&& p.file_count == reader.file_count
    &&& p.file_bytes_read == read
    &&& p.file_bytes_total == reader.file_bytes_total
    &&& p.bytes_read == all
    &&& p.bytes_total == reader.total_bytes
}

impl ProgressReader {
    fn event(&self, read: u64, all: u64) -> (r: PrepareProgress)
        ensures
            tells(r, *self, read, all),
    {
        PrepareProgress {
            source: self.source.as_str().to_owned(),
            file_index: self.file_index,
            file_count: self.file_count,
            file_bytes_read: read,
            file_bytes_total: self.file_bytes_total,
            bytes_read: all,
            bytes_total: self.total_bytes,
        }
    }

    /// What is told before the file is read.
    pub fn start(&self) -> (r: PrepareProgress)
        ensures
            tells(r, *self, 0, self.completed_bytes),
    {
        self.event(0, self.completed_bytes)
    }

    /// Counts further bytes, and what is told of them; nothing at the end of the
    /// file.
    pub fn read(&mut self, read: usize) -> (r: Option<PrepareProgress>)
        ensures
            final(self).source == old(self).source,
            final(self).file_index == old(self).file_index,
            final(self).file_count == old(self).file_count,
            final(self).file_bytes_total == old(self).file_bytes_total,
            final(self).completed_bytes == old(self).completed_bytes,
            final(self).total_bytes == old(self).total_bytes,
            final(self).file_bytes_read == bumped(old(self).file_bytes_read, read as nat),
            match r {
                None => read == 0,
                Some(event) => read > 0 && tells(
                    event,
                    *final(self),
                    final(self).file_bytes_read,
                    bumped(old(self).completed_bytes, final(self).file_bytes_read as nat),
                ),
            },
    {
        if read == 0 {
            return None;
        }
        self.file_bytes_read = bump(self.file_bytes_read, read as u64);
        Some(self.event(self.file_bytes_read, bump(self.completed_bytes, self.file_bytes_read)))
    }

    /// What is told when the file has been read.
    pub fn done(&self) -> (r: PrepareProgress)
        ensures
            tells(
                r,
                *self,
                self.file_bytes_total,
                bumped(self.completed_bytes, self.file_bytes_total as nat),
            ),
    {
        self.event(self.file_bytes_total, bump(self.completed_bytes, self.file_bytes_total))
    }
}

/// The size of all files.
pub open spec fn file_sizes(files: Seq<SourceFile>) -> nat
    decreases files.len(),
{
    if files.len() == 0 {
        0
    } else {
        file_sizes(files.drop_last()) + files.last().bytes@.len()
    }
}

/// What the first `n` files give.
pub open spec fn with_files(kind: SourceKind, files: Seq<SourceFile>, n: nat) -> Prepared
    decreases n,
{
    if n == 0 || n > files.len() {
        nothing_prepared()
    } else {
        with_file(
            kind,
            with_file_counted(with_files(kind, files, (n - 1) as nat)),
            files[n - 1].path@,
            files[n - 1].bytes@,
        )
    }
}

/// The report and the records of a source are as expected.
pub open spec fn gives(
    kind: SourceKind,
    expected: Prepared,
    report: PrepareReport,
    records: Seq<WeightedRecord>,
) -> bool {
    &&& report.kind == kind
    &&& report.stats == expected.stats
    &&& report.records_by_weight@ == expected.weights
    &&& views(report.record_samples@) == expected.record_samples
    &&& views(report.error_samples@) == expected.error_samples
    &&& views(records) == expected.records
}

/// The outcome of preparing a source.
pub open spec fn prepared_from(
    kind: SourceKind,
    files: Seq<SourceFile>,
    r: Result<(PrepareReport, Vec<WeightedRecord>), PrepareError>,
) -> bool {
    match r {
        Ok((report, records)) => file_sizes(files) <= u64::MAX && gives(
            kind,
            with_files(kind, files, files.len()),
            report,
            records@,
        ),
        Err(e) => file_sizes(files) > u64::MAX && (e matches PrepareError::InvalidInput(m) && m@
            == "语料总大小超过 u64"@),
    }
}

/// Takes a report and does nothing.
fn quiet(_progress: PrepareProgress) {
}

/// Prepares one known source from its files, in order.
pub fn prepare_source(kind: SourceKind, files: &Vec<SourceFile>) -> (r: Result<
    (PrepareReport, Vec<WeightedRecord>),
    PrepareError,
>)
    ensures
        prepared_from(kind, files@, r),
{
    prepare_source_with_progress(kind, files, quiet)
}

proof fn lemma_sizes_grow(files: Seq<SourceFile>, n: int)
    requires
        0 <= n <= files.len(),
    ensures
        file_sizes(files.take(n)) <= file_sizes(files),
    decreases files.len(),
{
    if n < files.len() {
        lemma_sizes_grow(files.drop_last(), n);
        assert(files.drop_last().take(n) =~= files.take(n));
    } else {
        assert(files.take(n) =~= files);
    }
}

/// The size of all files, unless it is too large to count.
pub fn total_size(files: &Vec<SourceFile>) -> (r: Option<u64>)
    ensures
        r == if file_sizes(files@) > u64::MAX {
            None
        } else {
            Some(file_sizes(files@) as u64)
        },
{
    let mut all: u64 = 0;
    let mut i: usize = 0;
    assert(files@.take(0) =~= Seq::empty());
    while i < files.len()
        invariant
            i <= files@.len(),
            all == file_sizes(files@.take(i as int)),
        decreases files.len() - i,
    {
        proof {
            assert(files@.take(i + 1).drop_last() =~= files@.take(i as int));
            lemma_sizes_grow(files@, i + 1);
        }
        match all.checked_add(files[i].bytes.len() as u64) {
            Some(sum) => {
                all = sum;
            },
            None => {
                return None;
            },
        }
        i += 1;
    }
    assert(files@.take(i as int) =~= files@);
    Some(all)
}

/// The report of a file of which so much has been read.
pub open spec fn file_event(files: Seq<SourceFile>, k: int, read: nat) -> ProgressView {
    ProgressView {
        source: files[k].path@,
        file_index: (k + 1) as nat,
        file_count: files.len(),
        file_bytes_read: read,
        file_bytes_total: files[k].bytes@.len(),
        bytes_read: file_sizes(files.take(k)) + read,
        bytes_total: file_sizes(files),
    }
}

/// The reports of a file: before it is read, after something has been read, and
/// when it is done.
pub open spec fn file_events(files: Seq<SourceFile>, k: int) -> Seq<ProgressView> {
    let n = files[k].bytes@.len();
    if n == 0 {
        seq![file_event(files, k, 0), file_event(files, k, 0)]
    } else {
        seq![file_event(files, k, 0), file_event(files, k, n), file_event(files, k, n)]
    }
}

/// The reports of the first `n` files, one after the other.
pub open spec fn prepare_events(files: Seq<SourceFile>, n: nat) -> Seq<ProgressView>
    decreases n,
{
    if n == 0 {
        Seq::empty()
    } else {
        prepare_events(files, (n - 1) as nat) + file_events(files, n - 1)
    }
}

/// A report that may be made: of one of the files, before it is read or after.
pub open spec fn prepare_step(files: Seq<SourceFile>, p: ProgressView) -> bool {
    exists|k: int| 0 <= k < files.len() && #[trigger] file_events(files, k).contains(p)
}

proof fn lemma_sizes_between(files: Seq<SourceFile>, m: int, n: int)
    requires
        0 <= m <= n <= files.len(),
    ensures
        file_sizes(files.take(m)) <= file_sizes(files.take(n)),
        m < files.len() ==> file_sizes(files.take(m + 1)) == file_sizes(files.take(m))
            + files[m].bytes@.len(),
{
    lemma_sizes_grow(files.take(n), m);
    assert(files.take(n).take(m) =~= files.take(m));
    if m < files.len() {
        assert(files.take(m + 1).drop_last() =~= files.take(m));
    }
}

/// How much the reports of the first files say has been read.
proof fn lemma_events_within(files: Seq<SourceFile>, n: nat, i: int)
    requires
        n <= files.len(),
        0 <= i < prepare_events(files, n).len(),
    ensures
        prepare_events(files, n)[i].bytes_read <= file_sizes(files.take(n as int)),
        prepare_events(files, n)[i].bytes_total == file_sizes(files),
    decreases n,
{
    let before = prepare_events(files, (n - 1) as nat);
    lemma_sizes_between(files, n - 1, n as int);
    if i < before.len() {
        lemma_events_within(files, (n - 1) as nat, i);
        assert(prepare_events(files, n)[i] == before[i]);
    } else {
        assert(prepare_events(files, n)[i] == file_events(files, n - 1)[i - before.len()]);
    }
}

/// The reports of a preparation never go back, and the last one says that
/// everything has been read.
pub proof fn law_prepare_reports_never_go_back(files: Seq<SourceFile>, n: nat, i: int, j: int)
    requires
        n <= files.len(),
        0 <= i <= j < prepare_events(files, n).len(),
    ensures
        prepare_events(files, n)[i].bytes_read <= prepare_events(files, n)[j].bytes_read,
        prepare_events(files, n)[j].bytes_read <= prepare_events(files, n)[j].bytes_total,
        n == files.len() ==> prepare_events(files, n).last().bytes_read == file_sizes(files),
    decreases n,
{
    let before = prepare_events(files, (n - 1) as nat);
    let own = file_events(files, n - 1);
    let all = prepare_events(files, n);
    lemma_sizes_between(files, n - 1, n as int);
    lemma_events_within(files, n, j);
    lemma_sizes_grow(files, n as int);
    assert(all.last() == own.last());
    assert(files.take(files.len() as int) =~= files);
    if j < before.len() {
        law_prepare_reports_never_go_back(files, (n - 1) as nat, i, j);
        assert(all[i] == before[i] && all[j] == before[j]);
    } else {
        assert(all[j] == own[j - before.len()]);
        if i < before.len() {
            lemma_events_within(files, (n - 1) as nat, i);
            assert(all[i] == before[i]);
        } else {
            assert(all[i] == own[i - before.len()]);
        }
    }
}

/// Prepares one known source from its files, and tells how far it has come.
#[verifier::rlimit(30)]
pub fn prepare_telling<G: FnMut(PrepareProgress)>(
    kind: SourceKind,
    files: &Vec<SourceFile>,
    teller: Teller<PrepareProgress, G>,
) -> (r: (Result<(PrepareReport, Vec<WeightedRecord>), PrepareError>, Teller<PrepareProgress, G>))
    requires
        teller.wf(),
        teller.told().len() == 0,
        forall|p: PrepareProgress|
            prepare_step(files@, p@) ==> call_requires(teller.origin(), (p,)),
    ensures
        prepared_from(kind, files@, r.0),
        r.1.wf(),
        r.1.origin() == teller.origin(),
        views(r.1.told()) == (if r.0 is Ok {
            prepare_events(files@, files@.len())
        } else {
            Seq::empty()
        }),
{
    let mut heard = teller;
    assert(views(heard.told()) =~= Seq::<ProgressView>::empty());
    let total_bytes: u64 = match total_size(files) {
        Some(all) => all,
        None => {
            return (Err(PrepareError::InvalidInput("语料总大小超过 u64".to_owned())), heard);
        },
    };
    let mut preparer = Preparer::new(kind);
    let mut completed_bytes: u64 = 0;
    let file_count: usize = files.len();
    assert(files@.take(0) =~= Seq::empty());
    let mut i: usize = 0;
    while i < files.len()
        invariant
            i <= files@.len(),
            preparer.wf(),
            preparer.kind() == kind,
            preparer@ == with_files(kind, files@, i as nat),
            file_count == files@.len(),
            total_bytes == file_sizes(files@),
            completed_bytes == file_sizes(files@.take(i as int)),
            heard.wf(),
            heard.origin() == teller.origin(),
            forall|p: PrepareProgress|
                prepare_step(files@, p@) ==> call_requires(teller.origin(), (p,)),
            views(heard.told()) == prepare_events(files@, i as nat),
        decreases files.len() - i,
    {
        let file = &files[i];
        let ghost own = file_events(files@, i as int);
        let ghost told = heard.told();
        preparer.count_file();
        let mut reader = ProgressReader {
            source: file.path.as_str().to_owned(),
            file_index: i + 1,
            file_count,
            file_bytes_read: 0,
            file_bytes_total: file.bytes.len() as u64,
            completed_bytes,
            total_bytes,
        };
        proof {
            assert(files@.take(i + 1).drop_last() =~= files@.take(i as int));
            lemma_sizes_grow(files@, i + 1);
        }
        let first = reader.start();
        proof {
            assert(first@ == own[0]);
            assert(file_events(files@, i as int).contains(first@));
            assert(prepare_step(files@, first@));
        }
        let ghost first_event = first;
        heard = heard.tell(first);
        let ghost mut so_far = told.push(first_event);
        if let Some(event) = reader.read(file.bytes.len()) {
            proof {
                assert(event@ == own[1]);
                assert(file_events(files@, i as int).contains(event@));
                assert(prepare_step(files@, event@));
                so_far = so_far.push(event);
            }
            heard = heard.tell(event);
        }
        process_file(kind, file.path.as_str(), file.bytes.as_slice(), &mut preparer);
        completed_bytes = bump(completed_bytes, file.bytes.len() as u64);
        let last = reader.done();
        proof {
            assert(last@ == own.last());
            assert(own[own.len() - 1] == last@);
            assert(file_events(files@, i as int).contains(last@));
            assert(prepare_step(files@, last@));
        }
        let ghost last_event = last;
        heard = heard.tell(last);
        proof {
            assert(heard.told() == so_far.push(last_event));
            assert(views(heard.told()) =~= views(told) + own);
        }
        i += 1;
    }
    (Ok(preparer.into_parts()), heard)
}

/// Prepares one known source from its files, with reports of how far it has
/// come. The reports do not change what is prepared.
pub fn prepare_source_with_progress<G: FnMut(PrepareProgress)>(
    kind: SourceKind,
    files: &Vec<SourceFile>,
    progress: G,
) -> (r: Result<(PrepareReport, Vec<WeightedRecord>), PrepareError>)
    requires
        forall|p: PrepareProgress| prepare_step(files@, p@) ==> call_requires(progress, (p,)),
    ensures
        prepared_from(kind, files@, r),
        r is Ok ==> exists|events: Seq<PrepareProgress>| #[trigger]
            all_told(progress, events) && views(events) == prepare_events(files@, files@.len()),
{
    let (r, teller) = prepare_telling(kind, files, Teller::new(progress));
    proof {
        teller.lemma_told();
    }
    r
}

} // verus!
