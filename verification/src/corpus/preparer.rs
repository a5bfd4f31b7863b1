//! The records and the report of one source.
use crate::chinese::han::{han, is_han};
use crate::corpus::prints::{BodyPrint, PrintSet, TitlePrint};
use crate::corpus::types::{
    no_stats, PrepareErrorSample, PrepareReport, PrepareStats, SampleView, SourceKind,
    WeightedRecord,
};
use crate::corpus::weights::{count_weight, one_more};
use crate::ordered::views;
use crate::text::{hex_char, hex_digit, is_white, string_of, trimmed_start, white};
use std::collections::BTreeMap;
use vstd::prelude::*;
use vstd::string::*;

verus! {

/// How many samples of records and of faults a report holds.
pub const SAMPLE_LIMIT: usize = 20;

/// How many characters of a text a sample shows.
pub const PREVIEW_LIMIT: usize = 120;

/// How many bytes of a line that is no text a sample shows.
pub const HEX_LIMIT: usize = 24;

/// A count with more added to it. It stops at the largest number.
pub open spec fn bumped(x: u64, by: nat) -> u64 {
    if x + by > u64::MAX {
        u64::MAX
    } else {
        (x + by) as u64
    }
}

/// What a source has given so far.
pub struct Prepared {
    pub stats: PrepareStats,
    pub weights: Map<u64, u64>,
    pub record_samples: Seq<(Seq<char>, u64)>,
    pub error_samples: Seq<SampleView>,
    pub records: Seq<(Seq<char>, u64)>,
    pub bodies: Set<BodyPrint>,
    pub titles: Set<TitlePrint>,
}

/// A source has given nothing.
pub open spec fn nothing_prepared() -> Prepared {
    Prepared {
        stats: no_stats(),
        weights: Map::empty(),
        record_samples: Seq::empty(),
        error_samples: Seq::empty(),
        records: Seq::empty(),
        bodies: Set::empty(),
        titles: Set::empty(),
    }
}

/// A file is counted.
pub open spec fn with_file_counted(p: Prepared) -> Prepared {
    Prepared {
        stats: PrepareStats { files_seen: bumped(p.stats.files_seen, 1), ..p.stats },
        ..p
    }
}

/// A record is made of this character.
pub open spec fn kept(c: char) -> bool {
    han(c) || c == '〇'
}

/// How deep in brackets a text is behind its first `n` characters.
pub open spec fn bracket_depth(s: Seq<char>, n: nat) -> nat
    decreases n,
{
    if n == 0 {
        0
    } else {
        let d = bracket_depth(s, (n - 1) as nat);
        if s[n - 1] == '[' {
            d + 1
        } else if s[n - 1] == ']' && d > 0 {
            (d - 1) as nat
        } else {
            d
        }
    }
}

/// The character at a place belongs to a record. Where annotations are left
/// out, what stands in brackets does not.
pub open spec fn shown(s: Seq<char>, social: bool, i: int) -> bool {
    kept(s[i]) && (!social || bracket_depth(s, i as nat) == 0)
}

/// The runs that have ended within the first `n` characters, and the one that
/// has not.
pub open spec fn runs_of(s: Seq<char>, social: bool, n: nat) -> (Seq<Seq<char>>, Seq<char>)
    decreases n,
{
    if n == 0 {
        (Seq::empty(), Seq::empty())
    } else {
        let (ended, open) = runs_of(s, social, (n - 1) as nat);
        if shown(s, social, n - 1) {
            (ended, open.push(s[n - 1]))
        } else if open.len() > 0 {
            (ended.push(open), Seq::empty())
        } else {
            (ended, open)
        }
    }
}

/// The runs of a text, each as long as can be.
pub open spec fn all_runs(s: Seq<char>, social: bool) -> Seq<Seq<char>> {
    let (ended, open) = runs_of(s, social, s.len());
    if open.len() > 0 {
        ended.push(open)
    } else {
        ended
    }
}

/// What is prepared with a further record.
pub open spec fn with_record(p: Prepared, text: Seq<char>, weight: u64) -> Prepared {
    Prepared {
        stats: PrepareStats {
            emitted_records: bumped(p.stats.emitted_records, 1),
            emitted_han_chars: bumped(p.stats.emitted_han_chars, text.len()),
            emitted_weight: bumped(p.stats.emitted_weight, weight as nat),
            ..p.stats
        },
        weights: one_more(p.weights, weight),
        record_samples: if p.record_samples.len() < SAMPLE_LIMIT {
            p.record_samples.push((text, weight))
        } else {
            p.record_samples
        },
        records: p.records.push((text, weight)),
        ..p
    }
}

/// What is prepared with further records of one weight.
pub open spec fn with_records(p: Prepared, texts: Seq<Seq<char>>, weight: u64) -> Prepared
    decreases texts.len(),
{
    if texts.len() == 0 {
        p
    } else {
        with_record(with_records(p, texts.drop_last(), weight), texts.last(), weight)
    }
}

/// What is prepared with a fault.
pub open spec fn with_error(
    p: Prepared,
    source: Seq<char>,
    line: u64,
    message: Seq<char>,
    preview: Seq<char>,
) -> Prepared {
    Prepared {
        stats: PrepareStats { parse_errors: bumped(p.stats.parse_errors, 1), ..p.stats },
        error_samples: if p.error_samples.len() < SAMPLE_LIMIT {
            p.error_samples.push(
                SampleView { source, line, message, preview: preview_of(preview) },
            )
        } else {
            p.error_samples
        },
        ..p
    }
}

/// What is prepared with a line that is no text.
pub open spec fn with_invalid_line(
    p: Prepared,
    source: Seq<char>,
    line: u64,
    bytes: Seq<u8>,
) -> Prepared {
    with_error(
        Prepared {
            stats: PrepareStats {
                invalid_utf8_lines: bumped(p.stats.invalid_utf8_lines, 1),
                ..p.stats
            },
            ..p
        },
        source,
        line,
        "该行不是严格 UTF-8，已跳过"@,
        hex_of(bytes),
    )
}

/// A text with each stretch of white space as one blank.
pub open spec fn blanked(s: Seq<char>) -> Seq<char>
    decreases s.len(),
{
    if s.len() == 0 {
        Seq::empty()
    } else {
        let before = blanked(s.drop_last());
        if white(s.last()) {
            if before.len() > 0 && before.last() == ' ' {
                before
            } else {
                before.push(' ')
            }
        } else {
            before.push(s.last())
        }
    }
}

/// What a sample shows of a text.
pub open spec fn preview_of(s: Seq<char>) -> Seq<char> {
    if s.len() > PREVIEW_LIMIT {
        blanked(s.take(PREVIEW_LIMIT as int)).push('…')
    } else {
        blanked(s)
    }
}

/// The first bytes in hexadecimal.
pub open spec fn hex_bytes(bytes: Seq<u8>, n: nat) -> Seq<char>
    decreases n,
{
    if n == 0 {
        Seq::empty()
    } else {
        let b = bytes[n - 1] as int;
        let before = hex_bytes(bytes, (n - 1) as nat);
        (if n > 1 {
            before.push(' ')
        } else {
            before
        }).push(hex_char(b / 16)).push(hex_char(b % 16))
    }
}

/// What a sample shows of bytes.
pub open spec fn hex_of(bytes: Seq<u8>) -> Seq<char> {
    hex_bytes(
        bytes,
        if bytes.len() > HEX_LIMIT {
            HEX_LIMIT as nat
        } else {
            bytes.len()
        },
    )
}

/// A text begins with another.
pub open spec fn begins(s: Seq<char>, t: Seq<char>) -> bool {
    s.len() >= t.len() && s.take(t.len() as int) == t
}

/// The first place of a character with a property.
pub open spec fn first_such(s: Seq<char>, f: spec_fn(char) -> bool) -> Option<int>
    decreases s.len(),
{
    if s.len() == 0 {
        None
    } else if f(s[0]) {
        Some(0)
    } else {
        match first_such(s.skip(1), f) {
            Some(i) => Some(i + 1),
            None => None,
        }
    }
}

/// What follows the sign of an address at the start of a text.
pub open spec fn behind_at(s: Seq<char>) -> Option<Seq<char>> {
    let rest = if begins(s, "回复"@) {
        trimmed_start(s.skip(2))
    } else {
        s
    };
    if rest.len() > 0 && rest[0] == '@' {
        Some(trimmed_start(rest.skip(1)))
    } else {
        None
    }
}

/// A colon.
pub open spec fn colon(c: char) -> bool {
    c == ':' || c == '：'
}

/// What follows the address at the start of a text: behind the first colon, or
/// where there is none, behind the first white space.
pub open spec fn behind_address(s: Seq<char>) -> Option<Seq<char>> {
    match behind_at(s) {
        None => None,
        Some(rest) => match first_such(rest, |c: char| colon(c)) {
            Some(i) => Some(trimmed_start(rest.skip(i + 1))),
            None => match first_such(rest, |c: char| white(c)) {
                Some(i) => Some(trimmed_start(rest.skip(i + 1))),
                None => None,
            },
        },
    }
}

/// A text without the address of a reply, or two of them, before it.
pub open spec fn without_address(s: Seq<char>) -> Seq<char> {
    let t = trimmed_start(s);
    match behind_address(t) {
        None => t,
        Some(u) => match behind_address(u) {
            None => u,
            Some(v) => v,
        },
    }
}

/// What is prepared with a field of this weight. Of a social text, the address
/// before it and what stands in brackets are left out.
pub open spec fn with_field(p: Prepared, text: Seq<char>, weight: u64, social: bool) -> Prepared {
    let runs = all_runs(
        if social {
            without_address(text)
        } else {
            text
        },
        social,
    );
    let q = with_records(p, runs, weight);
    Prepared {
        stats: PrepareStats {
            selected_fields: bumped(q.stats.selected_fields, 1),
            fields_without_han: bumped(
                q.stats.fields_without_han,
                if runs.len() == 0 {
                    1
                } else {
                    0
                },
            ),
            ..q.stats
        },
        ..q
    }
}

/// A count with more added to it.
pub(crate) fn bump(x: u64, by: u64) -> (r: u64)
    ensures
        r == bumped(x, by as nat),
{
    x.saturating_add(by)
}

/// What a sample shows of a text.
fn short_preview(value: &[char]) -> (r: String)
    ensures
        r@ == preview_of(value@),
{
    let n: usize = if value.len() > PREVIEW_LIMIT {
        PREVIEW_LIMIT
    } else {
        value.len()
    };
    let mut output: Vec<char> = Vec::new();
    let mut i: usize = 0;
    assert(value@.take(0) =~= Seq::empty());
    while i < n
        invariant
            i <= n <= value@.len(),
            output@ == blanked(value@.take(i as int)),
        decreases n - i,
    {
        let ghost t = value@.take(i + 1);
        proof {
            assert(t.drop_last() =~= value@.take(i as int));
            assert(t.last() == value@[i as int]);
        }
        let c = value[i];
        if is_white(c) {
            if !(output.len() > 0 && output[output.len() - 1] == ' ') {
                output.push(' ');
            }
        } else {
            output.push(c);
        }
        i += 1;
    }
    if value.len() > PREVIEW_LIMIT {
        output.push('…');
    } else {
        assert(value@.take(n as int) =~= value@);
    }
    string_of(output.as_slice())
}

/// What a sample shows of bytes.
fn hex_preview(bytes: &[u8]) -> (r: Vec<char>)
    ensures
        r@ == hex_of(bytes@),
{
    let n: usize = if bytes.len() > HEX_LIMIT {
        HEX_LIMIT
    } else {
        bytes.len()
    };
    let mut out: Vec<char> = Vec::new();
    let mut i: usize = 0;
    assert(out@ =~= hex_bytes(bytes@, 0));
    while i < n
        invariant
            i <= n <= bytes@.len(),
            out@ == hex_bytes(bytes@, i as nat),
        decreases n - i,
    {
        if i > 0 {
            out.push(' ');
        }
        let b: u32 = bytes[i] as u32;
        out.push(hex_digit(b / 16));
        out.push(hex_digit(b % 16));
        i += 1;
    }
    out
}

proof fn lemma_trimmed_start_skip(s: Seq<char>, i: int)
    requires
        0 <= i <= s.len(),
        forall|k: int| 0 <= k < i ==> white(s[k]),
    ensures
        trimmed_start(s) == trimmed_start(s.skip(i)),
    decreases i,
{
    if i > 0 {
        assert forall|k: int| 0 <= k < i - 1 implies white(s.skip(1)[k]) by {
            assert(s.skip(1)[k] == s[k + 1]);
        }
        assert(white(s[0]));
        lemma_trimmed_start_skip(s.skip(1), i - 1);
        assert(s.skip(1).skip(i - 1) =~= s.skip(i));
    } else {
        assert(s.skip(0) =~= s);
    }
}

/// The place behind the white space at a place.
fn past_white(s: &[char], at: usize) -> (r: usize)
    requires
        at <= s@.len(),
    ensures
        at <= r <= s@.len(),
        trimmed_start(s@.skip(at as int)) == s@.skip(r as int),
{
    let mut i: usize = at;
    while i < s.len() && is_white(s[i])
        invariant
            at <= i <= s@.len(),
            forall|k: int| at <= k < i ==> white(s@[k]),
        decreases s.len() - i,
    {
        i += 1;
    }
    proof {
        let rest = s@.skip(at as int);
        assert forall|k: int| 0 <= k < i - at implies white(rest[k]) by {
            assert(rest[k] == s@[at + k]);
        }
        lemma_trimmed_start_skip(rest, i - at);
        assert(rest.skip(i - at) =~= s@.skip(i as int));
        if i < s@.len() {
            assert(s@.skip(i as int)[0] == s@[i as int]);
        }
    }
    i
}

pub proof fn lemma_first_such(s: Seq<char>, f: spec_fn(char) -> bool, i: int)
    requires
        0 <= i <= s.len(),
        forall|k: int| 0 <= k < i ==> !f(s[k]),
        i < s.len() ==> f(s[i]),
    ensures
        first_such(s, f) == if i < s.len() {
            Some(i)
        } else {
            None
        },
    decreases s.len(),
{
    if s.len() > 0 && !f(s[0]) {
        assert forall|k: int| 0 <= k < i - 1 implies !f(s.skip(1)[k]) by {
            assert(s.skip(1)[k] == s[k + 1]);
        }
        lemma_first_such(s.skip(1), f, i - 1);
    }
}

/// The place behind the address at a place.
fn past_address(s: &[char], at: usize) -> (r: Option<usize>)
    requires
        at <= s@.len(),
    ensures
        match (r, behind_address(s@.skip(at as int))) {
            (Some(i), Some(t)) => i <= s@.len() && s@.skip(i as int) == t,
            (None, None) => true,
            _ => false,
        },
{
    let ghost whole = s@.skip(at as int);
    proof {
        reveal_strlit("回复");
    }
    let mut place: usize = at;
    if s.len() - at >= 2 && s[at] == '回' && s[at + 1] == '复' {
        proof {
            assert(whole.take(2) =~= "回复"@);
            assert(whole.skip(2) =~= s@.skip(at + 2));
        }
        place = past_white(s, at + 2);
    } else {
        proof {
            if begins(whole, "回复"@) {
                assert(whole.take(2)[0] == '回' && whole.take(2)[1] == '复');
                assert(whole[0] == s@[at as int] && whole[1] == s@[at + 1]);
            }
        }
    }
    let ghost rest = s@.skip(place as int);
    if place >= s.len() || s[place] != '@' {
        proof {
            if rest.len() > 0 {
                assert(rest[0] == s@[place as int]);
            }
        }
        return None;
    }
    proof {
        assert(rest[0] == s@[place as int]);
        assert(rest.skip(1) =~= s@.skip(place + 1));
    }
    let start: usize = past_white(s, place + 1);
    let ghost name = s@.skip(start as int);
    let mut i: usize = start;
    while i < s.len() && !(s[i] == ':' || s[i] == '：')
        invariant
            start <= i <= s@.len(),
            forall|k: int| start <= k < i ==> !colon(s@[k]),
        decreases s.len() - i,
    {
        i += 1;
    }
    proof {
        let f = |c: char| colon(c);
        assert forall|k: int| 0 <= k < i - start implies !f(name[k]) by {
            assert(name[k] == s@[start + k]);
        }
        if i < s@.len() {
            assert(name[i - start] == s@[i as int]);
        }
        lemma_first_such(name, f, i - start);
    }
    if i < s.len() {
        proof {
            assert(name.skip(i - start + 1) =~= s@.skip(i + 1));
        }
        return Some(past_white(s, i + 1));
    }
    let mut j: usize = start;
    while j < s.len() && !is_white(s[j])
        invariant
            start <= j <= s@.len(),
            forall|k: int| start <= k < j ==> !white(s@[k]),
        decreases s.len() - j,
    {
        j += 1;
    }
    proof {
        let f = |c: char| white(c);
        assert forall|k: int| 0 <= k < j - start implies !f(name[k]) by {
            assert(name[k] == s@[start + k]);
        }
        if j < s@.len() {
            assert(name[j - start] == s@[j as int]);
        }
        lemma_first_such(name, f, j - start);
    }
    if j < s.len() {
        proof {
            assert(name.skip(j - start + 1) =~= s@.skip(j + 1));
        }
        return Some(past_white(s, j + 1));
    }
    None
}

/// The place at which a text begins without the addresses before it.
fn strip_reply_prefix(s: &[char]) -> (r: usize)
    ensures
        r <= s@.len(),
        s@.skip(r as int) == without_address(s@),
{
    proof {
        assert(s@.skip(0) =~= s@);
    }
    let start: usize = past_white(s, 0);
    match past_address(s, start) {
        None => start,
        Some(next) => match past_address(s, next) {
            None => next,
            Some(last) => last,
        },
    }
}

/// Takes the fields of a source and makes records of them.
pub struct Preparer {
    report: PrepareReport,
    records: Vec<WeightedRecord>,
    poetry_bodies: PrintSet<BodyPrint>,
    poetry_titles: PrintSet<TitlePrint>,
}

impl View for Preparer {
    type V = Prepared;

    closed spec fn view(&self) -> Prepared {
        Prepared {
            stats: self.report.stats,
            weights: self.report.records_by_weight@,
            record_samples: views(self.report.record_samples@),
            error_samples: views(self.report.error_samples@),
            records: views(self.records@),
            bodies: self.poetry_bodies@,
            titles: self.poetry_titles@,
        }
    }
}

impl Preparer {
    pub closed spec fn kind(&self) -> SourceKind {
        self.report.kind
    }

    /// The sets of fingerprints are sound.
    pub closed spec fn wf(&self) -> bool {
        self.poetry_bodies.wf() && self.poetry_titles.wf()
    }

    pub fn new(kind: SourceKind) -> (r: Self)
        ensures
            r.wf(),
            r.kind() == kind,
            r@ == nothing_prepared(),
    {
        let r = Preparer {
            report: PrepareReport {
                kind,
                stats: PrepareStats::default(),
                records_by_weight: BTreeMap::new(),
                record_samples: Vec::new(),
                error_samples: Vec::new(),
            },
            records: Vec::new(),
            poetry_bodies: PrintSet::new(),
            poetry_titles: PrintSet::new(),
        };
        proof {
            assert(r@.weights =~= Map::empty());
            assert(r@.record_samples =~= Seq::empty());
            assert(r@.error_samples =~= Seq::empty());
            assert(r@.records =~= Seq::empty());
        }
        r
    }

    /// What has been counted.
    pub fn stats(&self) -> (r: PrepareStats)
        ensures
            r == self@.stats,
    {
        self.report.stats
    }

    /// Sets the counts.
    pub(crate) fn set_stats(&mut self, stats: PrepareStats)
        ensures
            final(self).wf() == old(self).wf(),
            final(self).kind() == old(self).kind(),
            final(self)@ == (Prepared { stats, ..old(self)@ }),
    {
        self.report.stats = stats;
    }

    /// Counts a further file.
    pub fn count_file(&mut self)
        ensures
            final(self).wf() == old(self).wf(),
            final(self).kind() == old(self).kind(),
            final(self)@ == with_file_counted(old(self)@),
    {
        self.report.stats.files_seen = bump(self.report.stats.files_seen, 1);
    }

    /// The report.
    pub fn report(&self) -> (r: &PrepareReport)
        ensures
            r.kind == self.kind(),
            r.stats == self@.stats,
            r.records_by_weight@ == self@.weights,
            views(r.record_samples@) == self@.record_samples,
            views(r.error_samples@) == self@.error_samples,
    {
        &self.report
    }

    /// The report and the records.
    pub fn into_parts(self) -> (r: (PrepareReport, Vec<WeightedRecord>))
        ensures
            r.0.kind == self.kind(),
            r.0.stats == self@.stats,
            r.0.records_by_weight@ == self@.weights,
            views(r.0.record_samples@) == self@.record_samples,
            views(r.0.error_samples@) == self@.error_samples,
            views(r.1@) == self@.records,
    {
        (self.report, self.records)
    }

    /// Hands out the records made so far.
    pub fn take_records(&mut self) -> (r: Vec<WeightedRecord>)
        ensures
            final(self).wf() == old(self).wf(),
            final(self).kind() == old(self).kind(),
            views(r@) == old(self)@.records,
            final(self)@ == (Prepared { records: Seq::empty(), ..old(self)@ }),
    {
        let mut out: Vec<WeightedRecord> = Vec::new();
        std::mem::swap(&mut out, &mut self.records);
        proof {
            assert(self@.records =~= Seq::empty());
        }
        out
    }

    /// Notes a body of a poem, and tells whether it is new.
    pub(crate) fn note_body(&mut self, print: BodyPrint) -> (r: bool)
        requires
            old(self).wf(),
        ensures
            final(self).wf(),
            final(self).kind() == old(self).kind(),
            r == !old(self)@.bodies.contains(print),
            final(self)@ == (Prepared { bodies: old(self)@.bodies.insert(print), ..old(self)@ }),
    {
        self.poetry_bodies.insert(print)
    }

    /// Notes a title of a poem, and tells whether it is new.
    pub(crate) fn note_title(&mut self, print: TitlePrint) -> (r: bool)
        requires
            old(self).wf(),
        ensures
            final(self).wf(),
            final(self).kind() == old(self).kind(),
            r == !old(self)@.titles.contains(print),
            final(self)@ == (Prepared { titles: old(self)@.titles.insert(print), ..old(self)@ }),
    {
        self.poetry_titles.insert(print)
    }

    /// Notes a fault.
    pub fn error(&mut self, source: &str, line: u64, message: &str, preview: &[char])
        ensures
            final(self).wf() == old(self).wf(),
            final(self).kind() == old(self).kind(),
            final(self)@ == with_error(old(self)@, source@, line, message@, preview@),
    {
        let ghost samples = views(self.report.error_samples@);
        self.report.stats.parse_errors = bump(self.report.stats.parse_errors, 1);
        if self.report.error_samples.len() < SAMPLE_LIMIT {
            let sample = PrepareErrorSample {
                source: source.to_owned(),
                line,
                message: message.to_owned(),
                preview: short_preview(preview),
            };
            let ghost seen = sample@;
            self.report.error_samples.push(sample);
            proof {
                assert(views(self.report.error_samples@) =~= samples.push(seen));
            }
        }
    }

    /// Notes a line that is no text.
    pub fn invalid_utf8(&mut self, source: &str, line: u64, bytes: &[u8])
        ensures
            final(self).wf() == old(self).wf(),
            final(self).kind() == old(self).kind(),
            final(self)@ == with_invalid_line(old(self)@, source@, line, bytes@),
    {
        self.report.stats.invalid_utf8_lines = bump(self.report.stats.invalid_utf8_lines, 1);
        let shown = hex_preview(bytes);
        self.error(source, line, "该行不是严格 UTF-8，已跳过", shown.as_slice());
    }

    /// Adds a record.
    fn emit(&mut self, text: &Vec<char>, weight: u64)
        ensures
            final(self).wf() == old(self).wf(),
            final(self).kind() == old(self).kind(),
            final(self)@ == with_record(old(self)@, text@, weight),
    {
        let ghost samples = views(self.report.record_samples@);
        let ghost records = views(self.records@);
        if self.report.record_samples.len() < SAMPLE_LIMIT {
            self.report.record_samples.push(
                WeightedRecord { text: string_of(text.as_slice()), weight },
            );
            proof {
                assert(views(self.report.record_samples@) =~= samples.push((text@, weight)));
            }
        }
        self.records.push(WeightedRecord { text: string_of(text.as_slice()), weight });
        proof {
            assert(views(self.records@) =~= records.push((text@, weight)));
        }
        let mut stats = self.report.stats;
        stats.emitted_records = bump(stats.emitted_records, 1);
        stats.emitted_han_chars = bump(stats.emitted_han_chars, text.len() as u64);
        stats.emitted_weight = bump(stats.emitted_weight, weight);
        self.report.stats = stats;
        count_weight(&mut self.report.records_by_weight, weight);
    }

    /// Makes records of a field.
    pub fn selected_text(&mut self, text: &[char], weight: u64)
        ensures
            final(self).wf() == old(self).wf(),
            final(self).kind() == old(self).kind(),
            final(self)@ == with_field(old(self)@, text@, weight, false),
    {
        self.selected(text, weight, false);
    }

    /// Makes records of a social text, without addresses and what stands in
    /// brackets.
    pub fn selected_social_text(&mut self, text: &[char], weight: u64)
        ensures
            final(self).wf() == old(self).wf(),
            final(self).kind() == old(self).kind(),
            final(self)@ == with_field(old(self)@, text@, weight, true),
    {
        self.selected(text, weight, true);
    }

    fn selected(&mut self, text: &[char], weight: u64, social: bool)
        ensures
            final(self).wf() == old(self).wf(),
            final(self).kind() == old(self).kind(),
            final(self)@ == with_field(old(self)@, text@, weight, social),
    {
        let ghost start = self@;
        let from: usize = if social {
            strip_reply_prefix(text)
        } else {
            0
        };
        let ghost s = if social {
            without_address(text@)
        } else {
            text@
        };
        proof {
            assert(text@.skip(0) =~= text@);
            assert(text@.skip(from as int) == s);
        }
        let mut open: Vec<char> = Vec::new();
        let mut depth: usize = 0;
        let mut found = false;
        let mut i: usize = from;
        while i < text.len()
            invariant
                from <= i <= text@.len(),
                s == text@.skip(from as int),
                self.wf() == old(self).wf(),
                self.kind() == old(self).kind(),
                depth == (if social {
                    bracket_depth(s, (i - from) as nat)
                } else {
                    0
                }),
                depth <= i - from,
                open@ == runs_of(s, social, (i - from) as nat).1,
                self@ == with_records(start, runs_of(s, social, (i - from) as nat).0, weight),
                found == (open@.len() > 0 || runs_of(s, social, (i - from) as nat).0.len() > 0),
                social && depth > 0 ==> open@.len() == 0,
            decreases text.len() - i,
        {
            let c = text[i];
            let ghost n = (i - from) as nat;
            let ghost ended = runs_of(s, social, n).0;
            proof {
                assert(s[n as int] == c);
                assert(ended.push(open@).drop_last() =~= ended);
                assert(kept('[') == false && kept(']') == false);
            }
            if (is_han(c) || c == '〇') && !(social && depth != 0) {
                found = true;
                open.push(c);
            } else if open.len() > 0 {
                self.emit(&open, weight);
                open = Vec::new();
            }
            if social {
                if c == '[' {
                    depth = depth + 1;
                } else if c == ']' && depth != 0 {
                    depth = depth - 1;
                }
            }
            i += 1;
        }
        if open.len() > 0 {
            proof {
                let ended = runs_of(s, social, s.len()).0;
                assert(ended.push(open@).drop_last() =~= ended);
            }
            self.emit(&open, weight);
        }
        let mut stats = self.report.stats;
        stats.selected_fields = bump(stats.selected_fields, 1);
        if !found {
            stats.fields_without_han = bump(stats.fields_without_han, 1);
        }
        self.report.stats = stats;
    }
}

} // verus!
