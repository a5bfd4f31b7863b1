//! Sources, records and reports.
use crate::text::{chars_of, lemma_same_code_point, spells};
use std::collections::BTreeMap;
use vstd::prelude::*;
use vstd::string::*;

verus! {

/// The fixed corpus layouts.
#[derive(Clone, Copy, Debug, PartialEq, Eq, Structural)]
pub enum SourceKind {
    /// ChinesePuzzleTool's `out.js` template-literal word list.
    Wordlist,
    /// `563w_baidubaike.json`, one Baidu Baike object per line.
    BaiduBaike,
    /// A WikiExtractor directory containing extensionless JSONL shards.
    Wikipedia,
    /// A MediaWiki XML export from Moegirl/Mengniang Baike.
    Moegirl,
    /// Bilibili comments in `message,time,timestamp` CSV form.
    Bilibili,
    /// The small `original.json` Tieba/thread array.
    Tieba,
    /// ChatML training objects in `train.jsonl`.
    Train,
    /// The curated JSON collections in the chinese-poetry repository.
    Poetry,
}

/// A character of ASCII in lower case; any other as it is.
pub open spec fn lower(c: char) -> char {
    if 'A' <= c <= 'Z' {
        ((c as u32 + 32) as u32) as char
    } else {
        c
    }
}

/// A text with its ASCII characters in lower case.
pub open spec fn lowered(s: Seq<char>) -> Seq<char> {
    Seq::new(s.len(), |i: int| lower(s[i]))
}

/// A character of ASCII in lower case; any other as it is.
pub(crate) fn lower_char(c: char) -> (r: char)
    ensures
        r == lower(c),
{
    if 'A' <= c && c <= 'Z' {
        match char::from_u32(c as u32 + 32) {
            Some(d) => {
                proof {
                    lemma_same_code_point(d, ((c as u32 + 32) as u32) as char);
                }
                d
            },
            None => c,
        }
    } else {
        c
    }
}

/// A text with its ASCII characters in lower case.
pub(crate) fn lower_chars(s: &[char]) -> (r: Vec<char>)
    ensures
        r@ == lowered(s@),
{
    let mut out: Vec<char> = Vec::new();
    let mut i: usize = 0;
    while i < s.len()
        invariant
            i <= s@.len(),
            out@.len() == i,
            forall|k: int| 0 <= k < i ==> out@[k] == lower(s@[k]),
        decreases s.len() - i,
    {
        out.push(lower_char(s[i]));
        i += 1;
    }
    assert(out@ =~= lowered(s@));
    out
}

/// The name of a source.
pub open spec fn kind_name(kind: SourceKind) -> Seq<char> {
    match kind {
        SourceKind::Wordlist => "wordlist"@,
        SourceKind::BaiduBaike => "baidu-baike"@,
        SourceKind::Wikipedia => "wikipedia"@,
        SourceKind::Moegirl => "moegirl"@,
        SourceKind::Bilibili => "bilibili"@,
        SourceKind::Tieba => "tieba"@,
        SourceKind::Train => "train"@,
        SourceKind::Poetry => "poetry"@,
    }
}

/// The source that a name stands for.
pub open spec fn kind_named(name: Seq<char>) -> Option<SourceKind> {
    if name == "wordlist"@ || name == "words"@ || name == "out.js"@ {
        Some(SourceKind::Wordlist)
    } else if name == "baidu"@ || name == "baidu-baike"@ || name == "baidubaike"@ {
        Some(SourceKind::BaiduBaike)
    } else if name == "wikipedia"@ || name == "wiki"@ || name == "wiki-zh"@ {
        Some(SourceKind::Wikipedia)
    } else if name == "moegirl"@ || name == "mengniang"@ {
        Some(SourceKind::Moegirl)
    } else if name == "bilibili"@ || name == "bili"@ {
        Some(SourceKind::Bilibili)
    } else if name == "tieba"@ || name == "original"@ {
        Some(SourceKind::Tieba)
    } else if name == "train"@ || name == "chatml"@ {
        Some(SourceKind::Train)
    } else if name == "poetry"@ || name == "chinese-poetry"@ || name == "poems"@ {
        Some(SourceKind::Poetry)
    } else {
        None
    }
}

impl SourceKind {
    /// The name of the source.
    pub fn to_text(self) -> (r: &'static str)
        ensures
            r@ == kind_name(self),
    {
        match self {
            SourceKind::Wordlist => "wordlist",
            SourceKind::BaiduBaike => "baidu-baike",
            SourceKind::Wikipedia => "wikipedia",
            SourceKind::Moegirl => "moegirl",
            SourceKind::Bilibili => "bilibili",
            SourceKind::Tieba => "tieba",
            SourceKind::Train => "train",
            SourceKind::Poetry => "poetry",
        }
    }

    /// The source with this name, whatever the case of its letters.
    pub fn from_name(value: &str) -> (r: Result<Self, String>)
        ensures
            match kind_named(lowered(value@)) {
                Some(kind) => r == Ok::<Self, String>(kind),
                None => r matches Err(message) && message@ == "未知语料来源："@ + value@,
            },
    {
        let given = chars_of(value);
        let name = lower_chars(given.as_slice());
        let name = name.as_slice();
        if spells(name, "wordlist") || spells(name, "words") || spells(name, "out.js") {
            Ok(SourceKind::Wordlist)
        } else if spells(name, "baidu") || spells(name, "baidu-baike") || spells(
            name,
            "baidubaike",
        ) {
            Ok(SourceKind::BaiduBaike)
        } else if spells(name, "wikipedia") || spells(name, "wiki") || spells(name, "wiki-zh") {
            Ok(SourceKind::Wikipedia)
        } else if spells(name, "moegirl") || spells(name, "mengniang") {
            Ok(SourceKind::Moegirl)
        } else if spells(name, "bilibili") || spells(name, "bili") {
            Ok(SourceKind::Bilibili)
        } else if spells(name, "tieba") || spells(name, "original") {
            Ok(SourceKind::Tieba)
        } else if spells(name, "train") || spells(name, "chatml") {
            Ok(SourceKind::Train)
        } else if spells(name, "poetry") || spells(name, "chinese-poetry") || spells(
            name,
            "poems",
        ) {
            Ok(SourceKind::Poetry)
        } else {
            let mut message = "未知语料来源：".to_owned();
            message.append(value);
            Err(message)
        }
    }
}

/// A Han-only record and its weight in its source.
#[derive(Clone, Debug, PartialEq, Eq)]
pub struct WeightedRecord {
    pub text: String,
    pub weight: u64,
}

impl View for WeightedRecord {
    type V = (Seq<char>, u64);

    open spec fn view(&self) -> (Seq<char>, u64) {
        (self.text@, self.weight)
    }
}

/// A sample of a fault in a source, for human audit.
#[derive(Clone, Debug, PartialEq, Eq)]
pub struct PrepareErrorSample {
    pub source: String,
    pub line: u64,
    pub message: String,
    pub preview: String,
}

/// The mathematical content of a [`PrepareErrorSample`].
pub struct SampleView {
    pub source: Seq<char>,
    pub line: u64,
    pub message: Seq<char>,
    pub preview: Seq<char>,
}

impl View for PrepareErrorSample {
    type V = SampleView;

    open spec fn view(&self) -> SampleView {
        SampleView {
            source: self.source@,
            line: self.line,
            message: self.message@,
            preview: self.preview@,
        }
    }
}

/// How far the preparation of a source has come.
#[derive(Clone, Debug, PartialEq, Eq)]
pub struct PrepareProgress {
    /// Current source file, useful for multi-shard Wikipedia inputs.
    pub source: String,
    /// One-based current file number.
    pub file_index: usize,
    pub file_count: usize,
    pub file_bytes_read: u64,
    pub file_bytes_total: u64,
    pub bytes_read: u64,
    pub bytes_total: u64,
}

/// The mathematical content of a [`PrepareProgress`].
pub struct ProgressView {
    pub source: Seq<char>,
    pub file_index: nat,
    pub file_count: nat,
    pub file_bytes_read: nat,
    pub file_bytes_total: nat,
    pub bytes_read: nat,
    pub bytes_total: nat,
}

impl View for PrepareProgress {
    type V = ProgressView;

    open spec fn view(&self) -> ProgressView {
        ProgressView {
            source: self.source@,
            file_index: self.file_index as nat,
            file_count: self.file_count as nat,
            file_bytes_read: self.file_bytes_read as nat,
            file_bytes_total: self.file_bytes_total as nat,
            bytes_read: self.bytes_read as nat,
            bytes_total: self.bytes_total as nat,
        }
    }
}

/// What has been counted. A count stops at the largest number.
#[derive(Clone, Copy, Debug, PartialEq, Eq, Structural)]
pub struct PrepareStats {
    pub files_seen: u64,
    pub bytes_read: u64,
    pub physical_lines: u64,
    pub logical_records: u64,
    pub selected_fields: u64,
    pub fields_without_han: u64,
    pub emitted_records: u64,
    pub emitted_han_chars: u64,
    pub emitted_weight: u64,
    pub skipped_records: u64,
    pub parse_errors: u64,
    pub invalid_utf8_lines: u64,
}

/// Nothing has been counted.
pub open spec fn no_stats() -> PrepareStats {
    PrepareStats {
        files_seen: 0,
        bytes_read: 0,
        physical_lines: 0,
        logical_records: 0,
        selected_fields: 0,
        fields_without_han: 0,
        emitted_records: 0,
        emitted_han_chars: 0,
        emitted_weight: 0,
        skipped_records: 0,
        parse_errors: 0,
        invalid_utf8_lines: 0,
    }
}

impl Default for PrepareStats {
    fn default() -> (r: Self)
        ensures
            r == no_stats(),
    {
        PrepareStats {
            files_seen: 0,
            bytes_read: 0,
            physical_lines: 0,
            logical_records: 0,
            selected_fields: 0,
            fields_without_han: 0,
            emitted_records: 0,
            emitted_han_chars: 0,
            emitted_weight: 0,
            skipped_records: 0,
            parse_errors: 0,
            invalid_utf8_lines: 0,
        }
    }
}

/// The report on one source.
#[derive(Clone, Debug, PartialEq, Eq)]
pub struct PrepareReport {
    pub kind: SourceKind,
    pub stats: PrepareStats,
    /// How many records have each weight, by weight.
    pub records_by_weight: BTreeMap<u64, u64>,
    pub record_samples: Vec<WeightedRecord>,
    pub error_samples: Vec<PrepareErrorSample>,
}

/// What ends the preparation of a source. A fault in a record does not: it
/// stands in the report, and the record is skipped.
#[derive(Clone, Debug, PartialEq, Eq)]
pub enum PrepareError {
    InvalidInput(String),
    Io { path: String, message: String },
    Output(String),
}

/// How an error reads.
pub open spec fn prepare_error_text(e: PrepareError) -> Seq<char> {
    match e {
        PrepareError::InvalidInput(message) => message@,
        PrepareError::Io { path, message } => "无法读取 "@ + path@ + "："@ + message@,
        PrepareError::Output(message) => "无法写出语料记录："@ + message@,
    }
}

impl PrepareError {
    pub fn to_text(&self) -> (r: String)
        ensures
            r@ == prepare_error_text(*self),
    {
        match self {
            PrepareError::InvalidInput(message) => message.as_str().to_owned(),
            PrepareError::Io { path, message } => {
                let mut r = "无法读取 ".to_owned();
                r.append(path.as_str());
                r.append("：");
                r.append(message.as_str());
                r
            },
            PrepareError::Output(message) => {
                let mut r = "无法写出语料记录：".to_owned();
                r.append(message.as_str());
                r
            },
        }
    }
}

} // verus!
