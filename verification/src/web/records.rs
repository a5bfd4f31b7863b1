//! The lines that an index is built from, and how far they have been read.
use crate::chinese::han::{han, is_han};
use crate::corpus::files::{with_files, SourceFile};
use crate::corpus::laws::law_prepared_source_is_in_order;
use crate::corpus::preparer::kept;
use crate::corpus::types::{SourceKind, WeightedRecord};
use crate::index::builder::{chains, emit_all, record_fault, ExternalIndexBuilder};
use crate::index::error::IndexError;
use crate::index::shard::{line_text, trim_line_ending};
use crate::text::{
    char_debug, chars_of, debug_char, decimal, decimal_of, digit, find_char, first_place,
    lemma_decimal_read_back, lemma_first_place, parse_unsigned, string_of, unsigned_value,
};
use vstd::prelude::*;
use vstd::string::*;

verus! {

/// The first character that is not Han.
pub open spec fn first_other(s: Seq<char>) -> Option<char>
    decreases s.len(),
{
    if s.len() == 0 {
        None
    } else if !han(s[0]) {
        Some(s[0])
    } else {
        first_other(s.skip(1))
    }
}

/// The place of a line in its file.
pub open spec fn line_place(path: Seq<char>, line: u64) -> Seq<char> {
    path + " 第 "@ + decimal(line as nat) + " 行"@
}

/// The text and the weight that a line gives, if it gives any; or what is wrong
/// with it.
pub open spec fn record_of_line(path: Seq<char>, line: u64, s: Seq<char>) -> Result<
    Option<(Seq<char>, u64)>,
    Seq<char>,
> {
    if s.len() == 0 {
        Ok(None)
    } else {
        match first_place(s, '\t') {
            None => Err(line_place(path, line) + "不是 权重<TAB>文本"@),
            Some(i) => {
                let text = s.skip(i + 1);
                match unsigned_value(s.take(i), 10) {
                    None => Err(line_place(path, line) + "权重无效"@),
                    Some(weight) => if weight > u64::MAX {
                        Err(line_place(path, line) + "权重无效"@)
                    } else if weight == 0 || weight > i64::MAX {
                        Err(line_place(path, line) + "权重必须在 1..=i64::MAX"@)
                    } else if text.len() == 0 {
                        Ok(None)
                    } else {
                        match first_other(text) {
                            Some(c) => Err(
                                line_place(path, line) + "含非汉字 "@ + debug_char(c)
                                    + "；请重新 prepare"@,
                            ),
                            None => Ok(Some((text, weight as u64))),
                        }
                    },
                }
            },
        }
    }
}

/// A line without its ending.
pub open spec fn without_ending(s: Seq<char>) -> Seq<char> {
    line_text(s)
}

fn message_at(path: &str, line: u64, message: &str) -> (r: String)
    ensures
        r@ == line_place(path@, line) + message@,
{
    let mut r = path.to_owned();
    r.append(" 第 ");
    r.append(decimal_of(line).as_str());
    r.append(" 行");
    r.append(message);
    r
}

fn find_other(s: &[char]) -> (r: Option<char>)
    ensures
        r == first_other(s@),
{
    let mut i: usize = 0;
    assert(s@.skip(0) =~= s@);
    while i < s.len()
        invariant
            i <= s@.len(),
            first_other(s@) == first_other(s@.skip(i as int)),
        decreases s.len() - i,
    {
        assert(s@.skip(i as int)[0] == s@[i as int]);
        assert(s@.skip(i as int).skip(1) =~= s@.skip(i + 1));
        if !is_han(s[i]) {
            return Some(s[i]);
        }
        i += 1;
    }
    None
}

/// The text and the weight that a line gives.
pub fn parse_record_line(path: &str, line: u64, raw: &str) -> (r: Result<
    Option<(String, u64)>,
    String,
>)
    ensures
        match (r, record_of_line(path@, line, without_ending(raw@))) {
            (Ok(Some((text, weight))), Ok(Some((t, w)))) => text@ == t && weight == w && 0 < w
                <= i64::MAX,
            (Ok(None), Ok(None)) => true,
            (Err(message), Err(expected)) => message@ == expected,
            _ => false,
        },
{
    let chars = chars_of(raw);
    let s = trim_line_ending(chars.as_slice());
    let n: usize = s.len();
    if n == 0 {
        return Ok(None);
    }
    let tab: usize = match find_char(s, '\t') {
        Some(tab) => tab,
        None => {
            return Err(message_at(path, line, "不是 权重<TAB>文本"));
        },
    };
    proof {
        assert(s@.subrange(0, tab as int) =~= s@.take(tab as int));
        assert(s@.subrange(tab + 1, n as int) =~= s@.skip(tab + 1));
    }
    let weight: u64 = match parse_unsigned(&s[0..tab], 10, u64::MAX) {
        Some(weight) => weight,
        None => {
            return Err(message_at(path, line, "权重无效"));
        },
    };
    if weight == 0 || weight > i64::MAX as u64 {
        return Err(message_at(path, line, "权重必须在 1..=i64::MAX"));
    }
    let text = &s[tab + 1..n];
    if text.len() == 0 {
        return Ok(None);
    }
    match find_other(text) {
        Some(c) => {
            let mut message = message_at(path, line, "含非汉字 ");
            message.append(char_debug(c).as_str());
            message.append("；请重新 prepare");
            Err(message)
        },
        None => Ok(Some((string_of(text), weight))),
    }
}

/// The line that is written for a record.
pub open spec fn line_of_record(text: Seq<char>, weight: u64) -> Seq<char> {
    decimal(weight as nat) + seq!['\t'] + text + seq!['\n']
}

/// The line that is written for a record.
pub fn record_line(record: &WeightedRecord) -> (r: String)
    ensures
        r@ == line_of_record(record.text@, record.weight),
{
    let mut r = decimal_of(record.weight);
    r.push('\t');
    r.append(record.text.as_str());
    r.push('\n');
    proof {
        assert(r@ =~= line_of_record(record.text@, record.weight));
    }
    r
}

proof fn lemma_no_other(s: Seq<char>)
    requires
        forall|i: int| 0 <= i < s.len() ==> han(#[trigger] s[i]),
    ensures
        first_other(s) is None,
    decreases s.len(),
{
    if s.len() > 0 {
        assert forall|i: int| 0 <= i < s.skip(1).len() implies han(#[trigger] s.skip(1)[i]) by {
            assert(s.skip(1)[i] == s[i + 1]);
        }
        lemma_no_other(s.skip(1));
    }
}

/// A line that is written for a record of Han characters gives it back.
pub proof fn law_record_line_reads_back(
    path: Seq<char>,
    line: u64,
    text: Seq<char>,
    weight: u64,
)
    requires
        text.len() > 0,
        forall|i: int| 0 <= i < text.len() ==> han(#[trigger] text[i]),
        0 < weight <= i64::MAX,
    ensures
        record_of_line(path, line, without_ending(line_of_record(text, weight))) == Ok::<
            Option<(Seq<char>, u64)>,
            Seq<char>,
        >(Some((text, weight))),
{
    let number = decimal(weight as nat);
    let raw = line_of_record(text, weight);
    let body = number + seq!['\t'] + text;
    assert(raw.drop_last() =~= body);
    assert(body.last() == text[text.len() - 1]);
    assert(without_ending(raw) == body);
    lemma_decimal_read_back(weight as nat);
    assert forall|k: int| 0 <= k < number.len() implies body[k] != '\t' by {
        assert(digit(number[k]));
        assert(body[k] == number[k]);
    }
    assert(body[number.len() as int] == '\t');
    lemma_first_place(body, '\t', number.len() as int);
    assert(body.take(number.len() as int) =~= number);
    assert(body.skip((number.len() + 1) as int) =~= text);
    lemma_no_other(text);
}

/// Every record that is prepared from a source is written as a line that an
/// index can be built from, and that gives it back.
pub proof fn law_prepared_records_are_read_back(
    kind: SourceKind,
    files: Seq<SourceFile>,
    i: int,
    path: Seq<char>,
    line: u64,
)
    requires
        0 <= i < with_files(kind, files, files.len()).records.len(),
    ensures
        ({
            let (text, weight) = with_files(kind, files, files.len()).records[i];
            record_of_line(path, line, without_ending(line_of_record(text, weight))) == Ok::<
                Option<(Seq<char>, u64)>,
                Seq<char>,
            >(Some((text, weight)))
        }),
{
    law_prepared_source_is_in_order(kind, files, files.len());
    let (text, weight) = with_files(kind, files, files.len()).records[i];
    assert forall|k: int| 0 <= k < text.len() implies han(#[trigger] text[k]) by {
        assert(kept(text[k]));
    }
    law_record_line_reads_back(path, line, text, weight);
}

/// Why a line could not be added.
#[derive(Debug)]
pub enum LineError {
    /// The line is wrong.
    Line(String),
    /// The builder refused the record.
    Index(IndexError),
}

/// Adds the record that a line gives to an index that is being built, and tells
/// whether it gave one.
pub fn push_line(builder: &mut ExternalIndexBuilder, path: &str, line: u64, raw: &str) -> (r:
    Result<bool, LineError>)
    requires
        old(builder).wf(),
    ensures
        match record_of_line(path@, line, without_ending(raw@)) {
            Err(message) => (r matches Err(LineError::Line(m)) && m@ == message)
                && *final(builder) == *old(builder),
            Ok(None) => r == Ok::<bool, LineError>(false) && *final(builder) == *old(builder),
            Ok(Some((text, weight))) => match r {
                Ok(given) => {
                    &&& given
                    &&& record_fault(
                        old(builder).spec_options(),
                        old(builder).records(),
                        (old(builder).runs(), old(builder).pending()),
                        text,
                        weight,
                    ) is None
                    &&& final(builder).wf()
                    &&& final(builder).spec_options() == old(builder).spec_options()
                    &&& final(builder).records() == old(builder).records().push((text, weight))
                    &&& (final(builder).runs(), final(builder).pending()) == emit_all(
                        (old(builder).runs(), old(builder).pending()),
                        chains(old(builder).spec_options().mode, text, weight),
                        old(builder).spec_options().max_entries_in_memory as nat,
                    )
                },
                Err(e) => e matches LineError::Index(f) && record_fault(
                    old(builder).spec_options(),
                    old(builder).records(),
                    (old(builder).runs(), old(builder).pending()),
                    text,
                    weight,
                ) == Some(f@),
            },
        },
{
    match parse_record_line(path, line, raw) {
        Err(message) => Err(LineError::Line(message)),
        Ok(None) => Ok(false),
        Ok(Some((text, weight))) => match builder.push_record(text.as_str(), weight) {
            Ok(()) => Ok(true),
            Err(e) => Err(LineError::Index(e)),
        },
    }
}

/// A part of a whole in so many steps. All of nothing is the whole.
pub open spec fn share_of(current: u64, total: u64, steps: nat) -> nat {
    if total == 0 {
        steps
    } else {
        let done = if current < total {
            current
        } else {
            total
        };
        done as nat * steps / total as nat
    }
}

/// A part of a whole in so many steps.
pub fn progress_share(current: u64, total: u64, steps: u32) -> (r: u32)
    ensures
        r == share_of(current, total, steps as nat),
        r <= steps,
{
    if total == 0 {
        return steps;
    }
    let done: u64 = if current < total {
        current
    } else {
        total
    };
    proof {
        assert(done * steps <= total * steps) by (nonlinear_arith)
            requires
                done <= total,
        ;
        assert(done * steps <= u64::MAX * steps) by (nonlinear_arith)
            requires
                done <= u64::MAX,
        ;
        assert((done * steps) / (total as int) <= steps) by (nonlinear_arith)
            requires
                done * steps <= total * steps,
                total > 0,
        ;
        assert((done * steps) / (total as int) >= 0) by (nonlinear_arith)
            requires
                done >= 0,
                steps >= 0,
                total > 0,
        ;
    }
    let share: u128 = (done as u128) * (steps as u128) / (total as u128);
    share as u32
}

} // verus!
