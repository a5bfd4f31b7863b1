//! Text shards: sorted keys with their counts, one per line.
use crate::index::error::{ErrorView, IndexError};
use crate::index::mode::{mode_of_tag, mode_tag, IndexMode};
use crate::index::model::Log;
use crate::index::pending::{log_ok, scalars};
use crate::ordered::{lex_leq, slice_is_leq, views};
use crate::text::{
    chars_of, decimal, decimal_of, digit_value, digits_value, find_char, first_place, hexadecimal,
    hexadecimal_of, lemma_code_point, lemma_same_code_point, parse_unsigned, scalar, spells,
    unsigned_value, value_of_digit,
};
use vstd::prelude::*;
use vstd::string::*;

verus! {

/// The first line of every shard.
pub open spec fn shard_magic() -> Seq<char> {
    "NUTRIMATIC_ZH_TEXT_SHARD_V2"@
}

/// The character is a control character.
pub open spec fn control(c: char) -> bool {
    (c as u32) < 0x20 || 0x7F <= c as u32 <= 0x9F
}

/// A character as a shard writes it.
pub open spec fn escaped_char(c: char) -> Seq<char> {
    if c == '\\' {
        seq!['\\', '\\']
    } else if c == '\t' {
        seq!['\\', 't']
    } else if c == '\n' {
        seq!['\\', 'n']
    } else if c == '\r' {
        seq!['\\', 'r']
    } else if control(c) {
        seq!['\\', 'u', '{'] + hexadecimal(c as nat) + seq!['}']
    } else {
        seq![c]
    }
}

/// A key as a shard writes it.
pub open spec fn escaped(key: Seq<u32>) -> Seq<char>
    decreases key.len(),
{
    if key.len() == 0 {
        Seq::empty()
    } else {
        escaped(key.drop_last()) + escaped_char(key.last() as char)
    }
}

/// The digits of an escape up to its brace, with the place behind it.
pub open spec fn escape_digits(s: Seq<char>, at: int, digits: Seq<char>) -> Result<
    (Seq<char>, int),
    Seq<char>,
>
    decreases s.len() - at,
{
    if at < 0 || at >= s.len() {
        Err("unterminated Unicode escape"@)
    } else if s[at] == '}' {
        Ok((digits, at + 1))
    } else if digit_value(s[at], 16) is Some && digits.len() < 6 {
        escape_digits(s, at + 1, digits.push(s[at]))
    } else {
        Err("invalid hexadecimal Unicode escape"@)
    }
}

/// What a backslash at `at` stands for, with the place behind it.
pub open spec fn unescape_one(s: Seq<char>, at: int) -> Result<(u32, int), Seq<char>> {
    if at + 1 >= s.len() {
        Err("trailing backslash"@)
    } else if s[at + 1] == '\\' {
        Ok(('\\' as u32, at + 2))
    } else if s[at + 1] == 't' {
        Ok(('\t' as u32, at + 2))
    } else if s[at + 1] == 'n' {
        Ok(('\n' as u32, at + 2))
    } else if s[at + 1] == 'r' {
        Ok(('\r' as u32, at + 2))
    } else if s[at + 1] == 'u' {
        if at + 2 >= s.len() || s[at + 2] != '{' {
            Err("expected '{' after \\u"@)
        } else {
            match escape_digits(s, at + 3, Seq::empty()) {
                Err(e) => Err(e),
                Ok((digits, next)) => if digits.len() == 0 {
                    Err("empty Unicode escape"@)
                } else {
                    let value = digits_value(digits, 16)->0;
                    if scalar(value as int) {
                        Ok((value as u32, next))
                    } else {
                        Err("escape is not a Unicode scalar value"@)
                    }
                },
            }
        }
    } else {
        Err("unknown backslash escape"@)
    }
}

/// The key that the rest of a line writes, behind what has been read.
pub open spec fn unescape_from(s: Seq<char>, at: int, key: Seq<u32>) -> Result<
    Seq<u32>,
    Seq<char>,
>
    decreases s.len() - at,
{
    if at < 0 || at >= s.len() {
        if key.len() == 0 {
            Err("empty keys are not supported"@)
        } else {
            Ok(key)
        }
    } else if s[at] != '\\' {
        unescape_from(s, at + 1, key.push(s[at] as u32))
    } else {
        match unescape_one(s, at) {
            Err(e) => Err(e),
            Ok((x, next)) => if !(at < next <= s.len()) {
                Err("unknown backslash escape"@)
            } else {
                unescape_from(s, next, key.push(x))
            },
        }
    }
}

/// A line without its ending.
pub open spec fn line_text(raw: Seq<char>) -> Seq<char> {
    if raw.len() > 0 && raw.last() == '\n' {
        let body = raw.drop_last();
        if body.len() > 0 && body.last() == '\r' {
            body.drop_last()
        } else {
            body
        }
    } else {
        raw
    }
}

/// The lines of a text, each with its ending.
pub open spec fn raw_lines(s: Seq<char>) -> Seq<Seq<char>>
    decreases s.len(),
{
    if s.len() == 0 {
        Seq::empty()
    } else {
        let before = raw_lines(s.drop_last());
        if s.len() > 1 && s[s.len() - 2] != '\n' {
            before.drop_last().push(before.last().push(s.last()))
        } else {
            before.push(seq![s.last()])
        }
    }
}

/// A fault in a shard.
pub open spec fn shard_fault(path: Seq<char>, line: nat, message: Seq<char>) -> ErrorView {
    ErrorView::InvalidShard { path, line: line as usize, message }
}

/// The key and count that a line gives.
pub open spec fn read_record(path: Seq<char>, line: nat, raw: Seq<char>, previous: Option<Seq<u32>>) -> Result<
    (Seq<u32>, u64),
    ErrorView,
> {
    let text = line_text(raw);
    match first_place(text, '\t') {
        None => Err(shard_fault(path, line, "expected count and tab-separated key"@)),
        Some(i) => match unsigned_value(text.take(i), 10) {
            None => Err(shard_fault(path, line, "invalid count"@)),
            Some(count) => if count > u64::MAX {
                Err(shard_fault(path, line, "invalid count"@))
            } else if count == 0 || count > i64::MAX {
                Err(shard_fault(path, line, "count must be between 1 and i64::MAX"@))
            } else {
                match unescape_from(text.skip(i + 1), 0, Seq::empty()) {
                    Err(message) => Err(shard_fault(path, line, message)),
                    Ok(key) => if previous is Some && lex_leq::<u32>(key, previous->0) {
                        Err(shard_fault(path, line, "keys are not strictly increasing"@))
                    } else {
                        Ok((key, count as u64))
                    },
                }
            },
        },
    }
}

/// The fault of the first two lines of a shard, if any.
pub open spec fn header_fault(path: Seq<char>, mode: IndexMode, lines: Seq<Seq<char>>) -> Option<
    ErrorView,
> {
    if lines.len() == 0 {
        Some(shard_fault(path, 1, "unexpected end of shard"@))
    } else if line_text(lines[0]) != shard_magic() {
        Some(shard_fault(path, 1, "bad shard magic"@))
    } else if lines.len() == 1 {
        Some(shard_fault(path, 2, "unexpected end of shard"@))
    } else {
        mode_line_fault(path, mode, lines[1])
    }
}

/// The fault of the line with the mode, if any.
pub open spec fn mode_line_fault(path: Seq<char>, mode: IndexMode, raw: Seq<char>) -> Option<
    ErrorView,
> {
    let text = line_text(raw);
    let n = "mode\t"@.len() as int;
    if !(text.len() >= n && text.take(n) == "mode\t"@) {
        Some(shard_fault(path, 2, "missing mode header"@))
    } else {
        match mode_of_tag(text.skip(n)) {
            None => Some(shard_fault(path, 2, "invalid mode header"@)),
            Some(found) => if found != mode {
                Some(shard_fault(path, 2, "shard mode does not match the merge"@))
            } else {
                None
            },
        }
    }
}

/// The last key of a list of records.
pub open spec fn previous_key(log: Log) -> Option<Seq<u32>> {
    if log.len() == 0 {
        None
    } else {
        Some(log.last().0)
    }
}

/// The records of the lines before the `n`th, behind the two of the header.
pub open spec fn shard_records(path: Seq<char>, lines: Seq<Seq<char>>, n: nat) -> Result<
    Log,
    ErrorView,
>
    decreases n,
{
    if n <= 2 {
        Ok(Seq::empty())
    } else {
        match shard_records(path, lines, (n - 1) as nat) {
            Err(e) => Err(e),
            Ok(known) => match read_record(path, n, lines[n - 1], previous_key(known)) {
                Err(e) => Err(e),
                Ok(record) => Ok(known.push(record)),
            },
        }
    }
}

/// The records of a shard, or the first fault in it.
pub open spec fn read_shard(path: Seq<char>, mode: IndexMode, lines: Seq<Seq<char>>) -> Result<
    Log,
    ErrorView,
> {
    match header_fault(path, mode, lines) {
        Some(e) => Err(e),
        None => shard_records(path, lines, lines.len()),
    }
}

/// The records up to the first fault among the first `n` lines.
pub open spec fn records_until(path: Seq<char>, lines: Seq<Seq<char>>, n: nat) -> Log
    decreases n,
{
    match shard_records(path, lines, n) {
        Ok(log) => log,
        Err(_) => if n == 0 {
            Seq::empty()
        } else {
            records_until(path, lines, (n - 1) as nat)
        },
    }
}

/// What can be read of a shard: its records up to the first fault, none where its
/// head is wrong.
pub open spec fn sound_records(path: Seq<char>, mode: IndexMode, lines: Seq<Seq<char>>) -> Log {
    if header_fault(path, mode, lines) is Some {
        Seq::empty()
    } else {
        records_until(path, lines, lines.len())
    }
}

/// Reading a shard stops at a fault behind these records.
pub open spec fn stops(
    path: Seq<char>,
    mode: IndexMode,
    lines: Seq<Seq<char>>,
    log: Log,
    e: ErrorView,
) -> bool {
    &&& read_shard(path, mode, lines) == Err::<Log, ErrorView>(e)
    &&& sound_records(path, mode, lines) == log
}

/// Reading a shard that begins with these lines stops at a fault, whatever follows.
pub open spec fn stops_within(
    path: Seq<char>,
    mode: IndexMode,
    lines: Seq<Seq<char>>,
    log: Log,
    e: ErrorView,
) -> bool {
    forall|rest: Seq<Seq<char>>|
        #![trigger lines + rest]
        stops(path, mode, lines + rest, log, e)
}

/// The line of a record.
pub open spec fn record_line(key: Seq<u32>, count: u64) -> Seq<char> {
    decimal(count as nat) + seq!['\t'] + escaped(key) + seq!['\n']
}

/// The lines of the first `n` records.
pub open spec fn record_lines(log: Log, n: nat) -> Seq<char>
    decreases n,
{
    if n == 0 {
        Seq::empty()
    } else {
        record_lines(log, (n - 1) as nat) + record_line(log[n - 1].0, log[n - 1].1)
    }
}

/// The two lines before the records.
pub open spec fn shard_head(mode: IndexMode) -> Seq<char> {
    shard_magic() + seq!['\n'] + ("mode\t"@ + mode_tag(mode) + seq!['\n'])
}

/// The text of a shard.
pub open spec fn shard_text(mode: IndexMode, log: Log) -> Seq<char> {
    shard_head(mode) + record_lines(log, log.len())
}

fn is_control(c: char) -> (r: bool)
    ensures
        r == control(c),
{
    let x: u32 = c as u32;
    x < 0x20 || (0x7F <= x && x <= 0x9F)
}

/// Writes a key.
pub(crate) fn write_escaped_key(out: &mut String, key: &Vec<u32>)
    requires
        scalars(key@),
    ensures
        final(out)@ == old(out)@ + escaped(key@),
{
    let ghost start = out@;
    let mut i: usize = 0;
    assert(key@.take(0) =~= Seq::empty());
    assert(out@ =~= start + escaped(key@.take(0)));
    while i < key.len()
        invariant
            i <= key@.len(),
            scalars(key@),
            out@ == start + escaped(key@.take(i as int)),
        decreases key.len() - i,
    {
        let ghost before = out@;
        let x: u32 = key[i];
        assert(scalar(key@[i as int] as int));
        proof {
            assert(key@.take(i + 1).drop_last() =~= key@.take(i as int));
            assert(key@.take(i + 1).last() == x);
        }
        if let Some(c) = char::from_u32(x) {
            proof {
                lemma_same_code_point(c, x as char);
            }
            if c == '\\' {
                out.push('\\');
                out.push('\\');
            } else if c == '\t' {
                out.push('\\');
                out.push('t');
            } else if c == '\n' {
                out.push('\\');
                out.push('n');
            } else if c == '\r' {
                out.push('\\');
                out.push('r');
            } else if is_control(c) {
                out.push('\\');
                out.push('u');
                out.push('{');
                let shown = hexadecimal_of(x);
                out.append(shown.as_str());
                out.push('}');
            } else {
                out.push(c);
            }
            proof {
                assert(out@ =~= before + escaped_char(c));
                assert(start + (escaped(key@.take(i as int)) + escaped_char(c)) =~= before
                    + escaped_char(c));
            }
        }
        i += 1;
    }
    proof {
        assert(key@.take(i as int) =~= key@);
    }
}

/// The text of a shard.
pub(crate) fn write_shard(mode: IndexMode, entries: &Vec<(Vec<u32>, u64)>) -> (r: String)
    requires
        log_ok(entries_log(entries@)),
    ensures
        r@ == shard_text(mode, entries_log(entries@)),
{
    let ghost log = entries_log(entries@);
    let mut out = "NUTRIMATIC_ZH_TEXT_SHARD_V2".to_owned();
    out.push('\n');
    out.append("mode\t");
    out.append(mode.shard_tag().as_str());
    out.push('\n');
    let mut i: usize = 0;
    proof {
        assert(out@ =~= shard_head(mode));
        assert(out@ =~= shard_head(mode) + record_lines(log, 0));
    }
    while i < entries.len()
        invariant
            i <= entries@.len(),
            log == entries_log(entries@),
            log_ok(log),
            out@ == shard_head(mode) + record_lines(log, i as nat),
        decreases entries.len() - i,
    {
        let ghost before = out@;
        assert(scalars(log[i as int].0));
        out.append(decimal_of(entries[i].1).as_str());
        out.push('\t');
        write_escaped_key(&mut out, &entries[i].0);
        out.push('\n');
        proof {
            let line = record_line(log[i as int].0, log[i as int].1);
            assert(out@ =~= before + line);
            assert(shard_head(mode) + record_lines(log, (i + 1) as nat) =~= before + line);
        }
        i += 1;
    }
    out
}

/// The records that a vector of keys with counts holds.
pub open spec fn entries_log(entries: Seq<(Vec<u32>, u64)>) -> Log {
    Seq::new(entries.len(), |i: int| (entries[i].0@, entries[i].1))
}

/// The key that a line writes.
pub(crate) fn unescape_key(s: &[char]) -> (r: Result<Vec<u32>, String>)
    ensures
        match (unescape_from(s@, 0, Seq::empty()), r) {
            (Ok(key), Ok(k)) => k@ == key && key.len() > 0 && scalars(key),
            (Err(e), Err(f)) => f@ == e,
            _ => false,
        },
{
    let mut key: Vec<u32> = Vec::new();
    let mut at: usize = 0;
    assert(key@ =~= Seq::empty());
    while at < s.len()
        invariant
            at <= s@.len(),
            scalars(key@),
            unescape_from(s@, 0, Seq::empty()) == unescape_from(s@, at as int, key@),
        decreases s.len() - at,
    {
        let c = s[at];
        let ghost before = key@;
        if c != '\\' {
            key.push(c as u32);
            proof {
                lemma_code_point(c);
                assert forall|i: int| 0 <= i < key@.len() implies scalar(
                    #[trigger] key@[i] as int,
                ) by {
                    if i < before.len() {
                        assert(key@[i] == before[i]);
                    }
                }
            }
            at += 1;
        } else {
            match unescape_at(s, at) {
                Ok((x, next)) => {
                    key.push(x);
                    proof {
                        assert forall|i: int| 0 <= i < key@.len() implies scalar(
                            #[trigger] key@[i] as int,
                        ) by {
                            if i < before.len() {
                                assert(key@[i] == before[i]);
                            }
                        }
                    }
                    at = next;
                },
                Err(e) => {
                    return Err(e);
                },
            }
        }
    }
    if key.len() == 0 {
        return Err("empty keys are not supported".to_owned());
    }
    Ok(key)
}

/// What a backslash at `at` stands for, with the place behind it.
fn unescape_at(s: &[char], at: usize) -> (r: Result<(u32, usize), String>)
    requires
        at < s@.len(),
    ensures
        match (unescape_one(s@, at as int), r) {
            (Ok((x, next)), Ok((y, n))) => x == y && next == n && at < n <= s@.len() && scalar(
                y as int,
            ),
            (Err(e), Err(f)) => f@ == e,
            _ => false,
        },
{
    if s.len() - at < 2 {
        return Err("trailing backslash".to_owned());
    }
    let c = s[at + 1];
    if c == '\\' {
        return Ok(('\\' as u32, at + 2));
    }
    if c == 't' {
        return Ok(('\t' as u32, at + 2));
    }
    if c == 'n' {
        return Ok(('\n' as u32, at + 2));
    }
    if c == 'r' {
        return Ok(('\r' as u32, at + 2));
    }
    if c != 'u' {
        return Err("unknown backslash escape".to_owned());
    }
    if s.len() - at < 3 || s[at + 2] != '{' {
        return Err("expected '{' after \\u".to_owned());
    }
    let mut digits: Vec<char> = Vec::new();
    let mut p: usize = at + 3;
    let mut value: u32 = 0;
    let mut n: usize = 0;
    let ghost whole = escape_digits(s@, at + 3, Seq::empty());
    assert(digits@ =~= Seq::empty());
    while p < s.len() && s[p] != '}'
        invariant
            at + 3 <= p <= s@.len(),
            n == digits@.len(),
            n <= 6,
            digits_value(digits@, 16) == Some(value as nat),
            value < pow16(n as nat),
            whole == escape_digits(s@, p as int, digits@),
            at + 2 < s@.len(),
            s@[at + 1] == 'u',
            s@[at + 2] == '{',
            whole == escape_digits(s@, at + 3, Seq::empty()),
        decreases s.len() - p,
    {
        let d = s[p];
        match value_of_digit(d, 16) {
            Some(low) => {
                if n >= 6 {
                    return Err("invalid hexadecimal Unicode escape".to_owned());
                }
                proof {
                    lemma_pow16();
                    assert(digits@.push(d).drop_last() =~= digits@);
                }
                digits.push(d);
                value = value * 16 + low;
                n += 1;
            },
            None => {
                return Err("invalid hexadecimal Unicode escape".to_owned());
            },
        }
        p += 1;
    }
    if p >= s.len() {
        return Err("unterminated Unicode escape".to_owned());
    }
    if n == 0 {
        return Err("empty Unicode escape".to_owned());
    }
    match char::from_u32(value) {
        Some(_) => Ok((value, p + 1)),
        None => Err("escape is not a Unicode scalar value".to_owned()),
    }
}

/// A power of 16.
spec fn pow16(n: nat) -> nat
    decreases n,
{
    if n == 0 {
        1
    } else {
        16 * pow16((n - 1) as nat)
    }
}

proof fn lemma_pow16()
    ensures
        forall|n: nat| n <= 6 ==> #[trigger] pow16(n) <= 0x100_0000,
        forall|n: nat| #[trigger] pow16(n + 1) == 16 * pow16(n),
{
    reveal_with_fuel(pow16, 8);
}

/// A line without its ending.
pub(crate) fn trim_line_ending(raw: &[char]) -> (r: &[char])
    ensures
        r@ == line_text(raw@),
{
    let n: usize = raw.len();
    if n > 0 && raw[n - 1] == '\n' {
        if n > 1 && raw[n - 2] == '\r' {
            let r = &raw[0..n - 2];
            assert(r@ =~= raw@.drop_last().drop_last());
            r
        } else {
            let r = &raw[0..n - 1];
            assert(r@ =~= raw@.drop_last());
            r
        }
    } else {
        raw
    }
}

/// The lines of a text, each with its ending.
pub(crate) fn split_raw_lines(s: &[char]) -> (r: Vec<Vec<char>>)
    ensures
        views(r@) == raw_lines(s@),
{
    let mut lines: Vec<Vec<char>> = Vec::new();
    let mut current: Vec<char> = Vec::new();
    let mut i: usize = 0;
    assert(s@.take(0) =~= Seq::empty());
    assert(views(lines@) =~= raw_lines(s@.take(0)));
    while i < s.len()
        invariant
            i <= s@.len(),
            if i == 0 || s@[i - 1] == '\n' {
                current@.len() == 0 && views(lines@) == raw_lines(s@.take(i as int))
            } else {
                current@.len() > 0 && views(lines@).push(current@) == raw_lines(s@.take(i as int))
            },
        decreases s.len() - i,
    {
        let ghost before = views(lines@);
        let ghost part = current@;
        proof {
            let t = s@.take(i + 1);
            assert(t.drop_last() =~= s@.take(i as int));
            assert(t.last() == s@[i as int]);
            if i > 0 {
                assert(t[t.len() - 2] == s@[i - 1]);
            }
            assert(before.push(part).drop_last() =~= before);
        }
        current.push(s[i]);
        let ghost whole = current@;
        proof {
            if i == 0 || s@[i - 1] == '\n' {
                assert(whole =~= seq![s@[i as int]]);
            }
        }
        if s[i] == '\n' {
            lines.push(current);
            current = Vec::new();
            proof {
                assert(views(lines@) =~= before.push(whole));
            }
        }
        i += 1;
    }
    assert(s@.take(i as int) =~= s@);
    if current.len() > 0 {
        let ghost before = views(lines@);
        let ghost part = current@;
        lines.push(current);
        proof {
            assert(views(lines@) =~= before.push(part));
        }
    }
    lines
}

/// A shard that is being read, line by line.
pub struct ShardCursor {
    path: String,
    mode: IndexMode,
    line: usize,
    current: Option<(Vec<u32>, u64)>,
    previous: Option<Vec<u32>>,
    ended: bool,
    lines: Ghost<Seq<Seq<char>>>,
    taken: Ghost<nat>,
}

impl ShardCursor {
    /// The lines read so far.
    pub closed spec fn lines(&self) -> Seq<Seq<char>> {
        self.lines@
    }

    pub closed spec fn path(&self) -> Seq<char> {
        self.path@
    }

    pub closed spec fn mode(&self) -> IndexMode {
        self.mode
    }

    /// The records read so far.
    pub closed spec fn records(&self) -> Log {
        match shard_records(self.path@, self.lines@, self.lines@.len()) {
            Ok(log) => log,
            Err(_) => Seq::empty(),
        }
    }

    /// The number of records that have been taken.
    pub closed spec fn taken(&self) -> nat {
        self.taken@
    }

    /// No further line follows.
    pub closed spec fn ended(&self) -> bool {
        self.ended
    }

    /// The lines read so far are sound, and the last record is at hand unless
    /// it has been taken.
    pub closed spec fn wf(&self) -> bool {
        &&& self.line == self.lines@.len()
        &&& self.line >= 1 ==> line_text(self.lines@[0]) == shard_magic()
        &&& self.line >= 2 ==> mode_line_fault(self.path@, self.mode, self.lines@[1]) is None
        &&& shard_records(self.path@, self.lines@, self.lines@.len()) is Ok
        &&& self.ended ==> self.line >= 2
        &&& match previous_key(self.records()) {
            Some(k) => self.previous matches Some(p) && p@ == k,
            None => self.previous is None,
        }
        &&& match self.current {
            Some((key, count)) => self.records().len() > 0 && self.taken@ + 1
                == self.records().len() && self.records().last() == (key@, count),
            None => self.taken@ == self.records().len(),
        }
        &&& log_ok(self.records())
        &&& strictly_ascending(self.records())
    }

    /// What holds of every shard that is being read.
    pub proof fn lemma_wf(&self)
        requires
            self.wf(),
        ensures
            log_ok(self.records()),
            strictly_ascending(self.records()),
            self.taken() <= self.records().len() <= self.taken() + 1,
            self.ended() ==> read_shard(self.path(), self.mode(), self.lines()) == Ok::<
                Log,
                ErrorView,
            >(self.records()),
            shard_records(self.path(), self.lines(), self.lines().len()) == Ok::<Log, ErrorView>(
                self.records(),
            ),
            self.lines().len() >= 2 ==> header_fault(self.path(), self.mode(), self.lines())
                is None,
    {
    }

    /// A shard of which nothing has been read.
    pub fn new(path: &str, mode: IndexMode) -> (r: Self)
        ensures
            r.wf(),
            r.path() == path@,
            r.mode() == mode,
            r.lines() == Seq::<Seq<char>>::empty(),
            r.records() == Log::empty(),
            r.taken() == 0,
            !r.ended(),
    {
        let ghost none: Seq<Seq<char>> = Seq::empty();
        let ghost zero: nat = 0;
        let r = ShardCursor {
            path: path.to_owned(),
            mode,
            line: 0,
            current: None,
            previous: None,
            ended: false,
            lines: Ghost(none),
            taken: Ghost(zero),
        };
        proof {
            assert(r.records() =~= Seq::empty());
        }
        r
    }

    /// The record at hand.
    pub fn current(&self) -> (r: Option<&(Vec<u32>, u64)>)
        requires
            self.wf(),
        ensures
            match r {
                Some((key, count)) => self.taken() + 1 == self.records().len()
                    && self.records().last() == (key@, *count),
                None => self.taken() == self.records().len(),
            },
    {
        match &self.current {
            Some(record) => Some(record),
            None => None,
        }
    }

    /// Whether no further line follows.
    pub fn is_ended(&self) -> (r: bool)
        ensures
            r == self.ended(),
    {
        self.ended
    }

    /// Takes the record at hand.
    pub fn take(&mut self) -> (r: Option<(Vec<u32>, u64)>)
        requires
            old(self).wf(),
        ensures
            final(self).wf(),
            final(self).path() == old(self).path(),
            final(self).mode() == old(self).mode(),
            final(self).lines() == old(self).lines(),
            final(self).records() == old(self).records(),
            final(self).ended() == old(self).ended(),
            final(self).taken() == final(self).records().len(),
            match r {
                Some((key, count)) => old(self).taken() + 1 == old(self).records().len() && old(
                    self).records().last() == (key@, count),
                None => old(self).taken() == old(self).records().len(),
            },
    {
        let ghost all = self.records().len();
        let r = self.current.take();
        self.taken = Ghost(all);
        r
    }

    /// Reads a further line, or the end of the shard. The first two lines are
    /// the header.
    pub fn feed(&mut self, raw: Option<&[char]>) -> (r: Result<(), IndexError>)
        requires
            old(self).wf(),
            !old(self).ended(),
            old(self).taken() == old(self).records().len(),
            raw is Some ==> old(self).lines().len() < usize::MAX,
        ensures
            final(self).path() == old(self).path(),
            final(self).mode() == old(self).mode(),
            match r {
                Ok(()) => {
                    &&& final(self).wf()
                    &&& final(self).taken() == old(self).taken()
                    &&& match raw {
                        Some(line) => {
                            &&& final(self).lines() == old(self).lines().push(line@)
                            &&& !final(self).ended()
                            &&& if old(self).lines().len() >= 2 {
                                final(self).records().len() == old(self).records().len() + 1
                                    && final(self).records().drop_last() == old(self).records()
                            } else {
                                final(self).records() == old(self).records()
                            }
                        },
                        None => {
                            &&& final(self).lines() == old(self).lines()
                            &&& final(self).ended()
                            &&& final(self).records() == old(self).records()
                        },
                    }
                },
                Err(e) => match raw {
                    Some(line) => stops_within(
                        old(self).path(),
                        old(self).mode(),
                        old(self).lines().push(line@),
                        old(self).records(),
                        e@,
                    ),
                    None => stops(
                        old(self).path(),
                        old(self).mode(),
                        old(self).lines(),
                        old(self).records(),
                        e@,
                    ),
                },
            },
    {
        let ghost before = self.lines@;
        let ghost log = self.records();
        let ghost path = self.path@;
        let raw = match raw {
            Some(raw) => raw,
            None => {
                if self.line < 2 {
                    assert(log =~= Seq::empty());
                    return Err(
                        IndexError::shard(self.path.as_str(), self.line + 1, "unexpected end of shard"),
                    );
                }
                self.ended = true;
                return Ok(());
            },
        };
        let n: usize = self.line + 1;
        let ghost more = before.push(raw@);
        let text = trim_line_ending(raw);
        if self.line == 0 {
            if !spells(text, "NUTRIMATIC_ZH_TEXT_SHARD_V2") {
                proof {
                    assert forall|rest: Seq<Seq<char>>|
                        #![trigger more + rest]
                        stops(
                            path,
                            self.mode,
                            more + rest,
                            log,
                            shard_fault(path, 1, "bad shard magic"@),
                        ) by {
                        assert((more + rest)[0] == raw@);
                        assert(log =~= Seq::empty());
                    }
                }
                return Err(IndexError::shard(self.path.as_str(), 1, "bad shard magic"));
            }
            self.line = n;
            self.lines = Ghost(more);
            proof {
                assert(more[0] == raw@);
                assert(self.records() =~= log);
            }
            return Ok(());
        }
        if self.line == 1 {
            if let Err(e) = check_mode_line(self.path.as_str(), self.mode, text, Ghost(raw@)) {
                proof {
                    assert forall|rest: Seq<Seq<char>>|
                        #![trigger more + rest]
                        stops(path, self.mode, more + rest, log, e@) by {
                        assert((more + rest)[0] == before[0]);
                        assert((more + rest)[1] == raw@);
                        assert(log =~= Seq::empty());
                    }
                }
                return Err(e);
            }
            self.line = n;
            self.lines = Ghost(more);
            proof {
                assert(more[0] == before[0]);
                assert(more[1] == raw@);
                assert(self.records() =~= log);
            }
            return Ok(());
        }
        let record = parse_record(self.path.as_str(), n, text, &self.previous, Ghost(raw@));
        proof {
            lemma_records_same(path, before, more, before.len());
            assert(more[n - 1] == raw@);
            assert(shard_records(path, more, more.len()) == (match read_record(
                path,
                n as nat,
                raw@,
                previous_key(log),
            ) {
                Err(e) => Err::<Log, ErrorView>(e),
                Ok(record) => Ok(log.push(record)),
            }));
        }
        match record {
            Ok((key, count)) => {
                let mut copy: Vec<u32> = Vec::new();
                copy.extend_from_slice(key.as_slice());
                proof {
                    assert(copy@ =~= key@);
                }
                self.previous = Some(copy);
                self.current = Some((key, count));
                self.line = n;
                self.lines = Ghost(more);
                proof {
                    let now = self.records();
                    assert(now == log.push((key@, count)));
                    assert(now.drop_last() =~= log);
                    assert(more[0] == before[0] && more[1] == before[1]);
                    assert forall|i: int| 0 <= i < now.len() implies {
                        &&& (#[trigger] now[i]).0.len() > 0
                        &&& 0 < now[i].1 <= i64::MAX
                        &&& scalars(now[i].0)
                    } by {
                        if i < log.len() {
                            assert(now[i] == log[i]);
                        }
                    }
                    lemma_ascending_push(log, key@, count);
                }
                Ok(())
            },
            Err(e) => {
                proof {
                    assert forall|rest: Seq<Seq<char>>|
                        #![trigger more + rest]
                        stops(path, self.mode, more + rest, log, e@) by {
                        let all = more + rest;
                        assert(all[0] == before[0] && all[1] == before[1]);
                        lemma_records_same(path, more, all, more.len());
                        lemma_records_same(path, before, all, before.len());
                        lemma_records_fault(path, all, more.len(), all.len());
                        lemma_until_stops(path, all, before.len(), all.len());
                    }
                }
                Err(e)
            },
        }
    }
}

/// The keys ascend at every step.
pub open spec fn strictly_ascending(log: Log) -> bool {
    forall|i: int, j: int|
        0 <= i < j < log.len() ==> lex_leq::<u32>((#[trigger] log[i]).0, (#[trigger] log[j]).0)
            && log[i].0 != log[j].0
}

proof fn lemma_ascending_push(log: Log, key: Seq<u32>, count: u64)
    requires
        strictly_ascending(log),
        log.len() > 0 ==> !lex_leq::<u32>(key, log.last().0),
    ensures
        strictly_ascending(log.push((key, count))),
{
    let more = log.push((key, count));
    assert forall|i: int, j: int| 0 <= i < j < more.len() implies lex_leq::<u32>(
        (#[trigger] more[i]).0,
        (#[trigger] more[j]).0,
    ) && more[i].0 != more[j].0 by {
        if j < log.len() {
            assert(more[i] == log[i] && more[j] == log[j]);
        } else {
            let last = log[log.len() - 1].0;
            crate::ordered::lemma_lex_total_order::<u32>(last, key, key);
            if i < log.len() - 1 {
                assert(lex_leq::<u32>(log[i].0, log[log.len() - 1].0));
                crate::ordered::lemma_lex_total_order::<u32>(log[i].0, last, key);
            }
        }
    }
}

pub proof fn lemma_records_same(path: Seq<char>, a: Seq<Seq<char>>, b: Seq<Seq<char>>, n: nat)
    requires
        n <= a.len(),
        n <= b.len(),
        forall|i: int| 0 <= i < n ==> a[i] == b[i],
    ensures
        shard_records(path, a, n) == shard_records(path, b, n),
    decreases n,
{
    if n > 2 {
        lemma_records_same(path, a, b, (n - 1) as nat);
        assert(a[n - 1] == b[n - 1]);
    }
}

/// Behind a fault there are no further records.
proof fn lemma_until_stops(path: Seq<char>, lines: Seq<Seq<char>>, k: nat, n: nat)
    requires
        k < n,
        shard_records(path, lines, k) is Ok,
        shard_records(path, lines, k + 1) is Err,
    ensures
        records_until(path, lines, n) == shard_records(path, lines, k)->Ok_0,
    decreases n,
{
    if shard_records(path, lines, n) is Ok {
        lemma_records_grow(path, lines, k + 1, n);
    }
    if k + 1 < n {
        lemma_until_stops(path, lines, k, (n - 1) as nat);
    } else {
        assert(records_until(path, lines, k) == shard_records(path, lines, k)->Ok_0);
    }
}

/// The keys of records that can be read ascend.
proof fn lemma_records_ascend(path: Seq<char>, lines: Seq<Seq<char>>, n: nat)
    ensures
        shard_records(path, lines, n) matches Ok(log) ==> strictly_ascending(log),
    decreases n,
{
    if n > 2 {
        lemma_records_ascend(path, lines, (n - 1) as nat);
        if let Ok(log) = shard_records(path, lines, n) {
            let known = shard_records(path, lines, (n - 1) as nat)->Ok_0;
            let record = read_record(path, n, lines[n - 1], previous_key(known))->Ok_0;
            lemma_ascending_push(known, record.0, record.1);
            assert(log == known.push((record.0, record.1)));
        }
    }
}

/// The keys of what can be read of a shard ascend.
pub proof fn lemma_sound_records_ascend(path: Seq<char>, mode: IndexMode, lines: Seq<Seq<char>>)
    ensures
        strictly_ascending(sound_records(path, mode, lines)),
{
    lemma_until_ascends(path, lines, lines.len());
}

proof fn lemma_until_ascends(path: Seq<char>, lines: Seq<Seq<char>>, n: nat)
    ensures
        strictly_ascending(records_until(path, lines, n)),
    decreases n,
{
    lemma_records_ascend(path, lines, n);
    if shard_records(path, lines, n) is Err && n > 0 {
        lemma_until_ascends(path, lines, (n - 1) as nat);
    }
}

/// A shard without a fault can be read whole.
pub proof fn lemma_sound_records_all(path: Seq<char>, mode: IndexMode, lines: Seq<Seq<char>>)
    requires
        read_shard(path, mode, lines) is Ok,
    ensures
        sound_records(path, mode, lines) == read_shard(path, mode, lines)->Ok_0,
{
}

/// Records that have been read without a fault are among those before the first.
proof fn lemma_records_until(path: Seq<char>, lines: Seq<Seq<char>>, m: nat, n: nat)
    requires
        m <= n,
        shard_records(path, lines, m) is Ok,
    ensures
        shard_records(path, lines, m)->Ok_0.len() <= records_until(path, lines, n).len(),
        shard_records(path, lines, m)->Ok_0 == records_until(path, lines, n).take(
            shard_records(path, lines, m)->Ok_0.len() as int,
        ),
    decreases n,
{
    if shard_records(path, lines, n) is Ok {
        lemma_records_grow(path, lines, m, n);
    } else {
        lemma_records_until(path, lines, m, (n - 1) as nat);
    }
}

/// What has been read of a shard is what can be read of it, as far as it goes.
pub proof fn lemma_sound_records_within(
    path: Seq<char>,
    mode: IndexMode,
    lines: Seq<Seq<char>>,
    n: nat,
)
    requires
        n <= lines.len(),
        shard_records(path, lines.take(n as int), n) is Ok,
        n >= 2 ==> header_fault(path, mode, lines.take(n as int)) is None,
    ensures
        ({
            let part = shard_records(path, lines.take(n as int), n)->Ok_0;
            let all = sound_records(path, mode, lines);
            part.len() <= all.len() && part == all.take(part.len() as int)
        }),
{
    let first = lines.take(n as int);
    let all = sound_records(path, mode, lines);
    lemma_records_same(path, first, lines, n);
    if n <= 2 {
        assert(all.take(0) =~= Seq::empty());
    } else {
        assert(first[0] == lines[0] && first[1] == lines[1]);
        lemma_records_until(path, lines, n, lines.len());
    }
}

proof fn lemma_records_grow(path: Seq<char>, lines: Seq<Seq<char>>, m: nat, n: nat)
    requires
        m <= n,
        shard_records(path, lines, n) is Ok,
    ensures
        shard_records(path, lines, m) is Ok,
        shard_records(path, lines, m)->Ok_0.len() <= shard_records(path, lines, n)->Ok_0.len(),
        shard_records(path, lines, m)->Ok_0 == shard_records(path, lines, n)->Ok_0.take(
            shard_records(path, lines, m)->Ok_0.len() as int,
        ),
    decreases n,
{
    let all = shard_records(path, lines, n)->Ok_0;
    if m == n {
        assert(all.take(all.len() as int) =~= all);
    } else if n > 2 {
        lemma_records_grow(path, lines, m, (n - 1) as nat);
        let known = shard_records(path, lines, (n - 1) as nat)->Ok_0;
        let part = shard_records(path, lines, m)->Ok_0;
        assert(all.drop_last() =~= known);
        assert(all.take(part.len() as int) =~= known.take(part.len() as int));
    } else {
        assert(all.take(0) =~= all);
    }
}

proof fn lemma_records_fault(path: Seq<char>, lines: Seq<Seq<char>>, m: nat, n: nat)
    requires
        m <= n,
        shard_records(path, lines, m) is Err,
    ensures
        shard_records(path, lines, n) == shard_records(path, lines, m),
    decreases n,
{
    if m < n {
        lemma_records_fault(path, lines, m, (n - 1) as nat);
    }
}

/// Checks the line with the mode.
fn check_mode_line(path: &str, mode: IndexMode, text: &[char], Ghost(raw): Ghost<Seq<char>>) -> (r:
    Result<(), IndexError>)
    requires
        text@ == line_text(raw),
    ensures
        match r {
            Ok(()) => mode_line_fault(path@, mode, raw) is None,
            Err(e) => mode_line_fault(path@, mode, raw) == Some(e@),
        },
{
    let head = chars_of("mode\t");
    let n: usize = head.len();
    let len: usize = text.len();
    if len < n || !spells(&text[0..n], "mode\t") {
        proof {
            if len >= n {
                assert(text@.subrange(0, n as int) =~= text@.take(n as int));
            }
        }
        return Err(IndexError::shard(path, 2, "missing mode header"));
    }
    proof {
        assert(text@.subrange(0, n as int) =~= text@.take(n as int));
        assert(text@.subrange(n as int, len as int) =~= text@.skip(n as int));
    }
    match IndexMode::parse_shard_tag(&text[n..len]) {
        None => Err(IndexError::shard(path, 2, "invalid mode header")),
        Some(found) => {
            if found != mode {
                Err(IndexError::shard(path, 2, "shard mode does not match the merge"))
            } else {
                Ok(())
            }
        },
    }
}

/// The key and count that a line gives.
fn parse_record(
    path: &str,
    line: usize,
    text: &[char],
    previous: &Option<Vec<u32>>,
    Ghost(raw): Ghost<Seq<char>>,
) -> (r: Result<(Vec<u32>, u64), IndexError>)
    requires
        text@ == line_text(raw),
    ensures
        match (
            read_record(
                path@,
                line as nat,
                raw,
                match previous {
                    Some(p) => Some(p@),
                    None => None,
                },
            ),
            r,
        ) {
            (Ok((key, count)), Ok((k, c))) => k@ == key && c == count && key.len() > 0 && scalars(
                key,
            ) && 0 < c <= i64::MAX,
            (Err(e), Err(f)) => f@ == e,
            _ => false,
        },
{
    let i: usize = match find_char(text, '\t') {
        Some(i) => i,
        None => {
            return Err(IndexError::shard(path, line, "expected count and tab-separated key"));
        },
    };
    let n: usize = text.len();
    assert(i < n);
    let left = &text[0..i];
    let right = &text[i + 1..n];
    proof {
        assert(left@ =~= text@.take(i as int));
        assert(right@ =~= text@.skip(i + 1));
    }
    let count: u64 = match parse_unsigned(left, 10, u64::MAX) {
        Some(count) => count,
        None => {
            return Err(IndexError::shard(path, line, "invalid count"));
        },
    };
    if count == 0 || count > i64::MAX as u64 {
        return Err(IndexError::shard(path, line, "count must be between 1 and i64::MAX"));
    }
    let key = match unescape_key(right) {
        Ok(key) => key,
        Err(message) => {
            return Err(IndexError::shard(path, line, message.as_str()));
        },
    };
    if let Some(p) = previous {
        if slice_is_leq(key.as_slice(), p.as_slice()) {
            return Err(IndexError::shard(path, line, "keys are not strictly increasing"));
        }
    }
    Ok((key, count))
}

} // verus!
