//! A shard gives back what was written to it.
use crate::index::error::ErrorView;
use crate::index::mode::{mode_fault, mode_of_tag, mode_tag, IndexMode};
use crate::index::model::Log;
use crate::index::pending::{log_ok, scalars};
use crate::index::shard::{
    control, escape_digits, escaped, escaped_char, line_text, mode_line_fault, raw_lines,
    read_record, read_shard, record_line, record_lines, shard_head, shard_magic, shard_records,
    shard_text, strictly_ascending, unescape_from,
};
use crate::ordered::{lemma_lex_total_order, lex_leq};
use crate::text::{
    decimal, digit, digit_value, digits_value, hexadecimal, lemma_code_point,
    lemma_decimal_read_back, lemma_first_place, scalar,
};
use vstd::prelude::*;
use vstd::string::*;

verus! {

/// What a text without line ends adds to lines that have all ended.
proof fn lemma_unended_line(s: Seq<char>, body: Seq<char>)
    requires
        s.len() == 0 || s.last() == '\n',
        body.len() > 0,
        forall|i: int| 0 <= i < body.len() - 1 ==> body[i] != '\n',
    ensures
        raw_lines(s + body) == raw_lines(s).push(body),
    decreases body.len(),
{
    let all = s + body;
    assert(all.drop_last() =~= s + body.drop_last());
    if body.len() == 1 {
        assert(body.drop_last() =~= Seq::empty());
        assert(all.drop_last() =~= s);
        assert(body =~= seq![all.last()]);
        if all.len() > 1 {
            assert(all[all.len() - 2] == s.last());
        }
    } else {
        lemma_unended_line(s, body.drop_last());
        assert(all[all.len() - 2] == body[body.len() - 2]);
        assert(raw_lines(s).push(body.drop_last()).drop_last() =~= raw_lines(s));
        assert(body.drop_last().push(body.last()) =~= body);
    }
}

/// A further line, with its end.
pub proof fn lemma_further_line(s: Seq<char>, body: Seq<char>)
    requires
        s.len() == 0 || s.last() == '\n',
        forall|i: int| 0 <= i < body.len() ==> body[i] != '\n',
    ensures
        raw_lines(s + body.push('\n')) == raw_lines(s).push(body.push('\n')),
        body.len() > 0 && body.last() != '\r' ==> line_text(body.push('\n')) == body,
        (s + body.push('\n')).last() == '\n',
{
    let line = body.push('\n');
    lemma_unended_line(s, line);
    assert(line.drop_last() =~= body);
    assert((s + line).last() == line.last());
}

proof fn lemma_hex_pair(n: nat)
    requires
        n < 256,
    ensures
        0 < hexadecimal(n).len() <= 2,
        digits_value(hexadecimal(n), 16) == Some(n),
        forall|i: int|
            0 <= i < hexadecimal(n).len() ==> digit_value(#[trigger] hexadecimal(n)[i], 16) is Some
                && hexadecimal(n)[i] != '}',
{
    reveal_with_fuel(digits_value, 3);
    let s = hexadecimal(n);
    if n < 16 {
        assert(s.drop_last() =~= Seq::empty());
    } else {
        let high = hexadecimal(n / 16);
        assert(n / 16 < 16);
        assert(high =~= seq![crate::text::hex_char((n / 16) as int)]);
        assert(s.drop_last() =~= high);
        assert(high.drop_last() =~= Seq::empty());
        assert(digits_value(high, 16) == Some(n / 16));
        assert(n == (n / 16) * 16 + n % 16);
    }
}

/// The digits of an escape are read up to the brace.
proof fn lemma_escape_digits(s: Seq<char>, at: int, digits: Seq<char>, rest: Seq<char>)
    requires
        0 <= at,
        at + rest.len() < s.len(),
        forall|i: int| 0 <= i < rest.len() ==> s[at + i] == #[trigger] rest[i],
        forall|i: int|
            0 <= i < rest.len() ==> digit_value(#[trigger] rest[i], 16) is Some && rest[i] != '}',
        s[at + rest.len()] == '}',
        digits.len() + rest.len() <= 6,
    ensures
        escape_digits(s, at, digits) == Ok::<(Seq<char>, int), Seq<char>>(
            (digits + rest, at + rest.len() + 1),
        ),
    decreases rest.len(),
{
    if rest.len() == 0 {
        assert(digits + rest =~= digits);
    } else {
        assert(s[at + 0] == rest[0]);
        let more = digits.push(s[at]);
        assert forall|i: int| 0 <= i < rest.skip(1).len() implies s[at + 1 + i]
            == #[trigger] rest.skip(1)[i] by {
            assert(s[at + (i + 1)] == rest[i + 1]);
        }
        lemma_escape_digits(s, at + 1, more, rest.skip(1));
        assert(more + rest.skip(1) =~= digits + rest);
    }
}

/// What is written for a character is read as that character.
proof fn lemma_unescape_char(s: Seq<char>, at: int, x: u32, key: Seq<u32>)
    requires
        0 <= at,
        scalar(x as int),
        at + escaped_char(x as char).len() <= s.len(),
        forall|i: int|
            0 <= i < escaped_char(x as char).len() ==> s[at + i] == #[trigger] escaped_char(
                x as char,
            )[i],
    ensures
        unescape_from(s, at, key) == unescape_from(
            s,
            at + escaped_char(x as char).len(),
            key.push(x),
        ),
{
    let c = x as char;
    let e = escaped_char(c);
    lemma_code_point(c);
    assert(c as u32 == x);
    assert(s[at + 0] == e[0]);
    if c == '\\' || c == '\t' || c == '\n' || c == '\r' {
        assert(s[at + 1] == e[1]);
    } else if control(c) {
        let h = hexadecimal(c as nat);
        lemma_hex_pair(c as nat);
        assert(s[at + 1] == e[1]);
        assert(s[at + 2] == e[2]);
        assert forall|i: int| 0 <= i < h.len() implies s[at + 3 + i] == #[trigger] h[i] by {
            assert(s[at + (i + 3)] == e[i + 3]);
        }
        assert(s[at + (3 + h.len())] == e[3 + h.len() as int]);
        lemma_escape_digits(s, at + 3, Seq::empty(), h);
        assert(Seq::<char>::empty() + h =~= h);
    }
}

/// A key is read back from what is written for it.
pub proof fn lemma_unescape(key: Seq<u32>, n: nat)
    requires
        scalars(key),
        n <= key.len(),
    ensures
        escaped(key.take(n as int)).len() <= escaped(key).len(),
        unescape_from(escaped(key), 0, Seq::empty()) == unescape_from(
            escaped(key),
            escaped(key.take(n as int)).len() as int,
            key.take(n as int),
        ),
    decreases n,
{
    lemma_escaped_prefix(key, n as int);
    if n == 0 {
        assert(key.take(0) =~= Seq::empty());
    } else {
        lemma_unescape(key, (n - 1) as nat);
        let s = escaped(key);
        let part = key.take(n - 1);
        let more = key.take(n as int);
        let x = key[n - 1];
        assert(more.drop_last() =~= part);
        assert(more.last() == x);
        assert(part.push(x) =~= more);
        assert(scalar(x as int));
        let at = escaped(part).len() as int;
        let e = escaped_char(x as char);
        assert(escaped(more) == escaped(part) + e);
        assert forall|i: int| 0 <= i < e.len() implies s[at + i] == #[trigger] e[i] by {
            assert(escaped(more)[at + i] == e[i]);
            assert(s.take(escaped(more).len() as int)[at + i] == s[at + i]);
        }
        lemma_unescape_char(s, at, x, part);
    }
}

proof fn lemma_escaped_prefix(key: Seq<u32>, n: int)
    requires
        0 <= n <= key.len(),
    ensures
        escaped(key.take(n)).len() <= escaped(key).len(),
        escaped(key).take(escaped(key.take(n)).len() as int) == escaped(key.take(n)),
    decreases key.len(),
{
    if n == key.len() {
        assert(key.take(n) =~= key);
        assert(escaped(key).take(escaped(key).len() as int) =~= escaped(key));
    } else {
        lemma_escaped_prefix(key.drop_last(), n);
        assert(key.drop_last().take(n) =~= key.take(n));
        let m = escaped(key.take(n)).len() as int;
        assert(escaped(key).take(m) =~= escaped(key.drop_last()).take(m));
    }
}

/// What is written for a key has no line end in it.
proof fn lemma_escaped_plain(key: Seq<u32>)
    requires
        scalars(key),
    ensures
        forall|i: int|
            0 <= i < escaped(key).len() ==> (#[trigger] escaped(key)[i]) != '\n' && escaped(key)[i]
                != '\r',
        key.len() > 0 ==> escaped(key).len() > 0,
    decreases key.len(),
{
    if key.len() > 0 {
        let init = key.drop_last();
        assert forall|i: int| 0 <= i < init.len() implies scalar(#[trigger] init[i] as int) by {
            assert(init[i] == key[i]);
        }
        lemma_escaped_plain(init);
        let c = key.last() as char;
        let e = escaped_char(c);
        assert(scalar(key[key.len() - 1] as int));
        lemma_code_point(c);
        assert forall|i: int| 0 <= i < e.len() implies (#[trigger] e[i]) != '\n' && e[i]
            != '\r' by {
            if control(c) {
                lemma_hex_pair(c as nat);
                let h = hexadecimal(c as nat);
                if 3 <= i < 3 + h.len() && e.len() > 2 {
                    assert(e[i] == h[i - 3]);
                }
            }
        }
        assert forall|i: int| 0 <= i < escaped(key).len() implies (#[trigger] escaped(key)[i])
            != '\n' && escaped(key)[i] != '\r' by {
            let a = escaped(init);
            if i < a.len() {
                assert(escaped(key)[i] == a[i]);
            } else {
                assert(escaped(key)[i] == e[i - a.len()]);
            }
        }
    }
}

/// The line of a record gives the record back.
pub proof fn lemma_record_read_back(
    path: Seq<char>,
    line: nat,
    key: Seq<u32>,
    count: u64,
    previous: Option<Seq<u32>>,
)
    requires
        scalars(key),
        key.len() > 0,
        0 < count <= i64::MAX,
        previous is Some ==> !lex_leq::<u32>(key, previous->0),
    ensures
        read_record(path, line, record_line(key, count), previous) == Ok::<
            (Seq<u32>, u64),
            ErrorView,
        >((key, count)),
        ({
            let body = decimal(count as nat) + seq!['\t'] + escaped(key);
            record_line(key, count) == body.push('\n') && forall|i: int|
                0 <= i < body.len() ==> body[i] != '\n'
        }),
{
    let number = decimal(count as nat);
    let e = escaped(key);
    let body = number + seq!['\t'] + e;
    lemma_decimal_read_back(count as nat);
    lemma_escaped_plain(key);
    assert(record_line(key, count) =~= body.push('\n'));
    assert forall|i: int| 0 <= i < body.len() implies body[i] != '\n' by {
        if i < number.len() {
            assert(digit(number[i]));
        } else if i > number.len() {
            assert(body[i] == e[i - number.len() - 1]);
        }
    }
    assert(body.last() == e[e.len() - 1]);
    lemma_further_line(Seq::empty(), body);
    assert forall|k: int| 0 <= k < number.len() implies body[k] != '\t' by {
        assert(digit(number[k]));
    }
    lemma_first_place(body, '\t', number.len() as int);
    assert(body.take(number.len() as int) =~= number);
    assert(body.skip(number.len() as int + 1) =~= e);
    lemma_unescape(key, key.len());
    assert(key.take(key.len() as int) =~= key);
}

proof fn lemma_mode_read_back(path: Seq<char>, mode: IndexMode)
    requires
        mode_fault(mode) is None,
    ensures
        ({
            let body = "mode\t"@ + mode_tag(mode);
            &&& mode_line_fault(path, mode, body.push('\n')) is None
            &&& forall|i: int| 0 <= i < body.len() ==> body[i] != '\n'
        }),
{
    reveal_strlit("mode\t");
    reveal_strlit("records");
    reveal_strlit("ngrams:");
    let tag = mode_tag(mode);
    let head = "mode\t"@;
    let body = head + tag;
    if let IndexMode::Ngrams { window_codepoints } = mode {
        let number = decimal(window_codepoints as nat);
        lemma_decimal_read_back(window_codepoints as nat);
        assert(tag.take("ngrams:"@.len() as int) =~= "ngrams:"@);
        assert(tag.skip("ngrams:"@.len() as int) =~= number);
        assert(tag[0] == 'n');
        assert("records"@[0] == 'r');
        assert(digit(number[number.len() - 1]));
        assert(body.last() == number[number.len() - 1]);
        assert forall|i: int| 0 <= i < body.len() implies body[i] != '\n' by {
            if i >= 12 {
                assert(body[i] == number[i - 12]);
                assert(digit(number[i - 12]));
            }
        }
    } else {
        assert(body.last() == 's');
    }
    assert(mode_of_tag(tag) == Some(mode));
    lemma_further_line(Seq::empty(), body);
    assert(body.take(head.len() as int) =~= head);
    assert(body.skip(head.len() as int) =~= tag);
}

/// The lines of the first records of a shard.
proof fn lemma_shard_lines(path: Seq<char>, mode: IndexMode, log: Log, n: nat)
    requires
        mode_fault(mode) is None,
        log_ok(log),
        strictly_ascending(log),
        n <= log.len(),
    ensures
        ({
            let text = shard_head(mode) + record_lines(log, n);
            let lines = raw_lines(text);
            &&& text.last() == '\n'
            &&& lines.len() == n + 2
            &&& line_text(lines[0]) == shard_magic()
            &&& mode_line_fault(path, mode, lines[1]) is None
            &&& shard_records(path, lines, lines.len()) == Ok::<Log, ErrorView>(
                log.take(n as int),
            )
        }),
    decreases n,
{
    let text = shard_head(mode) + record_lines(log, n);
    let lines = raw_lines(text);
    if n == 0 {
        reveal_strlit("NUTRIMATIC_ZH_TEXT_SHARD_V2");
        let magic = shard_magic();
        let tag = "mode\t"@ + mode_tag(mode);
        lemma_further_line(Seq::empty(), magic);
        assert(Seq::<char>::empty() + magic.push('\n') =~= magic + seq!['\n']);
        lemma_mode_read_back(path, mode);
        lemma_further_line(magic + seq!['\n'], tag);
        assert(text =~= magic + seq!['\n'] + tag.push('\n'));
        assert(log.take(0) =~= Seq::empty());
    } else {
        let m = (n - 1) as nat;
        lemma_shard_lines(path, mode, log, m);
        let before = shard_head(mode) + record_lines(log, m);
        let known = raw_lines(before);
        let (key, count) = log[n - 1];
        let part = log.take(n - 1);
        let previous = crate::index::shard::previous_key(part);
        if n > 1 {
            let a = log[n - 2].0;
            assert(part.last() == log[n - 2]);
            assert(lex_leq::<u32>(log[n - 2].0, log[n - 1].0) && log[n - 2].0 != log[n - 1].0);
            lemma_lex_total_order::<u32>(a, key, a);
        }
        assert(log[n - 1].0.len() > 0);
        lemma_record_read_back(path, n + 2, key, count, previous);
        let body = decimal(count as nat) + seq!['\t'] + escaped(key);
        lemma_further_line(before, body);
        assert(text =~= before + body.push('\n'));
        assert(lines == known.push(record_line(key, count)));
        assert(lines[0] == known[0] && lines[1] == known[1]);
        crate::index::shard::lemma_records_same(path, known, lines, (n + 1) as nat);
        assert(part.push(log[n - 1]) =~= log.take(n as int));
    }
}

/// Reading a shard gives the records that were written to it.
pub proof fn law_shard_reads_back(path: Seq<char>, mode: IndexMode, log: Log)
    requires
        mode_fault(mode) is None,
        log_ok(log),
        strictly_ascending(log),
    ensures
        read_shard(path, mode, raw_lines(shard_text(mode, log))) == Ok::<Log, ErrorView>(log),
{
    lemma_shard_lines(path, mode, log, log.len());
    assert(log.take(log.len() as int) =~= log);
}

} // verus!
