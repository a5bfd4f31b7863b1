//! How characters are pronounced.
use crate::chinese::components::{lemma_added_shows, shows};
use crate::chinese::error::{ChineseDataError, DataFault};
use crate::chinese::han::{han, is_han};
use crate::collections::ClassMap;
use crate::ordered::views;
use crate::text::{
    copy_chars, digit_char, digit_value, find_char, first_place, lemma_utf8_size_prefix,
    lemma_utf8_size_push, scalar, split_chars, split_on, trim, trimmed, utf8_size, value_of_digit,
    width_of,
};
use vstd::prelude::*;
use vstd::string::*;

verus! {

/// The name of the source.
pub open spec fn spell_source_name() -> Seq<char> {
    "spell.js"@
}

/// The value of four hexadecimal digits.
pub open spec fn hex4(s: Seq<char>) -> Option<nat> {
    if s.len() < 4 {
        None
    } else {
        match (
            digit_value(s[0], 16),
            digit_value(s[1], 16),
            digit_value(s[2], 16),
            digit_value(s[3], 16),
        ) {
            (Some(a), Some(b), Some(c), Some(d)) => Some(
                ((a * 16 + b) * 16 + c) * 16 + d,
            ),
            _ => None,
        }
    }
}

/// What a backslash with the characters behind it stands for, and how many of
/// these it takes.
pub open spec fn js_escape(rest: Seq<char>) -> Result<(char, int), Seq<char>> {
    if rest.len() == 0 {
        Err("转义序列意外结束"@)
    } else if rest[0] == '"' || rest[0] == '\\' || rest[0] == '/' {
        Ok((rest[0], 1))
    } else if rest[0] == 'n' {
        Ok(('\n', 1))
    } else if rest[0] == 'r' {
        Ok(('\r', 1))
    } else if rest[0] == 't' {
        Ok(('\t', 1))
    } else if rest[0] == 'b' {
        Ok(('\u{8}', 1))
    } else if rest[0] == 'f' {
        Ok(('\u{c}', 1))
    } else if rest[0] == 'u' {
        if utf8_size(rest.skip(1)) < 4 {
            Err("不完整的 \\u 转义"@)
        } else {
            match hex4(rest.skip(1)) {
                None => Err("无效的 \\u 转义"@),
                Some(v) => if scalar(v as int) {
                    Ok((v as char, 5))
                } else {
                    Err("\\u 转义不是 Unicode 标量"@)
                },
            }
        }
    } else {
        Err("不支持的 JavaScript 转义：\\"@ + seq![rest[0]])
    }
}

/// Reads the rest of a string in double quotes, with the place behind it.
pub open spec fn js_tail(line: Seq<char>, at: int, so_far: Seq<char>) -> Result<
    (Seq<char>, int),
    Seq<char>,
>
    decreases line.len() - at,
{
    if at < 0 || at >= line.len() {
        Err("JavaScript 字符串缺少结束引号"@)
    } else if line[at] == '"' {
        Ok((so_far, at + 1))
    } else if line[at] == '\\' {
        match js_escape(line.skip(at + 1)) {
            Err(e) => Err(e),
            Ok((c, n)) => js_tail(line, at + 1 + n, so_far.push(c)),
        }
    } else {
        js_tail(line, at + 1, so_far.push(line[at]))
    }
}

/// Reads a string in double quotes, with the place behind it.
pub open spec fn js_string(line: Seq<char>, at: int) -> Result<(Seq<char>, int), Seq<char>> {
    if at >= line.len() || line[at] != '"' {
        Err("应为 JavaScript 双引号字符串"@)
    } else {
        js_tail(line, at + 1, Seq::empty())
    }
}

/// The character is white space in ASCII.
pub open spec fn ascii_white(c: char) -> bool {
    c == ' ' || c == '\t' || c == '\n' || c == '\u{c}' || c == '\r'
}

/// The first place from `at` on that holds no white space.
pub open spec fn past_white(line: Seq<char>, at: int) -> int
    decreases line.len() - at,
{
    if 0 <= at < line.len() && ascii_white(line[at]) {
        past_white(line, at + 1)
    } else {
        at
    }
}

/// The entries of a list of characters, each with its tone.
pub open spec fn tone_pairs(base: Seq<char>, pairs: Seq<char>, n: nat) -> Result<
    Seq<(Seq<char>, char)>,
    Seq<char>,
>
    decreases n,
{
    if n == 0 {
        Ok(Seq::empty())
    } else {
        match tone_pairs(base, pairs, (n - 1) as nat) {
            Err(e) => Err(e),
            Ok(known) => {
                let c = pairs[2 * (n - 1)];
                if 2 * n > pairs.len() {
                    Err("拼音字码对缺少声调数字"@)
                } else {
                    match digit_value(pairs[2 * n - 1], 10) {
                        None => Err("拼音字码对的声调不是数字"@),
                        Some(tone) => if han(c) {
                            Ok(known.push((base.push(digit_char((tone % 5) as int)), c)))
                        } else {
                            Ok(known)
                        },
                    }
                }
            },
        }
    }
}

/// What a line says: nothing, or the pronunciations of some characters.
pub open spec fn spell_line(line: Seq<char>) -> Result<Option<Seq<(Seq<char>, char)>>, Seq<char>> {
    let text = trimmed(line);
    if text.len() == 0 || text[0] != '"' {
        Ok(None)
    } else {
        match js_string(text, 0) {
            Err(e) => Err(e),
            Ok((base, after_base)) => {
                let colon = past_white(text, after_base);
                if colon >= text.len() || text[colon] != ':' {
                    Err("拼音键后缺少冒号"@)
                } else {
                    match js_string(text, past_white(text, colon + 1)) {
                        Err(e) => Err(e),
                        Ok((encoded, _)) => match first_place(encoded, ':') {
                            None => Err("拼音值中缺少内部冒号"@),
                            Some(i) => {
                                let pairs = encoded.skip(i + 1);
                                if base.len() == 0 {
                                    Err("拼音键不能为空"@)
                                } else {
                                    match tone_pairs(base, pairs, (pairs.len() + 1) / 2) {
                                        Err(e) => Err(e),
                                        Ok(found) => Ok(Some(found)),
                                    }
                                }
                            },
                        },
                    }
                }
            },
        }
    }
}

/// What the first `n` lines say: the entries, and how many lines have some.
pub open spec fn spell_of_lines(lines: Seq<Seq<char>>, n: nat) -> Result<
    (Seq<(Seq<char>, char)>, nat),
    DataFault,
>
    decreases n,
{
    if n == 0 {
        Ok((Seq::empty(), 0))
    } else {
        match spell_of_lines(lines, (n - 1) as nat) {
            Err(e) => Err(e),
            Ok((known, count)) => match spell_line(lines[n - 1]) {
                Err(message) => Err(
                    DataFault { source_name: spell_source_name(), line: n, message },
                ),
                Ok(None) => Ok((known, count)),
                Ok(Some(found)) => Ok((known + found, count + 1)),
            },
        }
    }
}

/// The pronunciations that a source gives: pinyin with a tone, and a
/// character.
pub open spec fn spell_of(source: Seq<char>) -> Result<Seq<(Seq<char>, char)>, DataFault> {
    let lines = split_on(source, '\n');
    match spell_of_lines(lines, lines.len()) {
        Err(e) => Err(e),
        Ok((entries, count)) => if count == 0 {
            Err(
                DataFault {
                    source_name: spell_source_name(),
                    line: 1,
                    message: "没有找到拼音条目"@,
                },
            )
        } else {
            Ok(entries)
        },
    }
}

/// The entry is one of the list.
pub open spec fn listed_pair(entries: Seq<(Seq<char>, char)>, key: Seq<char>, c: char) -> bool {
    entries.contains((key, c))
}

/// Whether a string takes at least four bytes.
fn has_four_bytes(s: &[char]) -> (r: bool)
    ensures
        r == (utf8_size(s@) >= 4),
{
    let mut size: usize = 0;
    let mut i: usize = 0;
    assert(s@.take(0) =~= Seq::empty());
    while i < s.len() && size < 4
        invariant
            i <= s@.len(),
            size == utf8_size(s@.take(i as int)),
            size < 8,
        decreases s.len() - i,
    {
        proof {
            assert(s@.take(i + 1) =~= s@.take(i as int).push(s@[i as int]));
            lemma_utf8_size_push(s@.take(i as int), s@[i as int]);
        }
        size = size + width_of(s[i]);
        i += 1;
    }
    proof {
        lemma_utf8_size_prefix(s@, i as int);
        if i == s@.len() {
            assert(s@.take(i as int) =~= s@);
        }
    }
    size >= 4
}

/// The value of four hexadecimal digits.
fn read_hex4(s: &[char]) -> (r: Option<u32>)
    ensures
        match hex4(s@) {
            Some(v) => r matches Some(w) && w == v,
            None => r is None,
        },
{
    if s.len() < 4 {
        return None;
    }
    match (
        value_of_digit(s[0], 16),
        value_of_digit(s[1], 16),
        value_of_digit(s[2], 16),
        value_of_digit(s[3], 16),
    ) {
        (Some(a), Some(b), Some(c), Some(d)) => Some(((a * 16 + b) * 16 + c) * 16 + d),
        _ => None,
    }
}

/// What a backslash with the characters behind it stands for.
fn read_escape(rest: &[char]) -> (r: Result<(char, usize), String>)
    ensures
        match (js_escape(rest@), r) {
            (Ok((c, n)), Ok((d, m))) => c == d && n == m && 0 < m <= rest@.len(),
            (Err(e), Err(f)) => f@ == e,
            _ => false,
        },
{
    if rest.len() == 0 {
        return Err("转义序列意外结束".to_owned());
    }
    let c = rest[0];
    if c == '"' || c == '\\' || c == '/' {
        return Ok((c, 1));
    }
    if c == 'n' {
        return Ok(('\n', 1));
    }
    if c == 'r' {
        return Ok(('\r', 1));
    }
    if c == 't' {
        return Ok(('\t', 1));
    }
    if c == 'b' {
        return Ok(('\u{8}', 1));
    }
    if c == 'f' {
        return Ok(('\u{c}', 1));
    }
    if c == 'u' {
        let digits = &rest[1..rest.len()];
        assert(digits@ =~= rest@.skip(1));
        if !has_four_bytes(digits) {
            return Err("不完整的 \\u 转义".to_owned());
        }
        let value: u32 = match read_hex4(digits) {
            Some(v) => v,
            None => {
                return Err("无效的 \\u 转义".to_owned());
            },
        };
        return match char::from_u32(value) {
            Some(decoded) => {
                proof {
                    crate::text::lemma_same_code_point(decoded, (value as nat) as char);
                }
                Ok((decoded, 5))
            },
            None => Err("\\u 转义不是 Unicode 标量".to_owned()),
        };
    }
    let mut message = "不支持的 JavaScript 转义：\\".to_owned();
    message.push(c);
    proof {
        assert(message@ =~= "不支持的 JavaScript 转义：\\"@ + seq![rest@[0]]);
    }
    Err(message)
}

/// Reads a string in double quotes, with the place behind it.
fn parse_js_string(line: &[char], start: usize) -> (r: Result<(Vec<char>, usize), String>)
    ensures
        match (js_string(line@, start as int), r) {
            (Ok((s, end)), Ok((t, e))) => s == t@ && end == e && e <= line@.len(),
            (Err(e), Err(f)) => f@ == e,
            _ => false,
        },
{
    if start >= line.len() || line[start] != '"' {
        return Err("应为 JavaScript 双引号字符串".to_owned());
    }
    let mut output: Vec<char> = Vec::new();
    let mut at: usize = start + 1;
    assert(output@ =~= Seq::empty());
    while at < line.len()
        invariant
            at <= line@.len(),
            js_string(line@, start as int) == js_tail(line@, at as int, output@),
        decreases line.len() - at,
    {
        let c = line[at];
        if c == '"' {
            return Ok((output, at + 1));
        }
        if c == '\\' {
            let rest = &line[at + 1..line.len()];
            assert(rest@ =~= line@.skip(at + 1));
            match read_escape(rest) {
                Ok((decoded, n)) => {
                    output.push(decoded);
                    at = at + 1 + n;
                },
                Err(e) => {
                    return Err(e);
                },
            }
        } else {
            output.push(c);
            at += 1;
        }
    }
    Err("JavaScript 字符串缺少结束引号".to_owned())
}

/// The first place from `start` on that holds no white space.
fn skip_ascii_whitespace(line: &[char], start: usize) -> (r: usize)
    requires
        start <= line@.len(),
    ensures
        r == past_white(line@, start as int),
        start <= r <= line@.len(),
{
    let mut at: usize = start;
    while at < line.len() && (line[at] == ' ' || line[at] == '\t' || line[at] == '\n' || line[at]
        == '\u{c}' || line[at] == '\r')
        invariant
            start <= at <= line@.len(),
            past_white(line@, start as int) == past_white(line@, at as int),
        decreases line.len() - at,
    {
        at += 1;
    }
    at
}

/// The decimal digit of a tone.
fn tone_char(tone: u32) -> (r: char)
    requires
        tone < 5,
    ensures
        r == digit_char(tone as int),
{
    if tone == 0 {
        '0'
    } else if tone == 1 {
        '1'
    } else if tone == 2 {
        '2'
    } else if tone == 3 {
        '3'
    } else {
        '4'
    }
}

spec fn rel_of(entries: Seq<(Seq<char>, char)>) -> spec_fn(Seq<char>, char) -> bool {
    |key: Seq<char>, c: char| listed_pair(entries, key, c)
}

proof fn lemma_pair_push(entries: Seq<(Seq<char>, char)>, x: (Seq<char>, char))
    ensures
        forall|key: Seq<char>, c: char| #[trigger]
            listed_pair(entries.push(x), key, c) == (listed_pair(entries, key, c) || (key == x.0
                && c == x.1)),
{
    let more = entries.push(x);
    assert forall|key: Seq<char>, c: char| #[trigger]
        listed_pair(more, key, c) == (listed_pair(entries, key, c) || (key == x.0 && c == x.1)) by {
        if entries.contains((key, c)) {
            let k = choose|k: int| 0 <= k < entries.len() && entries[k] == (key, c);
            assert(more[k] == (key, c));
        }
        if key == x.0 && c == x.1 {
            assert(more[entries.len() as int] == (key, c));
        }
        if more.contains((key, c)) {
            let k = choose|k: int| 0 <= k < more.len() && more[k] == (key, c);
            if k < entries.len() {
                assert(entries[k] == (key, c));
            }
        }
    }
}

/// Adds the entries of a list of characters with their tones.
fn add_pairs(
    base: &Vec<char>,
    pairs: &[char],
    map: &mut ClassMap<Vec<char>>,
    Ghost(known): Ghost<Seq<(Seq<char>, char)>>,
) -> (r: Result<Ghost<Seq<(Seq<char>, char)>>, String>)
    requires
        old(map).wf(),
        shows(old(map)@, rel_of(known)),
    ensures
        match (tone_pairs(base@, pairs@, (pairs@.len() + 1) / 2), r) {
            (Ok(found), Ok(g)) => g@ == found && final(map).wf() && shows(
                final(map)@,
                rel_of(known + found),
            ),
            (Err(e), Err(f)) => f@ == e,
            _ => false,
        },
{
    let ghost n = (pairs@.len() + 1) / 2;
    let ghost mut found: Seq<(Seq<char>, char)> = Seq::empty();
    let mut i: usize = 0;
    let ghost mut k: nat = 0;
    assert(known + found =~= known);
    while i < pairs.len()
        invariant
            i == 2 * k,
            k <= n,
            n == (pairs@.len() + 1) / 2,
            map.wf(),
            shows(map@, rel_of(known + found)),
            tone_pairs(base@, pairs@, k) == Ok::<Seq<(Seq<char>, char)>, Seq<char>>(found),
        decreases pairs.len() - i,
    {
        let c = pairs[i];
        if pairs.len() - i < 2 {
            proof {
                lemma_pairs_fault(base@, pairs@, k + 1, n);
            }
            return Err("拼音字码对缺少声调数字".to_owned());
        }
        let tone: u32 = match value_of_digit(pairs[i + 1], 10) {
            Some(tone) => tone,
            None => {
                proof {
                    lemma_pairs_fault(base@, pairs@, k + 1, n);
                }
                return Err("拼音字码对的声调不是数字".to_owned());
            },
        };
        if is_han(c) {
            let mut key = copy_chars(base.as_slice());
            key.push(tone_char(tone % 5));
            let ghost before = map@;
            let ghost entry = (key@, c);
            map.add(key, c);
            proof {
                let so_far = known + found;
                lemma_pair_push(so_far, entry);
                assert(known + found.push(entry) =~= so_far.push(entry));
                lemma_added_shows(
                    before,
                    rel_of(so_far),
                    entry.0,
                    c,
                    rel_of(so_far.push(entry)),
                );
                found = found.push(entry);
            }
        }
        proof {
            k = k + 1;
        }
        i = i + 2;
    }
    Ok(Ghost(found))
}

proof fn lemma_pairs_fault(base: Seq<char>, pairs: Seq<char>, m: nat, n: nat)
    requires
        m <= n,
        tone_pairs(base, pairs, m) is Err,
    ensures
        tone_pairs(base, pairs, n) == tone_pairs(base, pairs, m),
    decreases n,
{
    if m < n {
        lemma_pairs_fault(base, pairs, m, (n - 1) as nat);
    }
}

/// Adds what a line says, and tells whether it says something.
fn read_spell_line(
    line: &[char],
    map: &mut ClassMap<Vec<char>>,
    Ghost(known): Ghost<Seq<(Seq<char>, char)>>,
) -> (r: Result<bool, String>)
    requires
        old(map).wf(),
        shows(old(map)@, rel_of(known)),
    ensures
        match (spell_line(line@), r) {
            (Ok(None), Ok(false)) => *final(map) == *old(map),
            (Ok(Some(found)), Ok(true)) => final(map).wf() && shows(
                final(map)@,
                rel_of(known + found),
            ),
            (Err(e), Err(f)) => f@ == e,
            _ => false,
        },
{
    let text = trim(line);
    if text.len() == 0 || text[0] != '"' {
        return Ok(false);
    }
    let (base, after_base) = match parse_js_string(text, 0) {
        Ok(x) => x,
        Err(e) => {
            return Err(e);
        },
    };
    let colon: usize = skip_ascii_whitespace(text, after_base);
    if colon >= text.len() || text[colon] != ':' {
        return Err("拼音键后缺少冒号".to_owned());
    }
    let at: usize = skip_ascii_whitespace(text, colon + 1);
    let (encoded, _) = match parse_js_string(text, at) {
        Ok(x) => x,
        Err(e) => {
            return Err(e);
        },
    };
    let inner: usize = match find_char(encoded.as_slice(), ':') {
        Some(i) => i,
        None => {
            return Err("拼音值中缺少内部冒号".to_owned());
        },
    };
    if base.len() == 0 {
        return Err("拼音键不能为空".to_owned());
    }
    let end: usize = encoded.len();
    assert(inner < end);
    let pairs = &encoded.as_slice()[inner + 1..end];
    assert(pairs@ =~= encoded@.skip(inner + 1));
    match add_pairs(&base, pairs, map, Ghost(known)) {
        Ok(_) => Ok(true),
        Err(e) => Err(e),
    }
}

/// Reads how characters are pronounced.
pub fn parse_spell(source: &[char]) -> (r: Result<ClassMap<Vec<char>>, ChineseDataError>)
    ensures
        match (spell_of(source@), r) {
            (Ok(entries), Ok(map)) => map.wf() && shows(
                map@,
                |key: Seq<char>, c: char| listed_pair(entries, key, c),
            ),
            (Err(e), Err(f)) => f@ == e,
            _ => false,
        },
{
    let lines = split_chars(source, '\n');
    let ghost all = views(lines@);
    let mut map: ClassMap<Vec<char>> = ClassMap::new();
    let mut any = false;
    let ghost mut known: Seq<(Seq<char>, char)> = Seq::empty();
    let ghost mut count: nat = 0;
    let mut i: usize = 0;
    proof {
        assert forall|key: Seq<char>, c: char| !(#[trigger] rel_of(known)(key, c)) by {
        }
    }
    while i < lines.len()
        invariant
            i <= lines@.len(),
            all == views(lines@),
            all == split_on(source@, '\n'),
            map.wf(),
            shows(map@, rel_of(known)),
            any == (count > 0),
            spell_of_lines(all, i as nat) == Ok::<(Seq<(Seq<char>, char)>, nat), DataFault>(
                (known, count),
            ),
        decreases lines.len() - i,
    {
        assert(all[i as int] == lines@[i as int]@);
        match read_spell_line(lines[i].as_slice(), &mut map, Ghost(known)) {
            Ok(found) => {
                proof {
                    if found {
                        known = known + spell_line(all[i as int])->Ok_0->0;
                        count = count + 1;
                    }
                }
                if found {
                    any = true;
                }
            },
            Err(message) => {
                proof {
                    lemma_spell_fault(all, (i + 1) as nat, all.len());
                }
                return Err(ChineseDataError::parse("spell.js", i + 1, message.as_str()));
            },
        }
        i += 1;
    }
    if !any {
        return Err(ChineseDataError::parse("spell.js", 1, "没有找到拼音条目"));
    }
    Ok(map)
}

proof fn lemma_spell_fault(lines: Seq<Seq<char>>, m: nat, n: nat)
    requires
        m <= n,
        spell_of_lines(lines, m) is Err,
    ensures
        spell_of_lines(lines, n) == spell_of_lines(lines, m),
    decreases n,
{
    if m < n {
        lemma_spell_fault(lines, m, (n - 1) as nat);
    }
}

} // verus!
