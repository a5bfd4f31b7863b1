//! The grammar of queries: what a string of the query language stands for, and
//! the first fault in one that stands for nothing.
use crate::chinese::data::{with_all, with_glob, DataView};
use crate::chinese::error::pattern_fault_text;
use crate::chinese::han::han;
use crate::chinese::pinyin::glob_of;
use crate::chinese::words::template_fills;
use crate::ordered::sorted;
use crate::query::class::{in_ranges, joined, separated, upright, CharRange, ClassView};
use crate::query::expr::Re;
use crate::query::normal::{re_alt, re_anagram, re_concat, re_intersect, re_star};
use crate::text::{
    debug_char, digit, digits_value, first_place, letter, trimmed, unsigned_value, utf8_size,
    white,
};
use vstd::prelude::*;

verus! {

/// The largest number of repetitions.
pub const MAX_REPEAT: usize = 255;

/// A fault at a character of a query.
pub struct Fault {
    pub at: int,
    pub message: Seq<char>,
}

/// How far a query has been read, with the classes and groups met so far.
pub struct Reading {
    pub at: int,
    pub classes: Seq<ClassView>,
    pub groups: Seq<Seq<char>>,
}

/// What reading a part of a query gives.
pub type Read = Result<(Re, Reading), Fault>;

/// The place of the first occurrence of a value.
pub open spec fn first_index<A>(s: Seq<A>, x: A) -> Option<int>
    decreases s.len(),
{
    if s.len() == 0 {
        None
    } else if s[0] == x {
        Some(0)
    } else {
        match first_index(s.skip(1), x) {
            Some(i) => Some(i + 1),
            None => None,
        }
    }
}

/// What tells the place of the first occurrence.
pub proof fn lemma_first_index<A>(s: Seq<A>, x: A, i: int)
    requires
        0 <= i <= s.len(),
        forall|k: int| 0 <= k < i ==> s[k] != x,
        i < s.len() ==> s[i] == x,
    ensures
        first_index(s, x) == if i < s.len() {
            Some(i)
        } else {
            None
        },
    decreases s.len(),
{
    if s.len() > 0 && s[0] != x {
        assert forall|k: int| 0 <= k < i - 1 implies s.skip(1)[k] != x by {
            assert(s[k + 1] != x);
        }
        lemma_first_index(s.skip(1), x, i - 1);
    }
}

/// The character at a place, none behind the end.
pub open spec fn peek(q: Seq<char>, at: int) -> Option<char> {
    if 0 <= at < q.len() {
        Some(q[at])
    } else {
        None
    }
}

/// The number of a class, which is added where it has not been met.
pub open spec fn intern(s: Reading, class: ClassView) -> (u32, Reading) {
    match first_index(s.classes, class) {
        Some(i) => (i as u32, s),
        None => (s.classes.len() as u32, Reading { classes: s.classes.push(class), ..s }),
    }
}

/// The number of a group, which is added where it has not been met.
pub open spec fn intern_group(s: Reading, name: Seq<char>) -> (u32, Reading) {
    match first_index(s.groups, name) {
        Some(i) => (i as u32, s),
        None => (s.groups.len() as u32, Reading { groups: s.groups.push(name), ..s }),
    }
}

/// The ranges of those characters of a set that belong to the repertoire:
/// upright, ascending, and not touching.
pub open spec fn ranges_of(set: Set<char>) -> Seq<CharRange> {
    choose|ranges: Seq<CharRange>|
        separated(ranges) && upright(ranges) && forall|c: char| #[trigger]
            in_ranges(ranges, c) == (han(c) && set.contains(c))
}

/// The expression for one character of a set.
pub open spec fn read_set(s: Reading, set: Set<char>) -> (Re, Reading) {
    let ranges = ranges_of(set);
    if ranges.len() == 0 {
        (Re::Empty, s)
    } else {
        let (id, after) = intern(s, ClassView::Ranges { ranges, negated: false });
        (Re::Class(id), after)
    }
}

/// A single character.
pub open spec fn read_literal(s: Reading, c: char, start: int) -> Read {
    if !han(c) {
        Err(Fault { at: start, message: "仅允许汉字字面量；不支持 "@ + debug_char(c) })
    } else {
        Ok(read_set(s, set![c]))
    }
}

/// A member of a character class, with the place behind it.
pub open spec fn class_member(q: Seq<char>, at: int, start: int) -> Result<(char, int), Fault> {
    match peek(q, at) {
        None => Err(Fault { at: start, message: "字符类意外结束"@ }),
        Some(first) => if first == '\\' && peek(q, at + 1) is None {
            Err(Fault { at: start, message: "字符类转义不完整"@ })
        } else {
            let c = if first == '\\' { q[at + 1] } else { first };
            let next = if first == '\\' { at + 2 } else { at + 1 };
            if !han(c) {
                Err(Fault { at: start, message: "字符类成员不是汉字："@ + debug_char(c) })
            } else {
                Ok((c, next))
            }
        },
    }
}

/// The members of a character class up to its end, with the place of the end.
pub open spec fn class_members(
    q: Seq<char>,
    at: int,
    start: int,
    ranges: Seq<CharRange>,
) -> Result<(Seq<CharRange>, int), Fault>
    decreases q.len() - at,
{
    if peek(q, at) is None || peek(q, at) == Some(']') {
        Ok((ranges, at))
    } else {
        match class_member(q, at, start) {
            Err(e) => Err(e),
            Ok((first, next)) => if peek(q, next) == Some('-') && peek(q, next + 1) != Some(']') {
                match class_member(q, next + 1, start) {
                    Err(e) => Err(e),
                    Ok((last, end)) => if first > last {
                        Err(Fault { at: start, message: "字符类范围逆序"@ })
                    } else {
                        class_members(
                            q,
                            end,
                            start,
                            ranges.push(CharRange { start: first, end: last }),
                        )
                    },
                }
            } else {
                class_members(q, next, start, ranges.push(CharRange { start: first, end: first }))
            },
        }
    }
}

/// The ranges in order.
pub open spec fn sorted_ranges(ranges: Seq<CharRange>) -> Seq<CharRange> {
    choose|s: Seq<CharRange>|
        sorted::<CharRange>(s) && s.to_multiset() == ranges.to_multiset()
}

/// A character class, from behind its bracket on.
pub open spec fn read_class(q: Seq<char>, s: Reading, start: int) -> Read {
    let negated = peek(q, s.at) == Some('^');
    let from = if negated { s.at + 1 } else { s.at };
    match class_members(q, from, start, Seq::empty()) {
        Err(e) => Err(e),
        Ok((ranges, end)) => if peek(q, end) != Some(']') {
            Err(Fault { at: start, message: "字符类缺少 ]"@ })
        } else if ranges.len() == 0 {
            Err(Fault { at: start, message: "字符类不能为空"@ })
        } else {
            let (id, after) = intern(
                Reading { at: end + 1, ..s },
                ClassView::Ranges { ranges: joined(sorted_ranges(ranges)), negated },
            );
            Ok((Re::Class(id), after))
        },
    }
}

/// The first place from `at` on that holds no letter.
pub open spec fn past_letters(q: Seq<char>, at: int) -> int
    decreases q.len() - at,
{
    if 0 <= at < q.len() && letter(q[at]) {
        past_letters(q, at + 1)
    } else {
        at
    }
}

/// The first place from `at` on that holds no digit.
pub open spec fn past_digits(q: Seq<char>, at: int) -> int
    decreases q.len() - at,
{
    if 0 <= at < q.len() && digit(q[at]) {
        past_digits(q, at + 1)
    } else {
        at
    }
}

/// The content of a property up to its bracket, with the place behind it.
pub open spec fn property_content(q: Seq<char>, at: int, start: int, so_far: Seq<char>) -> Result<
    (Seq<char>, int),
    Fault,
>
    decreases q.len() - at,
{
    match peek(q, at) {
        None => Err(Fault { at: start, message: "属性缺少 )"@ }),
        Some(c) => if c == ')' {
            Ok((so_far, at + 1))
        } else if c == '(' {
            Err(Fault { at: start, message: "属性参数中不能嵌套括号"@ })
        } else {
            property_content(q, at + 1, start, so_far.push(c))
        },
    }
}

/// The number of strokes, or the range of numbers, that a string gives.
pub open spec fn stroke_range(input: Seq<char>) -> Result<(u16, u16), Seq<char>> {
    if input.len() == 0 {
        Err("笔画数不能为空"@)
    } else {
        match first_place(input, '-') {
            Some(i) => {
                let low = unsigned_value(input.take(i), 10);
                let high = unsigned_value(input.skip(i + 1), 10);
                if input.skip(i + 1).contains('-') {
                    Err("范围只能包含一个 -"@)
                } else if !(low matches Some(v) && v <= u16::MAX) {
                    Err("下限不是整数"@)
                } else if !(high matches Some(v) && v <= u16::MAX) {
                    Err("上限不是整数"@)
                } else if low->0 > high->0 {
                    Err("范围上限小于下限"@)
                } else {
                    Ok((low->0 as u16, high->0 as u16))
                }
            },
            None => match unsigned_value(input, 10) {
                Some(v) => if v <= u16::MAX {
                    Ok((v as u16, v as u16))
                } else {
                    Err("笔画数不是整数"@)
                },
                None => Err("笔画数不是整数"@),
            },
        }
    }
}

/// The characters with a number of strokes within the range.
pub open spec fn with_strokes(data: DataView, low: int, high: int) -> Set<char> {
    Set::new(|c: char| stroked(data, low, high, c))
}

/// The character has a number of strokes within the range.
pub open spec fn stroked(data: DataView, low: int, high: int, c: char) -> bool {
    exists|n: u16|
        low <= n <= high && #[trigger] data.strokes.dom().contains(n) && data.strokes[n].contains(
            c,
        )
}

/// The name of a group: a letter or an underscore, then letters, digits and
/// underscores.
pub open spec fn group_name(name: Seq<char>) -> bool {
    &&& name.len() > 0
    &&& letter(name[0]) || name[0] == '_'
    &&& forall|i: int|
        1 <= i < name.len() ==> letter(#[trigger] name[i]) || digit(name[i]) || name[i] == '_'
}

/// What a property with this name and content stands for.
pub open spec fn read_named(
    data: DataView,
    s: Reading,
    name: Seq<char>,
    content: Seq<char>,
    start: int,
) -> Read {
    if name == "b"@ {
        if content.len() == 0 {
            Err(Fault { at: start, message: "部件属性不能为空"@ })
        } else if exists|i: int|
            0 <= i < content.len() && ((#[trigger] content[i] as u32) < 128 || white(content[i])) {
            Err(
                Fault {
                    at: start,
                    message: "@b(...) 中只写连续部件；多个部件表示同时包含"@,
                },
            )
        } else {
            Ok(read_set(s, with_all(data, content)))
        }
    } else if name == "h"@ {
        match stroke_range(content) {
            Err(e) => Err(Fault { at: start, message: "无效的笔画属性："@ + e }),
            Ok((low, high)) => Ok(read_set(s, with_strokes(data, low as int, high as int))),
        }
    } else if name == "p"@ {
        if content.len() == 0 {
            Err(Fault { at: start, message: "拼音属性不能为空"@ })
        } else {
            match glob_of(content) {
                Err(e) => Err(
                    Fault { at: start, message: "无效的拼音属性："@ + pattern_fault_text(e) },
                ),
                Ok(glob) => Ok(read_set(s, with_glob(data, glob))),
            }
        }
    } else if name == "t"@ {
        if !group_name(content) {
            Err(
                Fault {
                    at: start,
                    message:
                        "捕获 ID 必须以 ASCII 字母或下划线开头，且只含字母、数字、下划线"@,
                },
            )
        } else {
            let (group, after) = intern_group(s, content);
            Ok((Re::Capture { class: 0, group }, after))
        }
    } else if name == "z"@ {
        match template_fills(data.words, content) {
            Err(e) => Err(Fault { at: start, message: "无效的组词模板："@ + e }),
            Ok(set) => Ok(read_set(s, set)),
        }
    } else {
        Err(Fault { at: start, message: "未知属性："@ + name })
    }
}

/// A property, from behind its sign on.
pub open spec fn read_property(q: Seq<char>, data: DataView, s: Reading, start: int) -> Read {
    let end = past_letters(q, s.at);
    if end == s.at || peek(q, end) != Some('(') {
        Err(
            Fault {
                at: start,
                message: "属性语法应为 @p(...)、@b(...)、@h(...)、@t(...) 或 @z(...)"@,
            },
        )
    } else {
        match property_content(q, end + 1, start, Seq::empty()) {
            Err(e) => Err(e),
            Ok((content, next)) => read_named(
                data,
                Reading { at: next, ..s },
                q.subrange(s.at, end),
                trimmed(content),
                start,
            ),
        }
    }
}

/// A number of repetitions, with the place behind it.
pub open spec fn read_count(q: Seq<char>, at: int, start: int) -> Result<(nat, int), Fault> {
    let end = past_digits(q, at);
    if end == at {
        Err(Fault { at: start, message: "缺少重复次数"@ })
    } else {
        let value = digits_value(q.subrange(at, end), 10)->0;
        if value > usize::MAX {
            Err(Fault { at: start, message: "重复次数无效"@ })
        } else {
            Ok((value, end))
        }
    }
}

/// The numbers of repetitions in braces, with the place behind them.
pub open spec fn read_counts(q: Seq<char>, start: int) -> Result<(nat, Option<nat>, int), Fault> {
    match read_count(q, start + 1, start) {
        Err(e) => Err(e),
        Ok((low, at)) => if peek(q, at) == Some('}') {
            Ok((low, Some(low), at + 1))
        } else if peek(q, at) == Some(',') {
            if peek(q, at + 1) == Some('}') {
                Ok((low, None, at + 2))
            } else {
                match read_count(q, at + 1, start) {
                    Err(e) => Err(e),
                    Ok((high, end)) => if peek(q, end) == Some('}') {
                        Ok((low, Some(high), end + 1))
                    } else {
                        Err(Fault { at: start, message: "重复次数缺少 }"@ })
                    },
                }
            }
        } else {
            Err(Fault { at: start, message: "无效的重复次数"@ })
        },
    }
}

/// `n` times the same expression.
pub open spec fn copies(re: Re, n: nat) -> Seq<Re> {
    Seq::new(n, |i: int| re)
}

/// The repetition of an expression: so many times at least and at most.
pub open spec fn repeated(atom: Re, low: nat, high: Option<nat>) -> Re {
    match high {
        None => re_concat(copies(atom, low).push(re_star(atom))),
        Some(h) => re_concat(
            copies(atom, low) + copies(re_alt(seq![Re::Epsilon, atom]), (h - low) as nat),
        ),
    }
}

/// A repetition in braces of the expression before it.
pub open spec fn read_repeat(q: Seq<char>, s: Reading, atom: Re) -> Read {
    match read_counts(q, s.at) {
        Err(e) => Err(e),
        Ok((low, high, end)) => if low > MAX_REPEAT || (high is Some && high->0 > MAX_REPEAT) {
            Err(Fault { at: s.at, message: "重复次数不能超过 255"@ })
        } else if high is Some && high->0 < low {
            Err(Fault { at: s.at, message: "重复次数上限小于下限"@ })
        } else {
            Ok((repeated(atom, low, high), Reading { at: end, ..s }))
        },
    }
}

/// What stands behind an expression: a quantifier, or nothing.
pub open spec fn read_quantifier(q: Seq<char>, s: Reading, atom: Re) -> Read {
    match peek(q, s.at) {
        Some(c) => if c == '?' {
            Ok((re_alt(seq![Re::Epsilon, atom]), Reading { at: s.at + 1, ..s }))
        } else if c == '*' {
            Ok((re_star(atom), Reading { at: s.at + 1, ..s }))
        } else if c == '+' {
            Ok((re_concat(seq![atom, re_star(atom)]), Reading { at: s.at + 1, ..s }))
        } else if c == '{' && peek(q, s.at + 1) is Some && digit(q[s.at + 1]) {
            read_repeat(q, s, atom)
        } else {
            Ok((atom, s))
        },
        None => Ok((atom, s)),
    }
}

/// An alternation.
pub open spec fn read_alt(q: Seq<char>, data: DataView, s: Reading) -> Read
    decreases q.len() - s.at, 9nat,
{
    match read_intersection(q, data, s) {
        Err(e) => Err(e),
        Ok((first, next)) => if !(s.at <= next.at <= q.len()) {
            Ok((first, next))
        } else {
            read_alternatives(q, data, next, seq![first])
        },
    }
}

/// The further alternatives.
pub open spec fn read_alternatives(
    q: Seq<char>,
    data: DataView,
    s: Reading,
    parts: Seq<Re>,
) -> Read
    decreases q.len() - s.at, 8nat,
{
    if peek(q, s.at) != Some('|') {
        Ok((re_alt(parts), s))
    } else {
        match read_intersection(q, data, Reading { at: s.at + 1, ..s }) {
            Err(e) => Err(e),
            Ok((part, next)) => if !(s.at < next.at <= q.len()) {
                Ok((part, next))
            } else {
                read_alternatives(q, data, next, parts.push(part))
            },
        }
    }
}

/// An intersection.
pub open spec fn read_intersection(q: Seq<char>, data: DataView, s: Reading) -> Read
    decreases q.len() - s.at, 7nat,
{
    match read_concat(q, data, s, Seq::empty()) {
        Err(e) => Err(e),
        Ok((first, next)) => if !(s.at <= next.at <= q.len()) {
            Ok((first, next))
        } else {
            read_conjuncts(q, data, next, seq![first])
        },
    }
}

/// The further parts of an intersection.
pub open spec fn read_conjuncts(q: Seq<char>, data: DataView, s: Reading, parts: Seq<Re>) -> Read
    decreases q.len() - s.at, 6nat,
{
    if peek(q, s.at) != Some('&') {
        Ok((re_intersect(parts), s))
    } else {
        match read_concat(q, data, Reading { at: s.at + 1, ..s }, Seq::empty()) {
            Err(e) => Err(e),
            Ok((part, next)) => if !(s.at < next.at <= q.len()) {
                Ok((part, next))
            } else {
                read_conjuncts(q, data, next, parts.push(part))
            },
        }
    }
}

/// Whether the character ends a concatenation.
pub open spec fn ends_concat(c: char) -> bool {
    c == ')' || c == '>' || c == '|' || c == '&'
}

/// A concatenation, behind the parts read so far.
pub open spec fn read_concat(q: Seq<char>, data: DataView, s: Reading, parts: Seq<Re>) -> Read
    decreases q.len() - s.at, 5nat,
{
    if peek(q, s.at) is None || ends_concat(q[s.at]) {
        Ok((re_concat(parts), s))
    } else {
        match read_piece(q, data, s) {
            Err(e) => Err(e),
            Ok((part, next)) => if !(s.at < next.at <= q.len()) {
                Ok((part, next))
            } else {
                read_concat(q, data, next, parts.push(part))
            },
        }
    }
}

/// An atom with its quantifier.
pub open spec fn read_piece(q: Seq<char>, data: DataView, s: Reading) -> Read
    decreases q.len() - s.at, 4nat,
{
    match read_atom(q, data, s) {
        Err(e) => Err(e),
        Ok((atom, next)) => read_quantifier(q, next, atom),
    }
}

/// The parts of a rearrangement, behind those read so far, up to its end.
pub open spec fn read_anagram(
    q: Seq<char>,
    data: DataView,
    s: Reading,
    parts: Seq<Re>,
    start: int,
) -> Read
    decreases q.len() - s.at, 5nat,
{
    if peek(q, s.at) is None {
        Err(Fault { at: start, message: "乱序表达式缺少 >"@ })
    } else if q[s.at] == '>' {
        if parts.len() == 0 {
            Err(Fault { at: start, message: "乱序表达式不能为空"@ })
        } else {
            Ok((re_anagram(parts), Reading { at: s.at + 1, ..s }))
        }
    } else {
        match read_piece(q, data, s) {
            Err(e) => Err(e),
            Ok((part, next)) => if !(s.at < next.at <= q.len()) {
                Ok((part, next))
            } else {
                read_anagram(q, data, next, parts.push(part), start)
            },
        }
    }
}

/// An atom.
pub open spec fn read_atom(q: Seq<char>, data: DataView, s: Reading) -> Read
    decreases q.len() - s.at, 3nat,
{
    let start = s.at;
    let next = Reading { at: s.at + 1, ..s };
    match peek(q, s.at) {
        None => Err(Fault { at: start, message: "缺少匹配原子"@ }),
        Some(c) => if c == '.' {
            Ok((Re::Class(0), next))
        } else if c == '#' {
            Err(
                Fault {
                    at: start,
                    message: "新版不再支持 #；一个汉字请写 .，任意多个请写 .*"@,
                },
            )
        } else if c == '(' {
            match read_alt(q, data, next) {
                Err(e) => Err(e),
                Ok((inner, after)) => if peek(q, after.at) == Some(')') {
                    Ok((inner, Reading { at: after.at + 1, ..after }))
                } else {
                    Err(Fault { at: after.at, message: "分组缺少右括号 )"@ })
                },
            }
        } else if c == '[' {
            read_class(q, next, start)
        } else if c == '<' {
            read_anagram(q, data, next, Seq::empty(), start)
        } else if c == '@' {
            read_property(q, data, next, start)
        } else if c == '{' {
            Err(
                Fault {
                    at: start,
                    message:
                        "花括号只用于跟在原子后的重复次数，如 .{4}；属性请写 @p(...) 等"@,
                },
            )
        } else if c == '"' {
            Err(
                Fault {
                    at: start,
                    message:
                        "中文模式不使用双引号；请直接书写表达式或使用 (...) 分组"@,
                },
            )
        } else if c == '\\' {
            match peek(q, s.at + 1) {
                None => Err(Fault { at: start, message: "转义序列不完整"@ }),
                Some(escaped) => read_literal(Reading { at: s.at + 2, ..s }, escaped, start),
            }
        } else if c == '?' || c == '*' || c == '+' {
            Err(
                Fault {
                    at: start,
                    message:
                        "量词必须跟在原子后；任意多个汉字请写 .*，至少一个请写 .+"@,
                },
            )
        } else if c == ')' || c == ']' || c == '}' || c == '>' || c == '|' || c == '&' {
            Err(Fault { at: start, message: "意外的符号："@ + seq![c] })
        } else {
            read_literal(next, c, start)
        },
    }
}

/// The start of a query: the class of the whole repertoire has number 0.
pub open spec fn start_reading() -> Reading {
    Reading { at: 0, classes: seq![ClassView::Han], groups: Seq::empty() }
}

/// What a whole query stands for.
pub open spec fn read_query(q: Seq<char>, data: DataView) -> Read {
    match read_alt(q, data, start_reading()) {
        Err(e) => Err(e),
        Ok((re, end)) => if end.at != q.len() {
            Err(Fault { at: end.at, message: "无法解析的尾随内容"@ })
        } else if q.len() == 0 && re == Re::Epsilon {
            Err(Fault { at: 0, message: "查询不能为空"@ })
        } else {
            Ok((re, end))
        },
    }
}

/// The byte at which a character of a query stands.
pub open spec fn byte_of(q: Seq<char>, at: int) -> nat {
    utf8_size(q.take(at))
}

} // verus!
