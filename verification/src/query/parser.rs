//! Reading queries.
use crate::chinese::data::ChineseData;
use crate::chinese::han::{han, is_han};
use crate::collections::OrderedSet;
use crate::ordered::{lemma_sorted_unique, sorted, views};
use crate::query::class::{
    class_wf, in_ranges, joined, separated, upright, CharRange, CharacterClass, ClassView,
};
use crate::query::derive::classes_wf;
use crate::query::expr::{Expr, Re};
use crate::query::grammar::{
    byte_of, class_member, class_members, copies, ends_concat, group_name, intern, intern_group,
    lemma_first_index, past_digits, past_letters, peek, property_content, ranges_of, read_alt,
    read_alternatives, read_anagram, read_atom, read_class, read_concat, read_conjuncts, read_count,
    read_intersection, read_literal, read_named, read_piece, read_property, read_quantifier,
    read_query, read_repeat, read_set, repeated, sorted_ranges, start_reading, stroke_range,
    stroked, with_strokes, Fault, Read, Reading, MAX_REPEAT,
};
use crate::query::groups::lemma_query_groups;
use crate::query::laws::group_free;
use crate::query::normal::{all_wf, lemma_normal_wf, re_alt, re_star, re_wf};
use crate::query::program::Program;
use crate::text::{
    char_debug, chars_of, copy_chars, decimal, decimal_of, digit, digits_value, find_char,
    first_place, is_digit, is_letter, is_white, join2, join3, lemma_utf8_size,
    lemma_utf8_size_prefix, lemma_utf8_size_push, letter, parse_unsigned, same_chars, spells,
    string_of, trim, utf8_size, white, width_of,
};
use vstd::prelude::*;
use vstd::string::*;

verus! {

/// A fault in a query. The offset counts bytes of UTF-8.
#[derive(Clone, Debug, PartialEq, Eq)]
pub struct ParseError {
    pub offset: usize,
    pub message: String,
}

/// The text of a fault.
pub open spec fn parse_error_text(offset: nat, message: Seq<char>) -> Seq<char> {
    "查询字节偏移 "@ + decimal(offset) + "："@ + message
}

impl ParseError {
    /// The error in words.
    pub fn to_text(&self) -> (r: String)
        ensures
            r@ == parse_error_text(self.offset as nat, self.message@),
    {
        let mut r = join3("查询字节偏移 ", decimal_of(self.offset as u64).as_str(), "：");
        r.append(self.message.as_str());
        r
    }
}

/// A fault at a character of a query.
struct Trouble {
    at: usize,
    message: String,
}

impl View for Trouble {
    type V = Fault;

    closed spec fn view(&self) -> Fault {
        Fault { at: self.at as int, message: self.message@ }
    }
}

fn trouble(at: usize, message: &str) -> (r: Trouble)
    ensures
        r@ == (Fault { at: at as int, message: message@ }),
{
    Trouble { at, message: message.to_owned() }
}

/// A query under way.
struct Parser<'a> {
    chars: &'a [char],
    at: usize,
    data: &'a ChineseData,
    classes: Vec<CharacterClass>,
    groups: Vec<Vec<char>>,
}

impl<'a> View for Parser<'a> {
    type V = Reading;

    closed spec fn view(&self) -> Reading {
        Reading {
            at: self.at as int,
            classes: views(self.classes@),
            groups: views(self.groups@),
        }
    }
}

/// What a parsing function does, held against the grammar.
spec fn outcome(
    expected: Read,
    before: Parser<'_>,
    after: Parser<'_>,
    r: Result<Expr, Trouble>,
    strict: bool,
) -> bool {
    &&& after.chars == before.chars
    &&& after.data == before.data
    &&& match (expected, r) {
        (Ok((re, s)), Ok(e)) => {
            &&& e@ == re
            &&& after@ == s
            &&& after.wf()
            &&& re_wf(re)
            &&& before.at <= after.at
            &&& strict ==> before.at < after.at
        },
        (Err(f), Err(g)) => g@ == f && g.at <= after.chars@.len(),
        _ => false,
    }
}

/// Ranges of the repertoire are determined by what they hold.
proof fn lemma_ranges_unique(a: Seq<CharRange>, b: Seq<CharRange>)
    requires
        separated(a),
        upright(a),
        separated(b),
        upright(b),
        forall|c: char| #[trigger] in_ranges(a, c) == in_ranges(b, c),
        forall|c: char| #[trigger] in_ranges(a, c) ==> han(c),
    ensures
        a == b,
    decreases a.len(),
{
    if a.len() == 0 {
        if b.len() > 0 {
            assert(in_ranges(b, b[0].start));
            assert(in_ranges(a, b[0].start));
        }
        assert(a =~= b);
    } else {
        assert(in_ranges(a, a[0].start)) by {
            assert(a[0].start <= a[0].end);
        }
        assert(in_ranges(b, a[0].start));
        assert(b.len() > 0);
        assert(in_ranges(b, b[0].start)) by {
            assert(b[0].start <= b[0].end);
        }
        assert(in_ranges(a, b[0].start));
        lemma_least(a, b[0].start);
        lemma_least(b, a[0].start);
        assert(a[0].start == b[0].start);
        assert forall|c: char| #[trigger] in_ranges(b, c) implies han(c) by {
            assert(in_ranges(a, c) == in_ranges(b, c));
        }
        lemma_same_end(a, b);
        lemma_same_end(b, a);
        assert(a[0] == b[0]);
        let ra = a.skip(1);
        let rb = b.skip(1);
        assert(separated(ra)) by {
            assert forall|i: int, j: int| 0 <= i < j < ra.len() implies (
            #[trigger] ra[i]).start <= (#[trigger] ra[j]).start && ra[i].end as int + 1
                < ra[j].start as int by {
                assert(ra[i] == a[i + 1] && ra[j] == a[j + 1]);
            }
        }
        assert(separated(rb)) by {
            assert forall|i: int, j: int| 0 <= i < j < rb.len() implies (
            #[trigger] rb[i]).start <= (#[trigger] rb[j]).start && rb[i].end as int + 1
                < rb[j].start as int by {
                assert(rb[i] == b[i + 1] && rb[j] == b[j + 1]);
            }
        }
        assert(upright(ra)) by {
            assert forall|i: int| 0 <= i < ra.len() implies (#[trigger] ra[i]).start
                <= ra[i].end by {
                assert(ra[i] == a[i + 1]);
            }
        }
        assert(upright(rb)) by {
            assert forall|i: int| 0 <= i < rb.len() implies (#[trigger] rb[i]).start
                <= rb[i].end by {
                assert(rb[i] == b[i + 1]);
            }
        }
        assert forall|c: char| #[trigger] in_ranges(ra, c) == in_ranges(rb, c) by {
            lemma_skip_first(a, c);
            lemma_skip_first(b, c);
            assert(in_ranges(a, c) == in_ranges(b, c));
        }
        assert forall|c: char| #[trigger] in_ranges(ra, c) implies han(c) by {
            lemma_skip_first(a, c);
            assert(in_ranges(a, c));
        }
        lemma_ranges_unique(ra, rb);
        assert(a =~= seq![a[0]] + ra);
        assert(b =~= seq![b[0]] + rb);
    }
}

proof fn lemma_least(a: Seq<CharRange>, c: char)
    requires
        separated(a),
        upright(a),
        a.len() > 0,
        in_ranges(a, c),
    ensures
        a[0].start <= c,
{
    let i = choose|i: int| 0 <= i < a.len() && (#[trigger] a[i]).start <= c && c <= a[i].end;
    if i > 0 {
        assert(a[0].start <= a[i].start);
    }
}

proof fn lemma_same_end(a: Seq<CharRange>, b: Seq<CharRange>)
    requires
        separated(a),
        upright(a),
        separated(b),
        upright(b),
        a.len() > 0,
        b.len() > 0,
        a[0].start == b[0].start,
        forall|c: char| #[trigger] in_ranges(a, c) == in_ranges(b, c),
        forall|c: char| #[trigger] in_ranges(a, c) ==> han(c),
    ensures
        b[0].end <= a[0].end,
{
    if a[0].end < b[0].end {
        assert(a[0].start <= a[0].end);
        assert(in_ranges(a, a[0].end));
        assert(han(a[0].end));
        let next = (a[0].end as int + 1) as char;
        assert(next as int == a[0].end as int + 1);
        assert(b[0].start <= next && next <= b[0].end);
        assert(in_ranges(b, next));
        assert(in_ranges(a, next));
        let k = choose|k: int|
            0 <= k < a.len() && (#[trigger] a[k]).start <= next && next <= a[k].end;
        if k > 0 {
            assert(a[0].end as int + 1 < a[k].start as int);
        }
    }
}

proof fn lemma_skip_first(a: Seq<CharRange>, c: char)
    requires
        separated(a),
        upright(a),
        a.len() > 0,
    ensures
        in_ranges(a.skip(1), c) == (in_ranges(a, c) && !(a[0].start <= c && c <= a[0].end)),
{
    let r = a.skip(1);
    if in_ranges(r, c) {
        let i = choose|i: int| 0 <= i < r.len() && (#[trigger] r[i]).start <= c && c <= r[i].end;
        assert(r[i] == a[i + 1]);
        assert(in_ranges(a, c));
        assert(a[0].end as int + 1 < a[i + 1].start as int);
    }
    if in_ranges(a, c) && !(a[0].start <= c && c <= a[0].end) {
        let i = choose|i: int| 0 <= i < a.len() && (#[trigger] a[i]).start <= c && c <= a[i].end;
        assert(r[i - 1] == a[i]);
    }
}

/// The ranges found for a set are the ranges of the set.
proof fn lemma_ranges_of(set: Set<char>, ranges: Seq<CharRange>)
    requires
        separated(ranges),
        upright(ranges),
        forall|c: char| #[trigger] in_ranges(ranges, c) == (han(c) && set.contains(c)),
    ensures
        ranges_of(set) == ranges,
{
    let chosen = ranges_of(set);
    assert(separated(chosen) && upright(chosen) && forall|c: char| #[trigger]
        in_ranges(chosen, c) == (han(c) && set.contains(c)));
    lemma_ranges_unique(chosen, ranges);
}

/// Where the digits of a number end.
proof fn lemma_digits_are(q: Seq<char>, at: int)
    requires
        0 <= at <= q.len(),
    ensures
        at <= past_digits(q, at) <= q.len(),
        forall|i: int| at <= i < past_digits(q, at) ==> digit(#[trigger] q[i]),
    decreases q.len() - at,
{
    if at < q.len() && digit(q[at]) {
        lemma_digits_are(q, at + 1);
    }
}

proof fn lemma_digits_have_value(s: Seq<char>)
    requires
        forall|i: int| 0 <= i < s.len() ==> digit(#[trigger] s[i]),
    ensures
        digits_value(s, 10) is Some,
    decreases s.len(),
{
    if s.len() > 0 {
        assert forall|i: int| 0 <= i < s.drop_last().len() implies digit(
            #[trigger] s.drop_last()[i],
        ) by {
            assert(s.drop_last()[i] == s[i]);
        }
        lemma_digits_have_value(s.drop_last());
        assert(digit(s[s.len() - 1]));
    }
}

impl<'a> Parser<'a> {
    spec fn wf(&self) -> bool {
        &&& self.at <= self.chars.len()
        &&& self.data.wf()
        &&& classes_wf(views(self.classes@))
        &&& self.classes@.len() > 0
        &&& views(self.classes@)[0] == ClassView::Han
    }

    fn peek(&self) -> (r: Option<char>)
        ensures
            r == peek(self.chars@, self@.at),
            r is Some ==> self.at < self.chars.len(),
    {
        if self.at < self.chars.len() {
            Some(self.chars[self.at])
        } else {
            None
        }
    }

    fn next_is(&self, c: char) -> (r: bool)
        ensures
            r == (peek(self.chars@, self@.at) == Some(c)),
            r ==> self.at < self.chars.len(),
    {
        self.at < self.chars.len() && self.chars[self.at] == c
    }

    /// The number of a class.
    fn intern_class(&mut self, class: CharacterClass) -> (r: u32)
        requires
            old(self).wf(),
            class_wf(class@),
        ensures
            final(self).wf(),
            final(self).chars == old(self).chars,
            final(self).data == old(self).data,
            (r, final(self)@) == intern(old(self)@, class@),
    {
        let ghost all: Seq<ClassView> = views(self.classes@);
        let mut i: usize = 0;
        while i < self.classes.len()
            invariant
                i <= self.classes@.len(),
                *self == *old(self),
                self.wf(),
                all == views(self.classes@),
                forall|k: int| 0 <= k < i ==> #[trigger] all[k] != class@,
            decreases self.classes.len() - i,
        {
            if self.classes[i].same(&class) {
                proof {
                    assert(all[i as int] == class@);
                    lemma_first_index(all, class@, i as int);
                }
                return i as u32;
            }
            i += 1;
        }
        proof {
            lemma_first_index(all, class@, all.len() as int);
        }
        let id: u32 = self.classes.len() as u32;
        let ghost added = class@;
        self.classes.push(class);
        proof {
            let now: Seq<ClassView> = views(self.classes@);
            assert(now =~= all.push(added));
            assert forall|k: int| 0 <= k < now.len() implies class_wf(#[trigger] now[k]) by {
                if k < all.len() {
                    assert(now[k] == all[k]);
                }
            }
            assert(now[0] == all[0]);
        }
        id
    }

    /// The expression for one character of a set.
    fn expression_for(&mut self, characters: &[char], Ghost(set): Ghost<Set<char>>) -> (r: Expr)
        requires
            old(self).wf(),
            forall|c: char| #[trigger] set.contains(c) == characters@.contains(c),
        ensures
            final(self).wf(),
            final(self).chars == old(self).chars,
            final(self).data == old(self).data,
            (r@, final(self)@) == read_set(old(self)@, set),
            re_wf(r@),
            final(self).at == old(self).at,
    {
        let class = CharacterClass::from_chars(copy_chars(characters));
        let ghost ranges = class@->ranges;
        proof {
            lemma_ranges_of(set, ranges);
        }
        if class.is_empty() {
            Expr::Empty
        } else {
            proof {
                assert(ranges.len() > 0) by {
                    if ranges.len() == 0 {
                        assert(ranges =~= Seq::empty());
                    }
                }
            }
            Expr::Class(self.intern_class(class))
        }
    }

    /// A single character.
    fn literal(&mut self, c: char, start: usize) -> (r: Result<Expr, Trouble>)
        requires
            old(self).wf(),
            start <= old(self).chars@.len(),
        ensures
            outcome(
                read_literal(old(self)@, c, start as int),
                *old(self),
                *final(self),
                r,
                false,
            ),
            final(self).at == old(self).at,
    {
        if !is_han(c) {
            let shown = char_debug(c);
            let message = join2("仅允许汉字字面量；不支持 ", shown.as_str());
            return Err(Trouble { at: start, message });
        }
        let one = vec![c];
        proof {
            assert forall|x: char| #[trigger] set![c].contains(x) == one@.contains(x) by {
                assert(one@[0] == c);
            }
        }
        let ghost only = set![c];
        Ok(self.expression_for(one.as_slice(), Ghost(only)))
    }

    /// A member of a character class, with the place behind it.
    fn class_character(&self, at: usize, start: usize) -> (r: Result<(char, usize), Trouble>)
        requires
            at <= self.chars@.len(),
        ensures
            match (class_member(self.chars@, at as int, start as int), r) {
                (Ok((c, next)), Ok((d, n))) => c == d && next == n && at < n <= self.chars@.len(),
                (Err(f), Err(g)) => g@ == f && g.at == start,
                _ => false,
            },
    {
        if at >= self.chars.len() {
            return Err(trouble(start, "字符类意外结束"));
        }
        let mut c = self.chars[at];
        let mut next: usize = at + 1;
        if c == '\\' {
            if next >= self.chars.len() {
                return Err(trouble(start, "字符类转义不完整"));
            }
            c = self.chars[next];
            next = next + 1;
        }
        if !is_han(c) {
            let shown = char_debug(c);
            let message = join2("字符类成员不是汉字：", shown.as_str());
            return Err(Trouble { at: start, message });
        }
        Ok((c, next))
    }

    /// A character class, from behind its bracket on.
    #[verifier::rlimit(50)]
    fn parse_character_class(&mut self, start: usize) -> (r: Result<Expr, Trouble>)
        requires
            old(self).wf(),
            start <= old(self).chars@.len(),
        ensures
            outcome(
                read_class(old(self).chars@, old(self)@, start as int),
                *old(self),
                *final(self),
                r,
                true,
            ),
    {
        let ghost q = self.chars@;
        let ghost begin = self@;
        let negated = self.next_is('^');
        let mut at: usize = self.at;
        if negated {
            at = at + 1;
        }
        let ghost whole = class_members(q, at as int, start as int, Seq::empty());
        let mut ranges: Vec<CharRange> = Vec::new();
        assert(ranges@ =~= Seq::empty());
        while at < self.chars.len() && self.chars[at] != ']'
            invariant
                self.at <= at <= self.chars@.len(),
                start <= self.chars@.len(),
                *self == *old(self),
                self.wf(),
                q == self.chars@,
                begin == old(self)@,
                whole == class_members(q, at as int, start as int, ranges@),
                upright(ranges@),
                match (read_class(q, begin, start as int), whole) {
                    (Err(e), Err(f)) => e == f,
                    (_, Ok(_)) => true,
                    _ => false,
                },
            decreases self.chars.len() - at,
        {
            let (first, next) = match self.class_character(at, start) {
                Ok(x) => x,
                Err(e) => {
                    return Err(e);
                },
            };
            let dash = next < self.chars.len() && self.chars[next] == '-' && !(next + 1
                < self.chars.len() && self.chars[next + 1] == ']');
            let ghost before = ranges@;
            if dash {
                let (last, end) = match self.class_character(next + 1, start) {
                    Ok(x) => x,
                    Err(e) => {
                        return Err(e);
                    },
                };
                if first > last {
                    return Err(trouble(start, "字符类范围逆序"));
                }
                ranges.push(CharRange { start: first, end: last });
                at = end;
            } else {
                ranges.push(CharRange { start: first, end: first });
                at = next;
            }
            proof {
                assert forall|i: int| 0 <= i < ranges@.len() implies (#[trigger] ranges@[i]).start
                    <= ranges@[i].end by {
                    if i < before.len() {
                        assert(ranges@[i] == before[i]);
                    }
                }
            }
        }
        if at >= self.chars.len() {
            return Err(trouble(start, "字符类缺少 ]"));
        }
        if ranges.len() == 0 {
            return Err(trouble(start, "字符类不能为空"));
        }
        let ghost given = ranges@;
        let class = CharacterClass::from_ranges(ranges, negated);
        proof {
            let normal = class@->ranges;
            let s = choose|s: Seq<CharRange>|
                sorted::<CharRange>(s) && s.to_multiset() == given.to_multiset() && normal
                    == #[trigger] joined(s);
            let chosen = sorted_ranges(given);
            assert(sorted::<CharRange>(chosen) && chosen.to_multiset() == given.to_multiset()) by {
                assert(sorted::<CharRange>(s) && s.to_multiset() == given.to_multiset());
            }
            lemma_sorted_unique::<CharRange>(chosen, s);
        }
        self.at = at + 1;
        let id: u32 = self.intern_class(class);
        Ok(Expr::Class(id))
    }

    /// The content of a property up to its bracket, with the place behind it.
    fn read_property_content(&self, from: usize, start: usize) -> (r: Result<
        (Vec<char>, usize),
        Trouble,
    >)
        requires
            from <= self.chars@.len(),
        ensures
            match (property_content(self.chars@, from as int, start as int, Seq::empty()), r) {
                (Ok((c, next)), Ok((d, n))) => c == d@ && next == n && from < n
                    <= self.chars@.len(),
                (Err(f), Err(g)) => g@ == f && g.at == start,
                _ => false,
            },
    {
        let mut content: Vec<char> = Vec::new();
        let mut at: usize = from;
        assert(content@ =~= Seq::empty());
        while at < self.chars.len()
            invariant
                from <= at <= self.chars@.len(),
                property_content(self.chars@, from as int, start as int, Seq::empty())
                    == property_content(self.chars@, at as int, start as int, content@),
            decreases self.chars.len() - at,
        {
            let c = self.chars[at];
            if c == ')' {
                return Ok((content, at + 1));
            }
            if c == '(' {
                return Err(trouble(start, "属性参数中不能嵌套括号"));
            }
            content.push(c);
            at += 1;
        }
        Err(trouble(start, "属性缺少 )"))
    }

    /// The number of a group.
    fn intern_name(&mut self, name: &[char]) -> (r: u32)
        requires
            old(self).wf(),
        ensures
            final(self).wf(),
            final(self).chars == old(self).chars,
            final(self).data == old(self).data,
            final(self).at == old(self).at,
            (r, final(self)@) == intern_group(old(self)@, name@),
    {
        let ghost all: Seq<Seq<char>> = views(self.groups@);
        let mut i: usize = 0;
        while i < self.groups.len()
            invariant
                i <= self.groups@.len(),
                *self == *old(self),
                self.wf(),
                all == views(self.groups@),
                forall|k: int| 0 <= k < i ==> #[trigger] all[k] != name@,
            decreases self.groups.len() - i,
        {
            if same_chars(self.groups[i].as_slice(), name) {
                proof {
                    assert(all[i as int] == name@);
                    lemma_first_index(all, name@, i as int);
                }
                return i as u32;
            }
            i += 1;
        }
        proof {
            lemma_first_index(all, name@, all.len() as int);
        }
        let id: u32 = self.groups.len() as u32;
        let copy = copy_chars(name);
        self.groups.push(copy);
        proof {
            let now: Seq<Seq<char>> = views(self.groups@);
            assert(now =~= all.push(copy@));
        }
        id
    }

    /// What a property with this name and content stands for.
    #[verifier::rlimit(50)]
    fn parse_named(&mut self, name: &[char], content: &[char], start: usize) -> (r: Result<
        Expr,
        Trouble,
    >)
        requires
            old(self).wf(),
            start <= old(self).chars@.len(),
        ensures
            outcome(
                read_named(old(self).data@, old(self)@, name@, content@, start as int),
                *old(self),
                *final(self),
                r,
                false,
            ),
    {
        if spells(name, "b") {
            if content.len() == 0 {
                return Err(trouble(start, "部件属性不能为空"));
            }
            if has_plain(content) {
                return Err(
                    trouble(
                        start,
                        "@b(...) 中只写连续部件；多个部件表示同时包含",
                    ),
                );
            }
            let set = self.data.characters_with_components(content);
            return Ok(self.expression_for_set(&set));
        }
        if spells(name, "h") {
            let (low, high) = match parse_stroke_range(content) {
                Ok(x) => x,
                Err(e) => {
                    let message = join2("无效的笔画属性：", e.as_str());
                    return Err(Trouble { at: start, message });
                },
            };
            let set = self.collect_strokes(low, high);
            return Ok(self.expression_for_set(&set));
        }
        if spells(name, "p") {
            if content.len() == 0 {
                return Err(trouble(start, "拼音属性不能为空"));
            }
            let set = match self.data.characters_with_pinyin(string_of(content).as_str()) {
                Ok(set) => set,
                Err(e) => {
                    let message = join2("无效的拼音属性：", e.to_text().as_str());
                    return Err(Trouble { at: start, message });
                },
            };
            return Ok(self.expression_for_set(&set));
        }
        if spells(name, "t") {
            if !valid_capture_id(content) {
                return Err(
                    trouble(
                        start,
                        "捕获 ID 必须以 ASCII 字母或下划线开头，且只含字母、数字、下划线",
                    ),
                );
            }
            let group: u32 = self.intern_name(content);
            return Ok(Expr::Capture { class: 0, group });
        }
        if spells(name, "z") {
            let set = match self.data.characters_with_word_template(string_of(content).as_str()) {
                Ok(set) => set,
                Err(e) => {
                    let message = join2("无效的组词模板：", e.message.as_str());
                    return Err(Trouble { at: start, message });
                },
            };
            return Ok(self.expression_for_set(&set));
        }
        let shown = string_of(name);
        let message = join2("未知属性：", shown.as_str());
        Err(Trouble { at: start, message })
    }

    /// The expression for one character of a set.
    fn expression_for_set(&mut self, set: &OrderedSet<char>) -> (r: Expr)
        requires
            old(self).wf(),
            set.wf(),
        ensures
            final(self).wf(),
            final(self).chars == old(self).chars,
            final(self).data == old(self).data,
            (r@, final(self)@) == read_set(old(self)@, set@),
            re_wf(r@),
            final(self).at == old(self).at,
    {
        proof {
            set.lemma_listed();
            assert(views(set.listed()) =~= set.listed());
        }
        self.expression_for(set.as_slice(), Ghost(set@))
    }

    /// The characters with a number of strokes within the range.
    fn collect_strokes(&self, low: u16, high: u16) -> (r: OrderedSet<char>)
        requires
            self.wf(),
            low <= high,
        ensures
            r.wf(),
            r@ == with_strokes(self.data@, low as int, high as int),
    {
        let ghost data = self.data@;
        let mut result: OrderedSet<char> = OrderedSet::new();
        let mut n: u32 = low as u32;
        while n <= high as u32
            invariant
                low <= n <= high + 1,
                self.wf(),
                data == self.data@,
                result.wf(),
                forall|c: char| #[trigger]
                    result@.contains(c) == stroked(data, low as int, n - 1, c),
            decreases high + 1 - n,
        {
            let ghost before = result@;
            let count: u16 = n as u16;
            let found = self.data.characters_with_strokes(count);
            if let Some(set) = found {
                result.add_all(set);
            }
            proof {
                assert forall|c: char| #[trigger]
                    result@.contains(c) == stroked(data, low as int, n as int, c) by {
                    assert(before.contains(c) == stroked(data, low as int, n - 1, c));
                    if stroked(data, low as int, n - 1, c) {
                        let k = choose|k: u16|
                            low <= k <= n - 1 && #[trigger] data.strokes.dom().contains(k)
                                && data.strokes[k].contains(c);
                        assert(data.strokes.dom().contains(k));
                    }
                    if stroked(data, low as int, n as int, c) {
                        let k = choose|k: u16|
                            low <= k <= n && #[trigger] data.strokes.dom().contains(k)
                                && data.strokes[k].contains(c);
                        if k < n {
                            assert(data.strokes.dom().contains(k));
                        }
                    }
                    if data.strokes.dom().contains(count) && data.strokes[count].contains(c) {
                        assert(data.strokes.dom().contains(count));
                    }
                }
            }
            n += 1;
        }
        proof {
            assert(result@ =~= with_strokes(data, low as int, high as int));
        }
        result
    }

    /// A property, from behind its sign on.
    fn parse_property(&mut self, start: usize) -> (r: Result<Expr, Trouble>)
        requires
            old(self).wf(),
            start <= old(self).chars@.len(),
        ensures
            outcome(
                read_property(old(self).chars@, old(self).data@, old(self)@, start as int),
                *old(self),
                *final(self),
                r,
                true,
            ),
    {
        let ghost q = self.chars@;
        let from: usize = self.at;
        let mut end: usize = from;
        while end < self.chars.len() && is_letter(self.chars[end])
            invariant
                from <= end <= self.chars@.len(),
                *self == *old(self),
                q == self.chars@,
                past_letters(q, from as int) == past_letters(q, end as int),
            decreases self.chars.len() - end,
        {
            end += 1;
        }
        if end == from || end >= self.chars.len() || self.chars[end] != '(' {
            return Err(
                trouble(
                    start,
                    "属性语法应为 @p(...)、@b(...)、@h(...)、@t(...) 或 @z(...)",
                ),
            );
        }
        let (content, next) = match self.read_property_content(end + 1, start) {
            Ok(x) => x,
            Err(e) => {
                return Err(e);
            },
        };
        let name = &self.chars[from..end];
        self.at = next;
        self.parse_named(name, trim(content.as_slice()), start)
    }

    /// A number of repetitions, with the place behind it.
    fn parse_decimal(&self, from: usize, start: usize) -> (r: Result<(usize, usize), Trouble>)
        requires
            from <= self.chars@.len(),
        ensures
            match (read_count(self.chars@, from as int, start as int), r) {
                (Ok((v, next)), Ok((w, n))) => v == w && next == n && from < n
                    <= self.chars@.len(),
                (Err(f), Err(g)) => g@ == f && g.at == start,
                _ => false,
            },
    {
        let ghost q = self.chars@;
        let mut end: usize = from;
        while end < self.chars.len() && is_digit(self.chars[end])
            invariant
                from <= end <= self.chars@.len(),
                q == self.chars@,
                past_digits(q, from as int) == past_digits(q, end as int),
            decreases self.chars.len() - end,
        {
            end += 1;
        }
        if end == from {
            return Err(trouble(start, "缺少重复次数"));
        }
        let digits = &self.chars[from..end];
        proof {
            lemma_digits_are(q, from as int);
            assert(digits@ == q.subrange(from as int, end as int));
            assert forall|i: int| 0 <= i < digits@.len() implies digit(#[trigger] digits@[i]) by {
                assert(digits@[i] == q[from + i]);
            }
            lemma_digits_have_value(digits@);
            assert(digit(digits@[0]));
        }
        match parse_unsigned(digits, 10, usize::MAX as u64) {
            Some(v) => Ok((v as usize, end)),
            None => Err(trouble(start, "重复次数无效")),
        }
    }

    /// A repetition in braces of the expression before it.
    fn parse_repeat(&mut self, atom: Expr) -> (r: Result<Expr, Trouble>)
        requires
            old(self).wf(),
            re_wf(atom@),
            old(self).at < old(self).chars.len(),
        ensures
            outcome(
                read_repeat(old(self).chars@, old(self)@, atom@),
                *old(self),
                *final(self),
                r,
                false,
            ),
    {
        let start: usize = self.at;
        let (low, at) = match self.parse_decimal(start + 1, start) {
            Ok(x) => x,
            Err(e) => {
                return Err(e);
            },
        };
        let mut high: Option<usize> = None;
        let end: usize;
        if at < self.chars.len() && self.chars[at] == '}' {
            high = Some(low);
            end = at + 1;
        } else if at < self.chars.len() && self.chars[at] == ',' {
            if at + 1 < self.chars.len() && self.chars[at + 1] == '}' {
                end = at + 2;
            } else {
                let (value, after) = match self.parse_decimal(at + 1, start) {
                    Ok(x) => x,
                    Err(e) => {
                        return Err(e);
                    },
                };
                if after >= self.chars.len() || self.chars[after] != '}' {
                    return Err(trouble(start, "重复次数缺少 }"));
                }
                high = Some(value);
                end = after + 1;
            }
        } else {
            return Err(trouble(start, "无效的重复次数"));
        }
        if low > MAX_REPEAT || (match high {
            Some(h) => h > MAX_REPEAT,
            None => false,
        }) {
            return Err(trouble(start, "重复次数不能超过 255"));
        }
        if let Some(h) = high {
            if h < low {
                return Err(trouble(start, "重复次数上限小于下限"));
            }
        }
        self.at = end;
        Ok(repeat_expression(atom, low, high))
    }

    /// What stands behind an expression: a quantifier, or nothing.
    fn parse_quantifier(&mut self, atom: Expr) -> (r: Result<Expr, Trouble>)
        requires
            old(self).wf(),
            re_wf(atom@),
        ensures
            outcome(
                read_quantifier(old(self).chars@, old(self)@, atom@),
                *old(self),
                *final(self),
                r,
                false,
            ),
    {
        let c = match self.peek() {
            Some(c) => c,
            None => {
                return Ok(atom);
            },
        };
        if c == '?' {
            self.at = self.at + 1;
            return Ok(optional(atom));
        }
        if c == '*' {
            self.at = self.at + 1;
            return Ok(Expr::star(atom));
        }
        if c == '+' {
            self.at = self.at + 1;
            let ghost a = atom@;
            let first = atom.duplicate();
            let again = Expr::star(atom);
            let both = vec![first, again];
            proof {
                assert(views(both@) =~= seq![a, re_star(a)]);
                assert(all_wf(seq![a, re_star(a)]));
                lemma_normal_wf(seq![a, re_star(a)]);
            }
            return Ok(Expr::concat(both));
        }
        if c == '{' && self.at + 1 < self.chars.len() && is_digit(self.chars[self.at + 1]) {
            return self.parse_repeat(atom);
        }
        Ok(atom)
    }

    /// An alternation.
    fn parse_alt(&mut self) -> (r: Result<Expr, Trouble>)
        requires
            old(self).wf(),
        ensures
            outcome(
                read_alt(old(self).chars@, old(self).data@, old(self)@),
                *old(self),
                *final(self),
                r,
                false,
            ),
        decreases old(self).chars@.len() - old(self).at, 9nat,
    {
        let ghost q = self.chars@;
        let ghost data = self.data@;
        let ghost begin = *self;
        let first = match self.parse_intersection() {
            Ok(e) => e,
            Err(e) => {
                return Err(e);
            },
        };
        let mut parts: Vec<Expr> = vec![first];
        assert(views(parts@) =~= seq![first@]);
        while self.next_is('|')
            invariant
                self.wf(),
                begin == *old(self),
                self.chars == begin.chars,
                self.data == begin.data,
                q == begin.chars@,
                data == begin.data@,
                begin.at <= self.at,
                all_wf(views(parts@)),
                read_alt(q, data, begin@) == read_alternatives(q, data, self@, views(parts@)),
            decreases self.chars@.len() - self.at,
        {
            let ghost here = *self;
            let ghost known: Seq<Re> = views(parts@);
            self.at = self.at + 1;
            proof {
                assert(self@ == (Reading { at: here@.at + 1, ..here@ }));
            }
            let part = match self.parse_intersection() {
                Ok(e) => e,
                Err(e) => {
                    return Err(e);
                },
            };
            parts.push(part);
            proof {
                assert(views(parts@) =~= known.push(part@));
                lemma_all_wf_push(known, part@);
            }
        }
        proof {
            lemma_normal_wf(views(parts@));
        }
        Ok(Expr::alt(parts))
    }

    /// An intersection.
    fn parse_intersection(&mut self) -> (r: Result<Expr, Trouble>)
        requires
            old(self).wf(),
        ensures
            outcome(
                read_intersection(old(self).chars@, old(self).data@, old(self)@),
                *old(self),
                *final(self),
                r,
                false,
            ),
        decreases old(self).chars@.len() - old(self).at, 7nat,
    {
        let ghost q = self.chars@;
        let ghost data = self.data@;
        let ghost begin = *self;
        let first = match self.parse_concat() {
            Ok(e) => e,
            Err(e) => {
                return Err(e);
            },
        };
        let mut parts: Vec<Expr> = vec![first];
        assert(views(parts@) =~= seq![first@]);
        while self.next_is('&')
            invariant
                self.wf(),
                begin == *old(self),
                self.chars == begin.chars,
                self.data == begin.data,
                q == begin.chars@,
                data == begin.data@,
                begin.at <= self.at,
                all_wf(views(parts@)),
                read_intersection(q, data, begin@) == read_conjuncts(
                    q,
                    data,
                    self@,
                    views(parts@),
                ),
            decreases self.chars@.len() - self.at,
        {
            let ghost here = *self;
            let ghost known: Seq<Re> = views(parts@);
            self.at = self.at + 1;
            proof {
                assert(self@ == (Reading { at: here@.at + 1, ..here@ }));
            }
            let part = match self.parse_concat() {
                Ok(e) => e,
                Err(e) => {
                    return Err(e);
                },
            };
            parts.push(part);
            proof {
                assert(views(parts@) =~= known.push(part@));
                lemma_all_wf_push(known, part@);
            }
        }
        proof {
            lemma_normal_wf(views(parts@));
        }
        Ok(Expr::intersect(parts))
    }

    /// A concatenation.
    fn parse_concat(&mut self) -> (r: Result<Expr, Trouble>)
        requires
            old(self).wf(),
        ensures
            outcome(
                read_concat(old(self).chars@, old(self).data@, old(self)@, Seq::empty()),
                *old(self),
                *final(self),
                r,
                false,
            ),
        decreases old(self).chars@.len() - old(self).at, 5nat,
    {
        let ghost q = self.chars@;
        let ghost data = self.data@;
        let ghost begin = *self;
        let mut parts: Vec<Expr> = Vec::new();
        assert(views(parts@) =~= Seq::<Re>::empty());
        while self.at < self.chars.len() && !is_concat_end(self.chars[self.at])
            invariant
                self.wf(),
                begin == *old(self),
                self.chars == begin.chars,
                self.data == begin.data,
                q == begin.chars@,
                data == begin.data@,
                begin.at <= self.at,
                all_wf(views(parts@)),
                read_concat(q, data, begin@, Seq::empty()) == read_concat(
                    q,
                    data,
                    self@,
                    views(parts@),
                ),
            decreases self.chars@.len() - self.at,
        {
            let ghost known: Seq<Re> = views(parts@);
            let part = match self.parse_piece() {
                Ok(e) => e,
                Err(e) => {
                    return Err(e);
                },
            };
            parts.push(part);
            proof {
                assert(views(parts@) =~= known.push(part@));
                lemma_all_wf_push(known, part@);
            }
        }
        proof {
            lemma_normal_wf(views(parts@));
        }
        Ok(Expr::concat(parts))
    }

    /// An atom with its quantifier.
    fn parse_piece(&mut self) -> (r: Result<Expr, Trouble>)
        requires
            old(self).wf(),
        ensures
            outcome(
                read_piece(old(self).chars@, old(self).data@, old(self)@),
                *old(self),
                *final(self),
                r,
                true,
            ),
        decreases old(self).chars@.len() - old(self).at, 4nat,
    {
        match self.parse_atom() {
            Ok(atom) => self.parse_quantifier(atom),
            Err(e) => Err(e),
        }
    }

    /// A rearrangement, from behind its bracket on.
    fn parse_anagram(&mut self, start: usize) -> (r: Result<Expr, Trouble>)
        requires
            old(self).wf(),
            start <= old(self).chars@.len(),
        ensures
            outcome(
                read_anagram(
                    old(self).chars@,
                    old(self).data@,
                    old(self)@,
                    Seq::empty(),
                    start as int,
                ),
                *old(self),
                *final(self),
                r,
                true,
            ),
        decreases old(self).chars@.len() - old(self).at, 5nat,
    {
        let ghost q = self.chars@;
        let ghost data = self.data@;
        let ghost begin = *self;
        let mut parts: Vec<Expr> = Vec::new();
        assert(views(parts@) =~= Seq::<Re>::empty());
        while self.at < self.chars.len() && self.chars[self.at] != '>'
            invariant
                self.wf(),
                begin == *old(self),
                self.chars == begin.chars,
                self.data == begin.data,
                q == begin.chars@,
                data == begin.data@,
                begin.at <= self.at,
                start <= begin.chars@.len(),
                all_wf(views(parts@)),
                read_anagram(q, data, begin@, Seq::empty(), start as int) == read_anagram(
                    q,
                    data,
                    self@,
                    views(parts@),
                    start as int,
                ),
            decreases self.chars@.len() - self.at,
        {
            let ghost known: Seq<Re> = views(parts@);
            let part = match self.parse_piece() {
                Ok(e) => e,
                Err(e) => {
                    return Err(e);
                },
            };
            parts.push(part);
            proof {
                assert(views(parts@) =~= known.push(part@));
                lemma_all_wf_push(known, part@);
            }
        }
        if self.at >= self.chars.len() {
            return Err(trouble(start, "乱序表达式缺少 >"));
        }
        if parts.len() == 0 {
            return Err(trouble(start, "乱序表达式不能为空"));
        }
        self.at = self.at + 1;
        proof {
            lemma_normal_wf(views(parts@));
        }
        Ok(Expr::anagram(parts))
    }

    /// An atom.
    fn parse_atom(&mut self) -> (r: Result<Expr, Trouble>)
        requires
            old(self).wf(),
        ensures
            outcome(
                read_atom(old(self).chars@, old(self).data@, old(self)@),
                *old(self),
                *final(self),
                r,
                true,
            ),
        decreases old(self).chars@.len() - old(self).at, 3nat,
    {
        let start: usize = self.at;
        let ghost begin = self@;
        if start >= self.chars.len() {
            return Err(trouble(start, "缺少匹配原子"));
        }
        let c = self.chars[start];
        self.at = start + 1;
        proof {
            assert(self@ == (Reading { at: begin.at + 1, ..begin }));
        }
        if c == '.' {
            return Ok(Expr::Class(0));
        }
        if c == '#' {
            return Err(
                trouble(
                    start,
                    "新版不再支持 #；一个汉字请写 .，任意多个请写 .*",
                ),
            );
        }
        if c == '(' {
            let inner = match self.parse_alt() {
                Ok(e) => e,
                Err(e) => {
                    return Err(e);
                },
            };
            if !self.next_is(')') {
                return Err(trouble(self.at, "分组缺少右括号 )"));
            }
            self.at = self.at + 1;
            return Ok(inner);
        }
        if c == '[' {
            return self.parse_character_class(start);
        }
        if c == '<' {
            return self.parse_anagram(start);
        }
        if c == '@' {
            return self.parse_property(start);
        }
        if c == '{' {
            return Err(
                trouble(
                    start,
                    "花括号只用于跟在原子后的重复次数，如 .{4}；属性请写 @p(...) 等",
                ),
            );
        }
        if c == '"' {
            return Err(
                trouble(
                    start,
                    "中文模式不使用双引号；请直接书写表达式或使用 (...) 分组",
                ),
            );
        }
        if c == '\\' {
            if self.at >= self.chars.len() {
                return Err(trouble(start, "转义序列不完整"));
            }
            let escaped = self.chars[self.at];
            self.at = self.at + 1;
            proof {
                assert(self@ == (Reading { at: begin.at + 2, ..begin }));
            }
            return self.literal(escaped, start);
        }
        if c == '?' || c == '*' || c == '+' {
            return Err(
                trouble(
                    start,
                    "量词必须跟在原子后；任意多个汉字请写 .*，至少一个请写 .+",
                ),
            );
        }
        if c == ')' || c == ']' || c == '}' || c == '>' || c == '|' || c == '&' {
            let mut message = "意外的符号：".to_owned();
            message.push(c);
            proof {
                assert(message@ =~= "意外的符号："@ + seq![c]);
            }
            return Err(Trouble { at: start, message });
        }
        self.literal(c, start)
    }
}

fn is_concat_end(c: char) -> (r: bool)
    ensures
        r == ends_concat(c),
{
    c == ')' || c == '>' || c == '|' || c == '&'
}

proof fn lemma_all_wf_push(s: Seq<Re>, x: Re)
    requires
        all_wf(s),
        re_wf(x),
    ensures
        all_wf(s.push(x)),
{
    assert forall|i: int| 0 <= i < s.push(x).len() implies re_wf(#[trigger] s.push(x)[i]) by {
        if i < s.len() {
            assert(s.push(x)[i] == s[i]);
        }
    }
}

/// An expression or the empty string.
fn optional(atom: Expr) -> (r: Expr)
    requires
        re_wf(atom@),
    ensures
        r@ == re_alt(seq![Re::Epsilon, atom@]),
        re_wf(r@),
{
    let ghost a = atom@;
    let both = vec![Expr::Epsilon, atom];
    proof {
        assert(views(both@) =~= seq![Re::Epsilon, a]);
        assert(all_wf(seq![Re::Epsilon, a]));
        lemma_normal_wf(seq![Re::Epsilon, a]);
    }
    Expr::alt(both)
}

/// The repetition of an expression: so many times at least and at most.
fn repeat_expression(atom: Expr, low: usize, high: Option<usize>) -> (r: Expr)
    requires
        re_wf(atom@),
        high matches Some(h) ==> low <= h,
    ensures
        r@ == repeated(
            atom@,
            low as nat,
            match high {
                Some(h) => Some(h as nat),
                None => None,
            },
        ),
        re_wf(r@),
{
    let ghost a = atom@;
    let mut parts: Vec<Expr> = Vec::new();
    let mut i: usize = 0;
    assert(views(parts@) =~= copies(a, 0));
    while i < low
        invariant
            i <= low,
            a == atom@,
            re_wf(a),
            views(parts@) == copies(a, i as nat),
        decreases low - i,
    {
        let ghost known: Seq<Re> = views(parts@);
        let one = atom.duplicate();
        parts.push(one);
        proof {
            assert(views(parts@) =~= known.push(a));
            assert(known.push(a) =~= copies(a, (i + 1) as nat));
        }
        i += 1;
    }
    let ghost head: Seq<Re> = views(parts@);
    match high {
        None => {
            let again = Expr::star(atom);
            parts.push(again);
            proof {
                assert(views(parts@) =~= head.push(re_star(a)));
                assert(all_wf(views(parts@)));
            }
        },
        Some(h) => {
            let ghost maybe = re_alt(seq![Re::Epsilon, a]);
            let mut k: usize = low;
            assert(views(parts@) =~= head + copies(maybe, 0));
            proof {
                assert(all_wf(seq![Re::Epsilon, a]));
                lemma_normal_wf(seq![Re::Epsilon, a]);
            }
            while k < h
                invariant
                    low <= k <= h,
                    a == atom@,
                    re_wf(a),
                    maybe == re_alt(seq![Re::Epsilon, a]),
                    views(parts@) == head + copies(maybe, (k - low) as nat),
                decreases h - k,
            {
                let ghost known: Seq<Re> = views(parts@);
                let one = optional(atom.duplicate());
                parts.push(one);
                proof {
                    assert(views(parts@) =~= known.push(maybe));
                    assert(known.push(maybe) =~= head + copies(maybe, (k + 1 - low) as nat));
                }
                k += 1;
            }
            proof {
                assert forall|i: int| 0 <= i < views(parts@).len() implies re_wf(
                    #[trigger] views(parts@)[i],
                ) by {
                }
                assert(all_wf(views(parts@)));
            }
        },
    }
    proof {
        lemma_normal_wf(views(parts@));
    }
    Expr::concat(parts)
}

/// Whether one of the characters is in ASCII or white space.
fn has_plain(s: &[char]) -> (r: bool)
    ensures
        r == (exists|i: int|
            0 <= i < s@.len() && ((#[trigger] s@[i] as u32) < 128 || white(s@[i]))),
{
    let mut i: usize = 0;
    while i < s.len()
        invariant
            i <= s@.len(),
            forall|k: int| 0 <= k < i ==> !((#[trigger] s@[k] as u32) < 128 || white(s@[k])),
        decreases s.len() - i,
    {
        if (s[i] as u32) < 128 || is_white(s[i]) {
            assert((s@[i as int] as u32) < 128 || white(s@[i as int]));
            return true;
        }
        i += 1;
    }
    false
}

/// The number of strokes, or the range of numbers, that a string gives.
fn parse_stroke_range(input: &[char]) -> (r: Result<(u16, u16), String>)
    ensures
        match (stroke_range(input@), r) {
            (Ok((a, b)), Ok((c, d))) => a == c && b == d && c <= d,
            (Err(e), Err(f)) => f@ == e,
            _ => false,
        },
{
    if input.len() == 0 {
        return Err("笔画数不能为空".to_owned());
    }
    match find_char(input, '-') {
        Some(i) => {
            let n: usize = input.len();
            assert(i < n);
            let left = &input[0..i];
            let right = &input[i + 1..n];
            proof {
                assert(left@ =~= input@.take(i as int));
                assert(right@ =~= input@.skip(i + 1));
            }
            let second = find_char(right, '-');
            proof {
                lemma_contains_place(right@, '-');
            }
            if second.is_some() {
                return Err("范围只能包含一个 -".to_owned());
            }
            let low: u64 = match parse_unsigned(left, 10, u16::MAX as u64) {
                Some(v) => v,
                None => {
                    return Err("下限不是整数".to_owned());
                },
            };
            let high: u64 = match parse_unsigned(right, 10, u16::MAX as u64) {
                Some(v) => v,
                None => {
                    return Err("上限不是整数".to_owned());
                },
            };
            if low > high {
                return Err("范围上限小于下限".to_owned());
            }
            Ok((low as u16, high as u16))
        },
        None => {
            match parse_unsigned(input, 10, u16::MAX as u64) {
                Some(v) => Ok((v as u16, v as u16)),
                None => Err("笔画数不是整数".to_owned()),
            }
        },
    }
}

proof fn lemma_contains_place(s: Seq<char>, c: char)
    ensures
        s.contains(c) == (first_place(s, c) is Some),
    decreases s.len(),
{
    if s.len() > 0 {
        if s[0] != c {
            lemma_contains_place(s.skip(1), c);
            if s.contains(c) {
                let k = choose|k: int| 0 <= k < s.len() && s[k] == c;
                assert(s.skip(1)[k - 1] == c);
            }
            if s.skip(1).contains(c) {
                let k = choose|k: int| 0 <= k < s.skip(1).len() && s.skip(1)[k] == c;
                assert(s[k + 1] == c);
            }
        }
    }
}

/// Whether a string is the name of a group.
fn valid_capture_id(id: &[char]) -> (r: bool)
    ensures
        r == group_name(id@),
{
    if id.len() == 0 {
        return false;
    }
    if !(is_letter(id[0]) || id[0] == '_') {
        return false;
    }
    let mut i: usize = 1;
    while i < id.len()
        invariant
            1 <= i <= id@.len(),
            forall|k: int|
                1 <= k < i ==> letter(#[trigger] id@[k]) || digit(id@[k]) || id@[k] == '_',
        decreases id.len() - i,
    {
        if !(is_letter(id[i]) || is_digit(id[i]) || id[i] == '_') {
            assert(!(letter(id@[i as int]) || digit(id@[i as int]) || id@[i as int] == '_'));
            return false;
        }
        i += 1;
    }
    true
}

/// The byte at which a character stands.
fn byte_offset(chars: &[char], at: usize) -> (r: usize)
    requires
        at <= chars@.len(),
        utf8_size(chars@) <= usize::MAX,
    ensures
        r == byte_of(chars@, at as int),
{
    let mut size: usize = 0;
    let mut i: usize = 0;
    assert(chars@.take(0) =~= Seq::empty());
    while i < at
        invariant
            i <= at <= chars@.len(),
            utf8_size(chars@) <= usize::MAX,
            size == utf8_size(chars@.take(i as int)),
        decreases at - i,
    {
        proof {
            assert(chars@.take(i + 1) =~= chars@.take(i as int).push(chars@[i as int]));
            lemma_utf8_size_push(chars@.take(i as int), chars@[i as int]);
            lemma_utf8_size_prefix(chars@, i + 1);
        }
        size = size + width_of(chars[i]);
        i += 1;
    }
    size
}

impl Program {
    /// Reads a query. The properties of characters are those that `data` gives.
    pub fn parse(query: &str, data: &ChineseData) -> (r: Result<Self, ParseError>)
        requires
            data.wf(),
        ensures
            match (read_query(query@, data@), r) {
                (Ok((re, end)), Ok(program)) => {
                    &&& program@.wf()
                    &&& program@.expr == re
                    &&& program@.classes == end.classes
                    &&& program.capture_count == end.groups.len() as u32
                    &&& program@.classes.len() > 0 && program@.classes[0] == ClassView::Han
                    &&& end.groups.len() <= u32::MAX && program.capture_count == 0 ==> group_free(
                        program@.expr,
                    )
                },
                (Err(f), Err(e)) => e.offset == byte_of(query@, f.at) && e.message@ == f.message,
                _ => false,
            },
    {
        let chars = chars_of(query);
        let bytes = query.as_bytes().len();
        proof {
            lemma_utf8_size(query@);
            lemma_query_groups(query@, data@);
            assert(utf8_size(chars@) <= usize::MAX);
        }
        let classes: Vec<CharacterClass> = vec![CharacterClass::han()];
        let groups: Vec<Vec<char>> = Vec::new();
        let mut parser = Parser { chars: chars.as_slice(), at: 0, data, classes, groups };
        proof {
            assert(views(classes@) =~= seq![ClassView::Han]);
            assert(views(groups@) =~= Seq::<Seq<char>>::empty());
            assert(parser@ == start_reading());
            assert forall|i: int| 0 <= i < views(classes@).len() implies class_wf(
                #[trigger] views(classes@)[i],
            ) by {
            }
        }
        let expr = match parser.parse_alt() {
            Ok(e) => e,
            Err(e) => {
                return Err(
                    ParseError { offset: byte_offset(chars.as_slice(), e.at), message: e.message },
                );
            },
        };
        if parser.at != chars.len() {
            let offset: usize = byte_offset(chars.as_slice(), parser.at);
            return Err(ParseError { offset, message: "无法解析的尾随内容".to_owned() });
        }
        if chars.len() == 0 {
            let unit = match &expr {
                Expr::Epsilon => true,
                _ => false,
            };
            if unit {
                let offset: usize = byte_offset(chars.as_slice(), 0);
                return Err(ParseError { offset, message: "查询不能为空".to_owned() });
            }
        }
        let capture_count: u32 = parser.groups.len() as u32;
        Ok(Program { expr, classes: parser.classes, capture_count })
    }
}

} // verus!
