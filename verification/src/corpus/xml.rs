//! The pages of a MediaWiki export.
use crate::corpus::fields::{count_record, with_logical};
use crate::corpus::find::{find_from, find_text, is_text_at};
use crate::corpus::json::stands_text;
use crate::corpus::preparer::{with_error, with_field, Prepared, Preparer};
use crate::corpus::wiki::{
    byte_size, find_tag_end, tag_descriptor, tag_end, tag_of, wiki_feed, wiki_start, WikiState,
    WikiStripper,
};
use crate::text::{
    chars_of, copy_range, digits_value, find_char, first_place, lemma_first_place,
    lemma_same_code_point, lemma_utf8_size_push, parse_unsigned, scalar, spells, trim, trimmed,
    unsigned_value, utf8_size, width_of,
};
use vstd::prelude::*;
use vstd::string::*;

verus! {

/// How many bytes of an open tag may be held.
pub const XML_PENDING_LIMIT: u64 = 1048576;

/// How far the end of an entity is looked for, in bytes.
pub const ENTITY_LIMIT: u64 = 40;

/// The code point that a numeric entity writes.
pub open spec fn entity_code(body: Seq<char>) -> Option<nat> {
    if body.len() >= 2 && body[0] == '#' && (body[1] == 'x' || body[1] == 'X') {
        unsigned_value(body.skip(2), 16)
    } else if body.len() >= 1 && body[0] == '#' {
        unsigned_value(body.skip(1), 10)
    } else {
        None
    }
}

/// The character that an entity stands for.
pub open spec fn entity_char(body: Seq<char>) -> Option<char> {
    if body == "amp"@ {
        Some('&')
    } else if body == "lt"@ {
        Some('<')
    } else if body == "gt"@ {
        Some('>')
    } else if body == "quot"@ {
        Some('"')
    } else if body == "apos"@ {
        Some('\'')
    } else if body == "nbsp"@ {
        Some(' ')
    } else {
        match entity_code(body) {
            Some(x) => if scalar(x as int) {
                Some((x as u32) as char)
            } else {
                None
            },
            None => None,
        }
    }
}

/// Where the entity at a place ends, unless that is too far away.
pub open spec fn entity_end(s: Seq<char>, at: int) -> Option<int> {
    match first_place(s.skip(at + 1), ';') {
        Some(i) => if utf8_size(s.subrange(at, at + 1 + i)) < ENTITY_LIMIT {
            Some(at + 1 + i)
        } else {
            None
        },
        None => None,
    }
}

/// A text from a place on with its entities replaced, behind what comes before.
pub open spec fn decoded_from(s: Seq<char>, at: int, out: Seq<char>) -> Seq<char>
    decreases s.len() - at,
{
    if at < 0 || at >= s.len() {
        out
    } else if s[at] != '&' {
        decoded_from(s, at + 1, out.push(s[at]))
    } else {
        match entity_end(s, at) {
            None => decoded_from(s, at + 1, out.push('&')),
            Some(e) => if !(at < e < s.len()) {
                out
            } else {
                decoded_from(
                    s,
                    e + 1,
                    match entity_char(s.subrange(at + 1, e)) {
                        Some(c) => out.push(c),
                        None => out + s.subrange(at, e + 1),
                    },
                )
            },
        }
    }
}

/// A text with its entities replaced.
pub open spec fn decoded(s: Seq<char>) -> Seq<char> {
    decoded_from(s, 0, Seq::empty())
}

/// The number that a text writes, with or without a sign.
pub open spec fn signed_value(s: Seq<char>) -> Option<int> {
    if s.len() > 1 && s[0] == '-' {
        match digits_value(s.skip(1), 10) {
            Some(v) => Some(-v),
            None => None,
        }
    } else {
        match unsigned_value(s, 10) {
            Some(v) => Some(v as int),
            None => None,
        }
    }
}

/// The namespace that a text writes.
pub open spec fn namespace_of(s: Seq<char>) -> Option<i32> {
    match signed_value(trimmed(s)) {
        Some(v) => if i32::MIN <= v <= i32::MAX {
            Some(v as i32)
        } else {
            None
        },
        None => None,
    }
}

/// A field of a page whose text is being read.
#[derive(Clone, Copy, Debug, PartialEq, Eq, Structural)]
pub enum XmlField {
    Title,
    Namespace,
    Text,
}

/// What is known of the page under way.
pub struct XmlState {
    pub pending: Seq<char>,
    pub active: Option<XmlField>,
    pub in_page: bool,
    pub title: Seq<char>,
    pub namespace_text: Seq<char>,
    pub namespace: Option<i32>,
    pub redirect: bool,
    pub title_emitted: bool,
    pub wiki: WikiState,
}

/// No page is under way.
pub open spec fn xml_start() -> XmlState {
    XmlState {
        pending: Seq::empty(),
        active: None,
        in_page: false,
        title: Seq::empty(),
        namespace_text: Seq::empty(),
        namespace: None,
        redirect: false,
        title_emitted: false,
        wiki: wiki_start(),
    }
}

/// The state between two pages.
pub open spec fn between_pages(x: XmlState) -> XmlState {
    XmlState { pending: x.pending, ..xml_start() }
}

/// The title of an article is a field, once.
pub open spec fn with_page_title(x: XmlState, p: Prepared) -> (XmlState, Prepared) {
    if !x.title_emitted && x.namespace == Some(0i32) && !x.redirect && trimmed(x.title).len() > 0 {
        (XmlState { title_emitted: true, ..x }, with_field(p, x.title, 10, false))
    } else {
        (x, p)
    }
}

/// Text between two tags.
pub open spec fn with_xml_text(x: XmlState, p: Prepared, source: Seq<char>, raw: Seq<char>) -> (
    XmlState,
    Prepared,
) {
    if raw.len() == 0 {
        (x, p)
    } else {
        match x.active {
            Some(XmlField::Title) => (XmlState { title: x.title + decoded(raw), ..x }, p),
            Some(XmlField::Namespace) => (
                XmlState { namespace_text: x.namespace_text + raw, ..x },
                p,
            ),
            Some(XmlField::Text) => if x.namespace == Some(0i32) && !x.redirect {
                let (y, q) = with_page_title(x, p);
                let (wiki, shown) = wiki_feed(y.wiki, decoded(raw));
                let q1 = if trimmed(shown).len() > 0 {
                    with_field(q, shown, 1, false)
                } else {
                    q
                };
                (
                    XmlState { wiki: WikiState { overflowed: false, ..wiki }, ..y },
                    if wiki.overflowed {
                        with_error(
                            q1,
                            source,
                            0,
                            "MediaWiki 内部链接超过 1 MiB，已丢弃"@,
                            Seq::empty(),
                        )
                    } else {
                        q1
                    },
                )
            } else {
                (x, p)
            },
            None => (x, p),
        }
    }
}

/// A field is read from here on, unless its tag closes itself.
pub open spec fn opened(self_closing: bool, field: XmlField) -> Option<XmlField> {
    if self_closing {
        None
    } else {
        Some(field)
    }
}

/// An end tag.
pub open spec fn with_end_tag(
    x: XmlState,
    p: Prepared,
    source: Seq<char>,
    line: u64,
    name: Seq<char>,
) -> (XmlState, Prepared) {
    if name == "title"@ && x.active == Some(XmlField::Title) {
        (XmlState { active: None, ..x }, p)
    } else if name == "ns"@ && x.active == Some(XmlField::Namespace) {
        let found = namespace_of(x.namespace_text);
        (
            XmlState { active: None, namespace: found, ..x },
            if found is Some {
                p
            } else {
                with_error(p, source, line, "MediaWiki ns 不是整数"@, x.namespace_text)
            },
        )
    } else if name == "text"@ && x.active == Some(XmlField::Text) {
        (XmlState { active: None, ..x }, p)
    } else if name == "page"@ {
        let (y, q) = with_page_title(x, p);
        (
            between_pages(y),
            if y.namespace is Some {
                with_logical(q)
            } else {
                q
            },
        )
    } else {
        (x, p)
    }
}

/// A start tag.
pub open spec fn with_start_tag(x: XmlState, name: Seq<char>, self_closing: bool) -> XmlState {
    if name == "page"@ {
        XmlState { in_page: true, ..between_pages(x) }
    } else if name == "title"@ && x.in_page {
        XmlState { active: opened(self_closing, XmlField::Title), ..x }
    } else if name == "ns"@ && x.in_page {
        XmlState { active: opened(self_closing, XmlField::Namespace), ..x }
    } else if name == "redirect"@ && x.in_page {
        XmlState { redirect: true, ..x }
    } else if name == "text"@ && x.in_page {
        XmlState { active: opened(self_closing, XmlField::Text), wiki: wiki_start(), ..x }
    } else {
        x
    }
}

/// A tag.
pub open spec fn with_tag(
    x: XmlState,
    p: Prepared,
    source: Seq<char>,
    line: u64,
    inner: Seq<char>,
) -> (XmlState, Prepared) {
    let tag = tag_of(inner);
    if tag.name.len() == 0 || tag.name[0] == '!' {
        (x, p)
    } else if tag.closing {
        with_end_tag(x, p, source, line, tag.name)
    } else {
        (with_start_tag(x, tag.name, tag.self_closing), p)
    }
}

/// What is known and prepared behind the input from a place on, and where the
/// input cannot be read further yet.
pub open spec fn xml_from(
    x: XmlState,
    p: Prepared,
    source: Seq<char>,
    line: u64,
    s: Seq<char>,
    at: int,
) -> (XmlState, Prepared, int)
    decreases s.len() - at,
{
    if at < 0 || at >= s.len() {
        (x, p, at)
    } else {
        match first_place(s.skip(at), '<') {
            None => {
                let (y, q) = with_xml_text(x, p, source, s.skip(at));
                (y, q, s.len() as int)
            },
            Some(i) => {
                let t = at + i;
                let (y, q) = with_xml_text(x, p, source, s.subrange(at, t));
                if stands_text(s, t, "<!--"@) {
                    match find_from(s, t + 4, "-->"@) {
                        Some(e) => if at < e + 3 <= s.len() {
                            xml_from(y, q, source, line, s, e + 3)
                        } else {
                            (y, q, t)
                        },
                        None => (y, q, t),
                    }
                } else if stands_text(s, t, "<![CDATA["@) {
                    match find_from(s, t + 9, "]]>"@) {
                        Some(e) => if at < e + 3 <= s.len() {
                            let (z, r) = with_xml_text(y, q, source, s.subrange(t + 9, e));
                            xml_from(z, r, source, line, s, e + 3)
                        } else {
                            (y, q, t)
                        },
                        None => (y, q, t),
                    }
                } else if stands_text(s, t, "<?"@) {
                    match find_from(s, t + 2, "?>"@) {
                        Some(e) => if at < e + 2 <= s.len() {
                            xml_from(y, q, source, line, s, e + 2)
                        } else {
                            (y, q, t)
                        },
                        None => (y, q, t),
                    }
                } else {
                    match tag_end(s, t + 1, None) {
                        Some(e) => if at < e + 1 <= s.len() {
                            let (z, r) = with_tag(y, q, source, line, s.subrange(t + 1, e));
                            xml_from(z, r, source, line, s, e + 1)
                        } else {
                            (y, q, t)
                        },
                        None => (y, q, t),
                    }
                }
            },
        }
    }
}

/// What is known and prepared behind a further piece. What cannot be read yet is
/// held, unless it is too long.
pub open spec fn xml_feed(
    x: XmlState,
    p: Prepared,
    source: Seq<char>,
    line: u64,
    chunk: Seq<char>,
) -> (XmlState, Prepared) {
    let s = x.pending + chunk;
    let (y, q, at) = xml_from(
        XmlState { pending: Seq::empty(), ..x },
        p,
        source,
        line,
        s,
        0,
    );
    let held = s.skip(at);
    if at >= s.len() {
        (y, q)
    } else if utf8_size(held) > XML_PENDING_LIMIT {
        (
            XmlState { pending: Seq::empty(), active: None, ..y },
            with_error(q, source, line, "XML 未闭合标签/注释超过 1 MiB，已重置解析状态"@, held),
        )
    } else {
        (XmlState { pending: held, ..y }, q)
    }
}

/// What is prepared when the input ends.
pub open spec fn xml_end(x: XmlState, p: Prepared, source: Seq<char>, line: u64) -> Prepared {
    let q = if trimmed(x.pending).len() > 0 {
        with_error(p, source, line, "XML 文件末尾存在未闭合结构"@, x.pending)
    } else {
        p
    };
    if x.in_page {
        with_error(
            with_page_title(x, q).1,
            source,
            line,
            "XML 文件末尾 page 未闭合"@,
            Seq::empty(),
        )
    } else {
        q
    }
}

/// The character that a numeric entity stands for.
fn decode_numeric_entity(body: &[char]) -> (r: Option<char>)
    ensures
        r == match entity_code(body@) {
            Some(x) => if scalar(x as int) {
                Some((x as u32) as char)
            } else {
                None
            },
            None => None,
        },
{
    let n: usize = body.len();
    let code = if n >= 2 && body[0] == '#' && (body[1] == 'x' || body[1] == 'X') {
        proof {
            assert(body@.subrange(2, n as int) =~= body@.skip(2));
        }
        parse_unsigned(&body[2..n], 16, u32::MAX as u64)
    } else if n >= 1 && body[0] == '#' {
        proof {
            assert(body@.subrange(1, n as int) =~= body@.skip(1));
        }
        parse_unsigned(&body[1..n], 10, u32::MAX as u64)
    } else {
        None
    };
    match code {
        Some(x) => {
            let found = char::from_u32(x as u32);
            proof {
                if let Some(c) = found {
                    lemma_same_code_point(c, (x as u32) as char);
                }
            }
            found
        },
        None => None,
    }
}

/// The character that an entity stands for.
fn decode_entity(body: &[char]) -> (r: Option<char>)
    ensures
        r == entity_char(body@),
{
    if spells(body, "amp") {
        Some('&')
    } else if spells(body, "lt") {
        Some('<')
    } else if spells(body, "gt") {
        Some('>')
    } else if spells(body, "quot") {
        Some('"')
    } else if spells(body, "apos") {
        Some('\'')
    } else if spells(body, "nbsp") {
        Some(' ')
    } else {
        decode_numeric_entity(body)
    }
}

/// Where the entity at a place ends.
fn find_entity_end(s: &[char], at: usize) -> (r: Option<usize>)
    requires
        at < s@.len(),
    ensures
        match r {
            Some(e) => entity_end(s@, at as int) == Some(e as int) && at < e < s@.len(),
            None => entity_end(s@, at as int) is None,
        },
{
    let length: usize = s.len();
    let ghost rest = s@.skip(at + 1);
    let mut size: u64 = width_of(s[at]) as u64;
    let mut i: usize = at + 1;
    proof {
        assert(s@.subrange(at as int, at + 1) =~= Seq::<char>::empty().push(s@[at as int]));
        lemma_utf8_size_push(Seq::empty(), s@[at as int]);
    }
    while i < length && s[i] != ';' && size < ENTITY_LIMIT
        invariant
            at < i <= length,
            length == s@.len(),
            rest == s@.skip(at + 1),
            size == utf8_size(s@.subrange(at as int, i as int)),
            size <= ENTITY_LIMIT + 4,
            forall|k: int| at < k < i ==> s@[k] != ';',
        decreases length - i,
    {
        proof {
            assert(s@.subrange(at as int, i + 1) =~= s@.subrange(at as int, i as int).push(
                s@[i as int],
            ));
            lemma_utf8_size_push(s@.subrange(at as int, i as int), s@[i as int]);
        }
        size = size + width_of(s[i]) as u64;
        i += 1;
    }
    if i < length && s[i] == ';' && size < ENTITY_LIMIT {
        proof {
            assert forall|k: int| 0 <= k < i - at - 1 implies rest[k] != ';' by {
                assert(rest[k] == s@[at + 1 + k]);
            }
            assert(rest[i - at - 1] == s@[i as int]);
            lemma_first_place(rest, ';', i - at - 1);
        }
        Some(i)
    } else {
        proof {
            lemma_no_entity_end(s@, at as int, i as int);
        }
        None
    }
}

proof fn lemma_no_entity_end(s: Seq<char>, at: int, i: int)
    requires
        0 <= at < i <= s.len(),
        forall|k: int| at < k < i ==> s[k] != ';',
        i < s.len() && s[i] == ';' ==> utf8_size(s.subrange(at, i)) >= ENTITY_LIMIT,
        i < s.len() ==> s[i] == ';' || utf8_size(s.subrange(at, i)) >= ENTITY_LIMIT,
    ensures
        entity_end(s, at) is None,
{
    let rest = s.skip(at + 1);
    if let Some(k) = first_place(rest, ';') {
        lemma_place_is(rest, ';');
        assert(rest[k] == s[at + 1 + k]);
        assert(at + 1 + k >= i);
        assert(s.subrange(at, at + 1 + k).take(i - at) =~= s.subrange(at, i));
        crate::text::lemma_utf8_size_prefix(s.subrange(at, at + 1 + k), i - at);
    }
}

proof fn lemma_place_is(s: Seq<char>, c: char)
    ensures
        first_place(s, c) matches Some(i) ==> 0 <= i < s.len() && s[i] == c,
    decreases s.len(),
{
    if s.len() > 0 && s[0] != c {
        lemma_place_is(s.skip(1), c);
    }
}

/// A text with its entities replaced.
pub fn decode_xml_entities(s: &[char]) -> (r: Vec<char>)
    ensures
        r@ == decoded(s@),
{
    let length: usize = s.len();
    let mut out: Vec<char> = Vec::new();
    let mut at: usize = 0;
    assert(out@ =~= Seq::empty());
    while at < length
        invariant
            at <= length,
            length == s@.len(),
            decoded(s@) == decoded_from(s@, at as int, out@),
        decreases length - at,
    {
        if s[at] != '&' {
            out.push(s[at]);
            at = at + 1;
        } else {
            match find_entity_end(s, at) {
                None => {
                    out.push('&');
                    at = at + 1;
                },
                Some(end) => {
                    match decode_entity(&s[at + 1..end]) {
                        Some(c) => {
                            out.push(c);
                        },
                        None => {
                            let ghost before = out@;
                            out.extend_from_slice(&s[at..end + 1]);
                            proof {
                                assert(out@ =~= before + s@.subrange(at as int, end + 1));
                            }
                        },
                    }
                    at = end + 1;
                },
            }
        }
    }
    out
}

/// The namespace that a text writes.
fn parse_namespace(text: &[char]) -> (r: Option<i32>)
    ensures
        r == namespace_of(text@),
{
    let t = trim(text);
    let n: usize = t.len();
    if n > 1 && t[0] == '-' {
        proof {
            assert(t@.subrange(1, n as int) =~= t@.skip(1));
        }
        if t[1] == '+' {
            proof {
                lemma_plus_is_no_digit(t@.skip(1));
            }
            return None;
        }
        match parse_unsigned(&t[1..n], 10, 2147483648) {
            Some(v) => Some((-(v as i64)) as i32),
            None => None,
        }
    } else {
        match parse_unsigned(t, 10, 2147483647) {
            Some(v) => Some(v as i32),
            None => None,
        }
    }
}

proof fn lemma_plus_is_no_digit(s: Seq<char>)
    requires
        s.len() > 0,
        s[0] == '+',
    ensures
        digits_value(s, 10) is None,
    decreases s.len(),
{
    if s.len() > 1 {
        lemma_plus_is_no_digit(s.drop_last());
    }
}

/// Reads the pages of an export that comes in pieces.
pub struct MoegirlXml {
    pending: Vec<char>,
    active: Option<XmlField>,
    in_page: bool,
    title: Vec<char>,
    namespace_text: Vec<char>,
    namespace: Option<i32>,
    redirect: bool,
    title_emitted: bool,
    wiki: WikiStripper,
}

impl View for MoegirlXml {
    type V = XmlState;

    closed spec fn view(&self) -> XmlState {
        XmlState {
            pending: self.pending@,
            active: self.active,
            in_page: self.in_page,
            title: self.title@,
            namespace_text: self.namespace_text@,
            namespace: self.namespace,
            redirect: self.redirect,
            title_emitted: self.title_emitted,
            wiki: self.wiki@,
        }
    }
}

impl MoegirlXml {
    pub fn new() -> (r: Self)
        ensures
            r@ == xml_start(),
    {
        let r = MoegirlXml {
            pending: Vec::new(),
            active: None,
            in_page: false,
            title: Vec::new(),
            namespace_text: Vec::new(),
            namespace: None,
            redirect: false,
            title_emitted: false,
            wiki: WikiStripper::new(),
        };
        proof {
            assert(r@.pending =~= Seq::empty());
            assert(r@.title =~= Seq::empty());
            assert(r@.namespace_text =~= Seq::empty());
        }
        r
    }

    /// Gives up what could not be read yet.
    pub fn give_up(&mut self)
        ensures
            final(self)@ == (XmlState { pending: Seq::empty(), active: None, ..old(self)@ }),
    {
        self.pending = Vec::new();
        self.active = None;
        proof {
            assert(self@.pending =~= Seq::empty());
        }
    }

    fn reset_page(&mut self)
        ensures
            final(self)@ == between_pages(old(self)@),
    {
        self.active = None;
        self.in_page = false;
        self.title = Vec::new();
        self.namespace_text = Vec::new();
        self.namespace = None;
        self.redirect = false;
        self.title_emitted = false;
        self.wiki.reset();
        proof {
            assert(self@.title =~= Seq::empty());
            assert(self@.namespace_text =~= Seq::empty());
        }
    }

    fn emit_title(&mut self, preparer: &mut Preparer)
        ensures
            final(preparer).wf() == old(preparer).wf(),
            final(preparer).kind() == old(preparer).kind(),
            (final(self)@, final(preparer)@) == with_page_title(old(self)@, old(preparer)@),
    {
        if !self.title_emitted && self.namespace == Some(0i32) && !self.redirect && trim(
            self.title.as_slice(),
        ).len() > 0 {
            preparer.selected_text(self.title.as_slice(), 10);
            self.title_emitted = true;
        }
    }

    fn handle_text(&mut self, source: &str, raw: &[char], preparer: &mut Preparer)
        ensures
            final(preparer).wf() == old(preparer).wf(),
            final(preparer).kind() == old(preparer).kind(),
            (final(self)@, final(preparer)@) == with_xml_text(
                old(self)@,
                old(preparer)@,
                source@,
                raw@,
            ),
    {
        if raw.len() == 0 {
            return ;
        }
        match self.active {
            Some(XmlField::Title) => {
                let text = decode_xml_entities(raw);
                let ghost before = self.title@;
                self.title.extend_from_slice(text.as_slice());
                proof {
                    assert(self.title@ =~= before + text@);
                }
            },
            Some(XmlField::Namespace) => {
                let ghost before = self.namespace_text@;
                self.namespace_text.extend_from_slice(raw);
                proof {
                    assert(self.namespace_text@ =~= before + raw@);
                }
            },
            Some(XmlField::Text) => {
                if self.namespace == Some(0i32) && !self.redirect {
                    self.emit_title(preparer);
                    let text = decode_xml_entities(raw);
                    let shown = self.wiki.feed(text.as_slice());
                    if trim(shown.as_slice()).len() > 0 {
                        preparer.selected_text(shown.as_slice(), 1);
                    }
                    if self.wiki.take_overflowed() {
                        let none: Vec<char> = Vec::new();
                        proof {
                            assert(none@ =~= Seq::empty());
                        }
                        preparer.error(
                            source,
                            0,
                            "MediaWiki 内部链接超过 1 MiB，已丢弃",
                            none.as_slice(),
                        );
                    }
                }
            },
            None => {},
        }
    }

    fn handle_tag(&mut self, source: &str, line: u64, inner: &[char], preparer: &mut Preparer)
        ensures
            final(preparer).wf() == old(preparer).wf(),
            final(preparer).kind() == old(preparer).kind(),
            (final(self)@, final(preparer)@) == with_tag(
                old(self)@,
                old(preparer)@,
                source@,
                line,
                inner@,
            ),
    {
        let (closes, name, closes_itself) = tag_descriptor(inner);
        if name.len() == 0 || name[0] == '!' {
            return ;
        }
        let name = name.as_slice();
        if closes {
            if spells(name, "title") && self.active == Some(XmlField::Title) {
                self.active = None;
            } else if spells(name, "ns") && self.active == Some(XmlField::Namespace) {
                self.active = None;
                self.namespace = parse_namespace(self.namespace_text.as_slice());
                if self.namespace.is_none() {
                    preparer.error(
                        source,
                        line,
                        "MediaWiki ns 不是整数",
                        self.namespace_text.as_slice(),
                    );
                }
            } else if spells(name, "text") && self.active == Some(XmlField::Text) {
                self.active = None;
            } else if spells(name, "page") {
                self.emit_title(preparer);
                if self.namespace.is_some() {
                    count_record(preparer);
                }
                self.reset_page();
            }
            return ;
        }
        if spells(name, "page") {
            self.reset_page();
            self.in_page = true;
        } else if spells(name, "title") && self.in_page {
            self.active = if closes_itself {
                None
            } else {
                Some(XmlField::Title)
            };
        } else if spells(name, "ns") && self.in_page {
            self.active = if closes_itself {
                None
            } else {
                Some(XmlField::Namespace)
            };
        } else if spells(name, "redirect") && self.in_page {
            self.redirect = true;
        } else if spells(name, "text") && self.in_page {
            self.wiki.reset();
            self.active = if closes_itself {
                None
            } else {
                Some(XmlField::Text)
            };
        }
    }

    /// Reads the input as far as it can be read, and tells how far.
    #[verifier::rlimit(60)]
    fn feed_all(&mut self, source: &str, line: u64, input: &[char], preparer: &mut Preparer) -> (r:
        usize)
        ensures
            final(preparer).wf() == old(preparer).wf(),
            final(preparer).kind() == old(preparer).kind(),
            (final(self)@, final(preparer)@, r as int) == xml_from(
                old(self)@,
                old(preparer)@,
                source@,
                line,
                input@,
                0,
            ),
            r <= input@.len(),
    {
        let ghost s = input@;
        let ghost all = xml_from(self@, preparer@, source@, line, s, 0);
        let length: usize = input.len();
        proof {
            reveal_strlit("<!--");
            reveal_strlit("-->");
            reveal_strlit("<![CDATA[");
            reveal_strlit("]]>");
            reveal_strlit("<?");
            reveal_strlit("?>");
        }
        let comment_start = chars_of("<!--");
        let comment_end = chars_of("-->");
        let data_start = chars_of("<![CDATA[");
        let data_end = chars_of("]]>");
        let order_start = chars_of("<?");
        let order_end = chars_of("?>");
        let mut at: usize = 0;
        while at < length
            invariant
                at <= length,
                length == s.len(),
                s == input@,
                preparer.wf() == old(preparer).wf(),
                preparer.kind() == old(preparer).kind(),
                all == xml_from(old(self)@, old(preparer)@, source@, line, s, 0),
                all == xml_from(self@, preparer@, source@, line, s, at as int),
                comment_start@ == "<!--"@ && comment_start@.len() == 4,
                comment_end@ == "-->"@ && comment_end@.len() == 3,
                data_start@ == "<![CDATA["@ && data_start@.len() == 9,
                data_end@ == "]]>"@ && data_end@.len() == 3,
                order_start@ == "<?"@ && order_start@.len() == 2,
                order_end@ == "?>"@ && order_end@.len() == 2,
            decreases length - at,
        {
            let rest = &input[at..length];
            proof {
                assert(rest@ =~= s.skip(at as int));
            }
            let offset: usize = match find_char(rest, '<') {
                None => {
                    self.handle_text(source, rest, preparer);
                    return length;
                },
                Some(offset) => offset,
            };
            let t: usize = at + offset;
            self.handle_text(source, &input[at..t], preparer);
            if is_text_at(input, t, comment_start.as_slice()) {
                match find_text(input, t + 4, comment_end.as_slice()) {
                    None => {
                        return t;
                    },
                    Some(end) => {
                        at = end + 3;
                    },
                }
            } else if is_text_at(input, t, data_start.as_slice()) {
                match find_text(input, t + 9, data_end.as_slice()) {
                    None => {
                        return t;
                    },
                    Some(end) => {
                        self.handle_text(source, &input[t + 9..end], preparer);
                        at = end + 3;
                    },
                }
            } else if is_text_at(input, t, order_start.as_slice()) {
                match find_text(input, t + 2, order_end.as_slice()) {
                    None => {
                        return t;
                    },
                    Some(end) => {
                        at = end + 2;
                    },
                }
            } else {
                match find_tag_end(input, t + 1) {
                    None => {
                        return t;
                    },
                    Some(end) => {
                        self.handle_tag(source, line, &input[t + 1..end], preparer);
                        at = end + 1;
                    },
                }
            }
        }
        at
    }

    /// Reads a further piece.
    pub fn feed(&mut self, source: &str, line: u64, chunk: &[char], preparer: &mut Preparer)
        ensures
            final(preparer).wf() == old(preparer).wf(),
            final(preparer).kind() == old(preparer).kind(),
            (final(self)@, final(preparer)@) == xml_feed(
                old(self)@,
                old(preparer)@,
                source@,
                line,
                chunk@,
            ),
    {
        let mut input: Vec<char> = Vec::new();
        std::mem::swap(&mut input, &mut self.pending);
        input.extend_from_slice(chunk);
        proof {
            assert(self.pending@ =~= Seq::empty());
            assert(input@ =~= old(self)@.pending + chunk@);
        }
        let at: usize = self.feed_all(source, line, input.as_slice(), preparer);
        if at < input.len() {
            let held = copy_range(input.as_slice(), at, input.len());
            proof {
                assert(held@ =~= input@.skip(at as int));
            }
            if byte_size(held.as_slice()) > XML_PENDING_LIMIT {
                preparer.error(
                    source,
                    line,
                    "XML 未闭合标签/注释超过 1 MiB，已重置解析状态",
                    held.as_slice(),
                );
                self.give_up();
            } else {
                self.pending = held;
            }
        }
    }

    /// Ends the input.
    pub fn finish(&mut self, source: &str, line: u64, preparer: &mut Preparer)
        ensures
            final(preparer).wf() == old(preparer).wf(),
            final(preparer).kind() == old(preparer).kind(),
            final(preparer)@ == xml_end(old(self)@, old(preparer)@, source@, line),
    {
        if trim(self.pending.as_slice()).len() > 0 {
            preparer.error(source, line, "XML 文件末尾存在未闭合结构", self.pending.as_slice());
        }
        if self.in_page {
            self.emit_title(preparer);
            let none: Vec<char> = Vec::new();
            proof {
                assert(none@ =~= Seq::empty());
            }
            preparer.error(source, line, "XML 文件末尾 page 未闭合", none.as_slice());
        }
    }
}

} // verus!
