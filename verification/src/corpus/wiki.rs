//! Stripping the markup of a wiki.
use crate::corpus::find::{find_from, find_lowered, find_lowered_text, find_text, is_text_at};
use crate::corpus::json::{json_blank, stands, stands_text};
use crate::corpus::preparer::{bump, bumped};
use crate::corpus::types::{lower_chars, lowered};
use crate::text::{
    chars_of, copy_range, find_char, find_last_char, first_place, last_place, lemma_utf8_size_push,
    spells, trim, trimmed, utf8_size, width_of,
};
use vstd::prelude::*;
use vstd::string::*;

verus! {

/// How many bytes of a link may be held.
pub const WIKI_LINK_LIMIT: u64 = 1048576;

/// Where the tag whose rest stands at a place ends. A bracket in quotes does
/// not end it.
pub open spec fn tag_end(s: Seq<char>, at: int, quote: Option<char>) -> Option<int>
    decreases s.len() - at,
{
    if at < 0 || at >= s.len() {
        None
    } else {
        match quote {
            Some(q) => tag_end(
                s,
                at + 1,
                if s[at] == q {
                    None
                } else {
                    quote
                },
            ),
            None => if s[at] == '"' || s[at] == '\'' {
                tag_end(s, at + 1, Some(s[at]))
            } else if s[at] == '>' {
                Some(at)
            } else {
                tag_end(s, at + 1, None)
            },
        }
    }
}

/// A text without the slashes at its start.
pub open spec fn without_slashes(s: Seq<char>) -> Seq<char>
    decreases s.len(),
{
    if s.len() > 0 && s[0] == '/' {
        without_slashes(s.skip(1))
    } else {
        s
    }
}

/// The beginning of a text, up to a blank or a slash.
pub open spec fn name_part(s: Seq<char>) -> Seq<char>
    decreases s.len(),
{
    if s.len() == 0 || json_blank(s[0]) || s[0] == '/' {
        Seq::empty()
    } else {
        seq![s[0]] + name_part(s.skip(1))
    }
}

/// What a tag says: that it closes, its name, and that it closes itself.
pub struct Tag {
    pub closing: bool,
    pub name: Seq<char>,
    pub self_closing: bool,
}

/// What a tag says.
pub open spec fn tag_of(s: Seq<char>) -> Tag {
    let t = trimmed(s);
    Tag {
        closing: t.len() > 0 && t[0] == '/',
        name: lowered(name_part(without_slashes(t))),
        self_closing: t.len() > 0 && t.last() == '/',
    }
}

/// What such a tag holds is left out.
pub open spec fn hidden_tag(name: Seq<char>) -> bool {
    name == "ref"@ || name == "gallery"@ || name == "imagemap"@
}

/// Such a tag parts what stands before it from what follows.
pub open spec fn parting_tag(name: Seq<char>) -> bool {
    name == "br"@ || name == "p"@ || name == "div"@ || name == "li"@ || name == "tr"@ || name
        == "td"@ || name == "th"@ || name == "h1"@ || name == "h2"@ || name == "h3"@ || name
        == "h4"@ || name == "h5"@ || name == "h6"@
}

/// Such a link is left out.
pub open spec fn hidden_namespace(name: Seq<char>) -> bool {
    name == "file"@ || name == "image"@ || name == "category"@ || name == "文件"@ || name
        == "图像"@ || name == "分类"@
}

/// A text up to the first of a character.
pub open spec fn up_to(s: Seq<char>, c: char) -> Seq<char> {
    match first_place(s, c) {
        Some(i) => s.take(i),
        None => s,
    }
}

/// A text behind the last of a character.
pub open spec fn behind_last(s: Seq<char>, c: char) -> Seq<char> {
    match last_place(s, c) {
        Some(i) => s.skip(i + 1),
        None => s,
    }
}

/// What a link shows: what stands behind its last bar; a blank for one that is
/// left out.
pub open spec fn link_text(content: Seq<char>) -> Seq<char> {
    let target = up_to(content, '|');
    if first_place(target, ':') is Some && hidden_namespace(
        lowered(trimmed(up_to(target, ':'))),
    ) {
        seq![' ']
    } else {
        behind_last(content, '|')
    }
}

/// What is open between two pieces of a page.
pub struct WikiState {
    pub template_depth: u64,
    pub table_depth: u64,
    pub in_comment: bool,
    pub link: Option<Seq<char>>,
    pub suppressed: Option<Seq<char>>,
    pub overflowed: bool,
}

/// Nothing is open.
pub open spec fn wiki_start() -> WikiState {
    WikiState {
        template_depth: 0,
        table_depth: 0,
        in_comment: false,
        link: None,
        suppressed: None,
        overflowed: false,
    }
}

/// How the end tag with a name begins.
pub open spec fn end_tag(name: Seq<char>) -> Seq<char> {
    "</"@ + name
}

/// What a piece shows from a place on, behind what it has shown, and what is
/// open in the end.
pub open spec fn wiki_from(w: WikiState, s: Seq<char>, at: int, out: Seq<char>) -> (
    WikiState,
    Seq<char>,
)
    decreases s.len() - at,
{
    if at < 0 || at >= s.len() {
        (w, out)
    } else if w.in_comment {
        match find_from(s, at, "-->"@) {
            Some(e) => if at <= e && e + 3 <= s.len() {
                wiki_from(WikiState { in_comment: false, ..w }, s, e + 3, out.push(' '))
            } else {
                (w, out)
            },
            None => (w, out),
        }
    } else if w.suppressed is Some {
        match find_lowered(s, at, end_tag(w.suppressed->0)) {
            None => (w, out),
            Some(start) => match tag_end(s, start + 1, None) {
                None => (w, out),
                Some(e) => if at <= e < s.len() {
                    wiki_from(WikiState { suppressed: None, ..w }, s, e + 1, out.push(' '))
                } else {
                    (w, out)
                },
            },
        }
    } else if w.template_depth != 0 {
        if stands_text(s, at, "{{"@) && at + 2 <= s.len() {
            wiki_from(
                WikiState { template_depth: bumped(w.template_depth, 1), ..w },
                s,
                at + 2,
                out,
            )
        } else if stands_text(s, at, "}}"@) && at + 2 <= s.len() {
            wiki_from(
                WikiState { template_depth: (w.template_depth - 1) as u64, ..w },
                s,
                at + 2,
                if w.template_depth == 1 {
                    out.push(' ')
                } else {
                    out
                },
            )
        } else {
            wiki_from(w, s, at + 1, out)
        }
    } else if w.table_depth != 0 {
        if stands_text(s, at, "{|"@) && at + 2 <= s.len() {
            wiki_from(WikiState { table_depth: bumped(w.table_depth, 1), ..w }, s, at + 2, out)
        } else if stands_text(s, at, "|}"@) && at + 2 <= s.len() {
            wiki_from(
                WikiState { table_depth: (w.table_depth - 1) as u64, ..w },
                s,
                at + 2,
                if w.table_depth == 1 {
                    out.push(' ')
                } else {
                    out
                },
            )
        } else {
            wiki_from(w, s, at + 1, out)
        }
    } else if stands_text(s, at, "<!--"@) && at + 4 <= s.len() {
        wiki_from(WikiState { in_comment: true, ..w }, s, at + 4, out)
    } else if stands_text(s, at, "{{"@) && at + 2 <= s.len() {
        wiki_from(WikiState { template_depth: 1, ..w }, s, at + 2, out)
    } else if stands_text(s, at, "{|"@) && at + 2 <= s.len() {
        wiki_from(WikiState { table_depth: 1, ..w }, s, at + 2, out)
    } else if stands_text(s, at, "[["@) && at + 2 <= s.len() {
        match find_from(s, at + 2, "]]"@) {
            Some(e) => if at + 2 <= e && e + 2 <= s.len() {
                wiki_from(w, s, e + 2, out + link_text(s.subrange(at + 2, e)))
            } else {
                (w, out)
            },
            None => (WikiState { link: Some(s.skip(at + 2)), ..w }, out),
        }
    } else if s[at] == '<' {
        match tag_end(s, at + 1, None) {
            None => (w, out),
            Some(e) => if !(at < e < s.len()) {
                (w, out)
            } else {
                let tag = tag_of(s.subrange(at + 1, e));
                if !tag.closing && !tag.self_closing && hidden_tag(tag.name) {
                    match find_lowered(s, e + 1, end_tag(tag.name)) {
                        None => (WikiState { suppressed: Some(tag.name), ..w }, out),
                        Some(start) => match tag_end(s, start + 1, None) {
                            Some(f) => if e < f < s.len() {
                                wiki_from(w, s, f + 1, out.push(' '))
                            } else {
                                (w, out.push(' '))
                            },
                            None => (w, out.push(' ')),
                        },
                    }
                } else {
                    wiki_from(
                        w,
                        s,
                        e + 1,
                        if parting_tag(tag.name) {
                            out.push(' ')
                        } else {
                            out
                        },
                    )
                }
            },
        }
    } else {
        wiki_from(w, s, at + 1, out.push(s[at]))
    }
}

/// What a piece shows, and what is open in the end. A link that is open goes on.
pub open spec fn wiki_feed(w: WikiState, s: Seq<char>) -> (WikiState, Seq<char>) {
    match w.link {
        None => wiki_from(w, s, 0, Seq::empty()),
        Some(held) => match find_from(s, 0, "]]"@) {
            Some(e) => wiki_from(
                WikiState { link: None, ..w },
                s,
                e + 2,
                link_text(held + s.take(e)),
            ),
            None => if utf8_size(held + s) <= WIKI_LINK_LIMIT {
                (WikiState { link: Some(held + s), ..w }, Seq::empty())
            } else {
                (WikiState { link: None, overflowed: true, ..w }, Seq::empty())
            },
        },
    }
}

/// Where the tag whose rest stands at a place ends.
pub(crate) fn find_tag_end(s: &[char], at: usize) -> (r: Option<usize>)
    requires
        at <= s@.len(),
    ensures
        match r {
            Some(e) => tag_end(s@, at as int, None) == Some(e as int) && at <= e < s@.len(),
            None => tag_end(s@, at as int, None) is None,
        },
{
    let mut quote: Option<char> = None;
    let mut i: usize = at;
    while i < s.len()
        invariant
            at <= i <= s@.len(),
            tag_end(s@, at as int, None) == tag_end(s@, i as int, quote),
        decreases s.len() - i,
    {
        let c = s[i];
        match quote {
            Some(q) => {
                if c == q {
                    quote = None;
                }
            },
            None => {
                if c == '"' || c == '\'' {
                    quote = Some(c);
                } else if c == '>' {
                    return Some(i);
                }
            },
        }
        i += 1;
    }
    None
}

/// What a tag says.
pub(crate) fn tag_descriptor(tag: &[char]) -> (r: (bool, Vec<char>, bool))
    ensures
        ({
            let t = tag_of(tag@);
            r.0 == t.closing && r.1@ == t.name && r.2 == t.self_closing
        }),
{
    let t = trim(tag);
    let n: usize = t.len();
    let closing = n > 0 && t[0] == '/';
    let self_closing = n > 0 && t[n - 1] == '/';
    let mut from: usize = 0;
    assert(t@.skip(0) =~= t@);
    while from < n && t[from] == '/'
        invariant
            from <= n,
            n == t@.len(),
            without_slashes(t@) == without_slashes(t@.skip(from as int)),
        decreases n - from,
    {
        assert(t@.skip(from as int)[0] == t@[from as int]);
        assert(t@.skip(from as int).skip(1) =~= t@.skip(from + 1));
        from += 1;
    }
    let ghost rest = t@.skip(from as int);
    proof {
        if rest.len() > 0 {
            assert(rest[0] == t@[from as int]);
        }
        assert(without_slashes(t@) == rest);
        assert(rest.take(0) + name_part(rest.skip(0)) =~= name_part(rest)) by {
            assert(rest.skip(0) =~= rest);
        }
    }
    let mut to: usize = from;
    while to < n && !(t[to] == ' ' || t[to] == '\t' || t[to] == '\n' || t[to] == '\x0c' || t[to]
        == '\r' || t[to] == '/')
        invariant
            from <= to <= n,
            n == t@.len(),
            rest == t@.skip(from as int),
            name_part(rest) == rest.take(to - from) + name_part(rest.skip(to - from)),
        decreases n - to,
    {
        proof {
            let here = rest.skip(to - from);
            assert(here[0] == t@[to as int]);
            assert(here.skip(1) =~= rest.skip(to + 1 - from));
            assert(rest.take(to - from) + (seq![here[0]] + name_part(here.skip(1)))
                =~= rest.take(to + 1 - from) + name_part(rest.skip(to + 1 - from)));
        }
        to += 1;
    }
    proof {
        let here = rest.skip(to - from);
        if here.len() > 0 {
            assert(here[0] == t@[to as int]);
        }
        assert(name_part(here) =~= Seq::empty());
        assert(name_part(rest) =~= rest.take(to - from));
        assert(rest.take(to - from) =~= t@.subrange(from as int, to as int));
    }
    let name = lower_chars(&t[from..to]);
    (closing, name, self_closing)
}

fn is_hidden_tag(name: &[char]) -> (r: bool)
    ensures
        r == hidden_tag(name@),
{
    spells(name, "ref") || spells(name, "gallery") || spells(name, "imagemap")
}

fn is_parting_tag(name: &[char]) -> (r: bool)
    ensures
        r == parting_tag(name@),
{
    spells(name, "br") || spells(name, "p") || spells(name, "div") || spells(name, "li") || spells(
        name,
        "tr",
    ) || spells(name, "td") || spells(name, "th") || spells(name, "h1") || spells(name, "h2")
        || spells(name, "h3") || spells(name, "h4") || spells(name, "h5") || spells(name, "h6")
}

/// The beginning of a text up to the first of a character.
fn part_up_to(s: &[char], c: char) -> (r: &[char])
    ensures
        r@ == up_to(s@, c),
{
    match find_char(s, c) {
        Some(i) => {
            proof {
                assert(s@.subrange(0, i as int) =~= s@.take(i as int));
            }
            &s[0..i]
        },
        None => s,
    }
}

/// Adds what a link shows.
fn append_wiki_link(output: &mut Vec<char>, content: &[char])
    ensures
        final(output)@ == old(output)@ + link_text(content@),
{
    let ghost before = output@;
    let length: usize = content.len();
    let target = part_up_to(content, '|');
    if find_char(target, ':').is_some() {
        let namespace = lower_chars(trim(part_up_to(target, ':')));
        let name = namespace.as_slice();
        if spells(name, "file") || spells(name, "image") || spells(name, "category") || spells(
            name,
            "文件",
        ) || spells(name, "图像") || spells(name, "分类") {
            output.push(' ');
            proof {
                assert(output@ =~= before + seq![' ']);
            }
            return;
        }
    }
    let shown = match find_last_char(content, '|') {
        Some(i) => {
            proof {
                assert(content@.subrange(i + 1, content@.len() as int) =~= content@.skip(i + 1));
            }
            &content[i + 1..length]
        },
        None => content,
    };
    output.extend_from_slice(shown);
}

/// The number of bytes of a text, as far as it can be counted.
pub(crate) fn byte_size(s: &[char]) -> (r: u64)
    ensures
        r == bumped(0, utf8_size(s@)),
{
    let mut n: u64 = 0;
    let mut i: usize = 0;
    assert(s@.take(0) =~= Seq::empty());
    while i < s.len()
        invariant
            i <= s@.len(),
            n == bumped(0, utf8_size(s@.take(i as int))),
        decreases s.len() - i,
    {
        proof {
            assert(s@.take(i + 1) =~= s@.take(i as int).push(s@[i as int]));
            lemma_utf8_size_push(s@.take(i as int), s@[i as int]);
        }
        let width: usize = width_of(s[i]);
        n = bump(n, width as u64);
        i += 1;
    }
    assert(s@.take(i as int) =~= s@);
    n
}

/// Strips the markup of a page that comes in pieces.
pub struct WikiStripper {
    template_depth: u64,
    table_depth: u64,
    in_comment: bool,
    link: Option<Vec<char>>,
    suppressed: Option<Vec<char>>,
    overflowed: bool,
}

impl View for WikiStripper {
    type V = WikiState;

    closed spec fn view(&self) -> WikiState {
        WikiState {
            template_depth: self.template_depth,
            table_depth: self.table_depth,
            in_comment: self.in_comment,
            link: match self.link {
                Some(v) => Some(v@),
                None => None,
            },
            suppressed: match self.suppressed {
                Some(v) => Some(v@),
                None => None,
            },
            overflowed: self.overflowed,
        }
    }
}

impl WikiStripper {
    pub fn new() -> (r: Self)
        ensures
            r@ == wiki_start(),
    {
        WikiStripper {
            template_depth: 0,
            table_depth: 0,
            in_comment: false,
            link: None,
            suppressed: None,
            overflowed: false,
        }
    }

    pub fn reset(&mut self)
        ensures
            final(self)@ == wiki_start(),
    {
        self.template_depth = 0;
        self.table_depth = 0;
        self.in_comment = false;
        self.link = None;
        self.suppressed = None;
        self.overflowed = false;
    }

    /// Tells whether a link was too long, and forgets it.
    pub fn take_overflowed(&mut self) -> (r: bool)
        ensures
            r == old(self)@.overflowed,
            final(self)@ == (WikiState { overflowed: false, ..old(self)@ }),
    {
        let r = self.overflowed;
        self.overflowed = false;
        r
    }

    /// What a piece shows.
    pub fn feed(&mut self, input: &[char]) -> (r: Vec<char>)
        ensures
            (final(self)@, r@) == wiki_feed(old(self)@, input@),
    {
        let mut output: Vec<char> = Vec::new();
        let length: usize = input.len();
        let closing = chars_of("]]");
        proof {
            reveal_strlit("]]");
            assert(output@ =~= Seq::empty());
        }
        let held = self.link.take();
        match held {
            None => {
                self.feed_from(input, 0, &mut output);
            },
            Some(held) => {
                let ghost part = held@;
                let mut held = held;
                match find_text(input, 0, closing.as_slice()) {
                    Some(end) => {
                        proof {
                            assert(input@.subrange(0, end as int) =~= input@.take(end as int));
                        }
                        held.extend_from_slice(&input[0..end]);
                        append_wiki_link(&mut output, held.as_slice());
                        proof {
                            assert(held@ == part + input@.take(end as int));
                            assert(output@ =~= link_text(held@));
                        }
                        self.feed_from(input, end + 2, &mut output);
                    },
                    None => {
                        held.extend_from_slice(input);
                        proof {
                            assert(held@ == part + input@);
                        }
                        if byte_size(held.as_slice()) <= WIKI_LINK_LIMIT {
                            self.link = Some(held);
                        } else {
                            self.overflowed = true;
                        }
                    },
                }
            },
        }
        output
    }

    /// What a piece shows from a place on.
    #[verifier::rlimit(100)]
    fn feed_from(&mut self, input: &[char], from: usize, output: &mut Vec<char>)
        requires
            from <= input@.len(),
        ensures
            (final(self)@, final(output)@) == wiki_from(
                old(self)@,
                input@,
                from as int,
                old(output)@,
            ),
    {
        let ghost s = input@;
        let ghost all = wiki_from(self@, s, from as int, output@);
        proof {
            reveal_strlit("-->");
            reveal_strlit("{{");
            reveal_strlit("}}");
            reveal_strlit("{|");
            reveal_strlit("|}");
            reveal_strlit("<!--");
            reveal_strlit("[[");
            reveal_strlit("]]");
            reveal_strlit("</");
        }
        let comment_end = chars_of("-->");
        let template_start = chars_of("{{");
        let template_end = chars_of("}}");
        let table_start = chars_of("{|");
        let table_end = chars_of("|}");
        let comment_start = chars_of("<!--");
        let link_start = chars_of("[[");
        let link_end = chars_of("]]");
        let length: usize = input.len();
        let mut at: usize = from;
        while at < input.len()
            invariant
                at <= s.len(),
                s == input@,
                length == s.len(),
                all == wiki_from(old(self)@, input@, from as int, old(output)@),
                all == wiki_from(self@, s, at as int, output@),
                "</"@.len() == 2,
                comment_end@ == "-->"@ && comment_end@.len() == 3,
                template_start@ == "{{"@ && template_start@.len() == 2,
                template_end@ == "}}"@ && template_end@.len() == 2,
                table_start@ == "{|"@ && table_start@.len() == 2,
                table_end@ == "|}"@ && table_end@.len() == 2,
                comment_start@ == "<!--"@ && comment_start@.len() == 4,
                link_start@ == "[["@ && link_start@.len() == 2,
                link_end@ == "]]"@ && link_end@.len() == 2,
            decreases s.len() - at,
        {
            if self.in_comment {
                match find_text(input, at, comment_end.as_slice()) {
                    Some(end) => {
                        self.in_comment = false;
                        output.push(' ');
                        at = end + 3;
                    },
                    None => {
                        return ;
                    },
                }
            } else if self.suppressed.is_some() {
                match self.past_suppressed(input, at) {
                    Some(next) => {
                        self.suppressed = None;
                        output.push(' ');
                        at = next;
                    },
                    None => {
                        return ;
                    },
                }
            } else if self.template_depth != 0 {
                if is_text_at(input, at, template_start.as_slice()) {
                    self.template_depth = bump(self.template_depth, 1);
                    at = at + 2;
                } else if is_text_at(input, at, template_end.as_slice()) {
                    self.template_depth = self.template_depth - 1;
                    if self.template_depth == 0 {
                        output.push(' ');
                    }
                    at = at + 2;
                } else {
                    at = at + 1;
                }
            } else if self.table_depth != 0 {
                if is_text_at(input, at, table_start.as_slice()) {
                    self.table_depth = bump(self.table_depth, 1);
                    at = at + 2;
                } else if is_text_at(input, at, table_end.as_slice()) {
                    self.table_depth = self.table_depth - 1;
                    if self.table_depth == 0 {
                        output.push(' ');
                    }
                    at = at + 2;
                } else {
                    at = at + 1;
                }
            } else if is_text_at(input, at, comment_start.as_slice()) {
                self.in_comment = true;
                at = at + 4;
            } else if is_text_at(input, at, template_start.as_slice()) {
                self.template_depth = 1;
                at = at + 2;
            } else if is_text_at(input, at, table_start.as_slice()) {
                self.table_depth = 1;
                at = at + 2;
            } else if is_text_at(input, at, link_start.as_slice()) {
                match find_text(input, at + 2, link_end.as_slice()) {
                    Some(end) => {
                        append_wiki_link(output, &input[at + 2..end]);
                        at = end + 2;
                    },
                    None => {
                        let rest = copy_range(input, at + 2, input.len());
                        proof {
                            assert(rest@ =~= s.skip(at + 2));
                        }
                        self.link = Some(rest);
                        return ;
                    },
                }
            } else if input[at] == '<' {
                let end: usize = match find_tag_end(input, at + 1) {
                    Some(end) => end,
                    None => {
                        return ;
                    },
                };
                let (closes, name, closes_itself) = tag_descriptor(&input[at + 1..end]);
                if !closes && !closes_itself && is_hidden_tag(name.as_slice()) {
                    let mut closing = chars_of("</");
                    closing.extend_from_slice(name.as_slice());
                    proof {
                        assert(closing@ =~= end_tag(name@));
                        assert(closing@.len() > 0);
                    }
                    match find_lowered_text(input, end + 1, closing.as_slice()) {
                        None => {
                            self.suppressed = Some(name);
                            return ;
                        },
                        Some(start) => {
                            output.push(' ');
                            match find_tag_end(input, start + 1) {
                                Some(close) => {
                                    at = close + 1;
                                },
                                None => {
                                    return ;
                                },
                            }
                        },
                    }
                } else {
                    if is_parting_tag(name.as_slice()) {
                        output.push(' ');
                    }
                    at = end + 1;
                }
            } else {
                output.push(input[at]);
                at = at + 1;
            }
        }
    }

    /// The place behind the end of what is left out.
    fn past_suppressed(&self, input: &[char], at: usize) -> (r: Option<usize>)
        requires
            at <= input@.len(),
            self@.suppressed is Some,
        ensures
            ({
                let name = self@.suppressed->0;
                match find_lowered(input@, at as int, end_tag(name)) {
                    None => r is None,
                    Some(start) => match tag_end(input@, start + 1, None) {
                        None => r is None,
                        Some(e) => r == Some((e + 1) as usize) && at <= e < input@.len(),
                    },
                }
            }),
    {
        let length: usize = input.len();
        let mut closing = chars_of("</");
        if let Some(name) = &self.suppressed {
            closing.extend_from_slice(name.as_slice());
        }
        proof {
            reveal_strlit("</");
            assert(closing@ =~= end_tag(self@.suppressed->0));
        }
        match find_lowered_text(input, at, closing.as_slice()) {
            None => None,
            Some(start) => match find_tag_end(input, start + 1) {
                None => None,
                Some(end) => Some(end + 1),
            },
        }
    }
}

} // verus!
