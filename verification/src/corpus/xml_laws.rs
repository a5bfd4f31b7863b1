//! What is read from the pages of a MediaWiki export.
use crate::corpus::preparer::{with_field, Prepared};
use crate::corpus::print_laws::{lemma_records_of_field, records_in};
use crate::corpus::types::lowered;
use crate::corpus::wiki::{wiki_feed, wiki_start};
use crate::corpus::wiki_laws::{lemma_plain_tag, lemma_tag_ends, tag_name, tag_written, without};
use crate::corpus::xml::{
    decoded, decoded_from, entity_char, entity_code, entity_end, namespace_of, with_end_tag,
    with_page_title, with_start_tag, with_xml_text, xml_feed, xml_from, xml_start, XmlField,
    XmlState,
};
use crate::text::{
    digit, digits_value, first_place, lemma_first_place, letter, scalar, trimmed, trimmed_end,
    trimmed_start, unsigned_value, utf8_size, white,
};
use vstd::prelude::*;
use vstd::string::*;

verus! {

proof fn lemma_place_within(s: Seq<char>, c: char)
    ensures
        first_place(s, c) matches Some(i) ==> 0 <= i < s.len(),
    decreases s.len(),
{
    if s.len() > 0 && s[0] != c {
        lemma_place_within(s.skip(1), c);
    }
}

/// Decoding goes by what stands ahead alone.
proof fn lemma_decoded_behind(p: Seq<char>, b: Seq<char>, k: int, before: Seq<char>, out: Seq<char>)
    requires
        0 <= k,
    ensures
        decoded_from(p + b, p.len() + k, before + out) == before + decoded_from(b, k, out),
    decreases b.len() - k,
{
    let s = p + b;
    let at = p.len() + k;
    let all = before + out;
    assert(forall|c: char| #[trigger] all.push(c) =~= before + out.push(c));
    if k < b.len() {
        assert(s[at] == b[k]);
        if b[k] != '&' {
            lemma_decoded_behind(p, b, k + 1, before, out.push(b[k]));
        } else {
            assert(s.skip(at + 1) =~= b.skip(k + 1));
            lemma_place_within(b.skip(k + 1), ';');
            match first_place(b.skip(k + 1), ';') {
                Some(i) => {
                    assert(s.subrange(at, at + 1 + i) =~= b.subrange(k, k + 1 + i));
                },
                None => {},
            }
            match entity_end(b, k) {
                None => {
                    lemma_decoded_behind(p, b, k + 1, before, out.push('&'));
                },
                Some(e) => {
                    if k < e < b.len() {
                        assert(s.subrange(at + 1, p.len() + e) =~= b.subrange(k + 1, e));
                        assert(s.subrange(at, p.len() + e + 1) =~= b.subrange(k, e + 1));
                        match entity_char(b.subrange(k + 1, e)) {
                            Some(c) => {
                                lemma_decoded_behind(p, b, e + 1, before, out.push(c));
                            },
                            None => {
                                let raw = b.subrange(k, e + 1);
                                assert(all + raw =~= before + (out + raw));
                                lemma_decoded_behind(p, b, e + 1, before, out + raw);
                            },
                        }
                    }
                },
            }
        }
    }
}

/// A character other than an ampersand stands for itself.
proof fn lemma_decoded_one(c: char, rest: Seq<char>)
    requires
        c != '&',
    ensures
        decoded(seq![c] + rest) == seq![c] + decoded(rest),
{
    let none = Seq::<char>::empty();
    assert(none.push(c) =~= seq![c]);
    assert(seq![c] + none =~= seq![c]);
    lemma_decoded_behind(seq![c], rest, 0, seq![c], none);
}

/// Text stands for itself up to its first ampersand.
pub proof fn law_text_without_entities_stays(text: Seq<char>, rest: Seq<char>)
    requires
        without(text, '&'),
    ensures
        decoded(text + rest) == text + decoded(rest),
    decreases text.len(),
{
    if text.len() == 0 {
        assert(text + rest =~= rest);
        assert(text + decoded(rest) =~= decoded(rest));
    } else {
        let c = text[0];
        let tail = text.skip(1);
        assert(forall|i: int| 0 <= i < tail.len() ==> tail[i] == text[i + 1]);
        law_text_without_entities_stays(tail, rest);
        assert(text + rest =~= seq![c] + (tail + rest));
        lemma_decoded_one(c, tail + rest);
        assert(seq![c] + (tail + decoded(rest)) =~= text + decoded(rest));
    }
}

proof fn lemma_ascii_size(s: Seq<char>)
    requires
        forall|i: int| 0 <= i < s.len() ==> (#[trigger] s[i] as u32) < 0x80,
    ensures
        utf8_size(s) == s.len(),
    decreases s.len(),
{
    if s.len() > 0 {
        let most = s.drop_last();
        assert(forall|i: int| 0 <= i < most.len() ==> most[i] == s[i]);
        lemma_ascii_size(most);
        assert(s.last() == s[s.len() - 1]);
    }
}

proof fn lemma_entity(body: Seq<char>, c: char, rest: Seq<char>)
    requires
        entity_char(body) == Some(c),
        without(body, ';'),
        body.len() < 39,
        forall|i: int| 0 <= i < body.len() ==> (#[trigger] body[i] as u32) < 0x80,
    ensures
        decoded(seq!['&'] + body + seq![';'] + rest) == seq![c] + decoded(rest),
{
    let m = seq!['&'] + body + seq![';'];
    let s = m + rest;
    let none = Seq::<char>::empty();
    let n = body.len() as int;
    assert forall|k: int| 0 <= k < n implies s.skip(1)[k] != ';' by {
        assert(s.skip(1)[k] == body[k]);
    }
    assert(s.skip(1)[n] == ';');
    lemma_first_place(s.skip(1), ';', n);
    let read = s.subrange(0, n + 1);
    assert forall|i: int| 0 <= i < read.len() implies (#[trigger] read[i] as u32) < 0x80 by {
        if i > 0 {
            assert(read[i] == body[i - 1]);
        }
    }
    lemma_ascii_size(read);
    assert(s.subrange(1, n + 1) =~= body);
    assert(none.push(c) =~= seq![c]);
    assert(s[0] == '&');
    assert(entity_end(s, 0) == Some(n + 1));
    assert(decoded(s) == decoded_from(s, n + 2, seq![c]));
    assert(seq![c] + none =~= seq![c]);
    lemma_decoded_behind(m, rest, 0, seq![c], none);
}

/// What the named entities stand for.
pub open spec fn named_entity(name: Seq<char>, c: char) -> bool {
    ||| name == "amp"@ && c == '&'
    ||| name == "lt"@ && c == '<'
    ||| name == "gt"@ && c == '>'
    ||| name == "quot"@ && c == '"'
    ||| name == "apos"@ && c == '\''
    ||| name == "nbsp"@ && c == ' '
}

proof fn lemma_names()
    ensures
        forall|name: Seq<char>, c: char| #[trigger]
            named_entity(name, c) ==> entity_char(name) == Some(c) && 0 < name.len() < 10
                && without(name, ';') && forall|i: int|
                0 <= i < name.len() ==> (#[trigger] name[i] as u32) < 0x80,
{
    reveal_strlit("amp");
    reveal_strlit("lt");
    reveal_strlit("gt");
    reveal_strlit("quot");
    reveal_strlit("apos");
    reveal_strlit("nbsp");
    assert forall|name: Seq<char>, c: char| #[trigger] named_entity(name, c) implies entity_char(
        name,
    ) == Some(c) && 0 < name.len() < 10 && without(name, ';') && forall|i: int|
        0 <= i < name.len() ==> (#[trigger] name[i] as u32) < 0x80 by {
        assert("amp"@[0] == 'a' && "lt"@[0] == 'l' && "gt"@[0] == 'g' && "quot"@[0] == 'q'
            && "apos"@[0] == 'a' && "nbsp"@[0] == 'n');
    }
}

/// A named entity stands for its character, wherever it stands.
pub proof fn law_named_entities(text: Seq<char>, name: Seq<char>, c: char, rest: Seq<char>)
    requires
        without(text, '&'),
        named_entity(name, c),
    ensures
        decoded(text + (seq!['&'] + name + seq![';'] + rest)) == text + seq![c] + decoded(rest),
{
    lemma_names();
    lemma_entity(name, c, rest);
    law_text_without_entities_stays(text, seq!['&'] + name + seq![';'] + rest);
    assert(text + (seq![c] + decoded(rest)) =~= text + seq![c] + decoded(rest));
}

/// A numeric entity stands for the character whose code point it writes, in
/// decimal or in hexadecimal digits.
pub proof fn law_numeric_entities(
    text: Seq<char>,
    hexadecimal: bool,
    digits: Seq<char>,
    c: char,
    rest: Seq<char>,
)
    requires
        without(text, '&'),
        0 < digits.len() < 30,
        digits_value(
            digits,
            if hexadecimal {
                16
            } else {
                10
            },
        ) == Some(c as u32 as nat),
        forall|i: int|
            0 <= i < digits.len() ==> digit(#[trigger] digits[i]) || hexadecimal && letter(
                digits[i],
            ),
    ensures
        decoded(
            text + (seq!['&'] + (if hexadecimal {
                seq!['#', 'x']
            } else {
                seq!['#']
            } + digits) + seq![';'] + rest),
        ) == text + seq![c] + decoded(rest),
{
    let mark = if hexadecimal {
        seq!['#', 'x']
    } else {
        seq!['#']
    };
    let body = mark + digits;
    assert(body.skip(mark.len() as int) =~= digits);
    assert(digits[0] != '+');
    assert forall|i: int| 0 <= i < body.len() implies (#[trigger] body[i] as u32) < 0x80
        && body[i] != ';' by {
        if i >= mark.len() {
            assert(body[i] == digits[i - mark.len()]);
        }
    }
    assert(body[0] == '#');
    reveal_strlit("amp");
    reveal_strlit("lt");
    reveal_strlit("gt");
    reveal_strlit("quot");
    reveal_strlit("apos");
    reveal_strlit("nbsp");
    assert("amp"@[0] == 'a' && "lt"@[0] == 'l' && "gt"@[0] == 'g' && "quot"@[0] == 'q'
        && "apos"@[0] == 'a' && "nbsp"@[0] == 'n');
    if hexadecimal {
        assert(body[1] == 'x');
    } else {
        assert(body[1] == digits[0]);
    }
    assert(entity_code(body) == Some(c as u32 as nat));
    assert(scalar(c as int));
    assert(entity_char(body) == Some(c));
    lemma_entity(body, c, rest);
    law_text_without_entities_stays(text, seq!['&'] + body + seq![';'] + rest);
    assert(text + (seq![c] + decoded(rest)) =~= text + seq![c] + decoded(rest));
}

/// A character as an export writes it.
pub open spec fn escaped_char(c: char) -> Seq<char> {
    if c == '&' {
        seq!['&'] + "amp"@ + seq![';']
    } else if c == '<' {
        seq!['&'] + "lt"@ + seq![';']
    } else if c == '>' {
        seq!['&'] + "gt"@ + seq![';']
    } else if c == '"' {
        seq!['&'] + "quot"@ + seq![';']
    } else {
        seq![c]
    }
}

/// A text as an export writes it.
pub open spec fn escaped(s: Seq<char>) -> Seq<char>
    decreases s.len(),
{
    if s.len() == 0 {
        Seq::empty()
    } else {
        escaped_char(s[0]) + escaped(s.skip(1))
    }
}

/// A text that was escaped reads back as it was.
pub proof fn law_escaped_text_reads_back(s: Seq<char>)
    ensures
        decoded(escaped(s)) == s,
    decreases s.len(),
{
    if s.len() == 0 {
        assert(s =~= Seq::empty());
    } else {
        let c = s[0];
        let rest = escaped(s.skip(1));
        law_escaped_text_reads_back(s.skip(1));
        lemma_names();
        if c == '&' {
            assert(named_entity("amp"@, c));
            lemma_entity("amp"@, c, rest);
        } else if c == '<' {
            assert(named_entity("lt"@, c));
            lemma_entity("lt"@, c, rest);
        } else if c == '>' {
            assert(named_entity("gt"@, c));
            lemma_entity("gt"@, c, rest);
        } else if c == '"' {
            assert(named_entity("quot"@, c));
            lemma_entity("quot"@, c, rest);
        } else {
            lemma_decoded_one(c, rest);
        }
        assert(seq![c] + s.skip(1) =~= s);
    }
}

/// A tag, and the text before it.
pub struct Piece {
    pub text: Seq<char>,
    pub closing: bool,
    pub name: Seq<char>,
}

/// A start tag with no text before it.
pub open spec fn start(name: Seq<char>) -> Piece {
    Piece { text: Seq::empty(), closing: false, name }
}

/// An end tag with this text before it.
pub open spec fn stop(text: Seq<char>, name: Seq<char>) -> Piece {
    Piece { text, closing: true, name }
}

/// A piece as it is written.
pub open spec fn piece_written(piece: Piece) -> Seq<char> {
    piece.text + (seq!['<'] + tag_written(piece.closing, piece.name) + seq!['>'])
}

/// Pieces as they are written, one behind the other.
pub open spec fn pieces_written(pieces: Seq<Piece>) -> Seq<char>
    decreases pieces.len(),
{
    if pieces.len() == 0 {
        Seq::empty()
    } else {
        piece_written(pieces[0]) + pieces_written(pieces.skip(1))
    }
}

/// What is known and prepared behind a piece.
spec fn behind_piece(x: XmlState, p: Prepared, source: Seq<char>, line: u64, piece: Piece) -> (
    XmlState,
    Prepared,
) {
    let (y, q) = with_xml_text(x, p, source, piece.text);
    if piece.closing {
        with_end_tag(y, q, source, line, lowered(piece.name))
    } else {
        (with_start_tag(y, lowered(piece.name), false), q)
    }
}

spec fn behind_pieces(x: XmlState, p: Prepared, source: Seq<char>, line: u64, pieces: Seq<Piece>) -> (
    XmlState,
    Prepared,
)
    decreases pieces.len(),
{
    if pieces.len() == 0 {
        (x, p)
    } else {
        let (y, q) = behind_piece(x, p, source, line, pieces[0]);
        behind_pieces(y, q, source, line, pieces.skip(1))
    }
}

#[verifier::spinoff_prover]
proof fn lemma_piece(
    x: XmlState,
    p: Prepared,
    source: Seq<char>,
    line: u64,
    before: Seq<char>,
    piece: Piece,
    rest: Seq<char>,
)
    requires
        without(piece.text, '<'),
        tag_name(piece.name),
    ensures
        ({
            let (y, q) = behind_piece(x, p, source, line, piece);
            let next = before + piece_written(piece);
            xml_from(x, p, source, line, next + rest, before.len() as int) == xml_from(
                y,
                q,
                source,
                line,
                next + rest,
                next.len() as int,
            )
        }),
{
    let inner = tag_written(piece.closing, piece.name);
    let s = before + piece_written(piece) + rest;
    let at = before.len() as int;
    let n = piece.text.len() as int;
    let t = at + n;
    let e = t + 1 + inner.len();
    assert forall|k: int| 0 <= k < n implies s.skip(at)[k] != '<' by {
        assert(s.skip(at)[k] == piece.text[k]);
    }
    assert(s.skip(at)[n] == '<');
    lemma_first_place(s.skip(at), '<', n);
    assert(s.subrange(at, t) =~= piece.text);
    reveal_strlit("<!--");
    reveal_strlit("<![CDATA[");
    reveal_strlit("<?");
    assert(s[t + 1] == inner[0]);
    if !piece.closing {
        assert(letter(piece.name[0]) || digit(piece.name[0]));
    }
    assert(inner[0] != '!' && inner[0] != '?');
    assert("<!--"@[1] == '!' && "<![CDATA["@[1] == '!' && "<?"@[1] == '?');
    if t + 4 <= s.len() {
        assert(s.subrange(t, t + 4)[1] == s[t + 1]);
    }
    if t + 9 <= s.len() {
        assert(s.subrange(t, t + 9)[1] == s[t + 1]);
    }
    if t + 2 <= s.len() {
        assert(s.subrange(t, t + 2)[1] == s[t + 1]);
    }
    assert forall|i: int| t + 1 <= i < e implies (#[trigger] s[i]) != '>' && s[i] != '"' && s[i]
        != '\'' by {
        assert(s[i] == inner[i - t - 1]);
        if piece.closing {
            if i > t + 1 {
                assert(inner[i - t - 1] == piece.name[i - t - 2]);
            }
        } else {
            assert(inner[i - t - 1] == piece.name[i - t - 1]);
        }
    }
    assert(s[e] == '>');
    lemma_tag_ends(s, t + 1, e);
    assert(s.subrange(t + 1, e) =~= inner);
    lemma_plain_tag(piece.closing, piece.name);
    let low = lowered(piece.name);
    assert(low.len() == piece.name.len());
    assert(letter(piece.name[0]) || digit(piece.name[0]));
    assert(low[0] != '!');
    assert(e + 1 == (before + piece_written(piece)).len());
}

proof fn lemma_pieces_read(
    x: XmlState,
    p: Prepared,
    source: Seq<char>,
    line: u64,
    before: Seq<char>,
    pieces: Seq<Piece>,
)
    requires
        forall|i: int|
            0 <= i < pieces.len() ==> without((#[trigger] pieces[i]).text, '<') && tag_name(
                pieces[i].name,
            ),
    ensures
        ({
            let (y, q) = behind_pieces(x, p, source, line, pieces);
            let s = before + pieces_written(pieces);
            xml_from(x, p, source, line, s, before.len() as int) == (y, q, s.len() as int)
        }),
    decreases pieces.len(),
{
    let s = before + pieces_written(pieces);
    if pieces.len() > 0 {
        let rest = pieces.skip(1);
        assert(pieces[0] == pieces[0]);
        lemma_piece(x, p, source, line, before, pieces[0], pieces_written(rest));
        let next = before + piece_written(pieces[0]);
        assert(next + pieces_written(rest) =~= s);
        let (y, q) = behind_piece(x, p, source, line, pieces[0]);
        assert forall|i: int| 0 <= i < rest.len() implies without((#[trigger] rest[i]).text, '<')
            && tag_name(rest[i].name) by {
            assert(rest[i] == pieces[i + 1]);
        }
        lemma_pieces_read(y, q, source, line, next, rest);
    } else {
        assert(s =~= before);
    }
}

/// A page of an export: its title, its namespace, whether it only leads elsewhere, and
/// its text.
pub open spec fn page_pieces(
    title: Seq<char>,
    namespace: Seq<char>,
    redirect: bool,
    text: Seq<char>,
) -> Seq<Piece> {
    seq![
        start("page"@),
        start("title"@),
        stop(title, "title"@),
        start("ns"@),
        stop(namespace, "ns"@),
    ] + (if redirect {
        seq![start("redirect"@)]
    } else {
        Seq::empty()
    }) + seq![start("text"@), stop(text, "text"@), stop(Seq::empty(), "page"@)]
}

/// A page as it is written.
pub open spec fn page_written(
    title: Seq<char>,
    namespace: Seq<char>,
    redirect: bool,
    text: Seq<char>,
) -> Seq<char> {
    pieces_written(page_pieces(title, namespace, redirect, text))
}

proof fn lemma_step(
    x: XmlState,
    p: Prepared,
    source: Seq<char>,
    line: u64,
    pieces: Seq<Piece>,
    piece: Piece,
    rest: Seq<Piece>,
)
    requires
        pieces == seq![piece] + rest,
    ensures
        ({
            let (y, q) = behind_piece(x, p, source, line, piece);
            behind_pieces(x, p, source, line, pieces) == behind_pieces(y, q, source, line, rest)
        }),
{
    assert(pieces[0] == piece);
    assert(pieces.skip(1) =~= rest);
}

proof fn lemma_lower_stays(name: Seq<char>)
    requires
        forall|i: int| 0 <= i < name.len() ==> 'a' <= (#[trigger] name[i]) <= 'z',
    ensures
        lowered(name) == name,
        name.len() > 0 ==> tag_name(name),
{
    assert(lowered(name) =~= name);
}

proof fn lemma_page_names()
    ensures
        lowered("page"@) == "page"@,
        lowered("title"@) == "title"@,
        lowered("ns"@) == "ns"@,
        lowered("redirect"@) == "redirect"@,
        lowered("text"@) == "text"@,
        tag_name("page"@),
        tag_name("title"@),
        tag_name("ns"@),
        tag_name("redirect"@),
        tag_name("text"@),
        "page"@.len() == 4,
        "title"@.len() == 5,
        "ns"@.len() == 2,
        "redirect"@.len() == 8,
        "text"@.len() == 4,
        "page"@[0] == 'p',
        "text"@[0] == 't',
{
    reveal_strlit("page");
    reveal_strlit("title");
    reveal_strlit("ns");
    reveal_strlit("redirect");
    reveal_strlit("text");
    lemma_lower_stays("page"@);
    lemma_lower_stays("title"@);
    lemma_lower_stays("ns"@);
    lemma_lower_stays("redirect"@);
    lemma_lower_stays("text"@);
}

/// What is known behind the title and the namespace of a page.
spec fn page_head(title: Seq<char>, namespace: Seq<char>) -> XmlState {
    XmlState {
        in_page: true,
        title,
        namespace_text: namespace,
        namespace: namespace_of(namespace),
        ..xml_start()
    }
}

/// The last pieces of a page.
spec fn page_tail(redirect: bool, text: Seq<char>) -> Seq<Piece> {
    (if redirect {
        seq![start("redirect"@)]
    } else {
        Seq::empty()
    }) + seq![start("text"@), stop(text, "text"@), stop(Seq::empty(), "page"@)]
}

#[verifier::spinoff_prover]
#[verifier::rlimit(40)]
proof fn lemma_page_head(
    p: Prepared,
    source: Seq<char>,
    line: u64,
    title: Seq<char>,
    namespace: Seq<char>,
    redirect: bool,
    text: Seq<char>,
) -> (q: Prepared)
    requires
        title.len() > 0,
        namespace.len() > 0,
    ensures
        q.records == p.records,
        namespace_of(namespace) is Some ==> q == p,
        behind_pieces(
            xml_start(),
            p,
            source,
            line,
            page_pieces(title, namespace, redirect, text),
        ) == behind_pieces(
            page_head(decoded(title), namespace),
            q,
            source,
            line,
            page_tail(redirect, text),
        ),
{
    lemma_page_names();
    let none = Seq::<char>::empty();
    let p5 = page_tail(redirect, text);
    let p4 = seq![stop(namespace, "ns"@)] + p5;
    let p3 = seq![start("ns"@)] + p4;
    let p2 = seq![stop(title, "title"@)] + p3;
    let p1 = seq![start("title"@)] + p2;
    let p0 = seq![start("page"@)] + p1;
    assert(p0 =~= page_pieces(title, namespace, redirect, text));
    let x0 = xml_start();
    let x1 = XmlState { in_page: true, ..x0 };
    let x2 = XmlState { active: Some(XmlField::Title), ..x1 };
    let x3 = XmlState { title: decoded(title), ..x1 };
    let x4 = XmlState { active: Some(XmlField::Namespace), ..x3 };
    assert(none + decoded(title) =~= decoded(title));
    assert(none + namespace =~= namespace);
    lemma_step(x0, p, source, line, p0, start("page"@), p1);
    assert(behind_piece(x0, p, source, line, start("page"@)) == (x1, p));
    lemma_step(x1, p, source, line, p1, start("title"@), p2);
    assert(behind_piece(x1, p, source, line, start("title"@)) == (x2, p));
    lemma_step(x2, p, source, line, p2, stop(title, "title"@), p3);
    assert(behind_piece(x2, p, source, line, stop(title, "title"@)) == (x3, p));
    lemma_step(x3, p, source, line, p3, start("ns"@), p4);
    assert(behind_piece(x3, p, source, line, start("ns"@)) == (x4, p));
    lemma_step(x4, p, source, line, p4, stop(namespace, "ns"@), p5);
    let (x5, q) = behind_piece(x4, p, source, line, stop(namespace, "ns"@));
    assert(x5 == page_head(decoded(title), namespace));
    q
}

/// What the pieces of a page add.
#[verifier::spinoff_prover]
#[verifier::rlimit(60)]
proof fn lemma_page_read(
    p: Prepared,
    source: Seq<char>,
    line: u64,
    title: Seq<char>,
    namespace: Seq<char>,
    redirect: bool,
    text: Seq<char>,
)
    requires
        title.len() > 0,
        namespace.len() > 0,
        text.len() > 0,
        trimmed(decoded(title)).len() > 0,
        trimmed(wiki_feed(wiki_start(), decoded(text)).1).len() > 0,
    ensures
        ({
            let (y, q) = behind_pieces(
                xml_start(),
                p,
                source,
                line,
                page_pieces(title, namespace, redirect, text),
            );
            &&& y == xml_start()
            &&& q.records == if namespace_of(namespace) == Some(0i32) && !redirect {
                p.records + records_in(seq![decoded(title)], 10) + records_in(
                    seq![wiki_feed(wiki_start(), decoded(text)).1],
                    1,
                )
            } else {
                p.records
            }
        }),
{
    lemma_page_names();
    let none = Seq::<char>::empty();
    let q0 = lemma_page_head(p, source, line, title, namespace, redirect, text);
    let t5 = page_tail(redirect, text);
    let t3: Seq<Piece> = seq![stop(none, "page"@)] + Seq::<Piece>::empty();
    let t2 = seq![stop(text, "text"@)] + t3;
    let t1 = seq![start("text"@)] + t2;
    let x5 = page_head(decoded(title), namespace);
    let x6 = XmlState { redirect, ..x5 };
    if redirect {
        let t4 = seq![start("redirect"@)] + t1;
        assert(t4 =~= t5);
        lemma_step(x5, q0, source, line, t4, start("redirect"@), t1);
        assert(behind_piece(x5, q0, source, line, start("redirect"@)) == (x6, q0));
    } else {
        assert(t1 =~= t5);
        assert(x5 == x6);
    }
    let x7 = XmlState { active: Some(XmlField::Text), ..x6 };
    lemma_step(x6, q0, source, line, t1, start("text"@), t2);
    assert(behind_piece(x6, q0, source, line, start("text"@)) == (x7, q0));
    lemma_step(x7, q0, source, line, t2, stop(text, "text"@), t3);
    let (x8, q1) = behind_piece(x7, q0, source, line, stop(text, "text"@));
    lemma_step(x8, q1, source, line, t3, stop(none, "page"@), Seq::empty());
    let (x9, q2) = behind_piece(x8, q1, source, line, stop(none, "page"@));
    assert(behind_pieces(x9, q2, source, line, Seq::empty()) == (x9, q2));
    if namespace_of(namespace) == Some(0i32) && !redirect {
        let shown = wiki_feed(wiki_start(), decoded(text)).1;
        lemma_records_of_field(q0, decoded(title), 10);
        let q = with_field(q0, decoded(title), 10, false);
        lemma_records_of_field(q, shown, 1);
        assert(with_page_title(x7, q0) == (XmlState { title_emitted: true, ..x7 }, q));
        assert(x8.title_emitted);
    }
}

/// Digits that are not all zero write no zero.
proof fn lemma_not_zero(s: Seq<char>, i: int)
    requires
        0 <= i < s.len(),
        s[i] != '0',
    ensures
        digits_value(s, 10) != Some(0nat),
    decreases s.len(),
{
    if i < s.len() - 1 {
        assert(s.drop_last()[i] == s[i]);
        lemma_not_zero(s.drop_last(), i);
    }
}

/// The namespace of articles.
pub open spec fn of_articles(namespace: Seq<char>) -> bool {
    namespace == "0"@
}

/// Another namespace: a number that is not zero.
pub open spec fn of_others(namespace: Seq<char>) -> bool {
    &&& namespace.len() > 0
    &&& forall|i: int| 0 <= i < namespace.len() ==> digit(#[trigger] namespace[i])
    &&& exists|i: int| 0 <= i < namespace.len() && (#[trigger] namespace[i]) != '0'
}

proof fn lemma_namespace(namespace: Seq<char>)
    ensures
        of_articles(namespace) ==> namespace_of(namespace) == Some(0i32) && namespace.len() == 1
            && without(namespace, '<'),
        of_others(namespace) ==> namespace_of(namespace) != Some(0i32) && without(namespace, '<'),
{
    reveal_strlit("0");
    if of_articles(namespace) {
        assert(namespace =~= seq!['0']);
        assert(!white('0'));
        assert(trimmed_start(namespace) == namespace);
        assert(trimmed_end(namespace) == namespace);
        assert(namespace.drop_last() =~= Seq::empty());
        assert(digits_value(namespace.drop_last(), 10) == Some(0nat));
        assert(digits_value(namespace, 10) == Some(0nat));
        assert(unsigned_value(namespace, 10) == Some(0nat));
    }
    if of_others(namespace) {
        let last = namespace.len() - 1;
        assert(digit(namespace[0]) && digit(namespace[last]));
        assert(trimmed_start(namespace) == namespace);
        assert(trimmed_end(namespace) == namespace);
        let i = choose|i: int| 0 <= i < namespace.len() && (#[trigger] namespace[i]) != '0';
        lemma_not_zero(namespace, i);
        assert(unsigned_value(namespace, 10) == digits_value(namespace, 10));
    }
}

/// Of an article, the title is taken with weight 10 and what is shown of the text with
/// weight 1, each with its entities replaced. Of a page outside the articles, or one
/// that only leads elsewhere, nothing is taken. Behind the page nothing is under way.
pub proof fn law_pages_give_their_title_and_text(
    p: Prepared,
    source: Seq<char>,
    line: u64,
    title: Seq<char>,
    namespace: Seq<char>,
    redirect: bool,
    text: Seq<char>,
)
    requires
        without(title, '<'),
        without(text, '<'),
        of_articles(namespace) || of_others(namespace),
        title.len() > 0,
        text.len() > 0,
        trimmed(decoded(title)).len() > 0,
        trimmed(wiki_feed(wiki_start(), decoded(text)).1).len() > 0,
    ensures
        ({
            let (y, q) = xml_feed(
                xml_start(),
                p,
                source,
                line,
                page_written(title, namespace, redirect, text),
            );
            &&& y == xml_start()
            &&& q.records == if of_articles(namespace) && !redirect {
                p.records + records_in(seq![decoded(title)], 10) + records_in(
                    seq![wiki_feed(wiki_start(), decoded(text)).1],
                    1,
                )
            } else {
                p.records
            }
        }),
{
    lemma_namespace(namespace);
    lemma_page_names();
    let pieces = page_pieces(title, namespace, redirect, text);
    let none = Seq::<char>::empty();
    assert forall|i: int| 0 <= i < pieces.len() implies without((#[trigger] pieces[i]).text, '<')
        && tag_name(pieces[i].name) by {}
    lemma_page_read(p, source, line, title, namespace, redirect, text);
    lemma_pieces_read(xml_start(), p, source, line, none, pieces);
    let s = page_written(title, namespace, redirect, text);
    assert(none + s =~= s);
    assert(xml_start().pending + s =~= s);
    reveal_strlit("0");
    if of_others(namespace) {
        let i = choose|i: int| 0 <= i < namespace.len() && (#[trigger] namespace[i]) != '0';
        assert(!of_articles(namespace)) by {
            if of_articles(namespace) {
                assert("0"@[0] == '0');
            }
        }
    }
}

} // verus!
