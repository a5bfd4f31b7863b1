//! What holds of what is written.
use crate::corpus::json::{
    blanks, four_digits, json_escape, json_fields, json_string, json_text, json_value, Json,
};
use crate::text::{digits_value, hex_char, lemma_code_point, lemma_utf8_size_prefix};
use crate::web::output::{error_json, json_char, json_chars, json_quoted};
use crate::web::url::{hex_byte, url_bytes, url_decoded};
use vstd::prelude::*;
use vstd::string::*;
use vstd::utf8::encode_utf8;

verus! {

proof fn lemma_four_digits(s: Seq<char>, at: int, x: nat)
    requires
        0 <= at,
        at + 4 <= s.len(),
        x < 0x20,
        s[at] == '0' && s[at + 1] == '0' && s[at + 2] == hex_char(x as int / 16) && s[at + 3]
            == hex_char(x as int % 16),
    ensures
        four_digits(s, at) == Ok::<nat, Seq<char>>(x),
{
    let rest = s.skip(at);
    lemma_utf8_size_prefix(rest, 0);
    let d = s.subrange(at, at + 4);
    let d3 = d.drop_last();
    let d2 = d3.drop_last();
    let d1 = d2.drop_last();
    assert(d1.drop_last() =~= Seq::empty());
    assert(d1.last() == '0' && d2.last() == '0');
    assert(d3.last() == hex_char(x as int / 16));
    assert(d.last() == hex_char(x as int % 16));
    assert(digits_value(d1.drop_last(), 16) == Some(0nat));
    assert(digits_value(d1, 16) == Some(0nat));
    assert(digits_value(d2, 16) == Some(0nat));
    assert(digits_value(d3, 16) == Some((x / 16) as nat));
    assert((x / 16) * 16 + x % 16 == x);
}

/// What is written for a character in a text is read as that character.
proof fn lemma_char_read_back(s: Seq<char>, at: int, c: char, known: Seq<char>)
    requires
        0 <= at,
        at + json_char(c).len() <= s.len(),
        forall|i: int| 0 <= i < json_char(c).len() ==> s[at + i] == #[trigger] json_char(c)[i],
    ensures
        json_string(s, at, known) == json_string(s, at + json_char(c).len(), known.push(c)),
{
    let e = json_char(c);
    lemma_code_point(c);
    assert(s[at + 0] == e[0]);
    if e.len() == 2 {
        assert(s[at + 1] == e[1]);
    } else if e.len() == 6 {
        assert(s[at + 1] == e[1]);
        assert(s[at + 2] == e[2]);
        assert(s[at + 3] == e[3]);
        assert(s[at + 4] == e[4]);
        assert(s[at + 5] == e[5]);
        lemma_four_digits(s, at + 2, c as nat);
        assert(json_escape(s, at + 1) == Ok::<(char, int), (int, Seq<char>)>((c, at + 6)));
    }
}

proof fn lemma_chars_prefix(t: Seq<char>, n: int)
    requires
        0 <= n <= t.len(),
    ensures
        json_chars(t.take(n)).len() <= json_chars(t).len(),
        json_chars(t).take(json_chars(t.take(n)).len() as int) == json_chars(t.take(n)),
    decreases t.len(),
{
    if n == t.len() {
        assert(t.take(n) =~= t);
        assert(json_chars(t).take(json_chars(t).len() as int) =~= json_chars(t));
    } else {
        lemma_chars_prefix(t.drop_last(), n);
        assert(t.drop_last().take(n) =~= t.take(n));
        let m = json_chars(t.take(n)).len() as int;
        assert(json_chars(t).take(m) =~= json_chars(t.drop_last()).take(m));
    }
}

/// A text as JSON writes it stands at a place.
pub open spec fn quoted_at(s: Seq<char>, at: int, t: Seq<char>) -> bool {
    &&& 0 <= at
    &&& at + json_quoted(t).len() <= s.len()
    &&& forall|i: int| 0 <= i < json_quoted(t).len() ==> s[at + i] == #[trigger] json_quoted(t)[i]
}

proof fn lemma_chars_read_back(s: Seq<char>, at: int, t: Seq<char>, n: nat)
    requires
        quoted_at(s, at, t),
        n <= t.len(),
    ensures
        json_string(s, at + 1, Seq::empty()) == json_string(
            s,
            at + 1 + json_chars(t.take(n as int)).len() as int,
            t.take(n as int),
        ),
        json_chars(t.take(n as int)).len() <= json_chars(t).len(),
    decreases n,
{
    lemma_chars_prefix(t, n as int);
    if n == 0 {
        assert(t.take(0) =~= Seq::empty());
    } else {
        lemma_chars_read_back(s, at, t, (n - 1) as nat);
        let part = t.take(n - 1);
        let more = t.take(n as int);
        let c = t[n - 1];
        assert(more.drop_last() =~= part);
        assert(part.push(c) =~= more);
        let here = at + 1 + json_chars(part).len() as int;
        let e = json_char(c);
        assert(json_chars(more) == json_chars(part) + e);
        assert forall|i: int| 0 <= i < e.len() implies s[here + i] == #[trigger] e[i] by {
            let k = json_chars(part).len() + i;
            assert(json_chars(more)[k] == e[i]);
            assert(json_chars(t).take(json_chars(more).len() as int)[k] == json_chars(t)[k]);
            assert(json_quoted(t)[k + 1] == json_chars(t)[k]);
        }
        lemma_char_read_back(s, here, c, part);
    }
}

/// What is written for a text is read as that text, wherever it stands.
pub proof fn lemma_string_read_back(s: Seq<char>, at: int, t: Seq<char>, depth: nat)
    requires
        quoted_at(s, at, t),
        depth <= 128,
    ensures
        json_string(s, at + 1, Seq::empty()) == Ok::<(Seq<char>, int), (int, Seq<char>)>(
            (t, at + json_quoted(t).len()),
        ),
        json_value(s, at, depth) == Ok::<(Json, int), (int, Seq<char>)>(
            (Json::Text(t), at + json_quoted(t).len()),
        ),
{
    let n = json_quoted(t).len() as int;
    lemma_chars_read_back(s, at, t, t.len());
    assert(t.take(t.len() as int) =~= t);
    assert(json_quoted(t)[n - 1] == '"');
    assert(s[at + (n - 1)] == '"');
    assert(n - 1 == 1 + json_chars(t).len());
    assert(json_quoted(t)[0] == '"');
    assert(s[at + 0] == '"');
    assert(blanks(s, at) == 0);
}

/// Whatever a text holds, reading back what is written for it gives the text.
pub proof fn law_json_string_reads_back(t: Seq<char>)
    ensures
        json_text(json_quoted(t)) == Ok::<Json, (int, Seq<char>)>(Json::Text(t)),
{
    let s = json_quoted(t);
    assert(s[0] == '"');
    assert(blanks(s, 0) == 0);
    lemma_string_read_back(s, 0, t, 0);
    assert(blanks(s, s.len() as int) == 0);
}

/// The message of an error can be read back from what is answered: it is the
/// one field of the object.
pub proof fn law_error_answer_reads_back(message: Seq<char>)
    ensures
        json_text(error_json(message)) == Ok::<Json, (int, Seq<char>)>(
            Json::Fields(seq![("error"@, Json::Text(message))]),
        ),
{
    reveal_strlit("{\"error\":");
    reveal_strlit("error");
    reveal_strlit("}");
    let s = error_json(message);
    let name = "error"@;
    let q = json_quoted(message);
    assert(s.len() == 9 + q.len() + 1);
    assert(s[0] == '{');
    assert(s[8] == ':');
    assert(s[9 + q.len() as int] == '}');
    assert(json_quoted(name) =~= seq!['"', 'e', 'r', 'r', 'o', 'r', '"']) by {
        reveal_with_fuel(json_chars, 6);
        assert(name.drop_last() =~= seq!['e', 'r', 'r', 'o']);
        assert(name.drop_last().drop_last() =~= seq!['e', 'r', 'r']);
        assert(name.drop_last().drop_last().drop_last() =~= seq!['e', 'r']);
        assert(name.drop_last().drop_last().drop_last().drop_last() =~= seq!['e']);
        assert(name.drop_last().drop_last().drop_last().drop_last().drop_last() =~= seq![]);
    }
    assert(quoted_at(s, 1, name));
    assert(quoted_at(s, 9, message)) by {
        assert forall|i: int| 0 <= i < q.len() implies s[9 + i] == #[trigger] q[i] by {}
    }
    lemma_string_read_back(s, 1, name, 1);
    lemma_string_read_back(s, 9, message, 1);
    let end = 9 + q.len() as int;
    assert(blanks(s, 0) == 0);
    assert(s[1] == '"');
    assert(blanks(s, 1) == 0);
    assert(blanks(s, 8) == 0);
    assert(blanks(s, end) == 0);
    assert(blanks(s, end + 1) == 0);
    let field = (name, Json::Text(message));
    assert(Seq::<(Seq<char>, Json)>::empty().push(field) =~= seq![field]);
    assert(json_fields(s, 1, 1, Seq::empty()) == Ok::<(Json, int), (int, Seq<char>)>(
        (Json::Fields(seq![field]), end + 1),
    ));
    assert(json_value(s, 0, 0) == Ok::<(Json, int), (int, Seq<char>)>(
        (Json::Fields(seq![field]), end + 1),
    ));
}

/// The bytes of a text without plus signs and percent signs stand for
/// themselves.
proof fn lemma_plain_bytes(s: Seq<u8>, at: int)
    requires
        0 <= at <= s.len(),
        forall|i: int| 0 <= i < s.len() ==> s[i] != 43 && s[i] != 37,
    ensures
        url_bytes(s, at, s.take(at)) == Ok::<Seq<u8>, Seq<char>>(s),
    decreases s.len() - at,
{
    if at < s.len() {
        lemma_plain_bytes(s, at + 1);
        assert(s.take(at).push(s[at]) =~= s.take(at + 1));
    } else {
        assert(s.take(at) =~= s);
    }
}

/// A part of a URL without plus signs and escapes stands for itself.
pub proof fn law_plain_url_stands_for_itself(s: Seq<char>)
    requires
        forall|i: int|
            0 <= i < encode_utf8(s).len() ==> encode_utf8(s)[i] != 43 && encode_utf8(s)[i] != 37,
    ensures
        url_decoded(s) == Ok::<Seq<char>, Seq<char>>(s),
{
    broadcast use {vstd::utf8::encode_utf8_valid_utf8, vstd::utf8::encode_utf8_decode_utf8};

    let bytes = encode_utf8(s);
    lemma_plain_bytes(bytes, 0);
    assert(bytes.take(0) =~= Seq::empty());
}

/// A hexadecimal digit, in ASCII.
pub open spec fn hex_written(v: u8, upper: bool) -> u8 {
    if v < 10 {
        (48 + v) as u8
    } else if upper {
        (55 + v) as u8
    } else {
        (87 + v) as u8
    }
}

/// Bytes with each of them escaped: a percent sign and two hexadecimal digits, the
/// higher one first.
pub open spec fn bytes_escaped(bytes: Seq<u8>, upper: bool) -> Seq<u8>
    decreases bytes.len(),
{
    if bytes.len() == 0 {
        Seq::empty()
    } else {
        bytes_escaped(bytes.drop_last(), upper) + seq![
            37u8,
            hex_written((bytes.last() / 16) as u8, upper),
            hex_written((bytes.last() % 16) as u8, upper),
        ]
    }
}

proof fn lemma_url_joined(a: Seq<u8>, b: Seq<u8>, at: int, out: Seq<u8>)
    requires
        0 <= at <= a.len(),
        url_bytes(a, at, out) is Ok,
    ensures
        url_bytes(a + b, at, out) == url_bytes(a + b, a.len() as int, url_bytes(a, at, out)->Ok_0),
    decreases a.len() - at,
{
    if at < a.len() {
        assert((a + b)[at] == a[at]);
        if a[at] == 43 {
            lemma_url_joined(a, b, at + 1, out.push(32));
        } else if a[at] == 37 {
            assert((a + b)[at + 1] == a[at + 1] && (a + b)[at + 2] == a[at + 2]);
            match (hex_byte(a[at + 1]), hex_byte(a[at + 2])) {
                (Some(high), Some(low)) => {
                    lemma_url_joined(a, b, at + 3, out.push((high * 16 + low) as u8));
                },
                _ => {},
            }
        } else {
            lemma_url_joined(a, b, at + 1, out.push(a[at]));
        }
    }
}

/// Any bytes that are escaped in a URL read back as they were.
pub proof fn law_escaped_bytes_read_back(bytes: Seq<u8>, upper: bool)
    ensures
        url_bytes(bytes_escaped(bytes, upper), 0, Seq::empty()) == Ok::<Seq<u8>, Seq<char>>(bytes),
    decreases bytes.len(),
{
    if bytes.len() == 0 {
        assert(bytes =~= Seq::empty());
    } else {
        let most = bytes.drop_last();
        let a = bytes_escaped(most, upper);
        let x = bytes.last();
        let b = seq![37u8, hex_written((x / 16) as u8, upper), hex_written((x % 16) as u8, upper)];
        law_escaped_bytes_read_back(most, upper);
        lemma_url_joined(a, b, 0, Seq::empty());
        let n = a.len() as int;
        let s = a + b;
        assert(s[n] == b[0] && s[n + 1] == b[1] && s[n + 2] == b[2]);
        assert(hex_byte(b[1]) == Some((x / 16) as u8));
        assert(hex_byte(b[2]) == Some((x % 16) as u8));
        assert(most.push(x) =~= bytes);
        assert(url_bytes(s, n, most) == url_bytes(s, n + 3, bytes));
    }
}

/// In a URL a plus sign stands for a blank, and all else but escapes for itself.
pub proof fn law_plus_signs_stand_for_blanks(s: Seq<u8>)
    requires
        forall|i: int| 0 <= i < s.len() ==> (#[trigger] s[i]) != 37,
    ensures
        url_bytes(s, 0, Seq::empty()) == Ok::<Seq<u8>, Seq<char>>(
            s.map_values(
                |b: u8|
                    if b == 43 {
                        32u8
                    } else {
                        b
                    },
            ),
        ),
{
    assert(s.map_values(
        |b: u8|
            if b == 43 {
                32u8
            } else {
                b
            },
    ).take(0) =~= Seq::empty());
    lemma_plus_signs(s, 0);
}

proof fn lemma_plus_signs(s: Seq<u8>, at: int)
    requires
        0 <= at <= s.len(),
        forall|i: int| 0 <= i < s.len() ==> (#[trigger] s[i]) != 37,
    ensures
        ({
            let r = s.map_values(
                |b: u8|
                    if b == 43 {
                        32u8
                    } else {
                        b
                    },
            );
            url_bytes(s, at, r.take(at)) == Ok::<Seq<u8>, Seq<char>>(r)
        }),
    decreases s.len() - at,
{
    let r = s.map_values(
        |b: u8|
            if b == 43 {
                32u8
            } else {
                b
            },
    );
    if at < s.len() {
        lemma_plus_signs(s, at + 1);
        assert(r.take(at).push(r[at]) =~= r.take(at + 1));
    } else {
        assert(r.take(at) =~= r);
    }
}

} // verus!
