//! The report of a search, written as JSON, can be read back.
use crate::corpus::json::{
    blanks, digit_run, json_fields, json_items, json_string, json_text, json_value, stands_text, Json,
};
use crate::ordered::views;
use crate::search::types::{HitView, SearchReport, SearchStopReason};
use crate::text::{decimal, digit, lemma_code_point, lemma_decimal_read_back};
use crate::web::laws::{lemma_string_read_back, quoted_at};
use crate::web::output::{
    bool_json, event_json, hit_json, hits_json, json_char, json_chars, json_quoted, report_json,
    stop_json,
};
use vstd::prelude::*;
use vstd::string::*;

verus! {

/// The character ends a value that stands before it.
spec fn ends_value(c: char) -> bool {
    c == ',' || c == '}' || c == ']'
}

/// A text is read as a value, wherever it stands and something ends it, within
/// so many lists and objects more.
#[verifier::opaque]
spec fn reads_as(v: Seq<char>, j: Json, inner: nat) -> bool {
    &&& v.len() > 0
    &&& forall|s: Seq<char>, at: int, depth: nat|
        stands_text(s, at, v) && at + v.len() < s.len() && ends_value(s[at + v.len()]) && depth
            + inner <= 128 ==> #[trigger] json_value(s, at, depth) == Ok::<
            (Json, int),
            (int, Seq<char>),
        >((j, at + v.len()))
}

/// A text is read as a value, wherever it stands.
#[verifier::opaque]
spec fn closed_reads_as(v: Seq<char>, j: Json, inner: nat) -> bool {
    &&& v.len() > 0
    &&& forall|s: Seq<char>, at: int, depth: nat|
        stands_text(s, at, v) && depth + inner <= 128 ==> #[trigger] json_value(s, at, depth)
            == Ok::<(Json, int), (int, Seq<char>)>((j, at + v.len()))
}

/// What is read wherever it stands is read where something ends it; and what is
/// read within fewer lists and objects is read within more.
proof fn lemma_reads_within(v: Seq<char>, j: Json, m: nat, n: nat)
    requires
        closed_reads_as(v, j, m) || reads_as(v, j, m),
        m <= n,
    ensures
        reads_as(v, j, n),
{
    reveal(closed_reads_as);
    reveal(reads_as);
}

proof fn lemma_stands_parts(s: Seq<char>, at: int, a: Seq<char>, b: Seq<char>)
    requires
        stands_text(s, at, a + b),
    ensures
        stands_text(s, at, a),
        stands_text(s, at + a.len(), b),
        forall|i: int| 0 <= i < a.len() ==> s[at + i] == #[trigger] a[i],
        forall|i: int| 0 <= i < b.len() ==> s[at + a.len() + i] == #[trigger] b[i],
{
    let all = a + b;
    let here = s.subrange(at, at + all.len());
    assert(here == all);
    assert forall|i: int| 0 <= i < a.len() implies s[at + i] == #[trigger] a[i] by {
        assert(here[i] == all[i]);
    }
    assert forall|i: int| 0 <= i < b.len() implies s[at + a.len() + i] == #[trigger] b[i] by {
        assert(here[a.len() + i] == all[a.len() + i]);
    }
    assert(s.subrange(at, at + a.len()) =~= a);
    assert(s.subrange(at + a.len(), at + a.len() + b.len()) =~= b);
}

proof fn lemma_stands_chars(s: Seq<char>, at: int, a: Seq<char>)
    requires
        stands_text(s, at, a),
    ensures
        forall|i: int| 0 <= i < a.len() ==> s[at + i] == #[trigger] a[i],
{
    assert forall|i: int| 0 <= i < a.len() implies s[at + i] == #[trigger] a[i] by {
        assert(s.subrange(at, at + a.len())[i] == a[i]);
    }
}

proof fn lemma_text_reads(t: Seq<char>)
    ensures
        closed_reads_as(json_quoted(t), Json::Text(t), 0),
{
    reveal(closed_reads_as);
    let v = json_quoted(t);
    assert forall|s: Seq<char>, at: int, depth: nat|
        stands_text(s, at, v) && depth <= 128 implies #[trigger] json_value(s, at, depth) == Ok::<
        (Json, int),
        (int, Seq<char>),
    >((Json::Text(t), at + v.len())) by {
        lemma_stands_chars(s, at, v);
        assert(quoted_at(s, at, t));
        lemma_string_read_back(s, at, t, depth);
    }
}

/// A number has no zero before its other digits.
proof fn lemma_decimal_first(n: nat)
    ensures
        n > 0 ==> decimal(n)[0] != '0',
        n == 0 ==> decimal(n).len() == 1,
    decreases n,
{
    if n >= 10 {
        lemma_decimal_first(n / 10);
        lemma_decimal_read_back(n / 10);
        assert(decimal(n)[0] == decimal(n / 10)[0]);
    }
}

proof fn lemma_digit_run(s: Seq<char>, at: int, d: Seq<char>)
    requires
        0 <= at,
        at + d.len() <= s.len(),
        forall|i: int| 0 <= i < d.len() ==> s[at + i] == #[trigger] d[i],
        forall|i: int| 0 <= i < d.len() ==> digit(#[trigger] d[i]),
        at + d.len() < s.len() ==> !digit(s[at + d.len()]),
    ensures
        digit_run(s, at) == d.len(),
    decreases d.len(),
{
    if d.len() > 0 {
        assert(s[at + 0] == d[0]);
        let rest = d.skip(1);
        assert forall|i: int| 0 <= i < rest.len() implies s[at + 1 + i] == #[trigger] rest[i] by {
            assert(s[at + (i + 1)] == d[i + 1]);
        }
        assert forall|i: int| 0 <= i < rest.len() implies digit(#[trigger] rest[i]) by {
            assert(rest[i] == d[i + 1]);
        }
        lemma_digit_run(s, at + 1, rest);
    }
}

proof fn lemma_number_reads(n: nat)
    ensures
        reads_as(decimal(n), Json::Number, 0),
{
    reveal(reads_as);
    let v = decimal(n);
    lemma_decimal_read_back(n);
    lemma_decimal_first(n);
    assert forall|s: Seq<char>, at: int, depth: nat|
        stands_text(s, at, v) && at + v.len() < s.len() && ends_value(s[at + v.len()]) && depth
            <= 128 implies #[trigger] json_value(s, at, depth) == Ok::<
        (Json, int),
        (int, Seq<char>),
    >((Json::Number, at + v.len())) by {
        lemma_stands_chars(s, at, v);
        assert(s[at + 0] == v[0]);
        assert(digit(v[0]));
        assert(blanks(s, at) == 0);
        if n > 0 {
            lemma_digit_run(s, at, v);
        }
    }
}

proof fn lemma_words_read()
    ensures
        closed_reads_as("null"@, Json::Null, 0),
        closed_reads_as("true"@, Json::Bool, 0),
        closed_reads_as("false"@, Json::Bool, 0),
{
    reveal(closed_reads_as);
    reveal_strlit("null");
    reveal_strlit("true");
    reveal_strlit("false");
    assert forall|s: Seq<char>, at: int, depth: nat|
        stands_text(s, at, "null"@) && depth <= 128 implies #[trigger] json_value(s, at, depth)
        == Ok::<(Json, int), (int, Seq<char>)>((Json::Null, at + 4)) by {
        lemma_stands_chars(s, at, "null"@);
        assert(s[at + 0] == "null"@[0]);
        assert(blanks(s, at) == 0);
    }
    assert forall|s: Seq<char>, at: int, depth: nat|
        stands_text(s, at, "true"@) && depth <= 128 implies #[trigger] json_value(s, at, depth)
        == Ok::<(Json, int), (int, Seq<char>)>((Json::Bool, at + 4)) by {
        lemma_stands_chars(s, at, "true"@);
        assert(s[at + 0] == "true"@[0]);
        assert(blanks(s, at) == 0);
    }
    assert forall|s: Seq<char>, at: int, depth: nat|
        stands_text(s, at, "false"@) && depth <= 128 implies #[trigger] json_value(s, at, depth)
        == Ok::<(Json, int), (int, Seq<char>)>((Json::Bool, at + 5)) by {
        lemma_stands_chars(s, at, "false"@);
        assert(s[at + 0] == "false"@[0]);
        assert(blanks(s, at) == 0);
    }
}

/// A field: its name, how its value is written, and its value.
struct Field {
    name: Seq<char>,
    written: Seq<char>,
    value: Json,
}

/// The fields from the `k`th on, as they are written.
spec fn fields_from(fields: Seq<Field>, k: int) -> Seq<char>
    decreases fields.len() - k,
{
    if k < 0 || k >= fields.len() {
        Seq::empty()
    } else {
        let one = json_quoted(fields[k].name) + seq![':'] + fields[k].written;
        if k + 1 < fields.len() {
            one + seq![','] + fields_from(fields, k + 1)
        } else {
            one
        }
    }
}

/// The fields with their values.
spec fn values_of(fields: Seq<Field>) -> Seq<(Seq<char>, Json)> {
    Seq::new(fields.len(), |i: int| (fields[i].name, fields[i].value))
}

/// A field, with something that ends it behind it.
proof fn lemma_one_field(
    s: Seq<char>,
    at: int,
    f: Field,
    rest: Seq<char>,
    depth: nat,
    inner: nat,
)
    requires
        stands_text(s, at, json_quoted(f.name) + (seq![':'] + (f.written + rest))),
        rest.len() > 0,
        ends_value(rest[0]),
        reads_as(f.written, f.value, inner),
        depth + inner <= 128,
    ensures
        ({
            let colon = at + json_quoted(f.name).len();
            let next = colon + 1 + f.written.len();
            &&& 0 <= at < colon < next < s.len()
            &&& s[at] == '"'
            &&& s[colon] == ':'
            &&& s[next] == rest[0]
            &&& json_string(s, at + 1, Seq::empty()) == Ok::<(Seq<char>, int), (int, Seq<char>)>(
                (f.name, colon),
            )
            &&& json_value(s, colon + 1, depth) == Ok::<(Json, int), (int, Seq<char>)>(
                (f.value, next),
            )
            &&& stands_text(s, next, rest)
        }),
{
    reveal(reads_as);
    let name = json_quoted(f.name);
    lemma_stands_parts(s, at, name, seq![':'] + (f.written + rest));
    let colon = at + name.len();
    lemma_stands_parts(s, colon, seq![':'], f.written + rest);
    lemma_stands_parts(s, colon + 1, f.written, rest);
    let next = colon + 1 + f.written.len();
    assert(quoted_at(s, at, f.name));
    lemma_string_read_back(s, at, f.name, 0);
    assert(name[0] == '"');
    assert(s[at + 0] == '"');
    assert(seq![':'][0] == ':');
    assert(s[colon + 0] == ':');
    assert(s[next + 0] == rest[0]);
    assert(json_value(s, colon + 1, depth) == Ok::<(Json, int), (int, Seq<char>)>(
        (f.value, next),
    ));
}

/// The fields from the `k`th on are read.
#[verifier::rlimit(60)]
proof fn lemma_fields_read(
    s: Seq<char>,
    at: int,
    fields: Seq<Field>,
    k: int,
    depth: nat,
    inner: nat,
)
    requires
        0 <= k < fields.len(),
        stands_text(s, at, fields_from(fields, k) + seq!['}']),
        forall|i: int|
            0 <= i < fields.len() ==> reads_as(
                (#[trigger] fields[i]).written,
                fields[i].value,
                inner,
            ),
        depth + inner <= 128,
    ensures
        json_fields(s, at, depth, values_of(fields).take(k)) == Ok::<
            (Json, int),
            (int, Seq<char>),
        >((Json::Fields(values_of(fields)), at + fields_from(fields, k).len() + 1)),
        s[at] == '"',
    decreases fields.len() - k,
{
    let f = fields[k];
    let name = json_quoted(f.name);
    let all = values_of(fields);
    let rest = if k + 1 < fields.len() {
        seq![','] + (fields_from(fields, k + 1) + seq!['}'])
    } else {
        seq!['}']
    };
    assert(fields_from(fields, k) + seq!['}'] =~= name + (seq![':'] + (f.written + rest)));
    lemma_one_field(s, at, f, rest, depth, inner);
    let colon = at + name.len();
    let next = colon + 1 + f.written.len();
    assert(blanks(s, at) == 0);
    assert(blanks(s, colon) == 0);
    assert(blanks(s, next) == 0);
    assert(all.take(k).push((f.name, f.value)) =~= all.take(k + 1));
    if k + 1 < fields.len() {
        lemma_stands_parts(s, next, seq![','], fields_from(fields, k + 1) + seq!['}']);
        lemma_fields_read(s, next + 1, fields, k + 1, depth, inner);
        assert(s[next] == ',');
        assert(json_fields(s, at, depth, all.take(k)) == json_fields(
            s,
            next + 1,
            depth,
            all.take(k + 1),
        ));
    } else {
        assert(all.take(k + 1) =~= all);
        assert(s[next] == '}');
    }
}

/// An object, as it is written.
spec fn object_of(fields: Seq<Field>) -> Seq<char> {
    seq!['{'] + fields_from(fields, 0) + seq!['}']
}

proof fn lemma_object_reads(fields: Seq<Field>, inner: nat)
    requires
        fields.len() > 0,
        forall|i: int|
            0 <= i < fields.len() ==> reads_as(
                (#[trigger] fields[i]).written,
                fields[i].value,
                inner,
            ),
    ensures
        closed_reads_as(object_of(fields), Json::Fields(values_of(fields)), inner + 1),
{
    reveal(closed_reads_as);
    let v = object_of(fields);
    let body = fields_from(fields, 0) + seq!['}'];
    assert(v =~= seq!['{'] + body);
    assert forall|s: Seq<char>, at: int, depth: nat|
        stands_text(s, at, v) && depth + (inner + 1) <= 128 implies #[trigger] json_value(
        s,
        at,
        depth,
    ) == Ok::<(Json, int), (int, Seq<char>)>(
        (Json::Fields(values_of(fields)), at + v.len()),
    ) by {
        lemma_stands_parts(s, at, seq!['{'], body);
        assert(seq!['{'][0] == '{');
        assert(s[at + 0] == '{');
        assert(blanks(s, at) == 0);
        lemma_fields_read(s, at + 1, fields, 0, depth + 1, inner);
        assert(values_of(fields).take(0) =~= Seq::empty());
        assert(blanks(s, at + 1) == 0);
    }
}

/// The values from the `k`th on, as they are written.
spec fn items_from(items: Seq<Field>, k: int) -> Seq<char>
    decreases items.len() - k,
{
    if k < 0 || k >= items.len() {
        Seq::empty()
    } else if k + 1 < items.len() {
        items[k].written + seq![','] + items_from(items, k + 1)
    } else {
        items[k].written
    }
}

/// The values of a list.
spec fn items_of(items: Seq<Field>) -> Seq<Json> {
    Seq::new(items.len(), |i: int| items[i].value)
}

/// The values from the `k`th on are read.
proof fn lemma_items_read(
    s: Seq<char>,
    at: int,
    items: Seq<Field>,
    k: int,
    depth: nat,
    inner: nat,
)
    requires
        0 <= k < items.len(),
        stands_text(s, at, items_from(items, k) + seq![']']),
        forall|i: int|
            0 <= i < items.len() ==> reads_as((#[trigger] items[i]).written, items[i].value, inner),
        depth + inner <= 128,
    ensures
        json_items(s, at, depth, items_of(items).take(k)) == Ok::<(Json, int), (int, Seq<char>)>(
            (Json::List(items_of(items)), at + items_from(items, k).len() + 1),
        ),
    decreases items.len() - k,
{
    reveal(reads_as);
    let f = items[k];
    let all = items_of(items);
    let rest = if k + 1 < items.len() {
        seq![','] + (items_from(items, k + 1) + seq![']'])
    } else {
        seq![']']
    };
    assert(items_from(items, k) + seq![']'] =~= f.written + rest);
    lemma_stands_parts(s, at, f.written, rest);
    let next = at + f.written.len();
    assert(s[next + 0] == rest[0]);
    assert(reads_as(items[k].written, f.value, inner));
    assert(json_value(s, at, depth) == Ok::<(Json, int), (int, Seq<char>)>((f.value, next)));
    assert(blanks(s, next) == 0);
    assert(all.take(k).push(f.value) =~= all.take(k + 1));
    if k + 1 < items.len() {
        lemma_stands_parts(s, next, seq![','], items_from(items, k + 1) + seq![']']);
        lemma_items_read(s, next + 1, items, k + 1, depth, inner);
    } else {
        assert(all.take(k + 1) =~= all);
    }
}

/// A list, as it is written.
spec fn list_of(items: Seq<Field>) -> Seq<char> {
    seq!['['] + items_from(items, 0) + seq![']']
}

proof fn lemma_list_reads(items: Seq<Field>, inner: nat)
    requires
        forall|i: int|
            0 <= i < items.len() ==> reads_as((#[trigger] items[i]).written, items[i].value, inner)
                && items[i].written[0] == '{',
    ensures
        closed_reads_as(list_of(items), Json::List(items_of(items)), inner + 1),
{
    reveal(closed_reads_as);
    let v = list_of(items);
    let body = items_from(items, 0) + seq![']'];
    assert(v =~= seq!['['] + body);
    assert forall|s: Seq<char>, at: int, depth: nat|
        stands_text(s, at, v) && depth + (inner + 1) <= 128 implies #[trigger] json_value(
        s,
        at,
        depth,
    ) == Ok::<(Json, int), (int, Seq<char>)>((Json::List(items_of(items)), at + v.len())) by {
        lemma_stands_parts(s, at, seq!['['], body);
        assert(seq!['['][0] == '[');
        assert(s[at + 0] == '[');
        assert(blanks(s, at) == 0);
        assert(items_of(items).take(0) =~= Seq::empty());
        if items.len() == 0 {
            assert(body =~= seq![']']);
            assert(body[0] == ']');
            assert(s[at + 1 + 0] == ']');
            assert(blanks(s, at + 1) == 0);
            assert(items_of(items) =~= Seq::empty());
        } else {
            assert(items[0].written[0] == '{');
            assert(reads_as(items[0].written, items[0].value, inner));
            assert(items[0].written.len() > 0) by {
                reveal(reads_as);
            }
            assert(body[0] == '{');
            assert(s[at + 1 + 0] == '{');
            assert(blanks(s, at + 1) == 0);
            lemma_items_read(s, at + 1, items, 0, depth + 1, inner);
        }
    }
}

/// A name of plain characters is written between quotes as it is.
proof fn lemma_plain_name(t: Seq<char>)
    requires
        forall|i: int|
            0 <= i < t.len() ==> (#[trigger] t[i]) != '"' && t[i] != '\\' && t[i] as u32 >= 0x20,
    ensures
        json_quoted(t) == seq!['"'] + t + seq!['"'],
        json_chars(t) == t,
    decreases t.len(),
{
    if t.len() > 0 {
        let init = t.drop_last();
        assert forall|i: int| 0 <= i < init.len() implies (#[trigger] init[i]) != '"' && init[i]
            != '\\' && init[i] as u32 >= 0x20 by {
            assert(init[i] == t[i]);
        }
        lemma_plain_name(init);
        let c = t[t.len() - 1];
        lemma_code_point(c);
        assert(json_char(c) =~= seq![c]);
        assert(json_chars(t) =~= t);
    }
}

/// What a result is read back as.
pub open spec fn hit_value(h: HitView) -> Json {
    Json::Fields(seq![("text"@, Json::Text(h.text)), ("score"@, Json::Number)])
}

proof fn lemma_hit_reads(h: HitView)
    ensures
        closed_reads_as(hit_json(h), hit_value(h), 1),
        hit_json(h)[0] == '{',
{
    reveal_strlit("text");
    reveal_strlit("score");
    reveal_strlit("{\"text\":");
    reveal_strlit(",\"score\":");
    reveal_strlit("}");
    let text = Field { name: "text"@, written: json_quoted(h.text), value: Json::Text(h.text) };
    let score = Field { name: "score"@, written: decimal(h.score as nat), value: Json::Number };
    let fields = seq![text, score];
    lemma_text_reads(h.text);
    lemma_number_reads(h.score as nat);
    lemma_reads_within(text.written, text.value, 0, 0);
    assert forall|i: int| 0 <= i < fields.len() implies reads_as(
        (#[trigger] fields[i]).written,
        fields[i].value,
        0,
    ) by {
        assert(fields[i] == text || fields[i] == score);
    }
    lemma_object_reads(fields, 0);
    lemma_plain_name("text"@);
    lemma_plain_name("score"@);
    let second = json_quoted("score"@) + seq![':'] + decimal(h.score as nat);
    assert(fields_from(fields, 1) == second);
    assert(fields_from(fields, 0) == json_quoted("text"@) + seq![':'] + json_quoted(h.text) + seq![
        ',',
    ] + second);
    assert("{\"text\":"@ =~= seq!['{'] + json_quoted("text"@) + seq![':']);
    assert(",\"score\":"@ =~= seq![','] + json_quoted("score"@) + seq![':']);
    assert(object_of(fields) =~= hit_json(h));
    assert(values_of(fields) =~= seq![
        ("text"@, Json::Text(h.text)),
        ("score"@, Json::Number),
    ]);
}

/// The results, as the values of a list.
spec fn hit_items(hits: Seq<HitView>) -> Seq<Field> {
    Seq::new(
        hits.len(),
        |i: int|
            Field { name: Seq::empty(), written: hit_json(hits[i]), value: hit_value(hits[i]) },
    )
}

proof fn lemma_hits_joined(hits: Seq<HitView>, k: nat)
    requires
        k <= hits.len(),
    ensures
        hits_json(hits, hits.len()) == hits_json(hits, k) + (if 0 < k < hits.len() {
            seq![',']
        } else {
            Seq::empty()
        }) + items_from(hit_items(hits), k as int),
    decreases hits.len() - k,
{
    reveal_strlit(",");
    let items = hit_items(hits);
    if k == hits.len() {
        assert(hits_json(hits, k) + Seq::<char>::empty() + items_from(items, k as int)
            =~= hits_json(hits, k));
    } else {
        lemma_hits_joined(hits, k + 1);
        let one = hit_json(hits[k as int]);
        assert(items[k as int].written == one);
        assert(","@ =~= seq![',']);
        if k == 0 {
            assert(hits_json(hits, 0) =~= Seq::empty());
            assert(hits_json(hits, 1) == one);
        } else {
            assert(hits_json(hits, k + 1) == hits_json(hits, k) + ","@ + one);
        }
        assert(hits_json(hits, k + 1) + (if 0 < k + 1 < hits.len() {
            seq![',']
        } else {
            Seq::empty()
        }) + items_from(items, (k + 1) as int) =~= hits_json(hits, k) + (if 0 < k < hits.len() {
            seq![',']
        } else {
            Seq::empty()
        }) + items_from(items, k as int));
    }
}

/// The values of the results.
pub open spec fn hit_values(hits: Seq<HitView>) -> Seq<Json> {
    Seq::new(hits.len(), |i: int| hit_value(hits[i]))
}

proof fn lemma_hits_read(hits: Seq<HitView>)
    ensures
        closed_reads_as(
            seq!['['] + hits_json(hits, hits.len()) + seq![']'],
            Json::List(hit_values(hits)),
            2,
        ),
{
    let items = hit_items(hits);
    assert forall|i: int| 0 <= i < items.len() implies reads_as(
        (#[trigger] items[i]).written,
        items[i].value,
        1,
    ) && items[i].written[0] == '{' by {
        lemma_hit_reads(hits[i]);
        lemma_reads_within(items[i].written, items[i].value, 1, 1);
    }
    lemma_list_reads(items, 1);
    lemma_hits_joined(hits, 0);
    assert(hits_json(hits, 0) =~= Seq::empty());
    assert(hits_json(hits, hits.len()) =~= items_from(items, 0));
    assert(items_of(items) =~= hit_values(hits));
}

/// Why a search ended early, as it is read back.
pub open spec fn stop_value(reason: Option<SearchStopReason>) -> Json {
    match reason {
        Some(SearchStopReason::NodeLimit) => Json::Text("node_limit"@),
        Some(SearchStopReason::StateLimit) => Json::Text("state_limit"@),
        None => Json::Null,
    }
}

/// What a report of a search is read back as.
pub open spec fn report_value(event: Option<Seq<char>>, report: SearchReport) -> Json {
    let head = match event {
        Some(name) => seq![("type"@, Json::Text(name))],
        None => Seq::empty(),
    };
    Json::Fields(
        head + seq![
            ("results"@, Json::List(hit_values(views(report.results@)))),
            ("visited"@, Json::Number),
            ("states"@, Json::Number),
            ("truncated"@, Json::Bool),
            ("stop_reason"@, stop_value(report.stop_reason)),
        ],
    )
}

/// A name with its colon, as it is written.
spec fn named(name: Seq<char>) -> Seq<char> {
    json_quoted(name) + seq![':']
}

proof fn lemma_report_text(event: Option<Seq<char>>, report: SearchReport, fields: Seq<Field>)
    requires
        ({
            let hits = views(report.results@);
            let n = fields.len();
            &&& n == (if event is Some {
                6nat
            } else {
                5nat
            })
            &&& event matches Some(name) ==> fields[0].name == "type"@ && fields[0].written
                == json_quoted(name)
            &&& fields[n - 5].name == "results"@ && fields[n - 5].written == seq!['['] + hits_json(
                hits,
                hits.len(),
            ) + seq![']']
            &&& fields[n - 4].name == "visited"@ && fields[n - 4].written == decimal(
                report.visited as nat,
            )
            &&& fields[n - 3].name == "states"@ && fields[n - 3].written == decimal(
                report.derivative_states as nat,
            )
            &&& fields[n - 2].name == "truncated"@ && fields[n - 2].written == bool_json(
                report.truncated,
            )
            &&& fields[n - 1].name == "stop_reason"@ && fields[n - 1].written == stop_json(
                report.stop_reason,
            )
        }),
    ensures
        object_of(fields) == report_json(event, report),
{
    let hits = views(report.results@);
    let n = fields.len() as int;
    lemma_names_written();
    let h = hits_json(hits, hits.len());
    let v = decimal(report.visited as nat);
    let m = decimal(report.derivative_states as nat);
    let t = bool_json(report.truncated);
    let r = stop_json(report.stop_reason);
    let comma = seq![','];
    let e = named("stop_reason"@) + r;
    let d = named("truncated"@) + t + comma + e;
    let c = named("states"@) + m + comma + d;
    let b = named("visited"@) + v + comma + c;
    let list = seq!['['] + h + seq![']'];
    let a = named("results"@) + list + comma + b;
    assert(fields_from(fields, n - 1) == e);
    assert(fields_from(fields, n - 2) == d);
    assert(fields_from(fields, n - 3) == c);
    assert(fields_from(fields, n - 4) == b);
    assert(fields_from(fields, n - 5) == a);
    lemma_behind_comma(named("truncated"@), t, ",\"stop_reason\":"@, named("stop_reason"@), r);
    let r5 = ",\"stop_reason\":"@ + r;
    lemma_behind_comma(named("states"@), m, ",\"truncated\":"@, named("truncated"@), t + r5);
    let r4 = ",\"truncated\":"@ + (t + r5);
    lemma_behind_comma(named("visited"@), v, ",\"states\":"@, named("states"@), m + r4);
    let r3 = ",\"states\":"@ + (m + r4);
    assert(b == named("visited"@) + (v + r3));
    lemma_results_first(
        named("results"@),
        h,
        "\"results\":["@,
        "],\"visited\":"@,
        named("visited"@),
        v + r3,
    );
    let r2 = "],\"visited\":"@ + (v + r3);
    assert(a == "\"results\":["@ + (h + r2));
    lemma_written_in_turn(
        "{"@ + event_json(event),
        "\"results\":["@,
        h,
        "],\"visited\":"@,
        v,
        ",\"states\":"@,
        m,
        ",\"truncated\":"@,
        t,
        ",\"stop_reason\":"@,
        r,
    );
    if let Some(name) = event {
        let head = named("type"@) + json_quoted(name) + comma;
        assert(fields_from(fields, 0) == head + a);
        assert(event_json(event) == head);
        assert(seq!['{'] + (head + a) =~= seq!['{'] + head + a);
    } else {
        assert(fields_from(fields, 0) == a);
        assert(event_json(event) == Seq::<char>::empty());
        assert("{"@ + Seq::<char>::empty() =~= "{"@);
    }
}

/// A name, its value, and what follows the comma behind it.
proof fn lemma_behind_comma(
    name: Seq<char>,
    value: Seq<char>,
    next: Seq<char>,
    next_name: Seq<char>,
    rest: Seq<char>,
)
    requires
        next == seq![','] + next_name,
    ensures
        name + value + seq![','] + (next_name + rest) == name + (value + (next + rest)),
{
    assert(name + value + seq![','] + (next_name + rest) =~= name + (value + (next + rest)));
}

/// The list of results, and what follows it.
proof fn lemma_results_first(
    name: Seq<char>,
    list: Seq<char>,
    first: Seq<char>,
    next: Seq<char>,
    next_name: Seq<char>,
    rest: Seq<char>,
)
    requires
        first == name + seq!['['],
        next == seq![']', ','] + next_name,
    ensures
        name + (seq!['['] + list + seq![']']) + seq![','] + (next_name + rest) == first + (list + (
        next + rest)),
{
    assert(name + (seq!['['] + list + seq![']']) + seq![','] + (next_name + rest) =~= first + (list
        + (next + rest)));
}

/// Parts written one after the other, from the left and from the right.
proof fn lemma_written_in_turn(
    x: Seq<char>,
    p1: Seq<char>,
    h: Seq<char>,
    p2: Seq<char>,
    v: Seq<char>,
    p3: Seq<char>,
    m: Seq<char>,
    p4: Seq<char>,
    t: Seq<char>,
    p5: Seq<char>,
    r: Seq<char>,
)
    ensures
        x + p1 + h + p2 + v + p3 + m + p4 + t + p5 + r == x + (p1 + (h + (p2 + (v + (p3 + (m + (p4
            + (t + (p5 + r))))))))),
{
    let y1 = x + p1;
    let y2 = y1 + h;
    let y3 = y2 + p2;
    let y4 = y3 + v;
    let y5 = y4 + p3;
    let y6 = y5 + m;
    let y7 = y6 + p4;
    let y8 = y7 + t;
    let z9 = p5 + r;
    let z8 = t + z9;
    let z7 = p4 + z8;
    let z6 = m + z7;
    let z5 = p3 + z6;
    let z4 = v + z5;
    let z3 = p2 + z4;
    let z2 = h + z3;
    assert(y8 + p5 + r =~= y8 + z9);
    assert(y7 + t + z9 =~= y7 + z8);
    assert(y6 + p4 + z8 =~= y6 + z7);
    assert(y5 + m + z7 =~= y5 + z6);
    assert(y4 + p3 + z6 =~= y4 + z5);
    assert(y3 + v + z5 =~= y3 + z4);
    assert(y2 + p2 + z4 =~= y2 + z3);
    assert(y1 + h + z3 =~= y1 + z2);
    assert(x + p1 + z2 =~= x + (p1 + z2));
}

proof fn lemma_names_written()
    ensures
        "{"@ == seq!['{'],
        "}"@ == seq!['}'],
        ","@ == seq![','],
        "\"type\":"@ == named("type"@),
        "\"results\":["@ == named("results"@) + seq!['['],
        "],\"visited\":"@ == seq![']', ','] + named("visited"@),
        ",\"states\":"@ == seq![','] + named("states"@),
        ",\"truncated\":"@ == seq![','] + named("truncated"@),
        ",\"stop_reason\":"@ == seq![','] + named("stop_reason"@),
{
    reveal_strlit("type");
    reveal_strlit("results");
    reveal_strlit("visited");
    reveal_strlit("states");
    reveal_strlit("truncated");
    reveal_strlit("stop_reason");
    reveal_strlit("{");
    reveal_strlit("}");
    reveal_strlit(",");
    reveal_strlit("\"type\":");
    reveal_strlit("\"results\":[");
    reveal_strlit("],\"visited\":");
    reveal_strlit(",\"states\":");
    reveal_strlit(",\"truncated\":");
    reveal_strlit(",\"stop_reason\":");
    lemma_plain_name("type"@);
    lemma_plain_name("results"@);
    lemma_plain_name("visited"@);
    lemma_plain_name("states"@);
    lemma_plain_name("truncated"@);
    lemma_plain_name("stop_reason"@);
    assert("{"@ =~= seq!['{']);
    assert("}"@ =~= seq!['}']);
    assert(","@ =~= seq![',']);
    assert("\"type\":"@ =~= named("type"@));
    assert("\"results\":["@ =~= named("results"@) + seq!['[']);
    assert("],\"visited\":"@ =~= seq![']', ','] + named("visited"@));
    assert(",\"states\":"@ =~= seq![','] + named("states"@));
    assert(",\"truncated\":"@ =~= seq![','] + named("truncated"@));
    assert(",\"stop_reason\":"@ =~= seq![','] + named("stop_reason"@));
}

/// The fields that a report of a search is written with.
spec fn report_fields(event: Option<Seq<char>>, report: SearchReport) -> Seq<Field> {
    let hits = views(report.results@);
    event_fields(event) + seq![
        Field {
            name: "results"@,
            written: seq!['['] + hits_json(hits, hits.len()) + seq![']'],
            value: Json::List(hit_values(hits)),
        },
        Field {
            name: "visited"@,
            written: decimal(report.visited as nat),
            value: Json::Number,
        },
        Field {
            name: "states"@,
            written: decimal(report.derivative_states as nat),
            value: Json::Number,
        },
        Field { name: "truncated"@, written: bool_json(report.truncated), value: Json::Bool },
        Field {
            name: "stop_reason"@,
            written: stop_json(report.stop_reason),
            value: stop_value(report.stop_reason),
        },
    ]
}

spec fn event_fields(event: Option<Seq<char>>) -> Seq<Field> {
    match event {
        Some(name) => seq![
            Field { name: "type"@, written: json_quoted(name), value: Json::Text(name) },
        ],
        None => Seq::empty(),
    }
}

proof fn lemma_stop_reads(reason: Option<SearchStopReason>)
    ensures
        reads_as(stop_json(reason), stop_value(reason), 2),
{
    lemma_words_read();
    match reason {
        Some(SearchStopReason::NodeLimit) => {
            lemma_text_reads("node_limit"@);
        },
        Some(SearchStopReason::StateLimit) => {
            lemma_text_reads("state_limit"@);
        },
        None => {},
    }
    lemma_reads_within(stop_json(reason), stop_value(reason), 0, 2);
}

proof fn lemma_fields_each_read(event: Option<Seq<char>>, report: SearchReport, i: int)
    requires
        0 <= i < report_fields(event, report).len(),
    ensures
        reads_as(report_fields(event, report)[i].written, report_fields(event, report)[i].value, 2),
{
    let fields = report_fields(event, report);
    let f = fields[i];
    let head = event_fields(event);
    if i < head.len() {
        assert(f == head[i]);
        lemma_text_reads(event->Some_0);
        lemma_reads_within(f.written, f.value, 0, 2);
    } else if i == head.len() {
        lemma_hits_read(views(report.results@));
        lemma_reads_within(f.written, f.value, 2, 2);
    } else if i == head.len() + 1 {
        lemma_number_reads(report.visited as nat);
        lemma_reads_within(f.written, f.value, 0, 2);
    } else if i == head.len() + 2 {
        lemma_number_reads(report.derivative_states as nat);
        lemma_reads_within(f.written, f.value, 0, 2);
    } else if i == head.len() + 3 {
        lemma_words_read();
        lemma_reads_within(f.written, f.value, 0, 2);
    } else {
        lemma_stop_reads(report.stop_reason);
    }
}

/// What is read as a value wherever it stands is a whole text of that value.
proof fn lemma_whole_text(s: Seq<char>, j: Json, inner: nat)
    requires
        closed_reads_as(s, j, inner),
        inner <= 128,
        s[0] == '{',
    ensures
        json_text(s) == Ok::<Json, (int, Seq<char>)>(j),
{
    reveal(closed_reads_as);
    assert(blanks(s, 0) == 0);
    assert(s.subrange(0, s.len() as int) =~= s);
    assert(stands_text(s, 0, s));
    assert(json_value(s, 0, 0) == Ok::<(Json, int), (int, Seq<char>)>((j, s.len() as int)));
    assert(blanks(s, s.len() as int) == 0);
}

proof fn lemma_report_values(event: Option<Seq<char>>, report: SearchReport)
    ensures
        Json::Fields(values_of(report_fields(event, report))) == report_value(event, report),
{
    let fields = report_fields(event, report);
    assert(values_of(fields) =~= report_value(event, report)->Fields_0);
}

proof fn lemma_report_written(event: Option<Seq<char>>, report: SearchReport)
    ensures
        object_of(report_fields(event, report)) == report_json(event, report),
{
    lemma_report_text(event, report, report_fields(event, report));
}

proof fn lemma_fields_read_closed(event: Option<Seq<char>>, report: SearchReport)
    ensures
        closed_reads_as(
            object_of(report_fields(event, report)),
            Json::Fields(values_of(report_fields(event, report))),
            3,
        ),
{
    let fields = report_fields(event, report);
    assert forall|i: int| 0 <= i < fields.len() implies reads_as(
        (#[trigger] fields[i]).written,
        fields[i].value,
        2,
    ) by {
        lemma_fields_each_read(event, report, i);
    }
    lemma_object_reads(fields, 2);
}

proof fn lemma_object_opens(fields: Seq<Field>)
    ensures
        object_of(fields)[0] == '{',
{
    assert(object_of(fields)[0] == (seq!['{'] + fields_from(fields, 0))[0]);
}

/// A report of a search is written as JSON that is read back: with the text of
/// each result, in order, and with why the search ended early. Only the kind of
/// its numbers and truth values is read.
pub proof fn law_report_reads_back(event: Option<Seq<char>>, report: SearchReport)
    ensures
        json_text(report_json(event, report)) == Ok::<Json, (int, Seq<char>)>(
            report_value(event, report),
        ),
{
    lemma_fields_read_closed(event, report);
    lemma_report_values(event, report);
    lemma_report_written(event, report);
    lemma_object_opens(report_fields(event, report));
    lemma_whole_text(report_json(event, report), report_value(event, report), 3);
}

} // verus!
