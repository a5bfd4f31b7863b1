//! What the values of each source give.
use crate::corpus::fields::{
    nested_place, reply_content, with_article, with_dialogue, with_logical, with_optional, with_page,
    with_replies, with_reply_items, with_section, with_sections, with_tags, with_texts, with_thread,
    with_turns,
};
use crate::corpus::find::find_from;
use crate::corpus::json::{field_place, json_get, lemma_field_place, Json};
use crate::corpus::poetry::{
    direct_items, direct_texts, poem_part, texts_of_part, with_body, with_poem, with_poem_fields,
    with_poem_items, with_poems, with_title, with_titles, PoemPart,
};
use crate::corpus::preparer::{all_runs, with_field, without_address, Prepared};
use crate::corpus::print_laws::{
    han_of, in_one, law_editions_have_one_print, law_new_body_gives_all_its_records,
    lemma_records_of_field, lemma_records_of_runs, records_in,
};
use crate::corpus::prints::{print_of, BodyPrint, TitlePrint};
use crate::corpus::wiki_laws::{lemma_find_at, without};
use crate::text::{lemma_first_place, trimmed};
use vstd::prelude::*;
use vstd::string::*;

verus! {

/// The value has one field with this name, and it is this.
pub open spec fn holds(v: Json, name: Seq<char>, part: Json) -> bool {
    v matches Json::Fields(fields) && exists|i: int|
        0 <= i < fields.len() && #[trigger] fields[i] == (name, part) && forall|j: int|
            0 <= j < fields.len() && j != i ==> (#[trigger] fields[j]).0 != name
}

/// The value has fields, but none with this name.
pub open spec fn lacks(v: Json, name: Seq<char>) -> bool {
    v matches Json::Fields(fields) && forall|j: int|
        0 <= j < fields.len() ==> (#[trigger] fields[j]).0 != name
}

proof fn lemma_place_at(fields: Seq<(Seq<char>, Json)>, key: Seq<char>, i: int)
    requires
        0 <= i <= fields.len(),
        forall|j: int| 0 <= j < i ==> (#[trigger] fields[j]).0 != key,
        i < fields.len() ==> fields[i].0 == key,
    ensures
        field_place(fields, key) == if i < fields.len() {
            Some(i)
        } else {
            None
        },
    decreases fields.len(),
{
    if fields.len() > 0 && i > 0 {
        let rest = fields.skip(1);
        assert(fields[0].0 != key);
        assert forall|j: int| 0 <= j < i - 1 implies (#[trigger] rest[j]).0 != key by {
            assert(rest[j] == fields[j + 1]);
        }
        lemma_place_at(rest, key, i - 1);
    }
}

/// A field is found by its name, wherever it stands.
pub proof fn law_fields_are_found_by_name(v: Json, name: Seq<char>, part: Json)
    ensures
        holds(v, name, part) ==> json_get(v, name) == Some(part),
        lacks(v, name) ==> json_get(v, name) is None,
{
    if let Json::Fields(fields) = v {
        if holds(v, name, part) {
            let i = choose|i: int|
                0 <= i < fields.len() && #[trigger] fields[i] == (name, part) && forall|j: int|
                    0 <= j < fields.len() && j != i ==> (#[trigger] fields[j]).0 != name;
            lemma_place_at(fields, name, i);
        }
        if lacks(v, name) {
            lemma_place_at(fields, name, fields.len() as int);
        }
    }
}

/// The records of a text, of this weight.
pub open spec fn taken(text: Seq<char>, weight: u64) -> Seq<(Seq<char>, u64)> {
    records_in(seq![text], weight)
}

/// The records of a text, if there is one.
pub open spec fn taken_if(text: Option<Seq<char>>, weight: u64) -> Seq<(Seq<char>, u64)> {
    match text {
        Some(s) => taken(s, weight),
        None => Seq::empty(),
    }
}

/// The value has a text under this name, or null, or nothing.
pub open spec fn may_hold(v: Json, name: Seq<char>, text: Option<Seq<char>>) -> bool {
    match text {
        Some(s) => holds(v, name, Json::Text(s)),
        None => lacks(v, name) || holds(v, name, Json::Null),
    }
}

proof fn lemma_optional(p: Prepared, v: Json, name: Seq<char>, text: Option<Seq<char>>, weight: u64)
    requires
        may_hold(v, name, text),
    ensures
        with_optional(p, json_get(v, name), weight).1 is None,
        with_optional(p, json_get(v, name), weight).0.records == p.records + taken_if(text, weight),
{
    match text {
        Some(s) => {
            law_fields_are_found_by_name(v, name, Json::Text(s));
            lemma_records_of_field(p, s, weight);
        },
        None => {
            law_fields_are_found_by_name(v, name, Json::Null);
            assert(p.records + Seq::<(Seq<char>, u64)>::empty() =~= p.records);
        },
    }
}

/// A section of an article.
pub struct Section {
    pub title: Option<Seq<char>>,
    pub content: Option<Seq<char>>,
}

/// A value is that of a section.
pub open spec fn section_value(v: Json, section: Section) -> bool {
    may_hold(v, "title"@, section.title) && may_hold(v, "content"@, section.content)
}

/// What sections give: the title of each with weight 5, and its text with weight 1.
pub open spec fn section_records(sections: Seq<Section>) -> Seq<(Seq<char>, u64)>
    decreases sections.len(),
{
    if sections.len() == 0 {
        Seq::empty()
    } else {
        taken_if(sections[0].title, 5) + taken_if(sections[0].content, 1) + section_records(
            sections.skip(1),
        )
    }
}

proof fn lemma_sections(p: Prepared, items: Seq<Json>, sections: Seq<Section>)
    requires
        items.len() == sections.len(),
        forall|i: int| 0 <= i < items.len() ==> section_value(#[trigger] items[i], sections[i]),
    ensures
        with_sections(p, items).1 is None,
        with_sections(p, items).0.records == p.records + section_records(sections),
    decreases items.len(),
{
    if items.len() > 0 {
        assert(section_value(items[0], sections[0]));
        let s = sections[0];
        lemma_optional(p, items[0], "title"@, s.title, 5);
        let a = with_optional(p, json_get(items[0], "title"@), 5);
        lemma_optional(a.0, items[0], "content"@, s.content, 1);
        let b = with_section(p, items[0]);
        assert forall|i: int| 0 <= i < items.skip(1).len() implies section_value(
            #[trigger] items.skip(1)[i],
            sections.skip(1)[i],
        ) by {
            assert(items.skip(1)[i] == items[i + 1]);
        }
        lemma_sections(b.0, items.skip(1), sections.skip(1));
        assert(p.records + taken_if(s.title, 5) + taken_if(s.content, 1) + section_records(
            sections.skip(1),
        ) =~= p.records + section_records(sections));
    } else {
        assert(p.records + section_records(sections) =~= p.records);
    }
}

/// Texts in a list.
pub open spec fn text_list(texts: Seq<Seq<char>>) -> Seq<Json> {
    Seq::new(texts.len(), |i: int| Json::Text(texts[i]))
}

proof fn lemma_records_joined(a: Seq<Seq<char>>, b: Seq<Seq<char>>, weight: u64)
    ensures
        records_in(a + b, weight) == records_in(a, weight) + records_in(b, weight),
    decreases b.len(),
{
    if b.len() == 0 {
        assert(a + b =~= a);
        assert(records_in(a, weight) + records_in(b, weight) =~= records_in(a, weight));
    } else {
        lemma_records_joined(a, b.drop_last(), weight);
        assert((a + b).drop_last() =~= a + b.drop_last());
        assert((a + b).last() == b.last());
        let runs = all_runs(b.last(), false);
        let here = Seq::new(runs.len(), |i: int| (runs[i], weight));
        assert(records_in(a, weight) + records_in(b.drop_last(), weight) + here =~= records_in(
            a,
            weight,
        ) + records_in(b, weight));
    }
}

proof fn lemma_tags(p: Prepared, tags: Seq<Seq<char>>)
    ensures
        with_tags(p, text_list(tags)).1 is None,
        with_tags(p, text_list(tags)).0.records == p.records + records_in(tags, 5),
    decreases tags.len(),
{
    let items = text_list(tags);
    if tags.len() > 0 {
        let rest = tags.skip(1);
        assert(items.skip(1) =~= text_list(rest));
        let q = with_field(p, tags[0], 5, false);
        lemma_records_of_field(p, tags[0], 5);
        lemma_tags(q, rest);
        assert(seq![tags[0]] + rest =~= tags);
        lemma_records_joined(seq![tags[0]], rest, 5);
        assert(p.records + taken(tags[0], 5) + records_in(rest, 5) =~= p.records + records_in(
            tags,
            5,
        ));
    } else {
        assert(p.records + records_in(tags, 5) =~= p.records);
    }
}

/// The value has a list under this name, or an empty one that is left out.
pub open spec fn may_list(v: Json, name: Seq<char>, items: Seq<Json>) -> bool {
    holds(v, name, Json::List(items)) || items.len() == 0 && lacks(v, name)
}

/// An article of the encyclopedia gives its title with weight 10, its summary with
/// weight 1, the title of each section with weight 5 and its text with weight 1, and each
/// tag with weight 5, in this order, and nothing else.
pub proof fn law_article_gives_its_parts(
    p: Prepared,
    v: Json,
    title: Option<Seq<char>>,
    summary: Option<Seq<char>>,
    items: Seq<Json>,
    sections: Seq<Section>,
    tags: Seq<Seq<char>>,
)
    requires
        may_hold(v, "title"@, title),
        may_hold(v, "summary"@, summary),
        may_list(v, "sections"@, items),
        items.len() == sections.len(),
        forall|i: int| 0 <= i < items.len() ==> section_value(#[trigger] items[i], sections[i]),
        may_list(v, "tags"@, text_list(tags)),
    ensures
        with_article(p, v).1 is None,
        with_article(p, v).0.records == p.records + (taken_if(title, 10) + taken_if(summary, 1)
            + section_records(sections) + records_in(tags, 5)),
{
    lemma_optional(p, v, "title"@, title, 10);
    let a = with_optional(p, json_get(v, "title"@), 10).0;
    lemma_optional(a, v, "summary"@, summary, 1);
    let b = with_optional(a, json_get(v, "summary"@), 1).0;
    law_fields_are_found_by_name(v, "sections"@, Json::List(items));
    lemma_sections(b, items, sections);
    let c = with_sections(b, items).0;
    if lacks(v, "sections"@) {
        assert(section_records(sections) =~= Seq::empty());
    }
    law_fields_are_found_by_name(v, "tags"@, Json::List(text_list(tags)));
    lemma_tags(c, tags);
    assert(p.records + taken_if(title, 10) + taken_if(summary, 1) + section_records(sections)
        + records_in(tags, 5) =~= p.records + (taken_if(title, 10) + taken_if(summary, 1)
        + section_records(sections) + records_in(tags, 5)));
}

/// A page gives its title with weight 10 and its text with weight 1.
pub proof fn law_page_gives_title_and_text(p: Prepared, v: Json, title: Seq<char>, text: Seq<char>)
    requires
        holds(v, "title"@, Json::Text(title)),
        holds(v, "text"@, Json::Text(text)),
    ensures
        with_page(p, v).1 is None,
        with_page(p, v).0.records == p.records + (taken(title, 10) + taken(text, 1)),
{
    law_fields_are_found_by_name(v, "title"@, Json::Text(title));
    law_fields_are_found_by_name(v, "text"@, Json::Text(text));
    lemma_records_of_field(p, title, 10);
    lemma_records_of_field(with_field(p, title, 10, false), text, 1);
    assert(p.records + taken(title, 10) + taken(text, 1) =~= p.records + (taken(title, 10) + taken(
        text,
        1,
    )));
}

/// A turn of a dialogue, and what stands before it.
pub struct Turn {
    pub before: Seq<char>,
    pub role: Seq<char>,
    pub content: Seq<char>,
}

/// A turn as it is written.
pub open spec fn turn_written(turn: Turn) -> Seq<char> {
    turn.before + "<|im_start|>"@ + turn.role + seq!['\n'] + turn.content + "<|im_end|>"@
}

/// Turns as they are written.
pub open spec fn turns_written(turns: Seq<Turn>) -> Seq<char>
    decreases turns.len(),
{
    if turns.len() == 0 {
        Seq::empty()
    } else {
        turn_written(turns[0]) + turns_written(turns.skip(1))
    }
}

/// A turn without tags in its parts, whose role has no white space around it.
pub open spec fn turn_fine(turn: Turn) -> bool {
    &&& without(turn.before, '<')
    &&& without(turn.role, '<')
    &&& without(turn.role, '\n')
    &&& trimmed(turn.role) == turn.role
    &&& without(turn.content, '<')
}

/// What the user and the assistant say.
pub open spec fn spoken(turns: Seq<Turn>) -> Seq<Seq<char>>
    decreases turns.len(),
{
    if turns.len() == 0 {
        Seq::empty()
    } else {
        (if turns[0].role == "user"@ || turns[0].role == "assistant"@ {
            seq![turns[0].content]
        } else {
            Seq::empty()
        }) + spoken(turns.skip(1))
    }
}

#[verifier::spinoff_prover]
#[verifier::rlimit(40)]
proof fn lemma_turn(p: Prepared, ahead: Seq<char>, turn: Turn, rest: Seq<char>, n: nat)
    requires
        turn_fine(turn),
    ensures
        ({
            let next = ahead + turn_written(turn);
            let s = next + rest;
            let heard = turn.role == "user"@ || turn.role == "assistant"@;
            with_turns(p, s, ahead.len() as int, n) == with_turns(
                if heard {
                    with_field(p, turn.content, 1, false)
                } else {
                    p
                },
                s,
                next.len() as int,
                if heard {
                    n + 1
                } else {
                    n
                },
            )
        }),
{
    reveal_strlit("<|im_start|>");
    reveal_strlit("<|im_end|>");
    let next = ahead + turn_written(turn);
    let s = next + rest;
    let at = ahead.len() as int;
    let start = at + turn.before.len();
    let inner = start + 12;
    let block = turn.role + seq!['\n'] + turn.content;
    let end = inner + block.len();
    assert("<|im_start|>"@[0] == '<' && "<|im_end|>"@[0] == '<');
    assert(s.subrange(start, start + 12) =~= "<|im_start|>"@);
    assert(s.subrange(end, end + 10) =~= "<|im_end|>"@);
    assert forall|j: int| at <= j < start implies (#[trigger] s[j]) != '<' by {
        assert(s[j] == turn.before[j - at]);
    }
    lemma_find_at(s, at, "<|im_start|>"@, start, 0);
    assert(s.subrange(inner, end) =~= block);
    assert forall|j: int| inner <= j < end implies (#[trigger] s[j]) != '<' by {
        assert(s[j] == block[j - inner]);
        let k = j - inner;
        if k < turn.role.len() {
            assert(block[k] == turn.role[k]);
        } else if k > turn.role.len() {
            assert(block[k] == turn.content[k - turn.role.len() - 1]);
        }
    }
    lemma_find_at(s, inner, "<|im_end|>"@, end, 0);
    let r = turn.role.len() as int;
    assert forall|k: int| 0 <= k < r implies block[k] != '\n' by {
        assert(block[k] == turn.role[k]);
    }
    lemma_first_place(block, '\n', r);
    assert(block.take(r) =~= turn.role);
    assert(block.skip(r + 1) =~= turn.content);
    assert(next.len() == end + 10);
}

proof fn lemma_turns(p: Prepared, ahead: Seq<char>, turns: Seq<Turn>, n: nat)
    requires
        forall|i: int| 0 <= i < turns.len() ==> turn_fine(#[trigger] turns[i]),
    ensures
        with_turns(p, ahead + turns_written(turns), ahead.len() as int, n).0.records == p.records
            + records_in(spoken(turns), 1),
    decreases turns.len(),
{
    let s = ahead + turns_written(turns);
    if turns.len() > 0 {
        let turn = turns[0];
        let rest = turns.skip(1);
        assert(turn_fine(turn));
        lemma_turn(p, ahead, turn, turns_written(rest), n);
        let next = ahead + turn_written(turn);
        assert(next + turns_written(rest) =~= s);
        assert forall|i: int| 0 <= i < rest.len() implies turn_fine(#[trigger] rest[i]) by {
            assert(rest[i] == turns[i + 1]);
        }
        if turn.role == "user"@ || turn.role == "assistant"@ {
            lemma_records_of_field(p, turn.content, 1);
            lemma_turns(with_field(p, turn.content, 1, false), next, rest, n + 1);
            lemma_records_joined(seq![turn.content], spoken(rest), 1);
            assert(p.records + taken(turn.content, 1) + records_in(spoken(rest), 1) =~= p.records
                + records_in(spoken(turns), 1));
        } else {
            lemma_turns(p, next, rest, n);
            assert(spoken(turns) =~= spoken(rest));
        }
    } else {
        reveal_strlit("<|im_start|>");
        assert(s =~= ahead);
        assert(find_from(s, ahead.len() as int, "<|im_start|>"@) is None);
        assert(p.records + records_in(spoken(turns), 1) =~= p.records);
    }
}

/// A dialogue gives what the user and the assistant say, with weight 1, in this
/// order; what others say, such as the system, is left out.
pub proof fn law_dialogue_gives_what_is_spoken(p: Prepared, v: Json, turns: Seq<Turn>)
    requires
        holds(v, "text"@, Json::Text(turns_written(turns))),
        forall|i: int| 0 <= i < turns.len() ==> turn_fine(#[trigger] turns[i]),
    ensures
        with_dialogue(p, v).1 is None,
        with_dialogue(p, v).0.records == p.records + records_in(spoken(turns), 1),
{
    law_fields_are_found_by_name(v, "text"@, Json::Text(turns_written(turns)));
    let none = Seq::<char>::empty();
    lemma_turns(p, none, turns, 0);
    assert(none + turns_written(turns) =~= turns_written(turns));
}

/// The records of a social text: the address before it and what stands in brackets
/// are left out.
pub open spec fn social_records(text: Seq<char>) -> Seq<(Seq<char>, u64)> {
    let runs = all_runs(without_address(text), true);
    Seq::new(runs.len(), |i: int| (runs[i], 1u64))
}

proof fn lemma_social(p: Prepared, text: Seq<char>)
    ensures
        with_field(p, text, 1, true).records == p.records + social_records(text),
{
    lemma_records_of_runs(p, all_runs(without_address(text), true), 1);
}

/// The value has this under the first of the names that it has at all.
pub open spec fn holds_first(v: Json, names: Seq<Seq<char>>, part: Json) -> bool {
    exists|i: int|
        0 <= i < names.len() && holds(v, #[trigger] names[i], part) && forall|j: int|
            0 <= j < i ==> lacks(v, #[trigger] names[j])
}

/// The value has none of the names.
pub open spec fn lacks_all(v: Json, names: Seq<Seq<char>>) -> bool {
    forall|i: int| 0 <= i < names.len() ==> lacks(v, #[trigger] names[i])
}

proof fn lemma_first_of(v: Json, names: Seq<Seq<char>>, part: Json)
    ensures
        holds_first(v, names, part) ==> exists|i: int|
            0 <= i < names.len() && json_get(v, #[trigger] names[i]) == Some(part) && forall|j: int|
                0 <= j < i ==> json_get(v, #[trigger] names[j]) is None,
        lacks_all(v, names) ==> forall|i: int|
            0 <= i < names.len() ==> json_get(v, #[trigger] names[i]) is None,
{
    assert forall|name: Seq<char>| #[trigger] holds(v, name, part) implies json_get(v, name)
        == Some(part) by {
        law_fields_are_found_by_name(v, name, part);
    }
    assert forall|name: Seq<char>| #[trigger] lacks(v, name) implies json_get(v, name) is None by {
        law_fields_are_found_by_name(v, name, part);
    }
    if holds_first(v, names, part) {
        let i = choose|i: int|
            0 <= i < names.len() && holds(v, #[trigger] names[i], part) && forall|j: int|
                0 <= j < i ==> lacks(v, #[trigger] names[j]);
        assert(json_get(v, names[i]) == Some(part));
        assert forall|j: int| 0 <= j < i implies json_get(v, #[trigger] names[j]) is None by {
            assert(lacks(v, names[j]));
        }
    }
    if lacks_all(v, names) {
        assert forall|i: int| 0 <= i < names.len() implies json_get(v, #[trigger] names[i]) is None by {
            assert(lacks(v, names[i]));
        }
    }
}

/// The names of the content of a reply.
pub open spec fn content_names() -> Seq<Seq<char>> {
    seq!["回复内容"@, "内容"@, "content"@, "text"@]
}

/// The names of the replies to something.
pub open spec fn reply_names() -> Seq<Seq<char>> {
    seq!["回复列表"@, "replies"@]
}

/// A reply, with the replies to it.
pub struct Reply {
    pub text: Seq<char>,
    pub nested: Seq<Reply>,
}

/// A value is that of a reply: its text alone, or fields.
pub open spec fn reply_value(v: Json, r: Reply) -> bool
    decreases r,
{
    ||| r.nested.len() == 0 && v == Json::Text(r.text)
    ||| {
        &&& holds_first(v, content_names(), Json::Text(r.text))
        &&& {
            ||| r.nested.len() == 0 && lacks_all(v, reply_names())
            ||| exists|items: Seq<Json>| #[trigger]
                holds_first(v, reply_names(), Json::List(items)) && items.len() == r.nested.len()
                    && forall|i: int|
                    0 <= i < r.nested.len() ==> reply_value(items[i], #[trigger] r.nested[i])
        }
    }
}

/// What replies give: the text of each, and behind it what the replies to it give.
pub open spec fn reply_records(r: Reply) -> Seq<(Seq<char>, u64)>
    decreases r, 1nat, 0nat,
{
    social_records(r.text) + replies_records(r.nested, r.nested.len())
}

/// What the first `n` replies give.
pub open spec fn replies_records(replies: Seq<Reply>, n: nat) -> Seq<(Seq<char>, u64)>
    decreases replies, 0nat, n,
{
    if n == 0 || n > replies.len() {
        Seq::empty()
    } else {
        replies_records(replies, (n - 1) as nat) + reply_records(replies[n - 1])
    }
}

proof fn lemma_reply_content(v: Json, part: Json)
    requires
        holds_first(v, content_names(), part),
    ensures
        reply_content(v) == Some(part),
        v is Fields,
{
    lemma_first_of(v, content_names(), part);
    let names = content_names();
    let i = choose|i: int|
        0 <= i < names.len() && json_get(v, #[trigger] names[i]) == Some(part) && forall|j: int|
            0 <= j < i ==> json_get(v, #[trigger] names[j]) is None;
    assert(names[0] == "回复内容"@ && names[1] == "内容"@ && names[2] == "content"@ && names[3]
        == "text"@);
    if i > 0 {
        assert(json_get(v, names[0]) is None);
    }
    if i > 1 {
        assert(json_get(v, names[1]) is None);
    }
    if i > 2 {
        assert(json_get(v, names[2]) is None);
    }
}

proof fn lemma_either(v: Json, a: Seq<char>, b: Seq<char>, part: Json)
    ensures
        holds_first(v, seq![a, b], part) ==> json_get(v, a) == Some(part) || (json_get(v, a) is None
            && json_get(v, b) == Some(part)),
        lacks_all(v, seq![a, b]) ==> json_get(v, a) is None && json_get(v, b) is None,
{
    let names = seq![a, b];
    lemma_first_of(v, names, part);
    assert(names[0] == a && names[1] == b);
    if holds_first(v, names, part) {
        let i = choose|i: int|
            0 <= i < names.len() && json_get(v, #[trigger] names[i]) == Some(part) && forall|j: int|
                0 <= j < i ==> json_get(v, #[trigger] names[j]) is None;
        if i > 0 {
            assert(json_get(v, names[0]) is None);
        }
    }
}

/// The place of the replies to a reply agrees with what is found by name.
proof fn lemma_nested(fields: Seq<(Seq<char>, Json)>, part: Json)
    ensures
        holds_first(Json::Fields(fields), reply_names(), part) ==> (nested_place(fields) matches Some(i)
            && 0 <= i < fields.len() && fields[i].1 == part),
        lacks_all(Json::Fields(fields), reply_names()) ==> nested_place(fields) is None,
{
    let v = Json::Fields(fields);
    lemma_either(v, "回复列表"@, "replies"@, part);
    lemma_field_place(fields, "回复列表"@);
    lemma_field_place(fields, "replies"@);
}

proof fn lemma_replies(p: Prepared, v: Json, r: Reply)
    requires
        reply_value(v, r),
    ensures
        with_replies(p, v).1 is None,
        with_replies(p, v).0.records == p.records + reply_records(r),
    decreases r, 1nat, 0nat,
{
    lemma_social(p, r.text);
    if r.nested.len() == 0 && v == Json::Text(r.text) {
        assert(p.records + reply_records(r) =~= p.records + social_records(r.text));
    } else {
        lemma_reply_content(v, Json::Text(r.text));
        let fields = v->Fields_0;
        let q = with_field(p, r.text, 1, true);
        assert(with_texts(p, Json::Text(r.text), 1, true) == (q, None::<Seq<char>>));
        if r.nested.len() == 0 && lacks_all(v, reply_names()) {
            lemma_nested(fields, Json::Null);
            assert(p.records + reply_records(r) =~= p.records + social_records(r.text));
        } else {
            let items = choose|items: Seq<Json>| #[trigger]
                holds_first(v, reply_names(), Json::List(items)) && items.len() == r.nested.len()
                    && forall|i: int|
                    0 <= i < r.nested.len() ==> reply_value(items[i], #[trigger] r.nested[i]);
            lemma_nested(fields, Json::List(items));
            lemma_reply_items(q, items, r.nested, items.len());
            assert(with_replies(q, Json::List(items)) == with_reply_items(q, items, items.len()));
            assert(with_replies(p, v) == with_replies(q, Json::List(items)));
            assert(p.records + social_records(r.text) + replies_records(
                r.nested,
                r.nested.len(),
            ) =~= p.records + reply_records(r));
        }
    }
}

proof fn lemma_reply_items(p: Prepared, items: Seq<Json>, replies: Seq<Reply>, n: nat)
    requires
        items.len() == replies.len(),
        n <= items.len(),
        forall|i: int|
            0 <= i < replies.len() ==> reply_value(items[i], #[trigger] replies[i]),
    ensures
        with_reply_items(p, items, n).1 is None,
        with_reply_items(p, items, n).0.records == p.records + replies_records(replies, n),
    decreases replies, 0nat, n,
{
    if n > 0 {
        lemma_reply_items(p, items, replies, (n - 1) as nat);
        let q = with_reply_items(p, items, (n - 1) as nat).0;
        assert(reply_value(items[n - 1], replies[n - 1]));
        lemma_replies(q, items[n - 1], replies[n - 1]);
        assert(p.records + replies_records(replies, (n - 1) as nat) + reply_records(replies[n - 1])
            =~= p.records + replies_records(replies, n));
    } else {
        assert(p.records + replies_records(replies, n) =~= p.records);
    }
}

/// A thread of a forum gives its title with weight 5, and with weight 1 what its author
/// wrote and every reply, each behind what it answers; the latter as social texts.
pub proof fn law_thread_gives_title_text_and_replies(
    p: Prepared,
    v: Json,
    title: Seq<char>,
    text: Seq<char>,
    items: Seq<Json>,
    replies: Seq<Reply>,
)
    requires
        holds_first(v, seq!["标题"@, "title"@], Json::Text(title)),
        holds_first(v, seq!["楼主内容"@, "content"@], Json::Text(text)),
        holds_first(v, reply_names(), Json::List(items)),
        items.len() == replies.len(),
        forall|i: int| 0 <= i < replies.len() ==> reply_value(items[i], #[trigger] replies[i]),
    ensures
        with_thread(p, v).1 is None,
        with_thread(p, v).0.records == p.records + (taken(title, 5) + social_records(text)
            + replies_records(replies, replies.len())),
{
    lemma_either(v, "标题"@, "title"@, Json::Text(title));
    lemma_either(v, "楼主内容"@, "content"@, Json::Text(text));
    lemma_either(v, "回复列表"@, "replies"@, Json::List(items));
    assert(v is Fields);
    lemma_records_of_field(p, title, 5);
    let a = with_field(p, title, 5, false);
    assert(with_texts(p, Json::Text(title), 5, false) == (a, None::<Seq<char>>));
    lemma_social(a, text);
    let b = with_field(a, text, 1, true);
    assert(with_texts(a, Json::Text(text), 1, true) == (b, None::<Seq<char>>));
    lemma_reply_items(b, items, replies, items.len());
    assert(with_replies(b, Json::List(items)) == with_reply_items(b, items, items.len()));
    assert(p.records + taken(title, 5) + social_records(text) + replies_records(
        replies,
        replies.len(),
    ) =~= p.records + (taken(title, 5) + social_records(text) + replies_records(
        replies,
        replies.len(),
    )));
}

/// The names of a title of a poem.
pub open spec fn title_names() -> Set<Seq<char>> {
    set!["title"@, "chapter"@, "section"@, "subchapter"@, "rhythmic"@]
}

/// The names of the lines of a poem.
pub open spec fn lines_names() -> Set<Seq<char>> {
    set!["paragraphs"@, "para"@, "content"@]
}

proof fn lemma_part_names(name: Seq<char>)
    ensures
        title_names().contains(name) ==> poem_part(name) is Title,
        lines_names().contains(name) ==> poem_part(name) is Body,
        !title_names().contains(name) && !lines_names().contains(name) && name != "preface"@ && name
            != "biography"@ ==> poem_part(name) is Other,
{
    reveal_strlit("title");
    reveal_strlit("chapter");
    reveal_strlit("section");
    reveal_strlit("subchapter");
    reveal_strlit("rhythmic");
    reveal_strlit("paragraphs");
    reveal_strlit("para");
    reveal_strlit("content");
    assert("content"@[0] == 'c' && "content"@[1] == 'o' && "chapter"@[1] == 'h' && "section"@[0]
        == 's' && "subchapter"@[0] == 's' && "paragraphs"@[0] == 'p' && "para"@[0] == 'p'
        && "title"@[0] == 't' && "rhythmic"@[0] == 'r');
}

/// A poem that is new gives its title with weight 20 and each of its lines with
/// weight 10. Its other fields, such as its author, give nothing.
pub proof fn law_new_poem_gives_title_and_lines(
    p: Prepared,
    title_name: Seq<char>,
    title: Seq<char>,
    other_name: Seq<char>,
    other: Seq<char>,
    lines_name: Seq<char>,
    lines: Seq<Seq<char>>,
)
    requires
        title_names().contains(title_name),
        lines_names().contains(lines_name),
        !title_names().contains(other_name),
        !lines_names().contains(other_name),
        other_name != "preface"@,
        other_name != "biography"@,
        p.bodies == Set::<BodyPrint>::empty(),
        p.titles == Set::<TitlePrint>::empty(),
        han_of(title).len() > 0,
        han_of(in_one(lines)).len() > 0,
    ensures
        with_poems(
            p,
            Json::Fields(
                seq![
                    (title_name, Json::Text(title)),
                    (other_name, Json::Text(other)),
                    (lines_name, Json::List(text_list(lines))),
                ],
            ),
        ).records == p.records + (taken(title, 20) + records_in(lines, 10)),
{
    let fields = seq![
        (title_name, Json::Text(title)),
        (other_name, Json::Text(other)),
        (lines_name, Json::List(text_list(lines))),
    ];
    let items = text_list(lines);
    lemma_part_names(title_name);
    lemma_part_names(other_name);
    lemma_part_names(lines_name);
    reveal_with_fuel(texts_of_part, 4);
    lemma_direct(lines, lines.len());
    let none = Seq::<Seq<char>>::empty();
    assert(lines.take(lines.len() as int) =~= lines);
    assert(direct_texts(Json::List(items)) == lines);
    let body = texts_of_part(fields, PoemPart::Body, 3);
    let supplement = texts_of_part(fields, PoemPart::Supplement, 3);
    let titles = texts_of_part(fields, PoemPart::Title, 3);
    assert(body =~= lines);
    assert(supplement =~= none);
    assert(direct_texts(Json::Text(title)) == seq![title]);
    assert(titles =~= seq![title]);
    law_editions_have_one_print(lines, lines);
    let print = print_of(lines)->Some_0;
    assert(in_one(seq![title]) =~= title) by {
        assert(seq![title].drop_last() =~= none);
        assert(in_one(seq![title].drop_last()) =~= Seq::empty());
    }
    law_editions_have_one_print(seq![title], seq![title]);
    let q = with_logical(p);
    let seen = TitlePrint { title: print_of(seq![title])->Some_0, poem: print };
    let q1 = Prepared { titles: q.titles.insert(seen), ..q };
    let q2 = with_field(q1, title, 20, false);
    lemma_records_of_field(q1, title, 20);
    lemma_records_of_runs(q1, all_runs(title, false), 20);
    assert(with_titles(q, titles, 0, print) == q);
    assert(with_title(q, title, print) == q2);
    assert(with_titles(q, titles, 1, print) == q2);
    law_new_body_gives_all_its_records(q2, lines);
    let q3 = with_body(q2, lines);
    assert(in_one(none) =~= Seq::empty());
    law_editions_have_one_print(none, none);
    assert(with_poem(p, fields) == q3);
    lemma_no_poems(q3, items, items.len());
    assert(with_poems(q3, Json::Text(title)) == q3);
    assert(with_poems(q3, Json::Text(other)) == q3);
    assert(with_poems(q3, Json::List(items)) == q3);
    assert(with_poem_fields(q3, fields, 0) == q3);
    assert(with_poem_fields(q3, fields, 1) == q3);
    assert(with_poem_fields(q3, fields, 2) == q3);
    assert(with_poem_fields(q3, fields, 3) == q3);
    assert(p.records + taken(title, 20) + records_in(lines, 10) =~= p.records + (taken(title, 20)
        + records_in(lines, 10)));
}

proof fn lemma_direct(lines: Seq<Seq<char>>, n: nat)
    requires
        n <= lines.len(),
    ensures
        direct_items(text_list(lines), n) == lines.take(n as int),
    decreases n,
{
    if n > 0 {
        lemma_direct(lines, (n - 1) as nat);
        assert(text_list(lines)[n - 1] == Json::Text(lines[n - 1]));
        assert(direct_texts(Json::Text(lines[n - 1])) == seq![lines[n - 1]]);
        assert(lines.take(n - 1) + seq![lines[n - 1]] =~= lines.take(n as int));
    } else {
        assert(lines.take(0) =~= Seq::empty());
    }
}

proof fn lemma_no_poems(p: Prepared, items: Seq<Json>, n: nat)
    requires
        n <= items.len(),
        forall|i: int| 0 <= i < items.len() ==> (#[trigger] items[i]) is Text,
    ensures
        with_poem_items(p, items, n) == p,
    decreases n,
{
    if n > 0 {
        lemma_no_poems(p, items, (n - 1) as nat);
        assert(items[n - 1] is Text);
        assert(with_poems(p, items[n - 1]) == p);
    }
}

} // verus!
