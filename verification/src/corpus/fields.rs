//! The records of the sources that are written in JSON.
use crate::corpus::find::{find_from, find_text};
use crate::corpus::json::{
    field_place, json_get, json_get_either, lemma_field_place, lemma_view_fields, lemma_view_list,
    Json, JsonValue,
};
use crate::corpus::preparer::{bump, bumped, with_field, Prepared, Preparer};
use crate::corpus::types::PrepareStats;
use crate::ordered::views;
use crate::text::{chars_of, find_char, first_place, spells, trim, trimmed};
use vstd::prelude::*;
use vstd::string::*;

verus! {

/// What is prepared, and why no more, if the record has a fault.
pub type Outcome = (Prepared, Option<Seq<char>>);

/// A field that is a text, null or absent.
pub open spec fn with_optional(p: Prepared, v: Option<Json>, weight: u64) -> Outcome {
    match v {
        None => (p, None),
        Some(Json::Null) => (p, None),
        Some(Json::Text(s)) => (with_field(p, s, weight, false), None),
        Some(_) => (p, Some("已选字段必须是字符串、null 或缺失"@)),
    }
}

/// A section of an article.
pub open spec fn with_section(p: Prepared, v: Json) -> Outcome {
    if !(v is Fields) {
        (p, Some("sections 元素必须是对象"@))
    } else {
        let a = with_optional(p, json_get(v, "title"@), 5);
        if a.1 is Some {
            a
        } else {
            with_optional(a.0, json_get(v, "content"@), 1)
        }
    }
}

/// The sections of an article, from the first on.
pub open spec fn with_sections(p: Prepared, items: Seq<Json>) -> Outcome
    decreases items.len(),
{
    if items.len() == 0 {
        (p, None)
    } else {
        let a = with_section(p, items[0]);
        if a.1 is Some {
            a
        } else {
            with_sections(a.0, items.skip(1))
        }
    }
}

/// The tags of an article, from the first on.
pub open spec fn with_tags(p: Prepared, items: Seq<Json>) -> Outcome
    decreases items.len(),
{
    if items.len() == 0 {
        (p, None)
    } else {
        match items[0] {
            Json::Text(s) => with_tags(with_field(p, s, 5, false), items.skip(1)),
            _ => (p, Some("tags 元素必须是字符串"@)),
        }
    }
}

/// The sections of an article, if it has any, and its tags.
pub open spec fn with_lists(p: Prepared, v: Json) -> Outcome {
    let a = match json_get(v, "sections"@) {
        None => (p, None),
        Some(Json::List(items)) => with_sections(p, items),
        Some(_) => (p, Some("sections 必须是数组或缺失"@)),
    };
    if a.1 is Some {
        a
    } else {
        match json_get(v, "tags"@) {
            None => (a.0, None),
            Some(Json::List(items)) => with_tags(a.0, items),
            Some(_) => (a.0, Some("tags 必须是数组或缺失"@)),
        }
    }
}

/// An article of the encyclopedia.
pub open spec fn with_article(p: Prepared, v: Json) -> Outcome {
    if !(v is Fields) {
        (p, Some("百度百科 JSONL 顶层必须是对象"@))
    } else {
        let a = with_optional(p, json_get(v, "title"@), 10);
        if a.1 is Some {
            a
        } else {
            let b = with_optional(a.0, json_get(v, "summary"@), 1);
            if b.1 is Some {
                b
            } else {
                with_lists(b.0, v)
            }
        }
    }
}

/// A page with its title.
pub open spec fn with_page(p: Prepared, v: Json) -> Outcome {
    if !(v is Fields) {
        (p, Some("Wikipedia JSONL 顶层必须是对象"@))
    } else {
        match json_get(v, "title"@) {
            Some(Json::Text(title)) => match json_get(v, "text"@) {
                Some(Json::Text(text)) => (
                    with_field(with_field(p, title, 10, false), text, 1, false),
                    None,
                ),
                _ => (p, Some("Wikipedia 记录缺少字符串 text"@)),
            },
            _ => (p, Some("Wikipedia 记录缺少字符串 title"@)),
        }
    }
}

/// The turns of a dialogue from a place on: what is prepared with those of the
/// user and of the assistant, and how many they are.
pub open spec fn with_turns(p: Prepared, s: Seq<char>, at: int, turns: nat) -> (Prepared, nat)
    decreases s.len() - at,
{
    match find_from(s, at, "<|im_start|>"@) {
        None => (p, turns),
        Some(start) => {
            let inner = start + 12;
            match find_from(s, inner, "<|im_end|>"@) {
                None => (p, turns),
                Some(end) => {
                    let next = end + 10;
                    if !(0 <= at < inner <= end && next <= s.len()) {
                        (p, turns)
                    } else {
                        let block = s.subrange(inner, end);
                        match first_place(block, '\n') {
                            None => with_turns(p, s, next, turns),
                            Some(n) => {
                                let role = trimmed(block.take(n));
                                if role == "user"@ || role == "assistant"@ {
                                    with_turns(
                                        with_field(p, block.skip(n + 1), 1, false),
                                        s,
                                        next,
                                        turns + 1,
                                    )
                                } else {
                                    with_turns(p, s, next, turns)
                                }
                            },
                        }
                    }
                },
            }
        },
    }
}

/// A record that was skipped.
pub open spec fn with_skipped(p: Prepared) -> Prepared {
    Prepared {
        stats: PrepareStats { skipped_records: bumped(p.stats.skipped_records, 1), ..p.stats },
        ..p
    }
}

/// A record that was read.
pub open spec fn with_logical(p: Prepared) -> Prepared {
    Prepared {
        stats: PrepareStats { logical_records: bumped(p.stats.logical_records, 1), ..p.stats },
        ..p
    }
}

/// A dialogue.
pub open spec fn with_dialogue(p: Prepared, v: Json) -> Outcome {
    match json_get(v, "text"@) {
        Some(Json::Text(text)) => {
            let (q, turns) = with_turns(p, text, 0, 0);
            (
                if turns == 0 {
                    with_skipped(q)
                } else {
                    q
                },
                None,
            )
        },
        _ => (p, Some("训练记录缺少字符串 text"@)),
    }
}

/// The fault of a text field that is something else.
pub open spec fn text_fault(social: bool) -> Seq<char> {
    if social {
        "社交文本字段必须是字符串、字符串数组或 null"@
    } else {
        "文本字段必须是字符串、字符串数组或 null"@
    }
}

/// A text, or texts in lists.
pub open spec fn with_texts(p: Prepared, v: Json, weight: u64, social: bool) -> Outcome
    decreases v,
{
    match v {
        Json::Null => (p, None),
        Json::Text(s) => (with_field(p, s, weight, social), None),
        Json::List(items) => with_text_items(p, items, items.len(), weight, social),
        _ => (p, Some(text_fault(social))),
    }
}

/// The first `n` texts of a list.
pub open spec fn with_text_items(
    p: Prepared,
    items: Seq<Json>,
    n: nat,
    weight: u64,
    social: bool,
) -> Outcome
    decreases items, n,
{
    if n == 0 || n > items.len() {
        (p, None)
    } else {
        let a = with_text_items(p, items, (n - 1) as nat, weight, social);
        if a.1 is Some {
            a
        } else {
            with_texts(a.0, items[n - 1], weight, social)
        }
    }
}

/// The content of a reply.
pub open spec fn reply_content(v: Json) -> Option<Json> {
    match json_get_either(v, "回复内容"@, "内容"@) {
        Some(found) => Some(found),
        None => json_get_either(v, "content"@, "text"@),
    }
}

/// A reply, or replies in lists, each with the replies to it.
pub open spec fn with_replies(p: Prepared, v: Json) -> Outcome
    decreases v,
{
    match v {
        Json::Null => (p, None),
        Json::Text(s) => (with_field(p, s, 1, true), None),
        Json::List(items) => with_reply_items(p, items, items.len()),
        Json::Fields(fields) => {
            let a = match reply_content(v) {
                Some(content) => with_texts(p, content, 1, true),
                None => (p, None),
            };
            if a.1 is Some {
                a
            } else {
                match nested_place(fields) {
                    Some(i) => if 0 <= i < fields.len() {
                        with_replies(a.0, fields[i].1)
                    } else {
                        (a.0, None)
                    },
                    None => (a.0, None),
                }
            }
        },
        _ => (p, Some("回复必须是字符串、对象、数组或 null"@)),
    }
}

/// The place of the replies to a reply.
pub open spec fn nested_place(fields: Seq<(Seq<char>, Json)>) -> Option<int> {
    match field_place(fields, "回复列表"@) {
        Some(i) => Some(i),
        None => field_place(fields, "replies"@),
    }
}

/// The first `n` replies of a list.
pub open spec fn with_reply_items(p: Prepared, items: Seq<Json>, n: nat) -> Outcome
    decreases items, n,
{
    if n == 0 || n > items.len() {
        (p, None)
    } else {
        let a = with_reply_items(p, items, (n - 1) as nat);
        if a.1 is Some {
            a
        } else {
            with_replies(a.0, items[n - 1])
        }
    }
}

/// A thread of a forum.
pub open spec fn with_thread(p: Prepared, v: Json) -> Outcome {
    if !(v is Fields) {
        (p, Some("Tieba 数组元素必须是对象"@))
    } else {
        let a = match json_get_either(v, "标题"@, "title"@) {
            Some(title) => with_texts(p, title, 5, false),
            None => (p, None),
        };
        if a.1 is Some {
            a
        } else {
            let b = match json_get_either(v, "楼主内容"@, "content"@) {
                Some(content) => with_texts(a.0, content, 1, true),
                None => (a.0, None),
            };
            if b.1 is Some {
                b
            } else {
                match json_get_either(v, "回复列表"@, "replies"@) {
                    Some(replies) => with_replies(b.0, replies),
                    None => (b.0, None),
                }
            }
        }
    }
}

/// The preparer after a record, and why no more of it.
pub open spec fn came_to(expected: Outcome, after: Preparer, r: Result<(), &'static str>) -> bool {
    &&& after@ == expected.0
    &&& match r {
        Ok(()) => expected.1 is None,
        Err(message) => expected.1 == Some(message@),
    }
}

/// A field that is a text, null or absent.
fn emit_optional_string(value: Option<&JsonValue>, weight: u64, preparer: &mut Preparer) -> (r:
    Result<(), &'static str>)
    ensures
        final(preparer).wf() == old(preparer).wf(),
        final(preparer).kind() == old(preparer).kind(),
        came_to(
            with_optional(
                old(preparer)@,
                match value {
                    Some(v) => Some(v@),
                    None => None,
                },
                weight,
            ),
            *final(preparer),
            r,
        ),
{
    match value {
        None => Ok(()),
        Some(value) => match value {
            JsonValue::Null => Ok(()),
            JsonValue::Text(text) => {
                let chars = chars_of(text.as_str());
                preparer.selected_text(chars.as_slice(), weight);
                Ok(())
            },
            _ => Err("已选字段必须是字符串、null 或缺失"),
        },
    }
}

/// An article of the encyclopedia.
pub(crate) fn emit_article(value: &JsonValue, preparer: &mut Preparer) -> (r: Result<
    (),
    &'static str,
>)
    ensures
        final(preparer).wf() == old(preparer).wf(),
        final(preparer).kind() == old(preparer).kind(),
        came_to(with_article(old(preparer)@, value@), *final(preparer), r),
{
    if value.as_object().is_none() {
        return Err("百度百科 JSONL 顶层必须是对象");
    }
    if let Err(e) = emit_optional_string(value.get("title"), 10, preparer) {
        return Err(e);
    }
    if let Err(e) = emit_optional_string(value.get("summary"), 1, preparer) {
        return Err(e);
    }
    if let Some(sections) = value.get("sections") {
        match sections.as_array() {
            None => {
                return Err("sections 必须是数组或缺失");
            },
            Some(items) => {
                if let Err(e) = emit_sections(items, preparer) {
                    return Err(e);
                }
            },
        }
    }
    if let Some(tags) = value.get("tags") {
        match tags.as_array() {
            None => {
                return Err("tags 必须是数组或缺失");
            },
            Some(items) => {
                if let Err(e) = emit_tags(items, preparer) {
                    return Err(e);
                }
            },
        }
    }
    Ok(())
}

fn emit_sections(items: &Vec<JsonValue>, preparer: &mut Preparer) -> (r: Result<(), &'static str>)
    ensures
        final(preparer).wf() == old(preparer).wf(),
        final(preparer).kind() == old(preparer).kind(),
        came_to(with_sections(old(preparer)@, views(items@)), *final(preparer), r),
{
    let ghost all = views(items@);
    let ghost start = preparer@;
    let mut i: usize = 0;
    assert(all.skip(0) =~= all);
    while i < items.len()
        invariant
            i <= items@.len(),
            all == views(items@),
            start == old(preparer)@,
            preparer.wf() == old(preparer).wf(),
            preparer.kind() == old(preparer).kind(),
            with_sections(start, all) == with_sections(preparer@, all.skip(i as int)),
        decreases items.len() - i,
    {
        let section = &items[i];
        proof {
            assert(all.skip(i as int)[0] == section@);
            assert(all.skip(i as int).skip(1) =~= all.skip(i + 1));
        }
        if section.as_object().is_none() {
            return Err("sections 元素必须是对象");
        }
        if let Err(e) = emit_optional_string(section.get("title"), 5, preparer) {
            return Err(e);
        }
        if let Err(e) = emit_optional_string(section.get("content"), 1, preparer) {
            return Err(e);
        }
        i += 1;
    }
    Ok(())
}

fn emit_tags(items: &Vec<JsonValue>, preparer: &mut Preparer) -> (r: Result<(), &'static str>)
    ensures
        final(preparer).wf() == old(preparer).wf(),
        final(preparer).kind() == old(preparer).kind(),
        came_to(with_tags(old(preparer)@, views(items@)), *final(preparer), r),
{
    let ghost all = views(items@);
    let ghost start = preparer@;
    let mut i: usize = 0;
    assert(all.skip(0) =~= all);
    while i < items.len()
        invariant
            i <= items@.len(),
            all == views(items@),
            start == old(preparer)@,
            preparer.wf() == old(preparer).wf(),
            preparer.kind() == old(preparer).kind(),
            with_tags(start, all) == with_tags(preparer@, all.skip(i as int)),
        decreases items.len() - i,
    {
        proof {
            assert(all.skip(i as int)[0] == items@[i as int]@);
            assert(all.skip(i as int).skip(1) =~= all.skip(i + 1));
        }
        match items[i].as_str() {
            None => {
                return Err("tags 元素必须是字符串");
            },
            Some(tag) => {
                let chars = chars_of(tag);
                preparer.selected_text(chars.as_slice(), 5);
            },
        }
        i += 1;
    }
    Ok(())
}

/// A page with its title.
pub(crate) fn emit_page(value: &JsonValue, preparer: &mut Preparer) -> (r: Result<
    (),
    &'static str,
>)
    ensures
        final(preparer).wf() == old(preparer).wf(),
        final(preparer).kind() == old(preparer).kind(),
        came_to(with_page(old(preparer)@, value@), *final(preparer), r),
{
    if value.as_object().is_none() {
        return Err("Wikipedia JSONL 顶层必须是对象");
    }
    let title = match value.get("title") {
        Some(title) => match title.as_str() {
            Some(title) => title,
            None => {
                return Err("Wikipedia 记录缺少字符串 title");
            },
        },
        None => {
            return Err("Wikipedia 记录缺少字符串 title");
        },
    };
    let text = match value.get("text") {
        Some(text) => match text.as_str() {
            Some(text) => text,
            None => {
                return Err("Wikipedia 记录缺少字符串 text");
            },
        },
        None => {
            return Err("Wikipedia 记录缺少字符串 text");
        },
    };
    let title = chars_of(title);
    let text = chars_of(text);
    preparer.selected_text(title.as_slice(), 10);
    preparer.selected_text(text.as_slice(), 1);
    Ok(())
}

/// The turns of the user and of the assistant; tells whether there are any.
#[verifier::rlimit(50)]
fn emit_chatml_turns(s: &Vec<char>, preparer: &mut Preparer) -> (r: bool)
    ensures
        final(preparer).wf() == old(preparer).wf(),
        final(preparer).kind() == old(preparer).kind(),
        final(preparer)@ == with_turns(old(preparer)@, s@, 0, 0).0,
        r == (with_turns(old(preparer)@, s@, 0, 0).1 > 0),
{
    let ghost all = with_turns(preparer@, s@, 0, 0);
    let start_mark = chars_of("<|im_start|>");
    let end_mark = chars_of("<|im_end|>");
    proof {
        reveal_strlit("<|im_start|>");
        reveal_strlit("<|im_end|>");
    }
    let ghost mut turns: nat = 0;
    let mut any = false;
    let mut at: usize = 0;
    while at <= s.len()
        invariant
            at <= s@.len(),
            start_mark@ == "<|im_start|>"@,
            end_mark@ == "<|im_end|>"@,
            start_mark@.len() == 12,
            end_mark@.len() == 10,
            preparer.wf() == old(preparer).wf(),
            preparer.kind() == old(preparer).kind(),
            any == (turns > 0),
            all == with_turns(old(preparer)@, s@, 0, 0),
            all == with_turns(preparer@, s@, at as int, turns),
        decreases s.len() - at,
    {
        let start: usize = match find_text(s.as_slice(), at, start_mark.as_slice()) {
            Some(start) => start,
            None => {
                return any;
            },
        };
        let inner: usize = start + 12;
        let end: usize = match find_text(s.as_slice(), inner, end_mark.as_slice()) {
            Some(end) => end,
            None => {
                return any;
            },
        };
        let next: usize = end + 10;
        let block = &s[inner..end];
        proof {
            assert(block@ == s@.subrange(inner as int, end as int));
        }
        if let Some(n) = find_char(block, '\n') {
            let head = &block[0..n];
            let role = trim(head);
            proof {
                assert(head@ =~= block@.take(n as int));
            }
            if spells(role, "user") || spells(role, "assistant") {
                let body = &block[n + 1..block.len()];
                proof {
                    assert(body@ =~= block@.skip(n + 1));
                    turns = turns + 1;
                }
                preparer.selected_text(body, 1);
                any = true;
            }
        }
        at = next;
    }
    any
}

/// A dialogue.
pub(crate) fn emit_dialogue(value: &JsonValue, preparer: &mut Preparer) -> (r: Result<
    (),
    &'static str,
>)
    ensures
        final(preparer).wf() == old(preparer).wf(),
        final(preparer).kind() == old(preparer).kind(),
        came_to(with_dialogue(old(preparer)@, value@), *final(preparer), r),
{
    let text = match value.get("text") {
        Some(text) => match text.as_str() {
            Some(text) => text,
            None => {
                return Err("训练记录缺少字符串 text");
            },
        },
        None => {
            return Err("训练记录缺少字符串 text");
        },
    };
    let chars = chars_of(text);
    if !emit_chatml_turns(&chars, preparer) {
        skip_record(preparer);
    }
    Ok(())
}

/// Counts a record that was skipped.
pub(crate) fn skip_record(preparer: &mut Preparer)
    ensures
        final(preparer).wf() == old(preparer).wf(),
        final(preparer).kind() == old(preparer).kind(),
        final(preparer)@ == with_skipped(old(preparer)@),
{
    let mut stats = preparer.stats();
    stats.skipped_records = bump(stats.skipped_records, 1);
    preparer.set_stats(stats);
}

/// Counts a record that was read.
pub(crate) fn count_record(preparer: &mut Preparer)
    ensures
        final(preparer).wf() == old(preparer).wf(),
        final(preparer).kind() == old(preparer).kind(),
        final(preparer)@ == with_logical(old(preparer)@),
{
    let mut stats = preparer.stats();
    stats.logical_records = bump(stats.logical_records, 1);
    preparer.set_stats(stats);
}

/// A text, or texts in lists.
fn emit_text_value(value: &JsonValue, weight: u64, social: bool, preparer: &mut Preparer) -> (r:
    Result<(), &'static str>)
    ensures
        final(preparer).wf() == old(preparer).wf(),
        final(preparer).kind() == old(preparer).kind(),
        came_to(with_texts(old(preparer)@, value@, weight, social), *final(preparer), r),
    decreases value,
{
    broadcast use lemma_view_list;

    match value {
        JsonValue::Null => Ok(()),
        JsonValue::Text(text) => {
            let chars = chars_of(text.as_str());
            if social {
                preparer.selected_social_text(chars.as_slice(), weight);
            } else {
                preparer.selected_text(chars.as_slice(), weight);
            }
            Ok(())
        },
        JsonValue::Array(values) => {
            let ghost all = views(values@);
            let ghost start = preparer@;
            let mut i: usize = 0;
            while i < values.len()
                invariant
                    i <= values@.len(),
                    *value == JsonValue::Array(*values),
                    value@ == Json::List(all),
                    all == views(values@),
                    start == old(preparer)@,
                    preparer.wf() == old(preparer).wf(),
                    preparer.kind() == old(preparer).kind(),
                    with_text_items(start, all, i as nat, weight, social) == (
                        preparer@,
                        None::<Seq<char>>,
                    ),
                decreases values.len() - i,
            {
                proof {
                    assert(all[i as int] == values@[i as int]@);
                }
                if let Err(e) = emit_text_value(&values[i], weight, social, preparer) {
                    proof {
                        lemma_text_fault_stays(start, all, (i + 1) as nat, all.len(), weight, social);
                    }
                    return Err(e);
                }
                i += 1;
            }
            Ok(())
        },
        _ => if social {
            Err("社交文本字段必须是字符串、字符串数组或 null")
        } else {
            Err("文本字段必须是字符串、字符串数组或 null")
        },
    }
}

proof fn lemma_text_fault_stays(
    p: Prepared,
    items: Seq<Json>,
    m: nat,
    n: nat,
    weight: u64,
    social: bool,
)
    requires
        m <= n <= items.len(),
        with_text_items(p, items, m, weight, social).1 is Some,
    ensures
        with_text_items(p, items, n, weight, social) == with_text_items(p, items, m, weight, social),
    decreases n,
{
    if m < n {
        lemma_text_fault_stays(p, items, m, (n - 1) as nat, weight, social);
    }
}

proof fn lemma_reply_fault_stays(p: Prepared, items: Seq<Json>, m: nat, n: nat)
    requires
        m <= n <= items.len(),
        with_reply_items(p, items, m).1 is Some,
    ensures
        with_reply_items(p, items, n) == with_reply_items(p, items, m),
    decreases n,
{
    if m < n {
        lemma_reply_fault_stays(p, items, m, (n - 1) as nat);
    }
}

/// A reply, or replies in lists, each with the replies to it.
fn emit_reply_value(value: &JsonValue, preparer: &mut Preparer) -> (r: Result<(), &'static str>)
    ensures
        final(preparer).wf() == old(preparer).wf(),
        final(preparer).kind() == old(preparer).kind(),
        came_to(with_replies(old(preparer)@, value@), *final(preparer), r),
    decreases value,
{
    broadcast use lemma_view_list;
    broadcast use lemma_view_fields;

    match value {
        JsonValue::Null => Ok(()),
        JsonValue::Text(text) => {
            let chars = chars_of(text.as_str());
            preparer.selected_social_text(chars.as_slice(), 1);
            Ok(())
        },
        JsonValue::Array(values) => {
            let ghost all = views(values@);
            let ghost start = preparer@;
            let mut i: usize = 0;
            while i < values.len()
                invariant
                    i <= values@.len(),
                    *value == JsonValue::Array(*values),
                    value@ == Json::List(all),
                    all == views(values@),
                    start == old(preparer)@,
                    preparer.wf() == old(preparer).wf(),
                    preparer.kind() == old(preparer).kind(),
                    with_reply_items(start, all, i as nat) == (preparer@, None::<Seq<char>>),
                decreases values.len() - i,
            {
                proof {
                    assert(all[i as int] == values@[i as int]@);
                }
                if let Err(e) = emit_reply_value(&values[i], preparer) {
                    proof {
                        lemma_reply_fault_stays(start, all, (i + 1) as nat, all.len());
                    }
                    return Err(e);
                }
                i += 1;
            }
            Ok(())
        },
        JsonValue::Object(fields) => {
            proof {
                lemma_field_place(views(fields@), "回复列表"@);
                lemma_field_place(views(fields@), "replies"@);
            }
            let content = match value.get_either("回复内容", "内容") {
                Some(found) => Some(found),
                None => value.get_either("content", "text"),
            };
            if let Some(content) = content {
                if let Err(e) = emit_text_value(content, 1, true, preparer) {
                    return Err(e);
                }
            }
            match value.get_either("回复列表", "replies") {
                Some(nested) => {
                    proof {
                        let i = choose|i: int|
                            0 <= i < fields@.len() && (#[trigger] fields@[i]).1 == *nested;
                        assert(decreases_to!(value => fields@[i].1));
                    }
                    emit_reply_value(nested, preparer)
                },
                None => Ok(()),
            }
        },
        _ => Err("回复必须是字符串、对象、数组或 null"),
    }
}

/// A thread of a forum.
pub(crate) fn emit_thread(value: &JsonValue, preparer: &mut Preparer) -> (r: Result<
    (),
    &'static str,
>)
    ensures
        final(preparer).wf() == old(preparer).wf(),
        final(preparer).kind() == old(preparer).kind(),
        came_to(with_thread(old(preparer)@, value@), *final(preparer), r),
{
    if value.as_object().is_none() {
        return Err("Tieba 数组元素必须是对象");
    }
    if let Some(title) = value.get_either("标题", "title") {
        if let Err(e) = emit_text_value(title, 5, false, preparer) {
            return Err(e);
        }
    }
    if let Some(content) = value.get_either("楼主内容", "content") {
        if let Err(e) = emit_text_value(content, 1, true, preparer) {
            return Err(e);
        }
    }
    if let Some(replies) = value.get_either("回复列表", "replies") {
        if let Err(e) = emit_reply_value(replies, preparer) {
            return Err(e);
        }
    }
    Ok(())
}

} // verus!
