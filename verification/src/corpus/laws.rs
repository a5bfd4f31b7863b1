//! What holds of every prepared source.
use crate::corpus::csv::{csv_end, csv_from, Row};
use crate::corpus::fields::{
    nested_place, reply_content, with_article, with_dialogue, with_lists, with_logical,
    with_optional, with_page, with_replies, with_reply_items, with_section, with_sections,
    with_skipped, with_tags, with_text_items, with_texts, with_thread, with_turns,
};
use crate::corpus::files::{with_files, SourceFile};
use crate::corpus::find::find_from;
use crate::corpus::json::{json_error_text, json_get, json_get_either, json_text, stands_text, Json};
use crate::corpus::poetry::{
    texts_of_part, with_body, with_fields, with_poem, with_poem_fields, with_poem_items, with_poems,
    with_titles, PoemPart,
};
use crate::corpus::preparer::{
    all_runs, bumped, kept, nothing_prepared, runs_of, shown, with_error, with_field,
    with_file_counted, with_invalid_line, with_record, with_records, without_address, Prepared,
    SAMPLE_LIMIT,
};
use crate::corpus::prints::{print_behind, print_of, BodyPrint, TitlePrint};
use crate::corpus::source::{
    byte_lines, source_start, threads_of, with_bad_line, with_bytes_counted, with_collection,
    with_comments_end, with_end, with_file, with_forum, with_forum_text, with_json_line,
    with_last_row, with_line, with_line_counted, with_lines, with_list_line, with_row, with_rows,
    with_text_line, with_threads, with_value, with_whole, with_word_line, without_line_end,
    SourceView,
};
use crate::corpus::types::{PrepareStats, SourceKind};
use crate::corpus::weights::count_at;
use crate::corpus::wiki::{tag_end, tag_of, wiki_feed};
use crate::corpus::xml::{
    decoded, with_end_tag, with_page_title, with_tag, with_xml_text, xml_end, xml_feed, xml_from,
    XmlState,
};
use crate::index::shard::raw_lines;
use crate::text::{first_place, trimmed, utf8_size};
use vstd::prelude::*;
use vstd::utf8::decode_utf8;

verus! {

/// A text that a record may have: not empty, and of Han characters alone.
pub open spec fn record_text(s: Seq<char>) -> bool {
    s.len() > 0 && forall|i: int| 0 <= i < s.len() ==> kept(#[trigger] s[i])
}

/// The number of characters of all records.
pub open spec fn record_chars(records: Seq<(Seq<char>, u64)>) -> nat
    decreases records.len(),
{
    if records.len() == 0 {
        0
    } else {
        record_chars(records.drop_last()) + records.last().0.len()
    }
}

/// The sum of the weights of all records.
pub open spec fn record_weights(records: Seq<(Seq<char>, u64)>) -> nat
    decreases records.len(),
{
    if records.len() == 0 {
        0
    } else {
        record_weights(records.drop_last()) + records.last().1 as nat
    }
}

/// How many records have a weight.
pub open spec fn records_weighing(records: Seq<(Seq<char>, u64)>, weight: u64) -> nat
    decreases records.len(),
{
    if records.len() == 0 {
        0
    } else {
        records_weighing(records.drop_last(), weight) + if records.last().1 == weight {
            1nat
        } else {
            0nat
        }
    }
}

/// As many as a report holds samples of, at most.
pub open spec fn at_most_samples(n: nat) -> nat {
    if n > SAMPLE_LIMIT {
        SAMPLE_LIMIT as nat
    } else {
        n
    }
}

/// What is prepared is in order: the records are of Han characters alone, with
/// weights that an index can take; the counts and the table of weights are those
/// of the records, the samples of records are the first of them, and there are as
/// many samples of faults as there are faults, up to the limit.
pub open spec fn in_order(p: Prepared) -> bool {
    &&& forall|i: int|
        0 <= i < p.records.len() ==> record_text((#[trigger] p.records[i]).0) && 0 < p.records[i].1
            <= i64::MAX
    &&& p.stats.emitted_records == bumped(0, p.records.len())
    &&& p.stats.emitted_han_chars == bumped(0, record_chars(p.records))
    &&& p.stats.emitted_weight == bumped(0, record_weights(p.records))
    &&& forall|w: u64| #[trigger]
        count_at(p.weights, w) == bumped(0, records_weighing(p.records, w))
    &&& forall|w: u64| #[trigger] p.weights.contains_key(w) ==> records_weighing(p.records, w) > 0
    &&& p.record_samples == p.records.take(at_most_samples(p.records.len()) as int)
    &&& p.error_samples.len() == at_most_samples(p.stats.parse_errors as nat)
}

proof fn lemma_record(p: Prepared, text: Seq<char>, weight: u64)
    requires
        0 < weight <= i64::MAX,
        in_order(p),
        record_text(text),
    ensures
        in_order(with_record(p, text, weight)),
{
    let q = with_record(p, text, weight);
    assert(q.records.drop_last() =~= p.records);
    assert forall|i: int| 0 <= i < q.records.len() implies record_text(
        (#[trigger] q.records[i]).0,
    ) by {
        if i < p.records.len() {
            assert(q.records[i] == p.records[i]);
        }
    }
    assert forall|w: u64| #[trigger] q.weights.contains_key(w) implies records_weighing(
        q.records,
        w,
    ) > 0 by {
        if w != weight {
            assert(p.weights.contains_key(w));
        }
    }
    assert forall|w: u64| #[trigger] count_at(q.weights, w) == bumped(
        0,
        records_weighing(q.records, w),
    ) by {
        assert(count_at(p.weights, w) == bumped(0, records_weighing(p.records, w)));
    }
    assert(q.record_samples =~= q.records.take(at_most_samples(q.records.len()) as int));
}

proof fn lemma_runs(s: Seq<char>, social: bool, n: nat)
    requires
        n <= s.len(),
    ensures
        forall|i: int|
            0 <= i < runs_of(s, social, n).0.len() ==> record_text(
                #[trigger] runs_of(s, social, n).0[i],
            ),
        forall|i: int|
            0 <= i < runs_of(s, social, n).1.len() ==> kept(#[trigger] runs_of(s, social, n).1[i]),
    decreases n,
{
    if n > 0 {
        lemma_runs(s, social, (n - 1) as nat);
        let (ended, open) = runs_of(s, social, (n - 1) as nat);
        let (ended1, open1) = runs_of(s, social, n);
        assert forall|i: int| 0 <= i < ended1.len() implies record_text(#[trigger] ended1[i]) by {
            if i < ended.len() {
                assert(ended1[i] == ended[i]);
            } else {
                assert(ended1[i] == open);
            }
        }
        assert forall|i: int| 0 <= i < open1.len() implies kept(#[trigger] open1[i]) by {
            if i < open.len() {
                assert(open1[i] == open[i]);
            }
        }
    }
}

proof fn lemma_records(p: Prepared, texts: Seq<Seq<char>>, weight: u64)
    requires
        0 < weight <= i64::MAX,
        in_order(p),
        forall|i: int| 0 <= i < texts.len() ==> record_text(#[trigger] texts[i]),
    ensures
        in_order(with_records(p, texts, weight)),
    decreases texts.len(),
{
    if texts.len() > 0 {
        assert forall|i: int| 0 <= i < texts.drop_last().len() implies record_text(
            #[trigger] texts.drop_last()[i],
        ) by {
            assert(texts.drop_last()[i] == texts[i]);
        }
        lemma_records(p, texts.drop_last(), weight);
        assert(record_text(texts[texts.len() - 1]));
        lemma_record(with_records(p, texts.drop_last(), weight), texts.last(), weight);
    }
}

/// A field keeps what is prepared in order.
pub proof fn lemma_field(p: Prepared, text: Seq<char>, weight: u64, social: bool)
    requires
        0 < weight <= i64::MAX,
        in_order(p),
    ensures
        in_order(with_field(p, text, weight, social)),
{
    let s = if social {
        without_address(text)
    } else {
        text
    };
    lemma_runs(s, social, s.len());
    let runs = all_runs(s, social);
    let (ended, open) = runs_of(s, social, s.len());
    assert forall|i: int| 0 <= i < runs.len() implies record_text(#[trigger] runs[i]) by {
        if i < ended.len() {
            assert(runs[i] == ended[i]);
        } else {
            assert(runs[i] == open);
        }
    }
    lemma_records(p, runs, weight);
}

/// A fault keeps what is prepared in order.
pub proof fn lemma_error(
    p: Prepared,
    source: Seq<char>,
    line: u64,
    message: Seq<char>,
    preview: Seq<char>,
)
    requires
        in_order(p),
    ensures
        in_order(with_error(p, source, line, message, preview)),
{
}

proof fn lemma_invalid(p: Prepared, source: Seq<char>, line: u64, bytes: Seq<u8>)
    requires
        in_order(p),
    ensures
        in_order(with_invalid_line(p, source, line, bytes)),
{
}

proof fn lemma_counts(p: Prepared, size: nat)
    requires
        in_order(p),
    ensures
        in_order(with_logical(p)),
        in_order(with_skipped(p)),
        in_order(with_line_counted(p, size)),
        in_order(with_bytes_counted(p, size)),
{
}

proof fn lemma_optional(p: Prepared, v: Option<Json>, weight: u64)
    requires
        0 < weight <= i64::MAX,
        in_order(p),
    ensures
        in_order(with_optional(p, v, weight).0),
{
    if let Some(Json::Text(s)) = v {
        lemma_field(p, s, weight, false);
    }
}

proof fn lemma_sections(p: Prepared, items: Seq<Json>)
    requires
        in_order(p),
    ensures
        in_order(with_sections(p, items).0),
    decreases items.len(),
{
    if items.len() > 0 {
        let v = items[0];
        lemma_optional(p, json_get(v, "title"@), 5);
        lemma_optional(with_optional(p, json_get(v, "title"@), 5).0, json_get(v, "content"@), 1);
        let a = with_section(p, v);
        assert(in_order(a.0));
        if a.1 is None {
            lemma_sections(a.0, items.skip(1));
        }
    }
}

proof fn lemma_tags(p: Prepared, items: Seq<Json>)
    requires
        in_order(p),
    ensures
        in_order(with_tags(p, items).0),
    decreases items.len(),
{
    if items.len() > 0 {
        if let Json::Text(s) = items[0] {
            lemma_field(p, s, 5, false);
            lemma_tags(with_field(p, s, 5, false), items.skip(1));
        }
    }
}

proof fn lemma_article(p: Prepared, v: Json)
    requires
        in_order(p),
    ensures
        in_order(with_article(p, v).0),
{
    lemma_optional(p, json_get(v, "title"@), 10);
    let a = with_optional(p, json_get(v, "title"@), 10);
    lemma_optional(a.0, json_get(v, "summary"@), 1);
    let b = with_optional(a.0, json_get(v, "summary"@), 1);
    let c = match json_get(v, "sections"@) {
        None => (b.0, None),
        Some(Json::List(items)) => with_sections(b.0, items),
        Some(_) => (b.0, Some("sections 必须是数组或缺失"@)),
    };
    if let Some(Json::List(items)) = json_get(v, "sections"@) {
        lemma_sections(b.0, items);
    }
    assert(in_order(c.0));
    if let Some(Json::List(items)) = json_get(v, "tags"@) {
        lemma_tags(c.0, items);
    }
    assert(in_order(with_lists(b.0, v).0));
}

proof fn lemma_page(p: Prepared, v: Json)
    requires
        in_order(p),
    ensures
        in_order(with_page(p, v).0),
{
    if let Some(Json::Text(title)) = json_get(v, "title"@) {
        if let Some(Json::Text(text)) = json_get(v, "text"@) {
            lemma_field(p, title, 10, false);
            lemma_field(with_field(p, title, 10, false), text, 1, false);
        }
    }
}

proof fn lemma_turns(p: Prepared, s: Seq<char>, at: int, turns: nat)
    requires
        in_order(p),
    ensures
        in_order(with_turns(p, s, at, turns).0),
    decreases s.len() - at,
{
    if let Some(start) = find_from(s, at, "<|im_start|>"@) {
        let inner = start + 12;
        if let Some(end) = find_from(s, inner, "<|im_end|>"@) {
            let next = end + 10;
            if 0 <= at < inner <= end && next <= s.len() {
                let block = s.subrange(inner, end);
                lemma_turns(p, s, next, turns);
                if let Some(n) = first_place(block, '\n') {
                    let q = with_field(p, block.skip(n + 1), 1, false);
                    lemma_field(p, block.skip(n + 1), 1, false);
                    lemma_turns(q, s, next, turns + 1);
                }
            }
        }
    }
}

proof fn lemma_dialogue(p: Prepared, v: Json)
    requires
        in_order(p),
    ensures
        in_order(with_dialogue(p, v).0),
{
    if let Some(Json::Text(text)) = json_get(v, "text"@) {
        lemma_turns(p, text, 0, 0);
        lemma_counts(with_turns(p, text, 0, 0).0, 0);
    }
}

proof fn lemma_texts(p: Prepared, v: Json, weight: u64, social: bool)
    requires
        0 < weight <= i64::MAX,
        in_order(p),
    ensures
        in_order(with_texts(p, v, weight, social).0),
    decreases v,
{
    match v {
        Json::Text(s) => {
            lemma_field(p, s, weight, social);
        },
        Json::List(items) => {
            lemma_text_items(p, items, items.len(), weight, social);
        },
        _ => {},
    }
}

proof fn lemma_text_items(p: Prepared, items: Seq<Json>, n: nat, weight: u64, social: bool)
    requires
        0 < weight <= i64::MAX,
        in_order(p),
    ensures
        in_order(with_text_items(p, items, n, weight, social).0),
    decreases items, n,
{
    if 0 < n <= items.len() {
        lemma_text_items(p, items, (n - 1) as nat, weight, social);
        let a = with_text_items(p, items, (n - 1) as nat, weight, social);
        lemma_texts(a.0, items[n - 1], weight, social);
    }
}

proof fn lemma_replies(p: Prepared, v: Json)
    requires
        in_order(p),
    ensures
        in_order(with_replies(p, v).0),
    decreases v,
{
    match v {
        Json::Text(s) => {
            lemma_field(p, s, 1, true);
        },
        Json::List(items) => {
            lemma_reply_items(p, items, items.len());
        },
        Json::Fields(fields) => {
            let a = match reply_content(v) {
                Some(content) => with_texts(p, content, 1, true),
                None => (p, None),
            };
            if let Some(content) = reply_content(v) {
                lemma_texts(p, content, 1, true);
            }
            assert(in_order(a.0));
            if let Some(i) = nested_place(fields) {
                if 0 <= i < fields.len() {
                    lemma_replies(a.0, fields[i].1);
                }
            }
        },
        _ => {},
    }
}

proof fn lemma_reply_items(p: Prepared, items: Seq<Json>, n: nat)
    requires
        in_order(p),
    ensures
        in_order(with_reply_items(p, items, n).0),
    decreases items, n,
{
    if 0 < n <= items.len() {
        lemma_reply_items(p, items, (n - 1) as nat);
        lemma_replies(with_reply_items(p, items, (n - 1) as nat).0, items[n - 1]);
    }
}

proof fn lemma_thread(p: Prepared, v: Json)
    requires
        in_order(p),
    ensures
        in_order(with_thread(p, v).0),
{
    let a = match json_get_either(v, "标题"@, "title"@) {
        Some(title) => with_texts(p, title, 5, false),
        None => (p, None),
    };
    if let Some(title) = json_get_either(v, "标题"@, "title"@) {
        lemma_texts(p, title, 5, false);
    }
    let b = match json_get_either(v, "楼主内容"@, "content"@) {
        Some(content) => with_texts(a.0, content, 1, true),
        None => (a.0, None),
    };
    if let Some(content) = json_get_either(v, "楼主内容"@, "content"@) {
        lemma_texts(a.0, content, 1, true);
    }
    if let Some(replies) = json_get_either(v, "回复列表"@, "replies"@) {
        lemma_replies(b.0, replies);
    }
}

proof fn lemma_fields(p: Prepared, texts: Seq<Seq<char>>, n: nat, weight: u64)
    requires
        0 < weight <= i64::MAX,
        in_order(p),
    ensures
        in_order(with_fields(p, texts, n, weight)),
    decreases n,
{
    if 0 < n <= texts.len() {
        lemma_fields(p, texts, (n - 1) as nat, weight);
        lemma_field(with_fields(p, texts, (n - 1) as nat, weight), texts[n - 1], weight, false);
    }
}

proof fn lemma_titles(p: Prepared, titles: Seq<Seq<char>>, n: nat, poem: BodyPrint)
    requires
        in_order(p),
    ensures
        in_order(with_titles(p, titles, n, poem)),
    decreases n,
{
    if 0 < n <= titles.len() {
        lemma_titles(p, titles, (n - 1) as nat, poem);
        let q = with_titles(p, titles, (n - 1) as nat, poem);
        let title = titles[n - 1];
        if let Some(print) = print_of(seq![title]) {
            let seen = TitlePrint { title: print, poem };
            let r = Prepared { titles: q.titles.insert(seen), ..q };
            assert(in_order(r));
            lemma_field(r, title, 20, false);
        }
    }
}

proof fn lemma_body(p: Prepared, texts: Seq<Seq<char>>)
    requires
        in_order(p),
    ensures
        in_order(with_body(p, texts)),
{
    if let Some(print) = print_of(texts) {
        let r = Prepared { bodies: p.bodies.insert(print), ..p };
        assert(in_order(r));
        lemma_fields(r, texts, texts.len(), 10);
    }
}

proof fn lemma_poem(p: Prepared, fields: Seq<(Seq<char>, Json)>)
    requires
        in_order(p),
    ensures
        in_order(with_poem(p, fields)),
{
    let body = texts_of_part(fields, PoemPart::Body, fields.len());
    let supplement = texts_of_part(fields, PoemPart::Supplement, fields.len());
    let titles = texts_of_part(fields, PoemPart::Title, fields.len());
    let poem = match print_of(body) {
        Some(print) => Some(print),
        None => print_of(supplement),
    };
    let a = match poem {
        Some(print) => with_titles(with_logical(p), titles, titles.len(), print),
        None => p,
    };
    if let Some(print) = poem {
        lemma_counts(p, 0);
        lemma_titles(with_logical(p), titles, titles.len(), print);
    }
    lemma_body(a, body);
    lemma_body(with_body(a, body), supplement);
}

proof fn lemma_poems(p: Prepared, v: Json)
    requires
        in_order(p),
    ensures
        in_order(with_poems(p, v)),
    decreases v,
{
    match v {
        Json::List(items) => {
            lemma_poem_items(p, items, items.len());
        },
        Json::Fields(fields) => {
            lemma_poem(p, fields);
            lemma_poem_fields(with_poem(p, fields), fields, fields.len());
        },
        _ => {},
    }
}

proof fn lemma_poem_items(p: Prepared, items: Seq<Json>, n: nat)
    requires
        in_order(p),
    ensures
        in_order(with_poem_items(p, items, n)),
    decreases items, n,
{
    if 0 < n <= items.len() {
        lemma_poem_items(p, items, (n - 1) as nat);
        lemma_poems(with_poem_items(p, items, (n - 1) as nat), items[n - 1]);
    }
}

proof fn lemma_poem_fields(p: Prepared, fields: Seq<(Seq<char>, Json)>, n: nat)
    requires
        in_order(p),
    ensures
        in_order(with_poem_fields(p, fields, n)),
    decreases fields, n,
{
    if 0 < n <= fields.len() {
        lemma_poem_fields(p, fields, (n - 1) as nat);
        lemma_poems(with_poem_fields(p, fields, (n - 1) as nat), fields[n - 1].1);
    }
}

proof fn lemma_page_title(x: XmlState, p: Prepared)
    requires
        in_order(p),
    ensures
        in_order(with_page_title(x, p).1),
{
    lemma_field(p, x.title, 10, false);
}

proof fn lemma_xml_text(x: XmlState, p: Prepared, source: Seq<char>, raw: Seq<char>)
    requires
        in_order(p),
    ensures
        in_order(with_xml_text(x, p, source, raw).1),
{
    lemma_page_title(x, p);
    let (y, q) = with_page_title(x, p);
    let (wiki, shown) = wiki_feed(y.wiki, decoded(raw));
    lemma_field(q, shown, 1, false);
    let q1 = if trimmed(shown).len() > 0 {
        with_field(q, shown, 1, false)
    } else {
        q
    };
    lemma_error(q1, source, 0, "MediaWiki 内部链接超过 1 MiB，已丢弃"@, Seq::empty());
}

proof fn lemma_tag(x: XmlState, p: Prepared, source: Seq<char>, line: u64, inner: Seq<char>)
    requires
        in_order(p),
    ensures
        in_order(with_tag(x, p, source, line, inner).1),
{
    lemma_error(p, source, line, "MediaWiki ns 不是整数"@, x.namespace_text);
    lemma_page_title(x, p);
    lemma_counts(with_page_title(x, p).1, 0);
    assert(in_order(with_end_tag(x, p, source, line, tag_of(inner).name).1));
}

#[verifier::rlimit(30)]
proof fn lemma_xml_from(
    x: XmlState,
    p: Prepared,
    source: Seq<char>,
    line: u64,
    s: Seq<char>,
    at: int,
)
    requires
        in_order(p),
    ensures
        in_order(xml_from(x, p, source, line, s, at).1),
    decreases s.len() - at,
{
    if 0 <= at < s.len() {
        match first_place(s.skip(at), '<') {
            None => {
                lemma_xml_text(x, p, source, s.skip(at));
            },
            Some(i) => {
                let t = at + i;
                lemma_xml_text(x, p, source, s.subrange(at, t));
                let (y, q) = with_xml_text(x, p, source, s.subrange(at, t));
                if stands_text(s, t, "<!--"@) {
                    if let Some(e) = find_from(s, t + 4, "-->"@) {
                        if at < e + 3 <= s.len() {
                            lemma_xml_from(y, q, source, line, s, e + 3);
                        }
                    }
                } else if stands_text(s, t, "<![CDATA["@) {
                    if let Some(e) = find_from(s, t + 9, "]]>"@) {
                        if at < e + 3 <= s.len() {
                            lemma_xml_text(y, q, source, s.subrange(t + 9, e));
                            let (z, r) = with_xml_text(y, q, source, s.subrange(t + 9, e));
                            lemma_xml_from(z, r, source, line, s, e + 3);
                        }
                    }
                } else if stands_text(s, t, "<?"@) {
                    if let Some(e) = find_from(s, t + 2, "?>"@) {
                        if at < e + 2 <= s.len() {
                            lemma_xml_from(y, q, source, line, s, e + 2);
                        }
                    }
                } else {
                    if let Some(e) = tag_end(s, t + 1, None) {
                        if at < e + 1 <= s.len() {
                            lemma_tag(y, q, source, line, s.subrange(t + 1, e));
                            let (z, r) = with_tag(y, q, source, line, s.subrange(t + 1, e));
                            lemma_xml_from(z, r, source, line, s, e + 1);
                        }
                    }
                }
            },
        }
    }
}

proof fn lemma_xml(x: XmlState, p: Prepared, source: Seq<char>, line: u64, chunk: Seq<char>)
    requires
        in_order(p),
    ensures
        in_order(xml_feed(x, p, source, line, chunk).1),
        in_order(xml_end(x, p, source, line)),
{
    let s = x.pending + chunk;
    let z = XmlState { pending: Seq::empty(), ..x };
    lemma_xml_from(z, p, source, line, s, 0);
    let (y, q, at) = xml_from(z, p, source, line, s, 0);
    lemma_error(q, source, line, "XML 未闭合标签/注释超过 1 MiB，已重置解析状态"@, s.skip(at));
    lemma_error(p, source, line, "XML 文件末尾存在未闭合结构"@, x.pending);
    let e = if trimmed(x.pending).len() > 0 {
        with_error(p, source, line, "XML 文件末尾存在未闭合结构"@, x.pending)
    } else {
        p
    };
    lemma_page_title(x, e);
    lemma_error(
        with_page_title(x, e).1,
        source,
        line,
        "XML 文件末尾 page 未闭合"@,
        Seq::empty(),
    );
}

proof fn lemma_word_line(
    x: SourceView,
    p: Prepared,
    source: Seq<char>,
    number: u64,
    content: Seq<char>,
)
    requires
        in_order(p),
    ensures
        in_order(with_word_line(x, p, source, number, content).1),
{
    let end = first_place(content, '`');
    let words = match end {
        Some(i) => content.take(i),
        None => content,
    };
    let q = match end {
        Some(i) => {
            let trailing = trimmed(content.skip(i + 1));
            if trailing.len() > 0 && trailing != ";"@ {
                with_error(p, source, number, "词表结束反引号后含未知内容"@, trailing)
            } else {
                p
            }
        },
        None => p,
    };
    assert(in_order(q));
    lemma_counts(q, 0);
    lemma_field(with_logical(q), trimmed(words), 20, false);
}

proof fn lemma_list_line(
    x: SourceView,
    p: Prepared,
    source: Seq<char>,
    number: u64,
    text: Seq<char>,
)
    requires
        in_order(p),
    ensures
        in_order(with_list_line(x, p, source, number, text).1),
{
    lemma_word_line(x, p, source, number, text);
    if let Some(i) = first_place(text, '`') {
        lemma_word_line(x, p, source, number, text.skip(i + 1));
    }
    lemma_error(p, source, number, "词表模板字符串前出现未知内容"@, text);
}

proof fn lemma_json_line(
    kind: SourceKind,
    p: Prepared,
    source: Seq<char>,
    number: u64,
    text: Seq<char>,
)
    requires
        in_order(p),
    ensures
        in_order(with_json_line(kind, p, source, number, text)),
{
    lemma_counts(p, 0);
    if let Ok(v) = json_text(text) {
        lemma_article(p, v);
        lemma_page(p, v);
        lemma_dialogue(p, v);
        let a = with_value(kind, p, v);
        lemma_counts(a.0, 0);
    }
}

proof fn lemma_rows(
    x: SourceView,
    p: Prepared,
    source: Seq<char>,
    number: u64,
    rows: Seq<Row>,
    n: nat,
)
    requires
        in_order(p),
    ensures
        in_order(with_rows(x, p, source, number, rows, n).1),
    decreases n,
{
    if 0 < n <= rows.len() {
        lemma_rows(x, p, source, number, rows, (n - 1) as nat);
        let (y, q) = with_rows(x, p, source, number, rows, (n - 1) as nat);
        let row = rows[n - 1];
        lemma_counts(q, 0);
        if let Some(c) = y.column {
            lemma_field(with_logical(q), row[c], 1, true);
        }
        assert(in_order(with_row(y, q, source, number, row).1));
    }
}

proof fn lemma_comments_end(x: SourceView, p: Prepared, source: Seq<char>)
    requires
        in_order(p),
    ensures
        in_order(with_comments_end(x, p, source)),
{
    let (csv, rows) = csv_end(x.csv);
    lemma_counts(p, 0);
    if let Some(c) = x.column {
        lemma_field(with_logical(p), rows[0][c], 1, true);
    }
    let q = if rows.len() > 0 {
        with_last_row(x, p, rows[0])
    } else {
        p
    };
    assert(in_order(q));
    lemma_error(
        q,
        source,
        q.stats.physical_lines,
        "Bilibili CSV 存在未闭合或位置错误的引号"@,
        Seq::empty(),
    );
}

proof fn lemma_line(kind: SourceKind, x: SourceView, p: Prepared, source: Seq<char>, raw: Seq<u8>)
    requires
        in_order(p),
    ensures
        in_order(with_line(kind, x, p, source, raw).1),
{
    let number = bumped(x.line, 1);
    let y = SourceView { line: number, ..x };
    let q = with_line_counted(p, raw.len());
    let bytes = without_line_end(raw);
    let text = decode_utf8(bytes);
    lemma_counts(p, raw.len());
    lemma_invalid(q, source, number, bytes);
    lemma_list_line(y, q, source, number, text);
    lemma_json_line(kind, q, source, number, text);
    lemma_xml(y.xml, q, source, number, text.push('\n'));
    let (csv, rows) = csv_from(y.csv, text.push('\n'), 0, Seq::empty());
    lemma_rows(SourceView { csv, ..y }, q, source, number, rows, rows.len());
    assert(in_order(with_bad_line(kind, y, q, source, number, bytes).1));
    assert(in_order(with_text_line(kind, y, q, source, number, text).1));
}

proof fn lemma_lines(
    kind: SourceKind,
    x: SourceView,
    p: Prepared,
    source: Seq<char>,
    lines: Seq<Seq<u8>>,
    n: nat,
)
    requires
        in_order(p),
    ensures
        in_order(with_lines(kind, x, p, source, lines, n).1),
    decreases n,
{
    if 0 < n <= lines.len() {
        lemma_lines(kind, x, p, source, lines, (n - 1) as nat);
        let (y, q) = with_lines(kind, x, p, source, lines, (n - 1) as nat);
        lemma_line(kind, y, q, source, lines[n - 1]);
    }
}

proof fn lemma_threads(p: Prepared, source: Seq<char>, items: Seq<Json>, n: nat)
    requires
        in_order(p),
    ensures
        in_order(with_threads(p, source, items, n)),
    decreases n,
{
    if 0 < n <= items.len() {
        lemma_threads(p, source, items, (n - 1) as nat);
        let before = with_threads(p, source, items, (n - 1) as nat);
        lemma_thread(before, items[n - 1]);
        lemma_counts(with_thread(before, items[n - 1]).0, 0);
    }
}

proof fn lemma_whole(kind: SourceKind, p: Prepared, source: Seq<char>, bytes: Seq<u8>)
    requires
        in_order(p),
    ensures
        in_order(with_whole(kind, p, source, bytes)),
{
    let q = with_bytes_counted(p, bytes.len());
    let text = decode_utf8(bytes);
    lemma_counts(p, bytes.len());
    lemma_invalid(q, source, 0, bytes);
    lemma_counts(with_invalid_line(q, source, 0, bytes), 0);
    let large = with_error(q, source, 0, "Tieba JSON 超过 64 MiB 上限"@, Seq::empty());
    lemma_counts(large, 0);
    match json_text(text) {
        Ok(v) => {
            if let Some(items) = threads_of(v) {
                lemma_threads(q, source, items, items.len());
            }
            let odd = with_error(
                q,
                source,
                0,
                "Tieba 顶层必须是数组或含 data/threads 数组"@,
                text,
            );
            lemma_counts(odd, 0);
        },
        Err((at, message)) => {
            let bad = with_error(
                q,
                source,
                0,
                json_error_text(utf8_size(text.take(at)), message),
                text,
            );
            lemma_counts(bad, 0);
        },
    }
    assert(in_order(with_forum_text(q, source, text)));
    assert(in_order(with_forum(p, source, bytes)));
    let r = Prepared {
        stats: PrepareStats {
            physical_lines: bumped(
                q.stats.physical_lines,
                raw_lines(text).len(),
            ),
            ..q.stats
        },
        ..q
    };
    assert(in_order(r));
    if let Ok(v) = json_text(text) {
        lemma_poems(r, v);
    }
    assert(in_order(with_collection(p, source, bytes)));
}

proof fn lemma_file(kind: SourceKind, p: Prepared, source: Seq<char>, bytes: Seq<u8>)
    requires
        in_order(p),
    ensures
        in_order(with_file(kind, p, source, bytes)),
{
    let lines = byte_lines(bytes);
    lemma_lines(kind, source_start(), p, source, lines, lines.len());
    let (x, q) = with_lines(kind, source_start(), p, source, lines, lines.len());
    lemma_xml(x.xml, q, source, x.line, Seq::empty());
    lemma_comments_end(x, q, source);
    assert(in_order(with_end(kind, x, q, source)));
    lemma_whole(kind, p, source, bytes);
}

/// Whatever its files hold, what a source gives is in order: the records are of
/// Han characters alone, with weights that an index can take; the counts and the
/// table of weights are those of the records, and the samples are bounded.
pub proof fn law_prepared_source_is_in_order(kind: SourceKind, files: Seq<SourceFile>, n: nat)
    ensures
        in_order(with_files(kind, files, n)),
    decreases n,
{
    if 0 < n <= files.len() {
        law_prepared_source_is_in_order(kind, files, (n - 1) as nat);
        let seen = with_file_counted(with_files(kind, files, (n - 1) as nat));
        assert(in_order(seen));
        lemma_file(kind, seen, files[n - 1].path@, files[n - 1].bytes@);
    } else {
        let p = nothing_prepared();
        assert(p.records.take(0) =~= Seq::empty());
        assert forall|w: u64| #[trigger] count_at(p.weights, w) == bumped(
            0,
            records_weighing(p.records, w),
        ) by {}
    }
}

proof fn lemma_record_prints(p: Prepared, texts: Seq<Seq<char>>, weight: u64)
    ensures
        with_records(p, texts, weight).bodies == p.bodies,
        with_records(p, texts, weight).titles == p.titles,
    decreases texts.len(),
{
    if texts.len() > 0 {
        lemma_record_prints(p, texts.drop_last(), weight);
    }
}

proof fn lemma_field_prints(p: Prepared, texts: Seq<Seq<char>>, n: nat, weight: u64)
    ensures
        with_fields(p, texts, n, weight).bodies == p.bodies,
        with_fields(p, texts, n, weight).titles == p.titles,
    decreases n,
{
    if 0 < n <= texts.len() {
        lemma_field_prints(p, texts, (n - 1) as nat, weight);
        let q = with_fields(p, texts, (n - 1) as nat, weight);
        lemma_record_prints(q, all_runs(texts[n - 1], false), weight);
    }
}

/// A body whose fingerprint has been seen gives no further record.
pub proof fn law_seen_poem_gives_no_record(
    p: Prepared,
    first: Seq<Seq<char>>,
    again: Seq<Seq<char>>,
)
    requires
        print_of(first) == print_of(again),
    ensures
        with_body(with_body(p, first), again) == with_body(p, first),
{
    if let Some(print) = print_of(first) {
        let seen = Prepared { bodies: p.bodies.insert(print), ..p };
        lemma_field_prints(seen, first, first.len(), 10);
        assert(with_body(p, first).bodies.contains(print));
    }
}

/// The fingerprint of texts depends on their Han characters alone: a character
/// that is none, between others, does not change it.
pub proof fn law_print_ignores_other_characters(p: BodyPrint, s: Seq<char>, c: char)
    requires
        !kept(c),
    ensures
        print_behind(p, s.push(c)) == print_behind(p, s),
{
    assert(s.push(c).drop_last() =~= s);
}

proof fn lemma_runs_of_first(a: Seq<char>, s: Seq<char>, n: nat)
    requires
        n <= a.len() <= s.len(),
        s.take(a.len() as int) == a,
    ensures
        runs_of(s, false, n) == runs_of(a, false, n),
    decreases n,
{
    if n > 0 {
        lemma_runs_of_first(a, s, (n - 1) as nat);
        assert(s.take(a.len() as int)[n - 1] == s[n - 1]);
    }
}

proof fn lemma_runs_of_rest(a: Seq<char>, c: char, b: Seq<char>, n: nat)
    requires
        !kept(c),
        n <= b.len(),
    ensures
        runs_of(a.push(c) + b, false, (a.len() + 1 + n) as nat) == (
            all_runs(a, false) + runs_of(b, false, n).0,
            runs_of(b, false, n).1,
        ),
    decreases n,
{
    let s = a.push(c) + b;
    if n == 0 {
        assert(s.take(a.len() as int) =~= a);
        lemma_runs_of_first(a, s, a.len());
        assert(s[a.len() as int] == c);
        assert(all_runs(a, false) + Seq::<Seq<char>>::empty() =~= all_runs(a, false));
    } else {
        lemma_runs_of_rest(a, c, b, (n - 1) as nat);
        assert(s[(a.len() + n) as int] == b[n - 1]);
        let (ended, open) = runs_of(b, false, (n - 1) as nat);
        assert(all_runs(a, false) + ended.push(open) =~= (all_runs(a, false) + ended).push(open));
    }
}

/// A character that is not Han parts the records before it from those behind
/// it: the runs of a text are those before it and those behind it.
pub proof fn law_other_characters_part_records(a: Seq<char>, c: char, b: Seq<char>)
    requires
        !kept(c),
    ensures
        all_runs(a.push(c) + b, false) == all_runs(a, false) + all_runs(b, false),
{
    lemma_runs_of_rest(a, c, b, b.len());
    let (ended, open) = runs_of(b, false, b.len());
    assert((a.push(c) + b).len() == a.len() + 1 + b.len());
    assert(all_runs(a, false) + ended.push(open) =~= (all_runs(a, false) + ended).push(open));
}

/// A run stands from `i` to `j`: every character there is shown, and none
/// before it or behind it.
pub open spec fn stands_as_run(s: Seq<char>, social: bool, run: Seq<char>, i: int, j: int) -> bool {
    &&& 0 <= i < j <= s.len()
    &&& run == s.subrange(i, j)
    &&& forall|k: int| i <= k < j ==> #[trigger] shown(s, social, k)
    &&& i == 0 || !shown(s, social, i - 1)
    &&& j == s.len() || !shown(s, social, j)
}

/// A run stands somewhere in the text.
pub open spec fn is_longest_run(s: Seq<char>, social: bool, run: Seq<char>) -> bool {
    exists|i: int, j: int| #[trigger] stands_as_run(s, social, run, i, j)
}

/// The place lies in one of the runs.
pub open spec fn in_some_run(s: Seq<char>, social: bool, runs: Seq<Seq<char>>, k: int) -> bool {
    exists|r: int, i: int, j: int|
        0 <= r < runs.len() && i <= k < j && #[trigger] stands_as_run(s, social, runs[r], i, j)
}

proof fn lemma_runs_so_far(s: Seq<char>, social: bool, n: nat)
    requires
        n <= s.len(),
    ensures
        ({
            let (ended, open) = runs_of(s, social, n);
            let from = n - open.len();
            &&& 0 <= from
            &&& open == s.subrange(from, n as int)
            &&& forall|k: int| from <= k < n ==> #[trigger] shown(s, social, k)
            &&& from == 0 || !shown(s, social, from - 1)
            &&& forall|r: int|
                0 <= r < ended.len() ==> is_longest_run(s, social, #[trigger] ended[r])
            &&& forall|k: int|
                0 <= k < from && #[trigger] shown(s, social, k) ==> in_some_run(
                    s,
                    social,
                    ended,
                    k,
                )
        }),
    decreases n,
{
    if n == 0 {
        assert(s.subrange(0, 0) =~= Seq::<char>::empty());
    } else {
        let m = (n - 1) as nat;
        lemma_runs_so_far(s, social, m);
        let (ended, open) = runs_of(s, social, m);
        let from = m - open.len();
        let (ended1, open1) = runs_of(s, social, n);
        if shown(s, social, n - 1) {
            assert(open1 =~= s.subrange(from, n as int));
        } else {
            assert(s.subrange(n as int, n as int) =~= Seq::<char>::empty());
            if open.len() > 0 {
                assert(stands_as_run(s, social, open, from, m as int));
                assert forall|r: int| 0 <= r < ended1.len() implies is_longest_run(
                    s,
                    social,
                    #[trigger] ended1[r],
                ) by {
                    if r < ended.len() {
                        assert(is_longest_run(s, social, ended[r]));
                    }
                }
                assert forall|k: int| 0 <= k < n && #[trigger] shown(s, social, k) implies in_some_run(
                    s,
                    social,
                    ended1,
                    k,
                ) by {
                    if k < from {
                        assert(in_some_run(s, social, ended, k));
                        let (r, i, j) = choose|r: int, i: int, j: int|
                            0 <= r < ended.len() && i <= k < j && #[trigger] stands_as_run(
                                s,
                                social,
                                ended[r],
                                i,
                                j,
                            );
                        assert(ended1[r] == ended[r]);
                        assert(stands_as_run(s, social, ended1[r], i, j));
                    } else {
                        let r = ended.len() as int;
                        assert(ended1[r] == open);
                        assert(stands_as_run(s, social, ended1[r], from, m as int));
                    }
                }
            }
        }
    }
}

/// The runs of a text are its longest stretches of characters that are shown,
/// and each such character lies in one of them.
pub proof fn law_runs_are_the_longest(s: Seq<char>, social: bool)
    ensures
        forall|r: int|
            0 <= r < all_runs(s, social).len() ==> is_longest_run(
                s,
                social,
                #[trigger] all_runs(s, social)[r],
            ),
        forall|k: int|
            0 <= k < s.len() && #[trigger] shown(s, social, k) ==> in_some_run(
                s,
                social,
                all_runs(s, social),
                k,
            ),
{
    lemma_runs_so_far(s, social, s.len());
    let (ended, open) = runs_of(s, social, s.len());
    let from = s.len() - open.len();
    let all = all_runs(s, social);
    if open.len() > 0 {
        assert(stands_as_run(s, social, open, from, s.len() as int));
    }
    assert forall|r: int| 0 <= r < all.len() implies is_longest_run(
        s,
        social,
        #[trigger] all[r],
    ) by {
        if r < ended.len() {
            assert(all[r] == ended[r]);
            assert(is_longest_run(s, social, ended[r]));
        }
    }
    assert forall|k: int| 0 <= k < s.len() && #[trigger] shown(s, social, k) implies in_some_run(
        s,
        social,
        all,
        k,
    ) by {
        if k < from {
            let (r, i, j) = choose|r: int, i: int, j: int|
                0 <= r < ended.len() && i <= k < j && #[trigger] stands_as_run(
                    s,
                    social,
                    ended[r],
                    i,
                    j,
                );
            assert(all[r] == ended[r]);
            assert(stands_as_run(s, social, all[r], i, j));
        } else {
            let r = ended.len() as int;
            assert(all[r] == open);
            assert(stands_as_run(s, social, all[r], from, s.len() as int));
        }
    }
}

} // verus!
