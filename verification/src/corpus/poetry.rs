//! The records of collections of poems.
use crate::corpus::fields::{count_record, with_logical};
use crate::corpus::json::{lemma_view_fields, lemma_view_list, Json, JsonValue};
use crate::corpus::preparer::{with_field, Prepared, Preparer};
use crate::corpus::prints::{poetry_fingerprint, print_of, BodyPrint, TitlePrint};
use crate::ordered::views;
use crate::text::{chars_of, copy_chars, spells};
use vstd::prelude::*;
use vstd::string::*;

verus! {

/// The weight of titles.
pub const POETRY_TITLE_WEIGHT: u64 = 20;

/// The weight of what is under a title.
pub const POETRY_BODY_WEIGHT: u64 = 10;

/// What a field of a poem holds.
#[derive(Clone, Copy, Debug, PartialEq, Eq, Structural)]
pub enum PoemPart {
    Title,
    Body,
    Supplement,
    Other,
}

/// What the field with a name holds.
pub open spec fn poem_part(name: Seq<char>) -> PoemPart {
    if name == "title"@ || name == "chapter"@ || name == "section"@ || name == "subchapter"@ || name
        == "rhythmic"@ {
        PoemPart::Title
    } else if name == "paragraphs"@ || name == "para"@ || name == "content"@ {
        PoemPart::Body
    } else if name == "preface"@ || name == "biography"@ {
        PoemPart::Supplement
    } else {
        PoemPart::Other
    }
}

/// The texts of a value, in lists too, but not those of fields.
pub open spec fn direct_texts(v: Json) -> Seq<Seq<char>>
    decreases v,
{
    match v {
        Json::Text(s) => seq![s],
        Json::List(items) => direct_items(items, items.len()),
        _ => Seq::empty(),
    }
}

/// The texts of the first `n` values of a list.
pub open spec fn direct_items(items: Seq<Json>, n: nat) -> Seq<Seq<char>>
    decreases items, n,
{
    if n == 0 || n > items.len() {
        Seq::empty()
    } else {
        direct_items(items, (n - 1) as nat) + direct_texts(items[n - 1])
    }
}

/// The texts of the first `n` fields that hold a part.
pub open spec fn texts_of_part(fields: Seq<(Seq<char>, Json)>, part: PoemPart, n: nat) -> Seq<
    Seq<char>,
>
    decreases n,
{
    if n == 0 || n > fields.len() {
        Seq::empty()
    } else {
        let before = texts_of_part(fields, part, (n - 1) as nat);
        if poem_part(fields[n - 1].0) == part {
            before + direct_texts(fields[n - 1].1)
        } else {
            before
        }
    }
}

/// The first `n` texts, each as a field.
pub open spec fn with_fields(p: Prepared, texts: Seq<Seq<char>>, n: nat, weight: u64) -> Prepared
    decreases n,
{
    if n == 0 || n > texts.len() {
        p
    } else {
        with_field(with_fields(p, texts, (n - 1) as nat, weight), texts[n - 1], weight, false)
    }
}

/// A title, unless the poem has been seen with it.
pub open spec fn with_title(p: Prepared, title: Seq<char>, poem: BodyPrint) -> Prepared {
    match print_of(seq![title]) {
        None => p,
        Some(print) => {
            let seen = TitlePrint { title: print, poem };
            if p.titles.contains(seen) {
                p
            } else {
                with_field(
                    Prepared { titles: p.titles.insert(seen), ..p },
                    title,
                    POETRY_TITLE_WEIGHT,
                    false,
                )
            }
        },
    }
}

/// The first `n` titles.
pub open spec fn with_titles(p: Prepared, titles: Seq<Seq<char>>, n: nat, poem: BodyPrint) -> Prepared
    decreases n,
{
    if n == 0 || n > titles.len() {
        p
    } else {
        with_title(with_titles(p, titles, (n - 1) as nat, poem), titles[n - 1], poem)
    }
}

/// Texts, unless they have been seen.
pub open spec fn with_body(p: Prepared, texts: Seq<Seq<char>>) -> Prepared {
    match print_of(texts) {
        None => p,
        Some(print) => if p.bodies.contains(print) {
            p
        } else {
            with_fields(
                Prepared { bodies: p.bodies.insert(print), ..p },
                texts,
                texts.len(),
                POETRY_BODY_WEIGHT,
            )
        },
    }
}

/// A poem: its titles, its text, and what is said before it. A poem is known by
/// its text, or where it has none, by what is said before it.
pub open spec fn with_poem(p: Prepared, fields: Seq<(Seq<char>, Json)>) -> Prepared {
    let body = texts_of_part(fields, PoemPart::Body, fields.len());
    let supplement = texts_of_part(fields, PoemPart::Supplement, fields.len());
    let titles = texts_of_part(fields, PoemPart::Title, fields.len());
    let poem = match print_of(body) {
        Some(print) => Some(print),
        None => print_of(supplement),
    };
    let a = match poem {
        Some(print) => with_titles(with_logical(p), titles, titles.len(), print),
        None => p,
    };
    with_body(with_body(a, body), supplement)
}

/// The poems of a value, at any depth.
pub open spec fn with_poems(p: Prepared, v: Json) -> Prepared
    decreases v,
{
    match v {
        Json::List(items) => with_poem_items(p, items, items.len()),
        Json::Fields(fields) => with_poem_fields(with_poem(p, fields), fields, fields.len()),
        _ => p,
    }
}

/// The poems of the first `n` values of a list.
pub open spec fn with_poem_items(p: Prepared, items: Seq<Json>, n: nat) -> Prepared
    decreases items, n,
{
    if n == 0 || n > items.len() {
        p
    } else {
        with_poems(with_poem_items(p, items, (n - 1) as nat), items[n - 1])
    }
}

/// The poems of the first `n` fields.
pub open spec fn with_poem_fields(p: Prepared, fields: Seq<(Seq<char>, Json)>, n: nat) -> Prepared
    decreases fields, n,
{
    if n == 0 || n > fields.len() {
        p
    } else {
        with_poems(with_poem_fields(p, fields, (n - 1) as nat), fields[n - 1].1)
    }
}

/// What the field with a name holds.
fn part_of(name: &str) -> (r: PoemPart)
    ensures
        r == poem_part(name@),
{
    let chars = chars_of(name);
    let name = chars.as_slice();
    if spells(name, "title") || spells(name, "chapter") || spells(name, "section") || spells(
        name,
        "subchapter",
    ) || spells(name, "rhythmic") {
        PoemPart::Title
    } else if spells(name, "paragraphs") || spells(name, "para") || spells(name, "content") {
        PoemPart::Body
    } else if spells(name, "preface") || spells(name, "biography") {
        PoemPart::Supplement
    } else {
        PoemPart::Other
    }
}

/// Adds the texts of a value.
fn collect_direct_poetry_strings(value: &JsonValue, output: &mut Vec<Vec<char>>)
    ensures
        views(final(output)@) == views(old(output)@) + direct_texts(value@),
    decreases value,
{
    broadcast use lemma_view_list;

    let ghost start = views(output@);
    match value {
        JsonValue::Text(text) => {
            output.push(chars_of(text.as_str()));
            proof {
                assert(views(output@) =~= start + seq![text@]);
            }
        },
        JsonValue::Array(values) => {
            let ghost all = views(values@);
            let mut i: usize = 0;
            proof {
                assert(start + direct_items(all, 0) =~= start);
            }
            while i < values.len()
                invariant
                    i <= values@.len(),
                    *value == JsonValue::Array(*values),
                    value@ == Json::List(all),
                    all == views(values@),
                    start == views(old(output)@),
                    views(output@) == start + direct_items(all, i as nat),
                decreases values.len() - i,
            {
                let ghost before = views(output@);
                collect_direct_poetry_strings(&values[i], output);
                proof {
                    assert(all[i as int] == values@[i as int]@);
                    assert(before + direct_texts(all[i as int]) =~= start + direct_items(
                        all,
                        (i + 1) as nat,
                    ));
                }
                i += 1;
            }
        },
        _ => {
            proof {
                assert(start + Seq::<Seq<char>>::empty() =~= start);
            }
        },
    }
}

/// The texts of the fields that hold a part.
fn texts_of(fields: &Vec<(String, JsonValue)>, part: PoemPart) -> (r: Vec<Vec<char>>)
    ensures
        views(r@) == texts_of_part(views(fields@), part, fields@.len()),
{
    let ghost all = views(fields@);
    let mut out: Vec<Vec<char>> = Vec::new();
    let mut i: usize = 0;
    assert(views(out@) =~= texts_of_part(all, part, 0));
    while i < fields.len()
        invariant
            i <= fields@.len(),
            all == views(fields@),
            views(out@) == texts_of_part(all, part, i as nat),
        decreases fields.len() - i,
    {
        proof {
            assert(all[i as int] == (fields@[i as int].0@, fields@[i as int].1@));
        }
        if part_of(fields[i].0.as_str()) == part {
            collect_direct_poetry_strings(&fields[i].1, &mut out);
        }
        i += 1;
    }
    out
}

/// Texts, unless they have been seen.
fn emit_body(texts: &Vec<Vec<char>>, preparer: &mut Preparer)
    requires
        old(preparer).wf(),
    ensures
        final(preparer).wf(),
        final(preparer).kind() == old(preparer).kind(),
        final(preparer)@ == with_body(old(preparer)@, views(texts@)),
{
    let ghost all = views(texts@);
    let ghost before = preparer@;
    if let Some(print) = poetry_fingerprint(texts) {
        proof {
            if before.bodies.contains(print) {
                assert(before.bodies.insert(print) =~= before.bodies);
            }
        }
        if preparer.note_body(print) {
            let ghost start = preparer@;
            let mut i: usize = 0;
            while i < texts.len()
                invariant
                    i <= texts@.len(),
                    all == views(texts@),
                    preparer.wf(),
                    preparer.kind() == old(preparer).kind(),
                    preparer@ == with_fields(start, all, i as nat, POETRY_BODY_WEIGHT),
                decreases texts.len() - i,
            {
                assert(all[i as int] == texts@[i as int]@);
                preparer.selected_text(texts[i].as_slice(), POETRY_BODY_WEIGHT);
                i += 1;
            }
        }
    }
}

/// The titles of a poem, unless it has been seen with them.
fn emit_titles(titles: &Vec<Vec<char>>, poem: BodyPrint, preparer: &mut Preparer)
    requires
        old(preparer).wf(),
    ensures
        final(preparer).wf(),
        final(preparer).kind() == old(preparer).kind(),
        final(preparer)@ == with_titles(old(preparer)@, views(titles@), titles@.len(), poem),
{
    let ghost all = views(titles@);
    let ghost start = preparer@;
    let mut i: usize = 0;
    while i < titles.len()
        invariant
            i <= titles@.len(),
            all == views(titles@),
            preparer.wf(),
            preparer.kind() == old(preparer).kind(),
            preparer@ == with_titles(start, all, i as nat, poem),
        decreases titles.len() - i,
    {
        assert(all[i as int] == titles@[i as int]@);
        let mut single: Vec<Vec<char>> = Vec::new();
        single.push(copy_chars(titles[i].as_slice()));
        proof {
            assert(views(single@) =~= seq![all[i as int]]);
        }
        let ghost before = preparer@;
        if let Some(title) = poetry_fingerprint(&single) {
            proof {
                let seen = TitlePrint { title, poem };
                if before.titles.contains(seen) {
                    assert(before.titles.insert(seen) =~= before.titles);
                }
            }
            if preparer.note_title(TitlePrint { title, poem }) {
                preparer.selected_text(titles[i].as_slice(), POETRY_TITLE_WEIGHT);
            }
        }
        i += 1;
    }
}

/// A poem: its titles, its text, and what is said before it.
fn emit_poem(fields: &Vec<(String, JsonValue)>, preparer: &mut Preparer)
    requires
        old(preparer).wf(),
    ensures
        final(preparer).wf(),
        final(preparer).kind() == old(preparer).kind(),
        final(preparer)@ == with_poem(old(preparer)@, views(fields@)),
{
    let body = texts_of(fields, PoemPart::Body);
    let supplement = texts_of(fields, PoemPart::Supplement);
    let poem = match poetry_fingerprint(&body) {
        Some(print) => Some(print),
        None => poetry_fingerprint(&supplement),
    };
    if let Some(print) = poem {
        count_record(preparer);
        let titles = texts_of(fields, PoemPart::Title);
        proof {
            assert(views(titles@).len() == titles@.len());
        }
        emit_titles(&titles, print, preparer);
    }
    emit_body(&body, preparer);
    emit_body(&supplement, preparer);
}

/// The poems of a value, at any depth.
pub(crate) fn emit_poetry_value(value: &JsonValue, preparer: &mut Preparer)
    requires
        old(preparer).wf(),
    ensures
        final(preparer).wf(),
        final(preparer).kind() == old(preparer).kind(),
        final(preparer)@ == with_poems(old(preparer)@, value@),
    decreases value,
{
    broadcast use lemma_view_list;
    broadcast use lemma_view_fields;

    match value {
        JsonValue::Array(values) => {
            let ghost all = views(values@);
            let ghost start = preparer@;
            let mut i: usize = 0;
            while i < values.len()
                invariant
                    i <= values@.len(),
                    *value == JsonValue::Array(*values),
                    value@ == Json::List(all),
                    all == views(values@),
                    preparer.wf(),
                    preparer.kind() == old(preparer).kind(),
                    preparer@ == with_poem_items(start, all, i as nat),
                decreases values.len() - i,
            {
                assert(all[i as int] == values@[i as int]@);
                emit_poetry_value(&values[i], preparer);
                i += 1;
            }
        },
        JsonValue::Object(fields) => {
            let ghost all = views(fields@);
            emit_poem(fields, preparer);
            let ghost start = preparer@;
            let mut i: usize = 0;
            while i < fields.len()
                invariant
                    i <= fields@.len(),
                    *value == JsonValue::Object(*fields),
                    value@ == Json::Fields(all),
                    all == views(fields@),
                    preparer.wf(),
                    preparer.kind() == old(preparer).kind(),
                    preparer@ == with_poem_fields(start, all, i as nat),
                decreases fields.len() - i,
            {
                proof {
                    assert(all[i as int] == (fields@[i as int].0@, fields@[i as int].1@));
                    assert(decreases_to!(value => fields@[i as int].1));
                }
                emit_poetry_value(&fields[i].1, preparer);
                i += 1;
            }
        },
        _ => {},
    }
}

} // verus!
