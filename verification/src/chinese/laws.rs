//! What holds of the data on Chinese characters, whatever the sources say.
use crate::chinese::components::{
    component_rel, contains_component, descends, is_part, lemma_contains_self,
    lemma_contains_step,
};
use crate::chinese::data::{all_countable, data_from, sounds, with_glob, DataView};
use crate::chinese::error::{DataFault, PatternFault};
use crate::chinese::factor::Factors;
use crate::chinese::han::han;
use crate::chinese::pinyin::{body_of, glob_matches, glob_of, tone_of, GlobView};
use crate::chinese::spell::{listed_pair, spell_line, spell_of, spell_of_lines, tone_pairs};
use crate::chinese::strokes::{countable, stroke_rel, strokes};
use crate::text::{digit, digit_char, digit_value, split_on};
use vstd::prelude::*;

verus! {

/// The characters that contain a component; none where nothing does.
pub open spec fn holders(data: DataView, component: char) -> Set<char> {
    if data.components.dom().contains(component) {
        data.components[component]
    } else {
        Set::empty()
    }
}

/// The characters with a number of strokes; none where none has it.
pub open spec fn stroked_with(data: DataView, n: u16) -> Set<char> {
    if data.strokes.dom().contains(n) {
        data.strokes[n]
    } else {
        Set::empty()
    }
}

/// The character heads a line of the table and belongs to the repertoire.
pub open spec fn is_head(factors: Factors, c: char) -> bool {
    factors.dom().contains(c) && han(c)
}

pub proof fn lemma_holders(
    data: DataView,
    factors: Factors,
    entries: Seq<(Seq<char>, char)>,
    words: Set<Seq<char>>,
    part: char,
    whole: char,
)
    requires
        data_from(data, factors, entries, words),
    ensures
        holders(data, part).contains(whole) <==> component_rel(factors, part, whole),
{
    let rel = |p: char, w: char| component_rel(factors, p, w);
    if component_rel(factors, part, whole) {
        assert(rel(part, whole));
    }
    if data.components.dom().contains(part) {
        assert(data.components[part].contains(whole) <==> rel(part, whole));
    }
}

proof fn lemma_stroked(
    data: DataView,
    factors: Factors,
    entries: Seq<(Seq<char>, char)>,
    words: Set<Seq<char>>,
    n: u16,
    c: char,
)
    requires
        data_from(data, factors, entries, words),
    ensures
        stroked_with(data, n).contains(c) <==> stroke_rel(factors, n, c),
{
    let rel = |m: u16, d: char| stroke_rel(factors, m, d);
    if stroke_rel(factors, n, c) {
        assert(rel(n, c));
    }
    if data.strokes.dom().contains(n) {
        assert(data.strokes[n].contains(c) <==> rel(n, c));
    }
}

/// What is contained along a way down is contained at its end.
proof fn lemma_contains_along(factors: Factors, whole: char, path: Seq<char>, k: int)
    requires
        descends(factors, path),
        0 <= k < path.len(),
        contains_component(factors, whole, path[0]),
    ensures
        contains_component(factors, whole, path[k]),
    decreases k,
{
    if k > 0 {
        lemma_contains_along(factors, whole, path, k - 1);
        assert(is_part(factors, path[k - 1], path[k - 1 + 1]));
        lemma_contains_step(factors, whole, path[k - 1], path[k]);
    }
}

/// Every head is a component of itself, and what contains a character contains
/// all that the character contains. No other character contains anything.
pub proof fn law_components_nest(
    data: DataView,
    factors: Factors,
    entries: Seq<(Seq<char>, char)>,
    words: Set<Seq<char>>,
    a: char,
    b: char,
    c: char,
)
    requires
        data_from(data, factors, entries, words),
    ensures
        is_head(factors, a) ==> holders(data, a).contains(a),
        holders(data, b).contains(a) ==> is_head(factors, a),
        holders(data, b).contains(a) && holders(data, c).contains(b) ==> holders(
            data,
            c,
        ).contains(a),
{
    lemma_holders(data, factors, entries, words, a, a);
    lemma_holders(data, factors, entries, words, b, a);
    lemma_holders(data, factors, entries, words, c, b);
    lemma_holders(data, factors, entries, words, c, a);
    lemma_contains_self(factors, a);
    if holders(data, b).contains(a) && holders(data, c).contains(b) {
        let path = choose|path: Seq<char>| #[trigger]
            descends(factors, path) && path.len() > 0 && path[0] == b && path.last() == c;
        lemma_contains_along(factors, a, path, path.len() - 1);
    }
}

/// Every head has exactly one number of strokes, and no other character has any.
pub proof fn law_heads_have_one_stroke_count(
    data: DataView,
    factors: Factors,
    entries: Seq<(Seq<char>, char)>,
    words: Set<Seq<char>>,
    c: char,
)
    requires
        data_from(data, factors, entries, words),
        all_countable(factors),
    ensures
        is_head(factors, c) ==> exists|n: u16| #[trigger] stroked_with(data, n).contains(c),
        forall|n: u16| #[trigger] stroked_with(data, n).contains(c) ==> is_head(factors, c),
        forall|m: u16, n: u16| #[trigger]
            stroked_with(data, m).contains(c) && #[trigger] stroked_with(data, n).contains(c)
                ==> m == n,
{
    if is_head(factors, c) {
        assert(factors.dom().contains(c) && han(c));
        assert(countable(factors, c));
        let n = strokes(factors, c)->0 as u16;
        lemma_stroked(data, factors, entries, words, n, c);
        assert(stroked_with(data, n).contains(c));
    }
    assert forall|n: u16| #[trigger] stroked_with(data, n).contains(c) implies is_head(
        factors,
        c,
    ) by {
        lemma_stroked(data, factors, entries, words, n, c);
    }
    assert forall|m: u16, n: u16| #[trigger]
        stroked_with(data, m).contains(c) && #[trigger] stroked_with(data, n).contains(
            c,
        ) implies m == n by {
        lemma_stroked(data, factors, entries, words, m, c);
        lemma_stroked(data, factors, entries, words, n, c);
    }
}

/// The pronunciation ends with a tone from 0 to 4.
spec fn has_tone(key: Seq<char>) -> bool {
    key.len() > 0 && exists|t: int| 0 <= t <= 4 && key.last() == #[trigger] digit_char(t)
}

proof fn lemma_pairs_have_tones(base: Seq<char>, pairs: Seq<char>, n: nat)
    ensures
        tone_pairs(base, pairs, n) matches Ok(found) ==> forall|i: int|
            0 <= i < found.len() ==> has_tone((#[trigger] found[i]).0),
    decreases n,
{
    if n > 0 {
        lemma_pairs_have_tones(base, pairs, (n - 1) as nat);
        if let Ok(found) = tone_pairs(base, pairs, n) {
            let known = tone_pairs(base, pairs, (n - 1) as nat)->Ok_0;
            assert forall|i: int| 0 <= i < found.len() implies has_tone(
                (#[trigger] found[i]).0,
            ) by {
                if i < known.len() {
                    assert(found[i] == known[i]);
                } else {
                    let tone = digit_value(pairs[2 * n - 1], 10)->0;
                    assert(found[i].0.last() == digit_char((tone % 5) as int));
                }
            }
        }
    }
}

proof fn lemma_lines_have_tones(lines: Seq<Seq<char>>, n: nat)
    ensures
        spell_of_lines(lines, n) matches Ok((found, _)) ==> forall|i: int|
            0 <= i < found.len() ==> has_tone((#[trigger] found[i]).0),
    decreases n,
{
    if n > 0 {
        lemma_lines_have_tones(lines, (n - 1) as nat);
        if let Ok((all, _)) = spell_of_lines(lines, n) {
            let known = spell_of_lines(lines, (n - 1) as nat)->Ok_0.0;
            lemma_line_has_tones(lines[n - 1]);
            assert forall|i: int| 0 <= i < all.len() implies has_tone((#[trigger] all[i]).0) by {
                if i < known.len() {
                    assert(all[i] == known[i]);
                } else {
                    let found = spell_line(lines[n - 1])->Ok_0->Some_0;
                    assert(all[i] == found[i - known.len()]);
                }
            }
        }
    }
}

proof fn lemma_line_has_tones(line: Seq<char>)
    ensures
        spell_line(line) matches Ok(Some(found)) ==> forall|i: int|
            0 <= i < found.len() ==> has_tone((#[trigger] found[i]).0),
{
    assert forall|base: Seq<char>, pairs: Seq<char>, n: nat|
        #![trigger tone_pairs(base, pairs, n)]
        tone_pairs(base, pairs, n) matches Ok(found) ==> forall|i: int|
            0 <= i < found.len() ==> has_tone((#[trigger] found[i]).0) by {
        lemma_pairs_have_tones(base, pairs, n);
    }
}

proof fn lemma_tone_digit(p: Seq<char>, t: int)
    requires
        0 <= t <= 4,
        p.len() > 0,
        !digit(p.last()),
    ensures
        body_of(p) == p,
        tone_of(p) is None,
        body_of(p.push(digit_char(t))) == p,
        tone_of(p.push(digit_char(t))) == Some(t as nat),
        digit_value(digit_char(t), 10) == Some(t as nat),
{
    assert(p.push(digit_char(t)).drop_last() =~= p);
}

/// A pattern without a tone finds what the same pattern finds with each of the
/// five tones, together.
pub proof fn law_no_tone_means_every_tone(
    data: DataView,
    factors: Factors,
    source: Seq<char>,
    entries: Seq<(Seq<char>, char)>,
    words: Set<Seq<char>>,
    p: Seq<char>,
    c: char,
)
    requires
        spell_of(source) == Ok::<Seq<(Seq<char>, char)>, DataFault>(entries),
        data_from(data, factors, entries, words),
        p.len() > 0,
        !digit(p.last()),
        glob_of(p) is Ok,
    ensures
        forall|t: int| 0 <= t <= 4 ==> glob_of(p.push(#[trigger] digit_char(t))) is Ok,
        with_glob(data, glob_of(p)->Ok_0).contains(c) <==> exists|t: int|
            0 <= t <= 4 && with_glob(
                data,
                glob_of(p.push(#[trigger] digit_char(t)))->Ok_0,
            ).contains(c),
{
    let any = glob_of(p)->Ok_0;
    assert forall|t: int| 0 <= t <= 4 implies glob_of(p.push(#[trigger] digit_char(t))) == Ok::<
        GlobView,
        PatternFault,
    >(GlobView { tone: Some(t as u8), ..any }) by {
        lemma_tone_digit(p, t);
    }
    lemma_tone_digit(p, 0);
    assert(any.tone is None);
    if with_glob(data, any).contains(c) {
        let key = choose|key: Seq<char>| #[trigger]
            data.pinyin.dom().contains(key) && glob_matches(any, key) && data.pinyin[key].contains(
                c,
            );
        let rel = |k: Seq<char>, d: char| listed_pair(entries, k, d);
        assert(data.pinyin[key].contains(c) <==> rel(key, c));
        let i = choose|i: int| 0 <= i < entries.len() && entries[i] == (key, c);
        let lines = split_on(source, '\n');
        lemma_lines_have_tones(lines, lines.len());
        assert(has_tone(entries[i].0));
        let t = choose|t: int| 0 <= t <= 4 && key.last() == #[trigger] digit_char(t);
        lemma_tone_digit(p, t);
        let glob = glob_of(p.push(digit_char(t)))->Ok_0;
        assert(glob_matches(glob, key));
        assert(sounds(data, glob, c));
    }
    if exists|t: int|
        0 <= t <= 4 && with_glob(data, glob_of(p.push(#[trigger] digit_char(t)))->Ok_0).contains(
            c,
        ) {
        let t = choose|t: int|
            0 <= t <= 4 && with_glob(
                data,
                glob_of(p.push(#[trigger] digit_char(t)))->Ok_0,
            ).contains(c);
        let glob = glob_of(p.push(digit_char(t)))->Ok_0;
        let key = choose|key: Seq<char>| #[trigger]
            data.pinyin.dom().contains(key) && glob_matches(glob, key)
                && data.pinyin[key].contains(c);
        assert(glob_matches(any, key));
        assert(sounds(data, any, c));
    }
}

} // verus!
