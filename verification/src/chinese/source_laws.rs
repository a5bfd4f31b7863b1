//! What the sources on Chinese characters say, line by line, and what follows from it.
use crate::chinese::components::{
    contains_component, descends, is_part, lemma_contains_self,
};
use crate::chinese::data::{data_from, DataView};
use crate::chinese::error::DataFault;
use crate::chinese::factor::{factor_line, factors_of_lines, merged, non_empty, ways_of, Factors};
use crate::chinese::han::{all_han, han};
use crate::chinese::laws::{holders, is_head, lemma_holders};
use crate::chinese::spell::{js_string, js_tail, past_white, spell_line, tone_pairs};
use crate::chinese::strokes::{
    lemma_much_deeper, lemma_parts_much_deeper, lemma_strokes_at, strokes, strokes_of_parts,
    strokes_within,
};
use crate::chinese::template::template_text;
use crate::chinese::words::{fills, fits_template, slot_of, template_fills};
use crate::text::{
    digit_char, digit_value, last_place, lemma_first_place, split_on, trimmed, trimmed_start, white,
};
use vstd::prelude::*;

verus! {

proof fn lemma_slot(template: Seq<char>, slot: int, n: nat)
    requires
        n <= template.len(),
        forall|i: int|
            0 <= i < template.len() ==> if i == slot {
                (#[trigger] template[i]) == '.'
            } else {
                han(template[i])
            },
    ensures
        slot_of(template, n) == Ok::<Option<int>, Seq<char>>(
            if 0 <= slot < n {
                Some(slot)
            } else {
                None
            },
        ),
    decreases n,
{
    if n > 0 {
        lemma_slot(template, slot, (n - 1) as nat);
        assert(if n - 1 == slot {
            template[n - 1] == '.'
        } else {
            han(template[n - 1])
        });
    }
}

/// A template finds the characters that make a word in place of its dot, and no
/// others.
pub proof fn law_template_finds_what_makes_a_word(
    words: Set<Seq<char>>,
    before: Seq<char>,
    behind: Seq<char>,
    c: char,
)
    requires
        all_han(before),
        all_han(behind),
    ensures
        template_fills(words, before + seq!['.'] + behind) matches Ok(found) && (found.contains(c)
            <==> words.contains(before + seq![c] + behind)),
{
    let template = before + seq!['.'] + behind;
    let slot = before.len() as int;
    assert forall|i: int| 0 <= i < template.len() implies if i == slot {
        (#[trigger] template[i]) == '.'
    } else {
        han(template[i])
    } by {
        if i < slot {
            assert(template[i] == before[i]);
        } else if i > slot {
            assert(template[i] == behind[i - slot - 1]);
        }
    }
    lemma_slot(template, slot, template.len());
    let word = before + seq![c] + behind;
    if words.contains(word) {
        assert(fits_template(template, slot, word));
        assert(word[slot] == c);
        assert(fills(words, template, slot, c));
    }
    if fills(words, template, slot, c) {
        let w = choose|w: Seq<char>| #[trigger]
            words.contains(w) && fits_template(template, slot, w) && w[slot] == c;
        assert(w =~= word) by {
            assert forall|i: int| 0 <= i < w.len() implies w[i] == word[i] by {
                if i != slot {
                    assert(w[i] == template[i]);
                }
            }
        }
    }
}

/// The sum of numbers.
pub open spec fn sum_of(numbers: Seq<nat>) -> nat
    decreases numbers.len(),
{
    if numbers.len() == 0 {
        0
    } else {
        sum_of(numbers.drop_last()) + numbers.last()
    }
}

proof fn lemma_parts_sum(factors: Factors, parts: Seq<char>, numbers: Seq<nat>, n: nat) -> (depth:
    nat)
    requires
        n <= parts.len() == numbers.len(),
        forall|i: int|
            0 <= i < parts.len() ==> strokes(factors, #[trigger] parts[i]) == Some(numbers[i]),
    ensures
        strokes_of_parts(factors, parts, n, depth) == Some(sum_of(numbers.take(n as int))),
    decreases n,
{
    if n == 0 {
        0
    } else {
        let d = lemma_parts_sum(factors, parts, numbers, (n - 1) as nat);
        let part = parts[n - 1];
        assert(strokes(factors, part) == Some(numbers[n - 1]));
        let e = choose|depth: nat| #[trigger] strokes_within(factors, part, depth) is Some;
        let depth = d + e;
        lemma_parts_much_deeper(factors, parts, (n - 1) as nat, d, depth);
        lemma_much_deeper(factors, part, e, depth);
        lemma_strokes_at(factors, part, e);
        assert(numbers.take(n as int).drop_last() =~= numbers.take(n - 1));
        depth
    }
}

/// A character that is not taken apart has one stroke; any other has those of the parts
/// of the first way in which it is made, together.
pub proof fn law_strokes_add_up(factors: Factors, c: char, numbers: Seq<nat>)
    ensures
        ways_of(factors, c).len() == 0 ==> strokes(factors, c) == Some(1nat),
        ways_of(factors, c).len() > 0 && numbers.len() == ways_of(factors, c)[0].len() && (forall|
            i: int,
        |
            0 <= i < numbers.len() ==> strokes(factors, #[trigger] ways_of(factors, c)[0][i])
                == Some(numbers[i])) ==> strokes(factors, c) == Some(sum_of(numbers)),
{
    let ways = ways_of(factors, c);
    if ways.len() == 0 {
        assert(strokes_within(factors, c, 1) == Some(1nat));
        lemma_strokes_at(factors, c, 1);
    } else if numbers.len() == ways[0].len() && (forall|i: int|
        0 <= i < numbers.len() ==> strokes(factors, #[trigger] ways[0][i]) == Some(numbers[i])) {
        let depth = lemma_parts_sum(factors, ways[0], numbers, numbers.len());
        assert(numbers.take(numbers.len() as int) =~= numbers);
        assert(strokes_within(factors, c, depth + 1) == Some(sum_of(numbers)));
        lemma_strokes_at(factors, c, depth + 1);
    }
}

/// A head contains itself, and what one of its parts contains in any of the ways in which
/// it is made; and nothing else.
pub proof fn law_head_contains_what_its_parts_contain(
    data: DataView,
    factors: Factors,
    entries: Seq<(Seq<char>, char)>,
    words: Set<Seq<char>>,
    whole: char,
    part: char,
)
    requires
        data_from(data, factors, entries, words),
        is_head(factors, whole),
    ensures
        holders(data, part).contains(whole) <==> whole == part || exists|i: int, j: int|
            0 <= i < ways_of(factors, whole).len() && 0 <= j < ways_of(factors, whole)[i].len()
                && contains_component(factors, #[trigger] ways_of(factors, whole)[i][j], part),
{
    lemma_holders(data, factors, entries, words, part, whole);
    if contains_component(factors, whole, part) && whole != part {
        let path = choose|path: Seq<char>| #[trigger]
            descends(factors, path) && path.len() > 0 && path[0] == whole && path.last() == part;
        assert(path.len() > 1);
        assert(is_part(factors, path[0], path[0int + 1]));
        let (i, j) = choose|i: int, j: int|
            0 <= i < ways_of(factors, whole).len() && 0 <= j < ways_of(factors, whole)[i].len()
                && #[trigger] ways_of(factors, whole)[i][j] == path[1];
        let rest = path.skip(1);
        assert forall|k: int| 0 <= k < rest.len() - 1 implies is_part(
            factors,
            #[trigger] rest[k],
            rest[k + 1],
        ) by {
            assert(is_part(factors, path[k + 1], path[k + 1 + 1]));
        }
        assert(descends(factors, rest));
        assert(rest.last() == part);
        assert(contains_component(factors, ways_of(factors, whole)[i][j], part));
    }
    if whole == part {
        lemma_contains_self(factors, whole);
    }
    if exists|i: int, j: int|
        0 <= i < ways_of(factors, whole).len() && 0 <= j < ways_of(factors, whole)[i].len()
            && contains_component(factors, #[trigger] ways_of(factors, whole)[i][j], part) {
        let (i, j) = choose|i: int, j: int|
            0 <= i < ways_of(factors, whole).len() && 0 <= j < ways_of(factors, whole)[i].len()
                && contains_component(factors, #[trigger] ways_of(factors, whole)[i][j], part);
        let first = ways_of(factors, whole)[i][j];
        let path = choose|path: Seq<char>| #[trigger]
            descends(factors, path) && path.len() > 0 && path[0] == first && path.last() == part;
        let longer = seq![whole] + path;
        assert(is_part(factors, whole, first));
        assert forall|k: int| 0 <= k < longer.len() - 1 implies is_part(
            factors,
            #[trigger] longer[k],
            longer[k + 1],
        ) by {
            if k > 0 {
                assert(is_part(factors, path[k - 1], path[k - 1 + 1]));
            }
        }
        assert(descends(factors, longer));
        assert(longer.last() == part);
    }
}

/// A text without the character is one piece.
pub proof fn lemma_split_plain(s: Seq<char>, c: char)
    requires
        forall|i: int| 0 <= i < s.len() ==> (#[trigger] s[i]) != c,
    ensures
        split_on(s, c) == seq![s],
    decreases s.len(),
{
    if s.len() == 0 {
        assert(s =~= Seq::empty());
        assert(split_on(s, c) =~= seq![s]);
    } else {
        let t = s.drop_last();
        assert forall|i: int| 0 <= i < t.len() implies (#[trigger] t[i]) != c by {
            assert(t[i] == s[i]);
        }
        lemma_split_plain(t, c);
        assert(s.last() == s[s.len() - 1]);
        assert(t.push(s.last()) =~= s);
        assert(split_on(s, c) =~= seq![s]);
    }
}

/// The pieces of two texts with the character between them are those of the one and
/// those of the other.
pub proof fn lemma_split_join(a: Seq<char>, c: char, b: Seq<char>)
    ensures
        split_on(a + seq![c] + b, c) == split_on(a, c) + split_on(b, c),
        split_on(b, c).len() > 0,
    decreases b.len(),
{
    let s = a + seq![c] + b;
    if b.len() == 0 {
        assert(s.last() == c);
        assert(s.drop_last() =~= a);
        assert(split_on(s, c) =~= split_on(a, c) + split_on(b, c));
    } else {
        lemma_split_join(a, c, b.drop_last());
        assert(s.last() == b.last());
        assert(s.drop_last() =~= a + seq![c] + b.drop_last());
        let (x, y) = (split_on(a, c), split_on(b.drop_last(), c));
        if b.last() == c {
            assert((x + y).push(Seq::empty()) =~= x + y.push(Seq::empty()));
        } else {
            assert((x + y).last() == y.last());
            assert((x + y).drop_last() =~= x + y.drop_last());
            assert((x + y.drop_last()).push(y.last().push(b.last())) =~= x + y.drop_last().push(
                y.last().push(b.last()),
            ));
        }
    }
}

/// How a line of the table of parts is written: the character, and behind a bar each,
/// the ways in which it is made.
pub open spec fn factors_written(head: char, ways: Seq<Seq<char>>) -> Seq<char>
    decreases ways.len(),
{
    if ways.len() == 0 {
        seq![head]
    } else {
        factors_written(head, ways.drop_last()) + seq!['|'] + ways.last()
    }
}

/// A way in which a character is made: not empty, and without bars and white space.
pub open spec fn is_way(way: Seq<char>) -> bool {
    way.len() > 0 && forall|i: int|
        0 <= i < way.len() ==> (#[trigger] way[i]) != '|' && !white(way[i])
}

proof fn lemma_written_factors(head: char, ways: Seq<Seq<char>>)
    requires
        head != '|',
        !white(head),
        forall|i: int| 0 <= i < ways.len() ==> is_way(#[trigger] ways[i]),
    ensures
        split_on(factors_written(head, ways), '|') == seq![seq![head]] + ways,
        factors_written(head, ways).len() > 0,
        factors_written(head, ways)[0] == head,
        !white(factors_written(head, ways).last()),
    decreases ways.len(),
{
    if ways.len() == 0 {
        lemma_split_plain(seq![head], '|');
        assert(seq![seq![head]] + ways =~= seq![seq![head]]);
    } else {
        let fewer = ways.drop_last();
        assert forall|i: int| 0 <= i < fewer.len() implies is_way(#[trigger] fewer[i]) by {
            assert(is_way(ways[i]));
        }
        lemma_written_factors(head, fewer);
        assert(is_way(ways[ways.len() - 1]));
        let way = ways.last();
        lemma_split_plain(way, '|');
        lemma_split_join(factors_written(head, fewer), '|', way);
        assert(seq![seq![head]] + fewer + seq![way] =~= seq![seq![head]] + ways);
        assert(factors_written(head, ways).last() == way[way.len() - 1]);
    }
}

proof fn lemma_none_empty(pieces: Seq<Seq<char>>)
    requires
        forall|i: int| 0 <= i < pieces.len() ==> (#[trigger] pieces[i]).len() > 0,
    ensures
        non_empty(pieces) == pieces,
    decreases pieces.len(),
{
    if pieces.len() > 0 {
        let fewer = pieces.drop_last();
        assert forall|i: int| 0 <= i < fewer.len() implies (#[trigger] fewer[i]).len() > 0 by {
            assert(fewer[i] == pieces[i]);
        }
        lemma_none_empty(fewer);
        assert(pieces[pieces.len() - 1].len() > 0);
        assert(fewer.push(pieces.last()) =~= pieces);
    } else {
        assert(non_empty(pieces) =~= pieces);
    }
}

/// A line of the table of parts gives the character that it begins with, and every way
/// that it lists, in order.
pub proof fn law_factor_line_reads_back(head: char, ways: Seq<Seq<char>>)
    requires
        head != '|',
        !white(head),
        forall|i: int| 0 <= i < ways.len() ==> is_way(#[trigger] ways[i]),
    ensures
        factor_line(factors_written(head, ways)) == Ok::<
            Option<(char, Seq<Seq<char>>)>,
            Seq<char>,
        >(Some((head, ways))),
{
    let text = factors_written(head, ways);
    lemma_written_factors(head, ways);
    assert(trimmed_start(text) == text);
    assert(trimmed(text) == text);
    assert forall|i: int| 0 <= i < ways.len() implies (#[trigger] ways[i]).len() > 0 by {
        assert(is_way(ways[i]));
    }
    lemma_none_empty(ways);
    let fields = seq![seq![head]] + ways;
    assert(fields.skip(1) =~= ways);
    assert(fields[0] == seq![head]);
}

/// Characters that stand for themselves in a string of a source.
pub open spec fn unescaped(s: Seq<char>) -> bool {
    forall|i: int| 0 <= i < s.len() ==> (#[trigger] s[i]) != '"' && s[i] != '\\'
}

proof fn lemma_js_tail(line: Seq<char>, at: int, content: Seq<char>, so_far: Seq<char>)
    requires
        0 <= at,
        unescaped(content),
        at + content.len() < line.len(),
        line.subrange(at, at + content.len()) == content,
        line[at + content.len()] == '"',
    ensures
        js_tail(line, at, so_far) == Ok::<(Seq<char>, int), Seq<char>>(
            (so_far + content, at + content.len() + 1),
        ),
    decreases content.len(),
{
    if content.len() == 0 {
        assert(so_far + content =~= so_far);
    } else {
        let rest = content.skip(1);
        assert(line.subrange(at, at + content.len())[0] == line[at]);
        assert(content[0] != '"');
        assert forall|i: int| 0 <= i < rest.len() implies (#[trigger] rest[i]) != '"' && rest[i]
            != '\\' by {
            assert(rest[i] == content[i + 1]);
        }
        assert(line.subrange(at + 1, at + 1 + rest.len()) =~= rest) by {
            assert forall|i: int| 0 <= i < rest.len() implies line.subrange(
                at + 1,
                at + 1 + rest.len(),
            )[i] == rest[i] by {
                assert(line.subrange(at, at + content.len())[i + 1] == content[i + 1]);
            }
        }
        lemma_js_tail(line, at + 1, rest, so_far.push(content[0]));
        assert(so_far.push(content[0]) + rest =~= so_far + content);
    }
}

/// How pronunciations are listed: each character with its tone behind it.
pub open spec fn tones_written(tones: Seq<(char, int)>) -> Seq<char>
    decreases tones.len(),
{
    if tones.len() == 0 {
        Seq::empty()
    } else {
        tones_written(tones.drop_last()).push(tones.last().0).push(digit_char(tones.last().1))
    }
}

/// The entries of a list: each character with the syllable and its tone, where a tone of
/// 5 stands for none.
pub open spec fn tones_listed(syllable: Seq<char>, tones: Seq<(char, int)>) -> Seq<
    (Seq<char>, char),
> {
    Seq::new(
        tones.len(),
        |i: int|
            (
                syllable.push(
                    digit_char(
                        if tones[i].1 == 5 {
                            0
                        } else {
                            tones[i].1
                        },
                    ),
                ),
                tones[i].0,
            ),
    )
}

proof fn lemma_tones(tones: Seq<(char, int)>)
    requires
        forall|i: int| 0 <= i < tones.len() ==> han((#[trigger] tones[i]).0) && 0 <= tones[i].1 <= 5,
    ensures
        tones_written(tones).len() == 2 * tones.len(),
        forall|i: int|
            0 <= i < tones.len() ==> tones_written(tones)[2 * i] == (#[trigger] tones[i]).0
                && tones_written(tones)[2 * i + 1] == digit_char(tones[i].1),
        unescaped(tones_written(tones)),
    decreases tones.len(),
{
    if tones.len() > 0 {
        let fewer = tones.drop_last();
        assert forall|i: int| 0 <= i < fewer.len() implies han((#[trigger] fewer[i]).0) && 0
            <= fewer[i].1 <= 5 by {
            assert(fewer[i] == tones[i]);
        }
        lemma_tones(fewer);
        let before = tones_written(fewer);
        let all = tones_written(tones);
        let last = tones[tones.len() - 1];
        assert(han(last.0) && 0 <= last.1 <= 5);
        assert forall|i: int| 0 <= i < tones.len() implies all[2 * i] == (#[trigger] tones[i]).0
            && all[2 * i + 1] == digit_char(tones[i].1) by {
            if i < fewer.len() {
                assert(fewer[i] == tones[i]);
                assert(all[2 * i] == before[2 * i] && all[2 * i + 1] == before[2 * i + 1]);
            }
        }
        assert forall|i: int| 0 <= i < all.len() implies (#[trigger] all[i]) != '"' && all[i]
            != '\\' by {
            if i < before.len() {
                assert(all[i] == before[i]);
            }
        }
    }
}

proof fn lemma_tone_pairs(syllable: Seq<char>, tones: Seq<(char, int)>, n: nat)
    requires
        n <= tones.len(),
        forall|i: int| 0 <= i < tones.len() ==> han((#[trigger] tones[i]).0) && 0 <= tones[i].1 <= 5,
    ensures
        tone_pairs(syllable, tones_written(tones), n) == Ok::<Seq<(Seq<char>, char)>, Seq<char>>(
            tones_listed(syllable, tones).take(n as int),
        ),
    decreases n,
{
    let all = tones_listed(syllable, tones);
    lemma_tones(tones);
    if n == 0 {
        assert(all.take(0) =~= Seq::empty());
    } else {
        lemma_tone_pairs(syllable, tones, (n - 1) as nat);
        let t = tones[n - 1];
        assert(han(t.0) && 0 <= t.1 <= 5);
        assert(digit_value(digit_char(t.1), 10) == Some(t.1 as nat));
        assert(all.take(n as int) =~= all.take(n - 1).push(all[n - 1]));
    }
}

/// A line of the table of pronunciations gives every character that it lists, with the
/// syllable that it begins with and the tone behind the character.
pub proof fn law_spell_line_reads_back(
    syllable: Seq<char>,
    code: Seq<char>,
    tones: Seq<(char, int)>,
)
    requires
        syllable.len() > 0,
        unescaped(syllable),
        unescaped(code),
        forall|i: int| 0 <= i < code.len() ==> (#[trigger] code[i]) != ':',
        forall|i: int| 0 <= i < tones.len() ==> han((#[trigger] tones[i]).0) && 0 <= tones[i].1 <= 5,
    ensures
        spell_line(
            seq!['"'] + syllable + seq!['"', ':', '"'] + (code + seq![':'] + tones_written(tones))
                + seq!['"'],
        ) == Ok::<Option<Seq<(Seq<char>, char)>>, Seq<char>>(
            Some(tones_listed(syllable, tones)),
        ),
{
    let pairs = tones_written(tones);
    let encoded = code + seq![':'] + pairs;
    let line = seq!['"'] + syllable + seq!['"', ':', '"'] + encoded + seq!['"'];
    let n = syllable.len() as int;
    lemma_tones(tones);
    assert(line[0] == '"' && line.last() == '"');
    assert(trimmed_start(line) == line);
    assert(trimmed(line) == line);
    assert(line.subrange(1, 1 + n) =~= syllable);
    assert(line[1 + n] == '"');
    lemma_js_tail(line, 1, syllable, Seq::empty());
    assert(Seq::<char>::empty() + syllable =~= syllable);
    assert(js_string(line, 0) == Ok::<(Seq<char>, int), Seq<char>>((syllable, n + 2)));
    assert(line[n + 2] == ':' && line[n + 3] == '"');
    assert(past_white(line, n + 2) == n + 2);
    assert(past_white(line, n + 3) == n + 3);
    assert(unescaped(encoded)) by {
        assert forall|i: int| 0 <= i < encoded.len() implies (#[trigger] encoded[i]) != '"'
            && encoded[i] != '\\' by {
            if i < code.len() {
                assert(encoded[i] == code[i]);
            } else if i > code.len() {
                assert(encoded[i] == pairs[i - code.len() - 1]);
            }
        }
    }
    assert(line.subrange(n + 4, n + 4 + encoded.len()) =~= encoded);
    assert(line[n + 4 + encoded.len()] == '"');
    lemma_js_tail(line, n + 4, encoded, Seq::empty());
    assert(Seq::<char>::empty() + encoded =~= encoded);
    assert(js_string(line, n + 3) is Ok);
    assert forall|k: int| 0 <= k < code.len() implies encoded[k] != ':' by {
        assert(encoded[k] == code[k]);
    }
    lemma_first_place(encoded, ':', code.len() as int);
    assert(encoded.skip(code.len() as int + 1) =~= pairs);
    lemma_tone_pairs(syllable, tones, tones.len());
    assert((pairs.len() + 1) / 2 == tones.len());
    assert(tones_listed(syllable, tones).take(tones.len() as int) =~= tones_listed(
        syllable,
        tones,
    ));
}

proof fn lemma_last_at(a: Seq<char>, c: char, b: Seq<char>)
    requires
        forall|i: int| 0 <= i < b.len() ==> (#[trigger] b[i]) != c,
    ensures
        last_place(a + seq![c] + b, c) == Some(a.len() as int),
    decreases b.len(),
{
    let s = a + seq![c] + b;
    if b.len() > 0 {
        let less = b.drop_last();
        assert forall|i: int| 0 <= i < less.len() implies (#[trigger] less[i]) != c by {
            assert(less[i] == b[i]);
        }
        assert(b[b.len() - 1] != c);
        lemma_last_at(a, c, less);
        assert(s.drop_last() =~= a + seq![c] + less);
    }
}

/// A source is what stands between its first back quote and its last, whatever
/// program text stands around them.
pub proof fn law_source_stands_between_back_quotes(
    name: Seq<char>,
    ahead: Seq<char>,
    text: Seq<char>,
    rest: Seq<char>,
)
    requires
        forall|i: int| 0 <= i < ahead.len() ==> (#[trigger] ahead[i]) != '`',
        forall|i: int| 0 <= i < rest.len() ==> (#[trigger] rest[i]) != '`',
    ensures
        template_text(name, ahead + seq!['`'] + text + seq!['`'] + rest) == Ok::<
            Seq<char>,
            DataFault,
        >(text),
{
    let s = ahead + seq!['`'] + text + seq!['`'] + rest;
    let n = ahead.len() as int;
    assert(forall|k: int| 0 <= k < n ==> s[k] == ahead[k]);
    lemma_first_place(s, '`', n);
    lemma_last_at(ahead + seq!['`'] + text, '`', rest);
    assert(s.subrange(n + 1, n + 1 + text.len()) =~= text);
}

/// A line of the table of parts says that a character is made in this way.
pub open spec fn says_way(line: Seq<char>, c: char, way: Seq<char>) -> bool {
    factor_line(line) matches Ok(Some((head, ways))) && head == c && ways.contains(way)
}

/// A line of the table of parts is about a character.
pub open spec fn is_about(line: Seq<char>, c: char) -> bool {
    factor_line(line) matches Ok(Some((head, ways))) && head == c
}

proof fn lemma_merged(known: Seq<Seq<char>>, more: Seq<Seq<char>>, way: Seq<char>)
    requires
        known.no_duplicates(),
    ensures
        merged(known, more).contains(way) <==> known.contains(way) || more.contains(way),
        merged(known, more).no_duplicates(),
    decreases more.len(),
{
    if more.len() > 0 {
        let fewer = more.drop_last();
        let last = more.last();
        lemma_merged(known, fewer, way);
        lemma_merged(known, fewer, last);
        let before = merged(known, fewer);
        assert(more =~= fewer.push(last));
        assert(more.contains(way) <==> fewer.contains(way) || way == last) by {
            if more.contains(way) {
                let i = choose|i: int| 0 <= i < more.len() && more[i] == way;
                if i < fewer.len() {
                    assert(fewer[i] == way);
                }
            }
            if fewer.contains(way) {
                let i = choose|i: int| 0 <= i < fewer.len() && fewer[i] == way;
                assert(more[i] == way);
            }
            assert(more[more.len() - 1] == last);
        }
        if !before.contains(last) {
            let after = before.push(last);
            if before.contains(way) {
                let i = choose|i: int| 0 <= i < before.len() && before[i] == way;
                assert(after[i] == way);
            }
            assert(after[before.len() as int] == last);
            if after.contains(way) {
                let i = choose|i: int| 0 <= i < after.len() && after[i] == way;
                if i < before.len() {
                    assert(before[i] == way);
                }
            }
        }
    }
}

/// The table of parts holds, of each character, every way that any line says, each
/// once, and no others.
pub proof fn law_table_holds_what_its_lines_say(
    lines: Seq<Seq<char>>,
    n: nat,
    c: char,
    way: Seq<char>,
)
    requires
        n <= lines.len(),
    ensures
        factors_of_lines(lines, n) matches Ok(factors) ==> {
            &&& factors.dom().contains(c) <==> exists|i: int|
                0 <= i < n && is_about(#[trigger] lines[i], c)
            &&& ways_of(factors, c).contains(way) <==> exists|i: int|
                0 <= i < n && says_way(#[trigger] lines[i], c, way)
            &&& ways_of(factors, c).no_duplicates()
        },
    decreases n,
{
    if n > 0 {
        law_table_holds_what_its_lines_say(lines, (n - 1) as nat, c, way);
        let line = lines[n - 1];
        if let Ok(known) = factors_of_lines(lines, (n - 1) as nat) {
            if let Ok(Some((head, ways))) = factor_line(line) {
                if head == c {
                    lemma_merged(ways_of(known, head), ways, way);
                    assert(is_about(lines[n - 1], c));
                    if ways.contains(way) {
                        assert(says_way(lines[n - 1], c, way));
                    }
                }
            }
        }
    }
}

} // verus!
