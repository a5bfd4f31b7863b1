//! What the patterns for pinyin find.
use crate::chinese::data::{sounds, with_glob, DataView};
use crate::chinese::error::PatternFault;
use crate::chinese::pinyin::{body_of, glob_matches, glob_of, lower, normal_glob, tone_of};
use crate::text::{
    digit, digit_char, digit_value, lemma_first_place, lemma_same_code_point, letter,
};
use vstd::prelude::*;

verus! {

/// The letter `c` of a pattern means the letter `d`: itself in lower case, or `ü` for
/// which `v` may be written.
pub open spec fn means_letter(c: char, d: char) -> bool {
    if c == 'v' || c == 'V' || c == 'ü' || c == 'Ü' {
        d == 'ü'
    } else {
        'a' <= d <= 'z' && (c == d || c as int + 32 == d as int)
    }
}

/// The letters of a pattern mean these letters.
pub open spec fn means_letters(written: Seq<char>, meant: Seq<char>) -> bool {
    written.len() == meant.len() && forall|i: int|
        0 <= i < written.len() ==> means_letter(#[trigger] written[i], meant[i])
}

/// A character of a pattern is a star, or means this letter.
spec fn means_sign(c: char, d: char) -> bool {
    (c == '*' && d == '*') || means_letter(c, d)
}

/// Reading a pattern with one star at most gives its letters.
proof fn lemma_normal(body: Seq<char>, meant: Seq<char>, star: int, n: nat)
    requires
        n <= body.len() == meant.len(),
        forall|i: int| 0 <= i < body.len() ==> means_sign(#[trigger] body[i], meant[i]),
        forall|i: int| 0 <= i < body.len() && (#[trigger] body[i]) == '*' ==> i == star,
    ensures
        normal_glob(body, n) == Ok::<Seq<char>, PatternFault>(
            meant.take(n as int),
        ),
    decreases n,
{
    if n > 0 {
        lemma_normal(body, meant, star, (n - 1) as nat);
        let c = body[n - 1];
        let d = meant[n - 1];
        let known = meant.take(n - 1);
        assert(means_sign(c, d));
        assert(meant.take(n as int) =~= known.push(d));
        if c == '*' {
            if known.contains('*') {
                let k = choose|k: int| 0 <= k < known.len() && known[k] == '*';
                assert(means_sign(body[k], meant[k]));
                assert(body[k] == '*');
            }
        } else if !(c == 'v' || c == 'V' || c == 'ü' || c == 'Ü') {
            assert(letter(c));
            if c != d {
                assert(c as int + 32 == d as int);
                assert(d == lower(c)) by {
                    lemma_same_code_point(d, lower(c));
                }
            } else {
                assert(lower(c) == c);
            }
        }
    } else {
        assert(meant.take(0) =~= Seq::empty());
    }
}

/// The tone that a pattern asks for, as it is written at its end.
pub open spec fn tone_written(tone: Option<int>) -> Seq<char> {
    match tone {
        Some(t) => seq![digit_char(t)],
        None => Seq::empty(),
    }
}

/// A key is a syllable and, behind it, its tone: the tone that is asked for, if one
/// is.
pub open spec fn toned(key: Seq<char>, syllable: Seq<char>, tone: Option<int>) -> bool {
    &&& key.len() == syllable.len() + 1
    &&& key.drop_last() == syllable
    &&& digit(key.last())
    &&& tone matches Some(t) ==> key.last() == digit_char(t)
}

proof fn lemma_tone_read(body: Seq<char>, tone: Option<int>)
    requires
        body.len() > 0,
        !digit(body.last()),
        tone matches Some(t) ==> 0 <= t <= 4,
    ensures
        body_of(body + tone_written(tone)) == body,
        tone_of(body + tone_written(tone)) == (match tone {
            Some(t) => Some(t as nat),
            None => None,
        }),
{
    let input = body + tone_written(tone);
    match tone {
        Some(t) => {
            assert(input.last() == digit_char(t));
            assert(input.drop_last() =~= body);
        },
        None => {
            assert(input =~= body);
        },
    }
}

proof fn lemma_tone_fits(key: Seq<char>, tone: Option<int>)
    requires
        key.len() > 0,
        tone matches Some(t) ==> 0 <= t <= 4,
    ensures
        digit(key.last()) <==> digit_value(key.last(), 10) is Some,
        tone matches Some(t) ==> (digit_value(key.last(), 10) == Some(t as nat) <==> key.last()
            == digit_char(t)),
{
    if let Some(t) = tone {
        if digit_value(key.last(), 10) == Some(t as nat) {
            lemma_same_code_point(key.last(), digit_char(t));
        }
    }
}

proof fn lemma_no_star(s: Seq<char>, meant: Seq<char>)
    requires
        means_letters(s, meant),
    ensures
        forall|i: int| 0 <= i < s.len() ==> (#[trigger] s[i]) != '*' && !digit(s[i]),
        forall|i: int| 0 <= i < s.len() ==> (#[trigger] meant[i]) != '*',
{
    assert forall|i: int| 0 <= i < s.len() implies (#[trigger] s[i]) != '*' && !digit(s[i]) by {
        assert(means_letter(s[i], meant[i]));
    }
    assert forall|i: int| 0 <= i < s.len() implies (#[trigger] meant[i]) != '*' by {
        assert(means_letter(s[i], meant[i]));
    }
}

/// A pattern with a star fits exactly the keys whose syllable begins with the letters
/// before the star and ends with those behind it, with anything or nothing between
/// them; a tone at its end has to be that of the key.
pub proof fn law_star_stands_for_any_letters(
    before: Seq<char>,
    behind: Seq<char>,
    prefix: Seq<char>,
    suffix: Seq<char>,
    tone: Option<int>,
    key: Seq<char>,
)
    requires
        means_letters(before, prefix),
        means_letters(behind, suffix),
        tone matches Some(t) ==> 0 <= t <= 4,
    ensures
        glob_of(before + seq!['*'] + behind + tone_written(tone)) matches Ok(glob) && (
        glob_matches(glob, key) <==> exists|between: Seq<char>| #[trigger]
            toned(key, prefix + between + suffix, tone)),
{
    let body = before + seq!['*'] + behind;
    let meant = prefix + seq!['*'] + suffix;
    let input = body + tone_written(tone);
    let star = before.len() as int;
    lemma_no_star(before, prefix);
    lemma_no_star(behind, suffix);
    assert forall|i: int| 0 <= i < body.len() implies means_sign(#[trigger] body[i], meant[i]) by {
        if i < star {
            assert(body[i] == before[i] && meant[i] == prefix[i]);
        } else if i > star {
            assert(body[i] == behind[i - star - 1] && meant[i] == suffix[i - star - 1]);
        }
    }
    assert forall|i: int| 0 <= i < body.len() && (#[trigger] body[i]) == '*' implies i == star by {
        if i < star {
            assert(body[i] == before[i]);
        } else if i > star {
            assert(body[i] == behind[i - star - 1]);
        }
    }
    assert(!digit(body.last())) by {
        if behind.len() > 0 {
            assert(body.last() == behind[behind.len() - 1]);
        }
    }
    lemma_tone_read(body, tone);
    lemma_normal(body, meant, star, body.len());
    assert(meant.take(body.len() as int) =~= meant);
    assert forall|k: int| 0 <= k < star implies meant[k] != '*' by {
        assert(meant[k] == prefix[k]);
    }
    lemma_first_place(meant, '*', star);
    assert(meant.take(star) =~= prefix);
    assert(meant.skip(star + 1) =~= suffix);
    let glob = glob_of(input)->Ok_0;
    assert(glob.prefix == prefix && glob.suffix == suffix && glob.wildcard);
    if key.len() > 0 {
        lemma_tone_fits(key, tone);
        let base = key.drop_last();
        if glob_matches(glob, key) {
            let between = base.subrange(prefix.len() as int, base.len() - suffix.len());
            assert(base =~= prefix + between + suffix) by {
                assert(base =~= base.take(prefix.len() as int) + between + base.skip(
                    base.len() - suffix.len(),
                ));
            }
            assert(toned(key, prefix + between + suffix, tone));
        }
    }
    if exists|between: Seq<char>| #[trigger] toned(key, prefix + between + suffix, tone) {
        let between = choose|between: Seq<char>| #[trigger]
            toned(key, prefix + between + suffix, tone);
        let base = key.drop_last();
        assert(base.take(prefix.len() as int) =~= prefix);
        assert(base.skip(base.len() - suffix.len()) =~= suffix);
        lemma_tone_fits(key, tone);
    }
}

/// A pattern without a star fits exactly the keys whose syllable is the one that is
/// written; a tone at its end has to be that of the key.
pub proof fn law_letters_stand_for_themselves(
    written: Seq<char>,
    syllable: Seq<char>,
    tone: Option<int>,
    key: Seq<char>,
)
    requires
        written.len() > 0,
        means_letters(written, syllable),
        tone matches Some(t) ==> 0 <= t <= 4,
    ensures
        glob_of(written + tone_written(tone)) matches Ok(glob) && (glob_matches(glob, key)
            <==> toned(key, syllable, tone)),
{
    lemma_no_star(written, syllable);
    assert(!digit(written.last())) by {
        assert(written.last() == written[written.len() - 1]);
    }
    lemma_tone_read(written, tone);
    assert forall|i: int| 0 <= i < written.len() implies means_sign(
        #[trigger] written[i],
        syllable[i],
    ) by {
        assert(means_letter(written[i], syllable[i]));
    }
    lemma_normal(written, syllable, 0, written.len());
    assert(syllable.take(written.len() as int) =~= syllable);
    lemma_first_place(syllable, '*', syllable.len() as int);
    if key.len() > 0 {
        lemma_tone_fits(key, tone);
    }
}

/// The characters that a pattern with a star finds are those that have a
/// pronunciation which begins and ends as the pattern does, with its tone.
pub proof fn law_pinyin_pattern_finds_by_beginning_and_end(
    data: DataView,
    before: Seq<char>,
    behind: Seq<char>,
    prefix: Seq<char>,
    suffix: Seq<char>,
    tone: Option<int>,
    c: char,
)
    requires
        means_letters(before, prefix),
        means_letters(behind, suffix),
        tone matches Some(t) ==> 0 <= t <= 4,
    ensures
        glob_of(before + seq!['*'] + behind + tone_written(tone)) matches Ok(glob) && (with_glob(
            data,
            glob,
        ).contains(c) <==> exists|key: Seq<char>, between: Seq<char>|
            data.pinyin.dom().contains(key) && data.pinyin[key].contains(c) && #[trigger] toned(
                key,
                prefix + between + suffix,
                tone,
            )),
{
    law_star_stands_for_any_letters(before, behind, prefix, suffix, tone, Seq::empty());
    let glob = glob_of(before + seq!['*'] + behind + tone_written(tone))->Ok_0;
    if with_glob(data, glob).contains(c) {
        let key = choose|key: Seq<char>| #[trigger]
            data.pinyin.dom().contains(key) && glob_matches(glob, key) && data.pinyin[key].contains(
                c,
            );
        law_star_stands_for_any_letters(before, behind, prefix, suffix, tone, key);
        let between = choose|between: Seq<char>| #[trigger]
            toned(key, prefix + between + suffix, tone);
        assert(toned(key, prefix + between + suffix, tone));
    }
    if exists|key: Seq<char>, between: Seq<char>|
        data.pinyin.dom().contains(key) && data.pinyin[key].contains(c) && #[trigger] toned(
            key,
            prefix + between + suffix,
            tone,
        ) {
        let (key, between) = choose|key: Seq<char>, between: Seq<char>|
            data.pinyin.dom().contains(key) && data.pinyin[key].contains(c) && #[trigger] toned(
                key,
                prefix + between + suffix,
                tone,
            );
        law_star_stands_for_any_letters(before, behind, prefix, suffix, tone, key);
        assert(sounds(data, glob, c));
    }
}

/// The characters that a pattern without a star finds are those that have this
/// pronunciation, with its tone.
pub proof fn law_pinyin_without_star_finds_that_syllable(
    data: DataView,
    written: Seq<char>,
    syllable: Seq<char>,
    tone: Option<int>,
    c: char,
)
    requires
        written.len() > 0,
        means_letters(written, syllable),
        tone matches Some(t) ==> 0 <= t <= 4,
    ensures
        glob_of(written + tone_written(tone)) matches Ok(glob) && (with_glob(data, glob).contains(
            c,
        ) <==> exists|key: Seq<char>|
            data.pinyin.dom().contains(key) && data.pinyin[key].contains(c) && #[trigger] toned(
                key,
                syllable,
                tone,
            )),
{
    law_letters_stand_for_themselves(written, syllable, tone, Seq::empty());
    let glob = glob_of(written + tone_written(tone))->Ok_0;
    if with_glob(data, glob).contains(c) {
        let key = choose|key: Seq<char>| #[trigger]
            data.pinyin.dom().contains(key) && glob_matches(glob, key) && data.pinyin[key].contains(
                c,
            );
        law_letters_stand_for_themselves(written, syllable, tone, key);
        assert(toned(key, syllable, tone));
    }
    if exists|key: Seq<char>|
        data.pinyin.dom().contains(key) && data.pinyin[key].contains(c) && #[trigger] toned(
            key,
            syllable,
            tone,
        ) {
        let key = choose|key: Seq<char>|
            data.pinyin.dom().contains(key) && data.pinyin[key].contains(c) && #[trigger] toned(
                key,
                syllable,
                tone,
            );
        law_letters_stand_for_themselves(written, syllable, tone, key);
        assert(sounds(data, glob, c));
    }
}

} // verus!
