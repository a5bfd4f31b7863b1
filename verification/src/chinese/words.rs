//! The list of words, and templates that leave one character open.
use crate::chinese::error::{ChineseDataError, DataFault, WordTemplateError};
use crate::chinese::han::{all_han, are_all_han, han, is_han};
use crate::chinese::template::{read_template, template_text};
use crate::collections::OrderedSet;
use crate::ordered::views;
use crate::text::{char_debug, copy_chars, debug_char, join2, split_chars, split_on, trim, trimmed};
use vstd::prelude::*;

verus! {

/// The name of the source.
pub open spec fn word_source_name() -> Seq<char> {
    "out.js"@
}

/// The word is one of the first `n` lines.
pub open spec fn word_listed(lines: Seq<Seq<char>>, n: int, word: Seq<char>) -> bool {
    word.len() > 0 && all_han(word) && exists|i: int|
        0 <= i < n && trimmed(#[trigger] lines[i]) == word
}

/// The words that a source lists: the lines made of characters of the
/// repertoire alone.
pub open spec fn words_of(source: Seq<char>) -> Result<Set<Seq<char>>, DataFault> {
    match template_text(word_source_name(), source) {
        Err(e) => Err(e),
        Ok(text) => {
            let lines = split_on(text, '\n');
            let words = Set::new(|w: Seq<char>| word_listed(lines, lines.len() as int, w));
            if words == Set::<Seq<char>>::empty() {
                Err(
                    DataFault {
                        source_name: word_source_name(),
                        line: 1,
                        message: "词表中没有纯汉字词条"@,
                    },
                )
            } else {
                Ok(words)
            }
        },
    }
}

/// Reads the list of words.
pub fn parse_words(source: &[char]) -> (r: Result<OrderedSet<Vec<char>>, ChineseDataError>)
    ensures
        match (words_of(source@), r) {
            (Ok(words), Ok(set)) => set.wf() && set@ == words,
            (Err(e), Err(f)) => f@ == e,
            _ => false,
        },
{
    let text = match read_template("out.js", source) {
        Ok(text) => text,
        Err(e) => {
            return Err(e);
        },
    };
    let lines = split_chars(text, '\n');
    let ghost all = views(lines@);
    let mut found: Vec<Vec<char>> = Vec::new();
    let mut i: usize = 0;
    while i < lines.len()
        invariant
            i <= lines@.len(),
            all == views(lines@),
            forall|w: Seq<char>| #[trigger] views(found@).contains(w) == word_listed(
                all,
                i as int,
                w,
            ),
        decreases lines.len() - i,
    {
        assert(all[i as int] == lines@[i as int]@);
        let word = trim(lines[i].as_slice());
        let ghost before = views(found@);
        let kept = word.len() > 0 && are_all_han(word);
        if kept {
            let copy = copy_chars(word);
            found.push(copy);
            proof {
                assert(views(found@) =~= before.push(copy@));
            }
        }
        proof {
            let here = trimmed(all[i as int]);
            assert forall|w: Seq<char>| #[trigger] views(found@).contains(w) == word_listed(
                all,
                i + 1,
                w,
            ) by {
                assert(before.contains(w) == word_listed(all, i as int, w));
                if kept {
                    if before.contains(w) {
                        let k = choose|k: int| 0 <= k < before.len() && before[k] == w;
                        assert(views(found@)[k] == w);
                    }
                    if w == here {
                        assert(views(found@)[before.len() as int] == w);
                    }
                    if views(found@).contains(w) {
                        let k = choose|k: int| 0 <= k < views(found@).len() && views(found@)[k] == w;
                        if k < before.len() {
                            assert(before[k] == w);
                        }
                    }
                }
                if word_listed(all, i + 1, w) && !word_listed(all, i as int, w) {
                    let k = choose|k: int| 0 <= k < i + 1 && trimmed(#[trigger] all[k]) == w;
                    assert(k == i);
                }
                if word_listed(all, i as int, w) {
                    let k = choose|k: int| 0 <= k < i && trimmed(#[trigger] all[k]) == w;
                    assert(trimmed(all[k]) == w);
                }
                if kept && w == here {
                    assert(trimmed(all[i as int]) == w);
                }
            }
        }
        i += 1;
    }
    let ghost list = views(found@);
    let set = OrderedSet::from_vec(found);
    proof {
        let words = Set::new(|w: Seq<char>| word_listed(all, all.len() as int, w));
        assert forall|w: Seq<char>| #[trigger] set@.contains(w) == words.contains(w) by {
            assert(list.to_set().contains(w) == list.contains(w));
        }
        assert(set@ =~= words);
    }
    if set.is_empty() {
        return Err(ChineseDataError::parse("out.js", 1, "词表中没有纯汉字词条"));
    }
    Ok(set)
}

/// The message for a template without exactly one open place.
pub open spec fn one_slot_message() -> Seq<char> {
    "组词模板必须恰好包含一个 ."@
}

/// The open place among the first `n` characters of a template, or the first
/// fault in them.
pub open spec fn slot_of(template: Seq<char>, n: nat) -> Result<Option<int>, Seq<char>>
    decreases n,
{
    if n == 0 {
        Ok(None)
    } else {
        match slot_of(template, (n - 1) as nat) {
            Err(e) => Err(e),
            Ok(slot) => {
                let c = template[n - 1];
                if c == '.' {
                    if slot is Some {
                        Err(one_slot_message())
                    } else {
                        Ok(Some(n - 1))
                    }
                } else if han(c) {
                    Ok(slot)
                } else {
                    Err(
                        "组词模板只允许汉字和一个 .；不支持 "@ + debug_char(c),
                    )
                }
            },
        }
    }
}

/// The word fits the template: it has its length, and its characters but at
/// the open place.
pub open spec fn fits_template(template: Seq<char>, slot: int, word: Seq<char>) -> bool {
    word.len() == template.len() && forall|i: int|
        0 <= i < word.len() && i != slot ==> word[i] == #[trigger] template[i]
}

/// The characters that fill the open place of a template to a word of the set.
pub open spec fn template_fills(words: Set<Seq<char>>, template: Seq<char>) -> Result<
    Set<char>,
    Seq<char>,
> {
    match slot_of(template, template.len()) {
        Err(e) => Err(e),
        Ok(None) => Err(one_slot_message()),
        Ok(Some(slot)) => Ok(Set::new(|c: char| fills(words, template, slot, c))),
    }
}

/// The character fills the open place to a word of the set.
pub open spec fn fills(words: Set<Seq<char>>, template: Seq<char>, slot: int, c: char) -> bool {
    exists|w: Seq<char>| #[trigger]
        words.contains(w) && fits_template(template, slot, w) && w[slot] == c
}

proof fn lemma_slot_fault(template: Seq<char>, m: nat, n: nat)
    requires
        m <= n,
        slot_of(template, m) is Err,
    ensures
        slot_of(template, n) == slot_of(template, m),
    decreases n,
{
    if m < n {
        lemma_slot_fault(template, m, (n - 1) as nat);
    }
}

/// The open place of a template.
fn find_slot(template: &[char]) -> (r: Result<usize, WordTemplateError>)
    ensures
        match (slot_of(template@, template@.len()), r) {
            (Ok(Some(slot)), Ok(s)) => s == slot && s < template@.len(),
            (Ok(None), Err(e)) => e.message@ == one_slot_message(),
            (Err(m), Err(e)) => e.message@ == m,
            _ => false,
        },
{
    let mut slot: Option<usize> = None;
    let mut i: usize = 0;
    while i < template.len()
        invariant
            i <= template@.len(),
            match slot {
                Some(s) => s < i && slot_of(template@, i as nat) == Ok::<Option<int>, Seq<char>>(
                    Some(s as int),
                ),
                None => slot_of(template@, i as nat) == Ok::<Option<int>, Seq<char>>(None),
            },
        decreases template.len() - i,
    {
        let c = template[i];
        if c == '.' {
            if slot.is_some() {
                proof {
                    lemma_slot_fault(template@, (i + 1) as nat, template@.len());
                }
                return Err(WordTemplateError::new("组词模板必须恰好包含一个 ."));
            }
            slot = Some(i);
        } else if !is_han(c) {
            proof {
                lemma_slot_fault(template@, (i + 1) as nat, template@.len());
            }
            let shown = char_debug(c);
            let message = join2(
                "组词模板只允许汉字和一个 .；不支持 ",
                shown.as_str(),
            );
            return Err(WordTemplateError { message });
        }
        i += 1;
    }
    match slot {
        Some(s) => Ok(s),
        None => Err(WordTemplateError::new("组词模板必须恰好包含一个 .")),
    }
}

/// Whether a word fits a template.
fn word_fits(template: &[char], slot: usize, word: &Vec<char>) -> (r: bool)
    ensures
        r == fits_template(template@, slot as int, word@),
{
    if word.len() != template.len() {
        return false;
    }
    let mut i: usize = 0;
    while i < word.len()
        invariant
            i <= word@.len(),
            word@.len() == template@.len(),
            forall|k: int| 0 <= k < i && k != slot ==> word@[k] == #[trigger] template@[k],
        decreases word.len() - i,
    {
        if i != slot && word[i] != template[i] {
            assert(word@[i as int] != template@[i as int]);
            return false;
        }
        i += 1;
    }
    true
}

/// The characters that fill the open place of a template to a word of the set.
pub fn fill_template(words: &OrderedSet<Vec<char>>, template: &[char]) -> (r: Result<
    OrderedSet<char>,
    WordTemplateError,
>)
    requires
        words.wf(),
    ensures
        match (template_fills(words@, template@), r) {
            (Ok(s), Ok(set)) => set.wf() && set@ == s,
            (Err(m), Err(e)) => e.message@ == m,
            _ => false,
        },
{
    let slot: usize = match find_slot(template) {
        Ok(slot) => slot,
        Err(e) => {
            return Err(e);
        },
    };
    proof {
        words.lemma_listed();
    }
    let list = words.as_slice();
    let ghost all = views(words.listed());
    let mut result: OrderedSet<char> = OrderedSet::new();
    let mut i: usize = 0;
    while i < list.len()
        invariant
            i <= list@.len(),
            slot < template@.len(),
            list@ == words.listed(),
            all == views(words.listed()),
            result.wf(),
            forall|c: char| #[trigger]
                result@.contains(c) == filled_upto(all, i as int, template@, slot as int, c),
        decreases list.len() - i,
    {
        let ghost before = result@;
        let word = &list[i];
        assert(all[i as int] == word@);
        let fit = word_fits(template, slot, word);
        if fit {
            result.insert(word[slot]);
        }
        proof {
            assert forall|c: char| #[trigger]
                result@.contains(c) == filled_upto(all, i + 1, template@, slot as int, c) by {
                assert(before.contains(c) == filled_upto(
                    all,
                    i as int,
                    template@,
                    slot as int,
                    c,
                ));
                if filled_upto(all, i as int, template@, slot as int, c) {
                    let k = choose|k: int|
                        0 <= k < i && fits_template(template@, slot as int, #[trigger] all[k])
                            && all[k][slot as int] == c;
                    assert(all[k][slot as int] == c);
                }
                if filled_upto(all, i + 1, template@, slot as int, c) {
                    let k = choose|k: int|
                        0 <= k < i + 1 && fits_template(template@, slot as int, #[trigger] all[k])
                            && all[k][slot as int] == c;
                    if k < i {
                        assert(all[k][slot as int] == c);
                    }
                }
            }
        }
        i += 1;
    }
    proof {
        let wanted = Set::new(|c: char| fills(words@, template@, slot as int, c));
        assert forall|c: char| #[trigger] result@.contains(c) == wanted.contains(c) by {
            if result@.contains(c) {
                let k = choose|k: int|
                    0 <= k < all.len() && fits_template(template@, slot as int, #[trigger] all[k])
                        && all[k][slot as int] == c;
                assert(words@.contains(all[k]));
            }
            if wanted.contains(c) {
                let w = choose|w: Seq<char>| #[trigger]
                    words@.contains(w) && fits_template(template@, slot as int, w)
                        && w[slot as int] == c;
                assert(all.contains(w));
                let k = choose|k: int| 0 <= k < all.len() && all[k] == w;
                assert(all[k][slot as int] == c);
            }
        }
        assert(result@ =~= wanted);
    }
    Ok(result)
}

/// One of the first `n` words of a list fits with this character.
spec fn filled_upto(
    list: Seq<Seq<char>>,
    n: int,
    template: Seq<char>,
    slot: int,
    c: char,
) -> bool {
    exists|k: int|
        0 <= k < n && fits_template(template, slot, #[trigger] list[k]) && list[k][slot] == c
}

} // verus!
