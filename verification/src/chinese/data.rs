//! What is known of Chinese characters, as inverted indexes.
use crate::chinese::components::{build_components, component_rel, shows};
use crate::chinese::error::{ChineseDataError, PinyinPatternError, WordTemplateError};
use crate::chinese::factor::{factors_of, parse_factor_han, Factors};
use crate::chinese::han::han;
use crate::chinese::pinyin::{glob_matches, glob_of, GlobView, PinyinGlob};
use crate::chinese::spell::{listed_pair, parse_spell, spell_of};
use crate::chinese::strokes::{build_strokes, countable, stroke_fault, stroke_rel};
use crate::chinese::words::{fill_template, parse_words, template_fills, words_of};
use crate::collections::{ClassMap, OrderedSet};
use crate::ordered::views;
use crate::text::chars_of;
use vstd::prelude::*;

verus! {

/// What is known of Chinese characters.
pub struct ChineseData {
    components: ClassMap<char>,
    strokes: ClassMap<u16>,
    pinyin: ClassMap<Vec<char>>,
    words: OrderedSet<Vec<char>>,
}

/// The mathematical content of a [`ChineseData`].
pub struct DataView {
    /// The characters that contain each component.
    pub components: Map<char, Set<char>>,
    /// The characters with each number of strokes.
    pub strokes: Map<u16, Set<char>>,
    /// The characters with each pronunciation, which is pinyin with a tone.
    pub pinyin: Map<Seq<char>, Set<char>>,
    /// The words.
    pub words: Set<Seq<char>>,
}

impl View for ChineseData {
    type V = DataView;

    closed spec fn view(&self) -> DataView {
        DataView {
            components: self.components@,
            strokes: self.strokes@,
            pinyin: self.pinyin@,
            words: self.words@,
        }
    }
}

/// Nothing is known.
pub open spec fn no_data() -> DataView {
    DataView {
        components: Map::empty(),
        strokes: Map::empty(),
        pinyin: Map::empty(),
        words: Set::empty(),
    }
}

/// The data say what the sources say.
pub open spec fn data_from(
    data: DataView,
    factors: Factors,
    entries: Seq<(Seq<char>, char)>,
    words: Set<Seq<char>>,
) -> bool {
    &&& shows(data.components, |part: char, whole: char| component_rel(factors, part, whole))
    &&& shows(data.strokes, |n: u16, c: char| stroke_rel(factors, n, c))
    &&& shows(data.pinyin, |key: Seq<char>, c: char| listed_pair(entries, key, c))
    &&& data.words == words
}

/// The strokes of every character of the repertoire that the table holds can
/// be counted.
pub open spec fn all_countable(factors: Factors) -> bool {
    forall|c: char| #[trigger] factors.dom().contains(c) && han(c) ==> countable(factors, c)
}

/// The characters that contain every one of the components.
pub open spec fn with_all(data: DataView, components: Seq<char>) -> Set<char> {
    Set::new(
        |c: char|
            components.len() > 0 && forall|i: int|
                0 <= i < components.len() ==> data.components.dom().contains(
                    #[trigger] components[i],
                ) && data.components[components[i]].contains(c),
    )
}

/// The characters with a pronunciation that fits the pattern.
pub open spec fn with_glob(data: DataView, glob: GlobView) -> Set<char> {
    Set::new(|c: char| sounds(data, glob, c))
}

/// The character has a pronunciation that fits the pattern.
pub open spec fn sounds(data: DataView, glob: GlobView, c: char) -> bool {
    exists|key: Seq<char>| #[trigger]
        data.pinyin.dom().contains(key) && glob_matches(glob, key) && data.pinyin[key].contains(c)
}

impl ChineseData {
    /// The parts are sound.
    pub closed spec fn wf(&self) -> bool {
        &&& self.components.wf()
        &&& self.strokes.wf()
        &&& self.pinyin.wf()
        &&& self.words.wf()
    }

    /// Reads the sources: how characters are made, how they are pronounced,
    /// and the list of words.
    pub fn from_sources(factor_source: &str, spell_source: &str, word_source: &str) -> (r: Result<
        Self,
        ChineseDataError,
    >)
        ensures
            match factors_of(factor_source@) {
                Err(e) => r matches Err(f) && f@ == e,
                Ok(factors) => if !all_countable(factors) {
                    r matches Err(f) && stroke_fault(factors, f@)
                } else {
                    match spell_of(spell_source@) {
                        Err(e) => r matches Err(f) && f@ == e,
                        Ok(entries) => match words_of(word_source@) {
                            Err(e) => r matches Err(f) && f@ == e,
                            Ok(words) => r matches Ok(data) && data.wf() && data_from(
                                data@,
                                factors,
                                entries,
                                words,
                            ),
                        },
                    }
                },
            },
    {
        let factor_chars = chars_of(factor_source);
        let table = match parse_factor_han(factor_chars.as_slice()) {
            Ok(table) => table,
            Err(e) => {
                return Err(e);
            },
        };
        let components = build_components(&table);
        let strokes = match build_strokes(&table) {
            Ok(strokes) => strokes,
            Err(e) => {
                return Err(e);
            },
        };
        let spell_chars = chars_of(spell_source);
        let pinyin = match parse_spell(spell_chars.as_slice()) {
            Ok(pinyin) => pinyin,
            Err(e) => {
                return Err(e);
            },
        };
        let word_chars = chars_of(word_source);
        let words = match parse_words(word_chars.as_slice()) {
            Ok(words) => words,
            Err(e) => {
                return Err(e);
            },
        };
        Ok(ChineseData { components, strokes, pinyin, words })
    }

    /// The characters that contain a component, themselves counted.
    pub fn characters_with_component(&self, component: char) -> (r: Option<&OrderedSet<char>>)
        requires
            self.wf(),
        ensures
            match r {
                Some(set) => set.wf() && self@.components.dom().contains(component) && set@
                    == self@.components[component],
                None => !self@.components.dom().contains(component),
            },
    {
        self.components.get(&component)
    }

    /// The characters that contain every one of the components.
    pub fn characters_with_components(&self, components: &[char]) -> (r: OrderedSet<char>)
        requires
            self.wf(),
        ensures
            r.wf(),
            r@ == with_all(self@, components@),
    {
        if components.len() == 0 {
            let none: OrderedSet<char> = OrderedSet::new();
            assert(none@ =~= with_all(self@, components@));
            return none;
        }
        let mut result = match self.components.get(&components[0]) {
            Some(set) => set.duplicate(),
            None => {
                let none: OrderedSet<char> = OrderedSet::new();
                proof {
                    assert forall|c: char| !with_all(self@, components@).contains(c) by {
                        assert(!self@.components.dom().contains(components@[0]));
                    }
                    assert(none@ =~= with_all(self@, components@));
                }
                return none;
            },
        };
        let mut i: usize = 1;
        proof {
            let first = components@.take(1);
            assert forall|c: char| result@.contains(c) == with_all(self@, first).contains(c) by {
                assert(first[0] == components@[0]);
            }
            assert(result@ =~= with_all(self@, first));
        }
        while i < components.len()
            invariant
                1 <= i <= components@.len(),
                self.wf(),
                result.wf(),
                result@ == with_all(self@, components@.take(i as int)),
            decreases components.len() - i,
        {
            let c = components[i];
            match self.components.get(&c) {
                Some(set) => {
                    let next = result.keep_common(set);
                    proof {
                        let a = components@.take(i as int);
                        let b = components@.take(i + 1);
                        assert forall|x: char| next@.contains(x) == with_all(self@, b).contains(
                            x,
                        ) by {
                            if with_all(self@, b).contains(x) {
                                assert(b[i as int] == c);
                                assert forall|k: int| 0 <= k < a.len() implies self@.components.dom().contains(
                                    #[trigger] a[k],
                                ) && self@.components[a[k]].contains(x) by {
                                    assert(a[k] == b[k]);
                                }
                                assert(with_all(self@, a).contains(x));
                            }
                            if with_all(self@, a).contains(x) && set@.contains(x) {
                                assert forall|k: int| 0 <= k < b.len() implies self@.components.dom().contains(
                                    #[trigger] b[k],
                                ) && self@.components[b[k]].contains(x) by {
                                    if k < i {
                                        assert(a[k] == b[k]);
                                    }
                                }
                            }
                        }
                        assert(next@ =~= with_all(self@, b));
                    }
                    result = next;
                },
                None => {
                    let none: OrderedSet<char> = OrderedSet::new();
                    proof {
                        assert forall|x: char| !with_all(self@, components@).contains(x) by {
                            assert(!self@.components.dom().contains(components@[i as int]));
                        }
                        assert(none@ =~= with_all(self@, components@));
                    }
                    return none;
                },
            }
            i += 1;
        }
        proof {
            assert(components@.take(i as int) =~= components@);
        }
        result
    }

    /// The characters with this number of strokes, counted by the first way in
    /// which each is made.
    pub fn characters_with_strokes(&self, count: u16) -> (r: Option<&OrderedSet<char>>)
        requires
            self.wf(),
        ensures
            match r {
                Some(set) => set.wf() && self@.strokes.dom().contains(count) && set@
                    == self@.strokes[count],
                None => !self@.strokes.dom().contains(count),
            },
    {
        self.strokes.get(&count)
    }

    /// The characters with a pronunciation that fits a pattern: letters, `ü`
    /// or `v`, one star at most, and a tone from 0 to 4 at the end, where any
    /// tone will do without it.
    pub fn characters_with_pinyin(&self, pattern: &str) -> (r: Result<
        OrderedSet<char>,
        PinyinPatternError,
    >)
        requires
            self.wf(),
        ensures
            match (glob_of(pattern@), r) {
                (Ok(glob), Ok(set)) => set.wf() && set@ == with_glob(self@, glob),
                (Err(e), Err(f)) => f@ == e,
                _ => false,
            },
    {
        let chars = chars_of(pattern);
        let glob = match PinyinGlob::parse(chars.as_slice()) {
            Ok(glob) => glob,
            Err(e) => {
                return Err(e);
            },
        };
        let ghost g = glob@;
        let ghost keys = views(self.pinyin.listed());
        proof {
            self.pinyin.lemma_listed();
        }
        let mut result: OrderedSet<char> = OrderedSet::new();
        let mut i: usize = 0;
        while i < self.pinyin.len()
            invariant
                i <= keys.len(),
                self.wf(),
                result.wf(),
                g == glob@,
                keys == views(self.pinyin.listed()),
                forall|c: char| #[trigger]
                    result@.contains(c) == sounds_upto(self@, keys, i as int, g, c),
            decreases keys.len() - i,
        {
            let ghost before = result@;
            let key = self.pinyin.key_at(i);
            assert(keys[i as int] == key@);
            let fit = glob.matches_key(key.as_slice());
            let class = self.pinyin.class_at(i);
            if fit {
                result.add_all(class);
            }
            proof {
                assert forall|c: char| #[trigger]
                    result@.contains(c) == sounds_upto(self@, keys, i + 1, g, c) by {
                    assert(before.contains(c) == sounds_upto(self@, keys, i as int, g, c));
                    if sounds_upto(self@, keys, i as int, g, c) {
                        let k = choose|k: int|
                            0 <= k < i && glob_matches(g, #[trigger] keys[k])
                                && self@.pinyin[keys[k]].contains(c);
                        assert(glob_matches(g, keys[k]));
                    }
                    if sounds_upto(self@, keys, i + 1, g, c) {
                        let k = choose|k: int|
                            0 <= k < i + 1 && glob_matches(g, #[trigger] keys[k])
                                && self@.pinyin[keys[k]].contains(c);
                        if k < i {
                            assert(glob_matches(g, keys[k]));
                        }
                    }
                }
            }
            i += 1;
        }
        proof {
            let wanted = with_glob(self@, g);
            assert forall|c: char| #[trigger] result@.contains(c) == wanted.contains(c) by {
                if sounds_upto(self@, keys, i as int, g, c) {
                    let k = choose|k: int|
                        0 <= k < i && glob_matches(g, #[trigger] keys[k])
                            && self@.pinyin[keys[k]].contains(c);
                    assert(keys.contains(keys[k]));
                    assert(self@.pinyin.dom().contains(keys[k]));
                }
                if wanted.contains(c) {
                    let key = choose|key: Seq<char>| #[trigger]
                        self@.pinyin.dom().contains(key) && glob_matches(g, key)
                            && self@.pinyin[key].contains(c);
                    assert(keys.contains(key));
                    let k = choose|k: int| 0 <= k < keys.len() && keys[k] == key;
                    assert(glob_matches(g, keys[k]));
                }
            }
            assert(result@ =~= wanted);
        }
        Ok(result)
    }

    /// The characters that fill the one open place of a template to a word.
    pub fn characters_with_word_template(&self, template: &str) -> (r: Result<
        OrderedSet<char>,
        WordTemplateError,
    >)
        requires
            self.wf(),
        ensures
            match (template_fills(self@.words, template@), r) {
                (Ok(s), Ok(set)) => set.wf() && set@ == s,
                (Err(m), Err(e)) => e.message@ == m,
                _ => false,
            },
    {
        let chars = chars_of(template);
        fill_template(&self.words, chars.as_slice())
    }

    /// The number of components.
    pub fn component_class_count(&self) -> (r: usize)
        requires
            self.wf(),
        ensures
            r == self@.components.dom().len(),
    {
        self.components.len()
    }

    /// The number of different stroke counts.
    pub fn stroke_class_count(&self) -> (r: usize)
        requires
            self.wf(),
        ensures
            r == self@.strokes.dom().len(),
    {
        self.strokes.len()
    }

    /// The number of pronunciations.
    pub fn pinyin_class_count(&self) -> (r: usize)
        requires
            self.wf(),
        ensures
            r == self@.pinyin.dom().len(),
    {
        self.pinyin.len()
    }

    /// The number of words.
    pub fn word_count(&self) -> (r: usize)
        requires
            self.wf(),
        ensures
            r == self@.words.len(),
    {
        self.words.len()
    }
}

impl Default for ChineseData {
    fn default() -> (r: Self)
        ensures
            r.wf(),
            r@ == no_data(),
    {
        ChineseData {
            components: ClassMap::new(),
            strokes: ClassMap::new(),
            pinyin: ClassMap::new(),
            words: OrderedSet::new(),
        }
    }
}

/// One of the first `n` pronunciations of a list fits and is the character's.
spec fn sounds_upto(data: DataView, keys: Seq<Seq<char>>, n: int, glob: GlobView, c: char) -> bool {
    exists|k: int|
        0 <= k < n && glob_matches(glob, #[trigger] keys[k]) && data.pinyin[keys[k]].contains(c)
}

} // verus!
