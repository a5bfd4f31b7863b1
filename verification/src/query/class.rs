//! Character classes within the repertoire of Chinese characters.
use crate::chinese::han::{han, is_han};
use crate::ordered::{lemma_same_multiset_same_set, sort, sort_dedup, sorted, ascending, views, Ordered};
use vstd::prelude::*;

verus! {

/// An inclusive range of Unicode scalar values.
#[derive(Clone, Copy, Debug, PartialEq, Eq, PartialOrd, Ord, Hash, Structural)]
pub struct CharRange {
    pub start: char,
    pub end: char,
}

impl View for CharRange {
    type V = CharRange;

    open spec fn view(&self) -> CharRange {
        *self
    }
}

impl Ordered for CharRange {
    open spec fn leq(a: CharRange, b: CharRange) -> bool {
        if a.start == b.start {
            a.end <= b.end
        } else {
            a.start < b.start
        }
    }

    proof fn leq_total_order(a: CharRange, b: CharRange, c: CharRange) {
    }

    fn is_leq(&self, other: &Self) -> (r: bool) {
        if self.start == other.start {
            self.end <= other.end
        } else {
            self.start < other.start
        }
    }
}

/// A character class whose universe is the accepted repertoire.
#[derive(Clone, Debug, PartialEq, Eq, PartialOrd, Ord, Hash)]
pub enum CharacterClass {
    /// Every character of the repertoire.
    Han,
    /// Explicit ranges, complemented within the repertoire where `negated`.
    Ranges { ranges: Vec<CharRange>, negated: bool },
}

/// The mathematical content of a [`CharacterClass`].
pub enum ClassView {
    Han,
    Ranges { ranges: Seq<CharRange>, negated: bool },
}

impl View for CharacterClass {
    type V = ClassView;

    open spec fn view(&self) -> ClassView {
        match *self {
            CharacterClass::Han => ClassView::Han,
            CharacterClass::Ranges { ranges, negated } => ClassView::Ranges {
                ranges: ranges@,
                negated,
            },
        }
    }
}

/// One of the ranges holds `c`.
pub open spec fn in_ranges(ranges: Seq<CharRange>, c: char) -> bool {
    exists|i: int|
        0 <= i < ranges.len() && (#[trigger] ranges[i]).start <= c && c <= ranges[i].end
}

/// The characters of a class.
pub open spec fn class_has(class: ClassView, c: char) -> bool {
    han(c) && match class {
        ClassView::Han => true,
        ClassView::Ranges { ranges, negated } => in_ranges(ranges, c) != negated,
    }
}

/// The ranges ascend, and neighbours do not touch.
pub open spec fn separated(ranges: Seq<CharRange>) -> bool {
    forall|i: int, j: int|
        0 <= i < j < ranges.len() ==> (#[trigger] ranges[i]).start <= (
        #[trigger] ranges[j]).start && ranges[i].end as int + 1 < ranges[j].start as int
}

/// No range is inverted.
pub open spec fn upright(ranges: Seq<CharRange>) -> bool {
    forall|i: int| 0 <= i < ranges.len() ==> (#[trigger] ranges[i]).start <= ranges[i].end
}

/// The ranges of a class are separated.
pub open spec fn class_wf(class: ClassView) -> bool {
    match class {
        ClassView::Han => true,
        ClassView::Ranges { ranges, negated } => separated(ranges),
    }
}

/// Joins a sorted sequence of ranges, left to right: a range that overlaps or
/// touches what stands last extends it, any other is added.
pub open spec fn joined(ranges: Seq<CharRange>) -> Seq<CharRange>
    decreases ranges.len(),
{
    if ranges.len() == 0 {
        Seq::empty()
    } else {
        let before = joined(ranges.drop_last());
        let range = ranges.last();
        if before.len() > 0 && range.start as int <= before.last().end as int + 1 {
            if range.end > before.last().end {
                before.drop_last().push(CharRange { start: before.last().start, end: range.end })
            } else {
                before
            }
        } else {
            before.push(range)
        }
    }
}

/// A range of one character.
pub open spec fn single(c: char) -> CharRange {
    CharRange { start: c, end: c }
}

/// Joining keeps the characters, and leaves ranges that do not touch.
pub proof fn lemma_joined(ranges: Seq<CharRange>)
    requires
        sorted::<CharRange>(ranges),
    ensures
        separated(joined(ranges)),
        ranges.len() > 0 ==> joined(ranges).len() > 0 && joined(ranges).last().start
            <= ranges.last().start,
        upright(ranges) ==> upright(joined(ranges)),
        forall|c: char| #[trigger] in_ranges(joined(ranges), c) == in_ranges(ranges, c),
    decreases ranges.len(),
{
    if ranges.len() > 0 {
        let rest = ranges.drop_last();
        lemma_joined(rest);
        let before = joined(rest);
        let range = ranges.last();
        let after = joined(ranges);
        assert(sorted::<CharRange>(rest));
        if rest.len() > 0 {
            assert(CharRange::leq(ranges[ranges.len() - 2], ranges[ranges.len() - 1]));
            assert(before.last().start <= range.start);
        }
        assert(upright(ranges) ==> upright(rest)) by {
            if upright(ranges) {
                assert forall|i: int| 0 <= i < rest.len() implies (#[trigger] rest[i]).start
                    <= rest[i].end by {
                    assert(rest[i] == ranges[i]);
                }
            }
        }
        if upright(ranges) {
            assert(ranges[ranges.len() - 1] == range);
            if before.len() > 0 {
                assert(before[before.len() - 1] == before.last());
            }
        }
        assert forall|c: char| #[trigger] in_ranges(after, c) == in_ranges(ranges, c) by {
            assert(in_ranges(before, c) == in_ranges(rest, c));
            if in_ranges(ranges, c) {
                let i = choose|i: int|
                    0 <= i < ranges.len() && (#[trigger] ranges[i]).start <= c && c
                        <= ranges[i].end;
                if i < rest.len() {
                    assert(rest[i] == ranges[i]);
                    assert(in_ranges(rest, c));
                    let k = choose|k: int|
                        0 <= k < before.len() && (#[trigger] before[k]).start <= c && c
                            <= before[k].end;
                    if k < before.len() - 1 {
                        assert(after[k] == before[k]);
                    } else {
                        assert(after[k].start == before[k].start);
                        assert(after[k].end >= before[k].end);
                    }
                } else {
                    assert(range.start <= c <= range.end);
                    assert(after[after.len() - 1].start <= c);
                    assert(after[after.len() - 1].end >= c);
                }
            }
            if in_ranges(after, c) {
                let k = choose|k: int|
                    0 <= k < after.len() && (#[trigger] after[k]).start <= c && c
                        <= after[k].end;
                if k < before.len() && (before[k] == after[k] || c <= before[k].end) {
                    assert(before[k].start <= c && c <= before[k].end);
                    assert(in_ranges(before, c));
                    let i = choose|i: int|
                        0 <= i < rest.len() && (#[trigger] rest[i]).start <= c && c
                            <= rest[i].end;
                    assert(ranges[i] == rest[i]);
                } else {
                    assert(ranges[ranges.len() - 1].start <= c);
                    assert(c <= ranges[ranges.len() - 1].end);
                }
            }
        }
    }
}

impl CharacterClass {
    /// The whole repertoire.
    pub fn han() -> (r: Self)
        ensures
            r@ == ClassView::Han,
    {
        CharacterClass::Han
    }

    /// The class of those of the given characters that belong to the
    /// repertoire, as upright ranges that do not touch.
    pub fn from_chars(characters: Vec<char>) -> (r: Self)
        ensures
            r@ matches ClassView::Ranges { ranges, negated } && !negated && separated(ranges)
                && upright(ranges) && forall|c: char| #[trigger]
                in_ranges(ranges, c) == (han(c) && characters@.contains(c)),
    {
        let mut kept: Vec<char> = Vec::new();
        let mut i: usize = 0;
        while i < characters.len()
            invariant
                i <= characters.len(),
                forall|c: char| #[trigger]
                    kept@.contains(c) <==> han(c) && characters@.take(i as int).contains(c),
            decreases characters.len() - i,
        {
            let ghost before = kept@;
            if is_han(characters[i]) {
                kept.push(characters[i]);
            }
            proof {
                let seen = characters@.take(i as int);
                assert(characters@.take(i + 1) =~= seen.push(characters@[i as int]));
                assert forall|c: char| #[trigger] kept@.contains(c) <==> han(c)
                    && characters@.take(i + 1).contains(c) by {
                    lemma_push_contains(seen, characters@[i as int], c);
                    if han(characters@[i as int]) {
                        lemma_push_contains(before, characters@[i as int], c);
                    }
                    assert(before.contains(c) <==> han(c) && seen.contains(c));
                }
            }
            i += 1;
        }
        proof {
            assert(characters@.take(i as int) =~= characters@);
            assert(views(kept@) =~= kept@);
        }
        let ghost chosen = kept@;
        let points = sort_dedup(kept);
        proof {
            assert(views(points@) =~= points@);
            assert forall|c: char| points@.contains(c) == chosen.contains(c) by {
                assert(points@.to_set().contains(c) == points@.contains(c));
                assert(chosen.to_set().contains(c) == chosen.contains(c));
            }
        }
        let mut ranges: Vec<CharRange> = Vec::new();
        let mut k: usize = 0;
        while k < points.len()
            invariant
                k <= points.len(),
                ascending::<char>(points@),
                ranges@ == joined(singles(points@.take(k as int))),
                ranges@.len() > 0 ==> k > 0 && ranges@.last().end == points@[k - 1],
            decreases points.len() - k,
        {
            let c = points[k];
            proof {
                if k > 0 {
                    assert(char::leq(points@[k - 1], points@[k as int]));
                    assert(points@[k - 1] != points@[k as int]);
                }
                let seen = points@.take(k as int);
                assert(points@.take(k + 1) =~= seen.push(c));
                assert(singles(seen.push(c)) =~= singles(seen).push(single(c)));
                assert(singles(seen.push(c)).drop_last() =~= singles(seen));
            }
            let n: usize = ranges.len();
            if n > 0 && ranges[n - 1].end as u32 + 1 == c as u32 {
                extend_last(&mut ranges, c);
            } else {
                ranges.push(CharRange { start: c, end: c });
            }
            k += 1;
        }
        proof {
            assert(points@.take(k as int) =~= points@);
            let all = singles(points@);
            assert(sorted::<CharRange>(all)) by {
                assert forall|i: int, j: int| 0 <= i < j < all.len() implies CharRange::leq(
                    #[trigger] all[i],
                    #[trigger] all[j],
                ) by {
                    assert(char::leq(points@[i], points@[j]));
                }
            }
            lemma_joined(all);
            assert forall|c: char| #[trigger] in_ranges(ranges@, c) == (han(c)
                && characters@.contains(c)) by {
                assert(in_ranges(joined(all), c) == in_ranges(all, c));
                if in_ranges(all, c) {
                    let i = choose|i: int|
                        0 <= i < all.len() && (#[trigger] all[i]).start <= c && c <= all[i].end;
                    assert(points@[i] == c);
                    assert(points@.contains(c));
                }
                if points@.contains(c) {
                    let i = choose|i: int| 0 <= i < points@.len() && points@[i] == c;
                    assert(all[i].start <= c && c <= all[i].end);
                }
                assert(chosen.contains(c) <==> han(c) && characters@.contains(c));
            }
        }
        CharacterClass::Ranges { ranges, negated: false }
    }

    /// The class of the given ranges, sorted and joined.
    pub fn from_ranges(ranges: Vec<CharRange>, negated: bool) -> (r: Self)
        ensures
            r@ matches ClassView::Ranges { ranges: normal, negated: n } && n == negated
                && separated(normal) && (upright(ranges@) ==> upright(normal)) && (forall|
                c: char,
            | #[trigger]
                in_ranges(normal, c) == in_ranges(ranges@, c)) && (exists|s: Seq<CharRange>|
                sorted::<CharRange>(s) && s.to_multiset() == ranges@.to_multiset() && normal
                    == #[trigger] joined(s)),
    {
        let ghost given = ranges@;
        let ranges = sort(ranges);
        proof {
            assert(views(given) =~= given);
            assert(views(ranges@) =~= ranges@);
        }
        let mut normalized: Vec<CharRange> = Vec::new();
        let mut i: usize = 0;
        while i < ranges.len()
            invariant
                i <= ranges.len(),
                normalized@ == joined(ranges@.take(i as int)),
            decreases ranges.len() - i,
        {
            let range = ranges[i];
            proof {
                assert(ranges@.take(i + 1).drop_last() =~= ranges@.take(i as int));
            }
            let n: usize = normalized.len();
            if n > 0 && range.start as u32 <= normalized[n - 1].end as u32 + 1 {
                if range.end > normalized[n - 1].end {
                    extend_last(&mut normalized, range.end);
                }
            } else {
                normalized.push(range);
            }
            i += 1;
        }
        proof {
            assert(ranges@.take(i as int) =~= ranges@);
            lemma_joined(ranges@);
            lemma_same_multiset_same_set(ranges@, given);
            assert(upright(given) ==> upright(ranges@)) by {
                if upright(given) {
                    assert forall|i: int| 0 <= i < ranges@.len() implies (#[trigger] ranges@[i]).start
                        <= ranges@[i].end by {
                        assert(ranges@.contains(ranges@[i]));
                        assert(given.contains(ranges@[i]));
                        let k = choose|k: int| 0 <= k < given.len() && given[k] == ranges@[i];
                    }
                }
            }
            assert forall|c: char| #[trigger] in_ranges(normalized@, c) == in_ranges(given, c) by {
                assert(in_ranges(joined(ranges@), c) == in_ranges(ranges@, c));
                if in_ranges(ranges@, c) {
                    let i = choose|i: int|
                        0 <= i < ranges@.len() && (#[trigger] ranges@[i]).start <= c && c
                            <= ranges@[i].end;
                    assert(ranges@.contains(ranges@[i]));
                    let k = choose|k: int| 0 <= k < given.len() && given[k] == ranges@[i];
                    assert(given[k].start <= c);
                }
                if in_ranges(given, c) {
                    let i = choose|i: int|
                        0 <= i < given.len() && (#[trigger] given[i]).start <= c && c
                            <= given[i].end;
                    assert(given.contains(given[i]));
                    let k = choose|k: int| 0 <= k < ranges@.len() && ranges@[k] == given[i];
                    assert(ranges@[k].start <= c);
                }
            }
        }
        CharacterClass::Ranges { ranges: normalized, negated }
    }

    /// Whether the class holds `character`.
    pub fn contains(&self, character: char) -> (r: bool)
        requires
            class_wf(self@),
        ensures
            r == class_has(self@, character),
    {
        if !is_han(character) {
            return false;
        }
        match self {
            CharacterClass::Han => true,
            CharacterClass::Ranges { ranges, negated } => {
                let contained = search_ranges(ranges, character);
                contained != *negated
            },
        }
    }

    /// Whether the class is an empty list of ranges, not complemented.
    pub fn is_empty(&self) -> (r: bool)
        ensures
            r == (self@ == (ClassView::Ranges { ranges: Seq::empty(), negated: false })),
    {
        match self {
            CharacterClass::Han => false,
            CharacterClass::Ranges { ranges, negated } => {
                proof {
                    if ranges@.len() == 0 {
                        assert(ranges@ =~= Seq::empty());
                    }
                }
                !*negated && ranges.len() == 0
            },
        }
    }

    /// The ranges of a class that lists some.
    pub fn ranges(&self) -> (r: Option<&[CharRange]>)
        ensures
            match self@ {
                ClassView::Han => r is None,
                ClassView::Ranges { ranges, negated } => r matches Some(s) && s@ == ranges,
            },
    {
        match self {
            CharacterClass::Han => None,
            CharacterClass::Ranges { ranges, .. } => Some(ranges.as_slice()),
        }
    }

    /// A copy of the class.
    pub fn duplicate(&self) -> (r: Self)
        ensures
            r@ == self@,
    {
        match self {
            CharacterClass::Han => CharacterClass::Han,
            CharacterClass::Ranges { ranges, negated } => {
                let mut copy: Vec<CharRange> = Vec::new();
                copy.extend_from_slice(ranges.as_slice());
                proof {
                    assert(copy@ =~= ranges@);
                }
                CharacterClass::Ranges { ranges: copy, negated: *negated }
            },
        }
    }

    /// Whether two classes are written the same.
    pub fn same(&self, other: &Self) -> (r: bool)
        ensures
            r == (self@ == other@),
    {
        match (self, other) {
            (CharacterClass::Han, CharacterClass::Han) => true,
            (
                CharacterClass::Ranges { ranges: a, negated: m },
                CharacterClass::Ranges { ranges: b, negated: n },
            ) => {
*m == *n && same_ranges(a, b)
            },
            _ => false,
        }
    }
}

/// Whether two lists of ranges are equal.
fn same_ranges(a: &Vec<CharRange>, b: &Vec<CharRange>) -> (r: bool)
    ensures
        r == (a@ == b@),
{
    if a.len() != b.len() {
        return false;
    }
    let mut i: usize = 0;
    while i < a.len()
        invariant
            i <= a.len(),
            a@.len() == b@.len(),
            forall|k: int| 0 <= k < i ==> a@[k] == b@[k],
        decreases a.len() - i,
    {
        if a[i] != b[i] {
            return false;
        }
        i += 1;
    }
    proof {
        assert(a@ =~= b@);
    }
    true
}

/// Moves the end of the last range.
fn extend_last(ranges: &mut Vec<CharRange>, end: char)
    requires
        old(ranges)@.len() > 0,
    ensures
        final(ranges)@ == old(ranges)@.drop_last().push(
            CharRange { start: old(ranges)@.last().start, end },
        ),
{
    let n: usize = ranges.len();
    let start = ranges[n - 1].start;
    ranges.set(n - 1, CharRange { start, end });
    proof {
        assert(ranges@ =~= old(ranges)@.drop_last().push(CharRange { start, end }));
    }
}

/// The ranges of one character each.
spec fn singles(points: Seq<char>) -> Seq<CharRange> {
    Seq::new(points.len(), |i: int| single(points[i]))
}

proof fn lemma_push_contains<A>(s: Seq<A>, x: A, y: A)
    ensures
        s.push(x).contains(y) <==> s.contains(y) || x == y,
{
    if s.contains(y) {
        let k = choose|k: int| 0 <= k < s.len() && s[k] == y;
        assert(s.push(x)[k] == y);
    }
    if x == y {
        assert(s.push(x)[s.len() as int] == y);
    }
    if s.push(x).contains(y) {
        let k = choose|k: int| 0 <= k < s.push(x).len() && s.push(x)[k] == y;
        if k < s.len() {
            assert(s[k] == y);
        }
    }
}

/// Binary search for the range that holds `c`.
fn search_ranges(ranges: &Vec<CharRange>, c: char) -> (r: bool)
    requires
        separated(ranges@),
    ensures
        r == in_ranges(ranges@, c),
{
    let mut low: usize = 0;
    let mut high: usize = ranges.len();
    while low < high
        invariant
            low <= high <= ranges.len(),
            separated(ranges@),
            forall|i: int| 0 <= i < low ==> c > (#[trigger] ranges@[i]).end,
            forall|i: int| high <= i < ranges.len() ==> c < (#[trigger] ranges@[i]).start,
        decreases high - low,
    {
        let mid: usize = low + (high - low) / 2;
        let range = ranges[mid];
        if c < range.start {
            high = mid;
        } else if c > range.end {
            proof {
                assert forall|i: int| 0 <= i < mid + 1 implies c > (#[trigger] ranges@[i]).end by {
                    if i < mid {
                        assert(ranges@[i].end as int + 1 < ranges@[mid as int].start as int);
                    }
                }
            }
            low = mid + 1;
        } else {
            return true;
        }
    }
    false
}

} // verus!
