//! Of how many strokes characters are made.
use crate::chinese::components::{
    lemma_added_shows, lemma_char_count, lemma_same_shows, lemma_take_contains, shows,
};
use crate::chinese::error::{ChineseDataError, DataFault};
use crate::chinese::factor::{factor_source_name, ways_of, FactorTable, Factors};
use crate::chinese::han::{han, is_han};
use crate::collections::{ClassMap, OrderedSet};
use crate::ordered::views;
use crate::text::join2;
use std::collections::HashMap;
use vstd::prelude::*;
use vstd::std_specs::hash::obeys_key_model;
use vstd::string::*;

verus! {

/// The strokes of a character, taken apart by the first way at most `depth`
/// times: one where no way is known, else those of its parts together.
pub open spec fn strokes_within(factors: Factors, c: char, depth: nat) -> Option<nat>
    decreases depth, 0nat,
{
    if depth == 0 {
        None
    } else if ways_of(factors, c).len() == 0 {
        Some(1)
    } else {
        strokes_of_parts(
            factors,
            ways_of(factors, c)[0],
            ways_of(factors, c)[0].len(),
            (depth - 1) as nat,
        )
    }
}

/// The strokes of the first `n` parts together.
pub open spec fn strokes_of_parts(
    factors: Factors,
    parts: Seq<char>,
    n: nat,
    depth: nat,
) -> Option<nat>
    decreases depth, n,
{
    if n == 0 || n > parts.len() {
        Some(0)
    } else {
        match (
            strokes_of_parts(factors, parts, (n - 1) as nat, depth),
            strokes_within(factors, parts[n - 1], depth),
        ) {
            (Some(a), Some(b)) => Some(a + b),
            _ => None,
        }
    }
}

/// The strokes of a character, none where taking it apart does not end.
pub open spec fn strokes(factors: Factors, c: char) -> Option<nat> {
    if exists|depth: nat| #[trigger] strokes_within(factors, c, depth) is Some {
        strokes_within(
            factors,
            c,
            choose|depth: nat| #[trigger] strokes_within(factors, c, depth) is Some,
        )
    } else {
        None
    }
}

proof fn lemma_deeper(factors: Factors, c: char, depth: nat)
    ensures
        strokes_within(factors, c, depth) is Some ==> strokes_within(factors, c, depth + 1)
            == strokes_within(factors, c, depth),
    decreases depth, 0nat,
{
    if depth > 0 && ways_of(factors, c).len() > 0 {
        let parts = ways_of(factors, c)[0];
        lemma_deeper_parts(factors, parts, parts.len(), (depth - 1) as nat);
    }
}

proof fn lemma_deeper_parts(factors: Factors, parts: Seq<char>, n: nat, depth: nat)
    ensures
        strokes_of_parts(factors, parts, n, depth) is Some ==> strokes_of_parts(
            factors,
            parts,
            n,
            depth + 1,
        ) == strokes_of_parts(factors, parts, n, depth),
    decreases depth, n,
{
    if n > 0 && n <= parts.len() {
        lemma_deeper_parts(factors, parts, (n - 1) as nat, depth);
        lemma_deeper(factors, parts[n - 1], depth);
    }
}

pub proof fn lemma_much_deeper(factors: Factors, c: char, a: nat, b: nat)
    requires
        a <= b,
        strokes_within(factors, c, a) is Some,
    ensures
        strokes_within(factors, c, b) == strokes_within(factors, c, a),
    decreases b,
{
    if a < b {
        lemma_much_deeper(factors, c, a, (b - 1) as nat);
        lemma_deeper(factors, c, (b - 1) as nat);
    }
}

pub proof fn lemma_parts_much_deeper(factors: Factors, parts: Seq<char>, n: nat, a: nat, b: nat)
    requires
        a <= b,
        strokes_of_parts(factors, parts, n, a) is Some,
    ensures
        strokes_of_parts(factors, parts, n, b) == strokes_of_parts(factors, parts, n, a),
    decreases b,
{
    if a < b {
        lemma_parts_much_deeper(factors, parts, n, a, (b - 1) as nat);
        lemma_deeper_parts(factors, parts, n, (b - 1) as nat);
    }
}

/// Any depth that is enough gives the strokes.
pub proof fn lemma_strokes_at(factors: Factors, c: char, depth: nat)
    requires
        strokes_within(factors, c, depth) is Some,
    ensures
        strokes(factors, c) == strokes_within(factors, c, depth),
{
    let d = choose|depth: nat| #[trigger] strokes_within(factors, c, depth) is Some;
    if d <= depth {
        lemma_much_deeper(factors, c, d, depth);
    } else {
        lemma_much_deeper(factors, c, depth, d);
    }
}

proof fn lemma_depth(factors: Factors, c: char) -> (depth: nat)
    requires
        strokes(factors, c) is Some,
    ensures
        strokes_within(factors, c, depth) == strokes(factors, c),
{
    choose|depth: nat| #[trigger] strokes_within(factors, c, depth) is Some
}

/// `part` occurs in the first way in which `whole` is made.
pub open spec fn is_first_part(factors: Factors, whole: char, part: char) -> bool {
    ways_of(factors, whole).len() > 0 && ways_of(factors, whole)[0].contains(part)
}

/// Each character of the sequence occurs in the first way of the one before.
pub open spec fn descends_first(factors: Factors, path: Seq<char>) -> bool {
    forall|i: int|
        0 <= i < path.len() - 1 ==> is_first_part(factors, #[trigger] path[i], path[i + 1])
}

/// Taking `whole` apart by first ways comes to `part`, in one step at least.
pub open spec fn comes_to(factors: Factors, whole: char, part: char) -> bool {
    exists|path: Seq<char>| #[trigger]
        descends_first(factors, path) && path.len() > 1 && path[0] == whole && path.last() == part
}

proof fn lemma_comes_on(factors: Factors, whole: char, middle: char, part: char)
    requires
        comes_to(factors, whole, middle) || whole == middle,
        is_first_part(factors, middle, part),
    ensures
        comes_to(factors, whole, part),
{
    let path = if comes_to(factors, whole, middle) {
        choose|path: Seq<char>| #[trigger]
            descends_first(factors, path) && path.len() > 1 && path[0] == whole && path.last()
                == middle
    } else {
        seq![whole]
    };
    let longer = path.push(part);
    assert forall|i: int| 0 <= i < longer.len() - 1 implies is_first_part(
        factors,
        #[trigger] longer[i],
        longer[i + 1],
    ) by {
        if i < path.len() - 1 {
            assert(is_first_part(factors, path[i], path[i + 1]));
        }
    }
    assert(descends_first(factors, longer));
}

/// Where the parts can be counted, each of them can.
proof fn lemma_part_counts(factors: Factors, parts: Seq<char>, n: nat, depth: nat, i: int)
    requires
        strokes_of_parts(factors, parts, n, depth) is Some,
        0 <= i < n <= parts.len(),
    ensures
        strokes_within(factors, parts[i], depth) is Some,
    decreases n,
{
    if i < n - 1 {
        lemma_part_counts(factors, parts, (n - 1) as nat, depth, i);
    }
}

/// Along a path the depth that is enough gets less.
proof fn lemma_along(factors: Factors, path: Seq<char>, depth: nat, k: int)
    requires
        descends_first(factors, path),
        0 <= k < path.len(),
        strokes_within(factors, path[0], depth) is Some,
    ensures
        k < depth,
        strokes_within(factors, path[k], (depth - k) as nat) is Some,
    decreases k,
{
    if k > 0 {
        lemma_along(factors, path, depth, k - 1);
        assert(is_first_part(factors, path[k - 1], path[k]));
        let d = (depth - (k - 1)) as nat;
        let parts = ways_of(factors, path[k - 1])[0];
        let i = choose|i: int| 0 <= i < parts.len() && parts[i] == path[k];
        lemma_part_counts(factors, parts, parts.len(), (d - 1) as nat, i);
    }
}

/// A character that comes to itself cannot be counted.
proof fn lemma_cycle(factors: Factors, c: char, depth: nat)
    requires
        comes_to(factors, c, c),
    ensures
        strokes_within(factors, c, depth) is None,
    decreases depth,
{
    if strokes_within(factors, c, depth) is Some {
        let path = choose|path: Seq<char>| #[trigger]
            descends_first(factors, path) && path.len() > 1 && path[0] == c && path.last() == c;
        let k = path.len() - 1;
        lemma_along(factors, path, depth, k);
        lemma_cycle(factors, c, (depth - k) as nat);
    }
}

/// The strokes of a character can be counted, in sixteen bits.
pub open spec fn countable(factors: Factors, c: char) -> bool {
    strokes(factors, c) matches Some(n) && n <= u16::MAX
}

/// The first `i` parts of a character have strokes that can be counted together.
pub open spec fn fits_before(factors: Factors, c: char, i: int, depth: nat) -> bool {
    strokes_of_parts(factors, ways_of(factors, c)[0], i as nat, depth) matches Some(n) && n
        <= u16::MAX
}

/// The part is the first one of the character that cannot be counted, and the
/// sum of those before it is not too large.
pub open spec fn is_bad_part(factors: Factors, c: char, part: char) -> bool {
    exists|i: int, depth: nat|
        {
            &&& #[trigger] fits_before(factors, c, i, depth)
            &&& ways_of(factors, c).len() > 0
            &&& 0 <= i < ways_of(factors, c)[0].len()
            &&& ways_of(factors, c)[0][i] == part
            &&& !countable(factors, part)
        }
}

/// The parts of the character can be counted one by one up to where their sum
/// is too large.
pub open spec fn sum_overflows(factors: Factors, c: char) -> bool {
    exists|i: int, depth: nat|
        {
            &&& #[trigger] fits_before(factors, c, i, depth)
            &&& ways_of(factors, c).len() > 0
            &&& 0 <= i < ways_of(factors, c)[0].len()
            &&& countable(factors, ways_of(factors, c)[0][i])
            &&& strokes_of_parts(
                factors,
                ways_of(factors, c)[0],
                (i + 1) as nat,
                depth,
            ) matches Some(n) && n > u16::MAX
        }
}

/// Following the first part that cannot be counted, again and again, comes back
/// to a character that was met before, or to one whose sum is too large.
pub open spec fn blamed(
    factors: Factors,
    before: Seq<char>,
    way: Seq<char>,
    e: DataFault,
) -> bool {
    let met = before + way.drop_last();
    &&& way.len() > 0
    &&& forall|k: int|
        0 <= k < way.len() - 1 ==> is_bad_part(factors, #[trigger] way[k], way[k + 1])
    &&& met.no_duplicates()
    &&& if met.contains(way.last()) {
        e.message == "拆字数据存在环："@ + seq![way.last()]
    } else {
        sum_overflows(factors, way.last()) && e.message == seq![way.last()] + " 的笔画计数溢出"@
    }
}

/// The first character of the repertoire whose strokes cannot be counted.
pub open spec fn first_uncountable(factors: Factors, c: char) -> bool {
    &&& factors.dom().contains(c) && han(c)
    &&& !countable(factors, c)
    &&& forall|d: char| #[trigger]
        factors.dom().contains(d) && han(d) && d < c ==> countable(factors, d)
}

/// The fault of the stroke counts: it names the character that is to blame that
/// the first one which cannot be counted leads to.
pub open spec fn stroke_fault(factors: Factors, e: DataFault) -> bool {
    &&& e.source_name == factor_source_name()
    &&& e.line == 0
    &&& exists|way: Seq<char>| #[trigger]
        blamed(factors, Seq::empty(), way, e) && first_uncountable(factors, way[0])
}

/// The strokes counted so far.
struct Counts {
    known: HashMap<u32, u16>,
}

impl Counts {
    spec fn wf(&self, factors: Factors) -> bool {
        &&& obeys_key_model::<u32>()
        &&& forall|c: char|
            self.known@.contains_key(#[trigger] (c as u32)) ==> strokes(factors, c) == Some(
                self.known@[c as u32] as nat,
            )
    }
}

/// Counts the strokes of a character.
#[verifier::rlimit(50)]
fn count_strokes(
    c: char,
    table: &FactorTable,
    counts: &mut Counts,
    visiting: &mut OrderedSet<char>,
    Ghost(met): Ghost<Seq<char>>,
) -> (r: Result<u16, ChineseDataError>)
    requires
        met.no_duplicates(),
        forall|p: char| #[trigger] old(visiting)@.contains(p) == met.contains(p),
        table.wf(),
        old(counts).wf(table@),
        old(visiting).wf(),
        forall|p: char| #[trigger] old(visiting)@.contains(p) ==> comes_to(table@, p, c),
    ensures
        match r {
            Ok(n) => {
                &&& strokes(table@, c) == Some(n as nat)
                &&& final(counts).wf(table@)
                &&& final(visiting).wf()
                &&& final(visiting)@ == old(visiting)@
            },
            Err(e) => {
                &&& e@.source_name == factor_source_name()
                &&& e@.line == 0
                &&& exists|way: Seq<char>| #[trigger] blamed(table@, met, way, e@) && way[0] == c
                &&& !countable(table@, c)
            },
        },
    decreases 0x11_0000 - old(visiting)@.len(),
{
    broadcast use vstd::std_specs::hash::group_hash_axioms;

    let ghost factors = table@;
    let key: u32 = c as u32;
    if let Some(n) = counts.known.get(&key) {
        return Ok(*n);
    }
    if visiting.contains(&c) {
        proof {
            assert(comes_to(factors, c, c));
            assert forall|depth: nat| strokes_within(factors, c, depth) is None by {
                lemma_cycle(factors, c, depth);
            }
            assert(!countable(factors, c));
        }
        let name = one_char(c);
        let message = join2("拆字数据存在环：", name.as_str());
        let fault = ChineseDataError::parse("factorHan.js", 0, message.as_str());
        proof {
            let way = seq![c];
            assert(met + way.drop_last() =~= met);
            assert(blamed(factors, met, way, fault@));
        }
        return Err(fault);
    }
    let ghost outer = visiting@;
    let ghost now_met = met.push(c);
    visiting.insert(c);
    proof {
        visiting.lemma_listed();
        let s = visiting.listed();
        assert(views(s) =~= s);
        assert(visiting@.contains(c));
        lemma_char_count(s, s.len() - 1);
        assert(outer.finite()) by {
            assert(outer =~= visiting@.remove(c));
            broadcast use vstd::set::group_set_axioms;
        };
        assert(visiting@.len() == outer.len() + 1) by {
            broadcast use vstd::set::group_set_axioms;
        };
    }
    let n: u16 = match table.ways(c) {
        Some(ways) => {
            if ways.len() == 0 {
                proof {
                    assert(strokes_within(factors, c, 1) == Some(1nat));
                    lemma_strokes_at(factors, c, 1);
                }
                1
            } else {
                let ghost parts = ways@[0]@;
                assert(views(ways@)[0] == parts);
                assert(ways_of(factors, c)[0] == parts);
                let mut total: u16 = 0;
                let mut i: usize = 0;
                let ghost mut depth: nat = 0;
                while i < ways[0].len()
                    invariant
                        0 < ways@.len(),
                        parts == ways@[0]@,
                        ways_of(factors, c).len() > 0,
                        ways_of(factors, c)[0] == parts,
                        i <= parts.len(),
                        table.wf(),
                        factors == table@,
                        counts.wf(factors),
                        visiting.wf(),
                        visiting@ == outer.insert(c),
                        !outer.contains(c),
                        now_met == met.push(c),
                        now_met.no_duplicates(),
                        met.no_duplicates(),
                        forall|p: char| #[trigger] outer.contains(p) == met.contains(p),
                        visiting@.len() == outer.len() + 1,
                        outer == old(visiting)@,
                        outer.len() < 0x11_0000,
                        forall|p: char| #[trigger] outer.contains(p) ==> comes_to(factors, p, c),
                        strokes_of_parts(factors, parts, i as nat, depth) == Some(total as nat),
                    decreases parts.len() - i,
                {
                    let part = ways[0][i];
                    proof {
                        assert(parts[i as int] == part);
                        assert(is_first_part(factors, c, part));
                        assert forall|p: char| #[trigger] visiting@.contains(p) implies comes_to(
                            factors,
                            p,
                            part,
                        ) by {
                            lemma_comes_on(factors, p, c, part);
                        }
                    }
                    proof {
                        assert(fits_before(factors, c, i as int, depth));
                        assert forall|p: char| #[trigger] visiting@.contains(p)
                            == now_met.contains(p) by {
                            lemma_push_contains(met, c, p);
                        }
                    }
                    let more: u16 = match count_strokes(
                        part,
                        table,
                        counts,
                        visiting,
                        Ghost(now_met),
                    ) {
                        Ok(more) => more,
                        Err(e) => {
                            proof {
                                assert(is_bad_part(factors, c, part));
                                let way = choose|way: Seq<char>| #[trigger]
                                    blamed(factors, now_met, way, e@) && way[0] == part;
                                lemma_blamed_before(factors, met, c, way, e@);
                                if countable(factors, c) {
                                    let d = lemma_depth(factors, c);
                                    lemma_part_counts(
                                        factors,
                                        parts,
                                        parts.len(),
                                        (d - 1) as nat,
                                        i as int,
                                    );
                                    lemma_strokes_at(factors, part, (d - 1) as nat);
                                    lemma_part_at_most(
                                        factors,
                                        parts,
                                        parts.len(),
                                        (d - 1) as nat,
                                        i as int,
                                    );
                                }
                            }
                            return Err(e);
                        },
                    };
                    let ghost part_depth = lemma_depth(factors, part);
                    let ghost deep: nat = if part_depth > depth { part_depth } else { depth };
                    proof {
                        lemma_parts_much_deeper(factors, parts, i as nat, depth, deep);
                        lemma_much_deeper(factors, part, part_depth, deep);
                        assert(strokes_of_parts(factors, parts, (i + 1) as nat, deep) == Some(
                            (total + more) as nat,
                        ));
                    }
                    total =
                    match total.checked_add(more) {
                        Some(sum) => sum,
                        None => {
                            proof {
                                if countable(factors, c) {
                                    let d = lemma_depth(factors, c);
                                    let e = (d - 1) as nat;
                                    lemma_parts_at_most(
                                        factors,
                                        parts,
                                        (i + 1) as nat,
                                        parts.len(),
                                        e,
                                    );
                                    if e <= deep {
                                        lemma_parts_much_deeper(
                                            factors,
                                            parts,
                                            (i + 1) as nat,
                                            e,
                                            deep,
                                        );
                                    } else {
                                        lemma_parts_much_deeper(
                                            factors,
                                            parts,
                                            (i + 1) as nat,
                                            deep,
                                            e,
                                        );
                                    }
                                }
                            }
                            let name = one_char(c);
                            let message = join2(name.as_str(), " 的笔画计数溢出");
                            let fault = ChineseDataError::parse(
                                "factorHan.js",
                                0,
                                message.as_str(),
                            );
                            proof {
                                let way = seq![c];
                                assert(met + way.drop_last() =~= met);
                                lemma_parts_much_deeper(factors, parts, i as nat, depth, deep);
                                assert(fits_before(factors, c, i as int, deep));
                                assert(sum_overflows(factors, c));
                                assert(blamed(factors, met, way, fault@));
                            }
                            return Err(fault);
                        },
                    };
                    proof {
                        depth = deep;
                    }
                    i += 1;
                }
                proof {
                    assert(strokes_within(factors, c, depth + 1) == Some(total as nat));
                    lemma_strokes_at(factors, c, depth + 1);
                }
                total
            }
        },
        None => {
            proof {
                assert(strokes_within(factors, c, 1) == Some(1nat));
                lemma_strokes_at(factors, c, 1);
            }
            1
        },
    };
    visiting.remove(&c);
    proof {
        assert(visiting@ =~= outer);
    }
    let ghost known = counts.known@;
    counts.known.insert(key, n);
    proof {
        assert forall|x: char|
            counts.known@.contains_key(#[trigger] (x as u32)) implies strokes(factors, x) == Some(
            counts.known@[x as u32] as nat,
        ) by {
            if x as u32 == key {
                crate::text::lemma_same_code_point(x, c);
            } else {
                assert(known.contains_key(x as u32));
            }
        }
    }
    Ok(n)
}

proof fn lemma_push_contains(s: Seq<char>, c: char, p: char)
    ensures
        s.push(c).contains(p) == (s.contains(p) || p == c),
{
    let more = s.push(c);
    if s.contains(p) {
        let i = choose|i: int| 0 <= i < s.len() && s[i] == p;
        assert(more[i] == p);
    }
    if p == c {
        assert(more[s.len() as int] == p);
    }
    if more.contains(p) && p != c {
        let i = choose|i: int| 0 <= i < more.len() && more[i] == p;
        assert(s[i] == p);
    }
}

/// What a part is blamed for, the character with that part is.
proof fn lemma_blamed_before(
    factors: Factors,
    met: Seq<char>,
    c: char,
    way: Seq<char>,
    e: DataFault,
)
    requires
        blamed(factors, met.push(c), way, e),
        is_bad_part(factors, c, way[0]),
    ensures
        blamed(factors, met, seq![c] + way, e),
{
    let longer = seq![c] + way;
    assert(longer.last() == way.last());
    assert(longer.drop_last() =~= seq![c] + way.drop_last());
    assert(met + longer.drop_last() =~= met.push(c) + way.drop_last());
    assert forall|k: int| 0 <= k < longer.len() - 1 implies is_bad_part(
        factors,
        #[trigger] longer[k],
        longer[k + 1],
    ) by {
        if k > 0 {
            assert(longer[k] == way[k - 1]);
            assert(longer[k + 1] == way[k - 1 + 1]);
        }
    }
}

/// A string of one character.
fn one_char(c: char) -> (r: String)
    ensures
        r@ == seq![c],
{
    let mut r = String::new();
    r.push(c);
    proof {
        assert(r@ =~= seq![c]);
    }
    r
}

proof fn lemma_part_at_most(factors: Factors, parts: Seq<char>, n: nat, depth: nat, i: int)
    requires
        strokes_of_parts(factors, parts, n, depth) is Some,
        0 <= i < n <= parts.len(),
    ensures
        strokes_within(factors, parts[i], depth)->0 <= strokes_of_parts(
            factors,
            parts,
            n,
            depth,
        )->0,
    decreases n,
{
    if i < n - 1 {
        lemma_part_at_most(factors, parts, (n - 1) as nat, depth, i);
    }
}

proof fn lemma_parts_at_most(factors: Factors, parts: Seq<char>, m: nat, n: nat, depth: nat)
    requires
        strokes_of_parts(factors, parts, n, depth) is Some,
        m <= n <= parts.len(),
    ensures
        strokes_of_parts(factors, parts, m, depth) matches Some(v) && v <= strokes_of_parts(
            factors,
            parts,
            n,
            depth,
        )->0,
    decreases n,
{
    if m < n {
        lemma_parts_at_most(factors, parts, m, (n - 1) as nat, depth);
    }
}

/// A character of the repertoire with this number of strokes.
pub open spec fn stroke_rel(factors: Factors, n: u16, c: char) -> bool {
    factors.dom().contains(c) && han(c) && strokes(factors, c) == Some(n as nat)
}

spec fn stroke_rel_upto(factors: Factors, heads: Seq<char>, k: int, n: u16, c: char) -> bool {
    heads.take(k).contains(c) && han(c) && strokes(factors, c) == Some(n as nat)
}

/// Which characters of the repertoire have each number of strokes.
pub fn build_strokes(table: &FactorTable) -> (r: Result<ClassMap<u16>, ChineseDataError>)
    requires
        table.wf(),
    ensures
        match r {
            Ok(map) => {
                &&& map.wf()
                &&& forall|c: char| #[trigger]
                    table@.dom().contains(c) && han(c) ==> countable(table@, c)
                &&& shows(map@, |n: u16, c: char| stroke_rel(table@, n, c))
            },
            Err(e) => stroke_fault(table@, e@) && exists|c: char| #[trigger]
                table@.dom().contains(c) && han(c) && !countable(table@, c),
        },
{
    broadcast use vstd::std_specs::hash::group_hash_axioms;

    let ghost factors = table@;
    let ghost heads = table.heads();
    proof {
        table.lemma_heads();
    }
    let mut map: ClassMap<u16> = ClassMap::new();
    let mut counts = Counts { known: HashMap::new() };
    let mut i: usize = 0;
    while i < table.len()
        invariant
            i <= heads.len(),
            table.wf(),
            factors == table@,
            heads == table.heads(),
            forall|c: char| #[trigger] factors.dom().contains(c) == heads.contains(c),
            forall|k: int, m: int|
                0 <= k < m < heads.len() ==> #[trigger] heads[k] <= #[trigger] heads[m],
            counts.wf(factors),
            map.wf(),
            forall|k: int| 0 <= k < i && han(#[trigger] heads[k]) ==> countable(factors, heads[k]),
            shows(map@, |n: u16, c: char| stroke_rel_upto(factors, heads, i as int, n, c)),
        decreases heads.len() - i,
    {
        let root = table.head_at(i);
        let ghost before = map@;
        let ghost a = |n: u16, c: char| stroke_rel_upto(factors, heads, i as int, n, c);
        let ghost b = |n: u16, c: char| stroke_rel_upto(factors, heads, i + 1, n, c);
        if is_han(root) {
            let mut visiting: OrderedSet<char> = OrderedSet::new();
            let ghost none = Seq::<char>::empty();
            let n: u16 = match count_strokes(
                root,
                table,
                &mut counts,
                &mut visiting,
                Ghost(none),
            ) {
                Ok(n) => n,
                Err(e) => {
                    proof {
                        assert(heads[i as int] == root);
                        assert(heads.contains(root));
                        assert(factors.dom().contains(root));
                        assert forall|d: char| #[trigger]
                            factors.dom().contains(d) && han(d) && d < root implies countable(
                            factors,
                            d,
                        ) by {
                            let k = choose|k: int| 0 <= k < heads.len() && heads[k] == d;
                            assert(k < i);
                        }
                        assert(first_uncountable(factors, root));
                    }
                    return Err(e);
                },
            };
            map.add(n, root);
            proof {
                assert forall|m: u16, c: char| #[trigger] b(m, c) == (a(m, c) || (m == n && c
                    == root)) by {
                    lemma_take_contains(heads, i as int, c);
                }
                lemma_added_shows(before, a, n, root, b);
            }
        } else {
            proof {
                assert forall|m: u16, c: char| #[trigger] a(m, c) == #[trigger] b(m, c) by {
                    lemma_take_contains(heads, i as int, c);
                }
                lemma_same_shows(map@, a, b);
            }
        }
        i += 1;
    }
    proof {
        assert(heads.take(i as int) =~= heads);
        let a = |n: u16, c: char| stroke_rel_upto(factors, heads, i as int, n, c);
        let b = |n: u16, c: char| stroke_rel(factors, n, c);
        assert forall|m: u16, c: char| #[trigger] a(m, c) == #[trigger] b(m, c) by {
            assert(factors.dom().contains(c) == heads.contains(c));
        }
        lemma_same_shows(map@, a, b);
        assert forall|c: char| #[trigger] factors.dom().contains(c) && han(c) implies countable(
            factors,
            c,
        ) by {
            let k = choose|k: int| 0 <= k < heads.len() && heads[k] == c;
            assert(han(heads[k]));
        }
    }
    Ok(map)
}

} // verus!
