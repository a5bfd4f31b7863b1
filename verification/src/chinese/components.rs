//! What characters contain, and of how many strokes they are made.
use crate::chinese::factor::{ways_of, FactorTable, Factors};
use crate::chinese::han::{han, is_han};
use crate::collections::{added, ClassMap, OrderedSet};
use crate::ordered::{ascending, views, Ordered};
use vstd::prelude::*;
use vstd::string::*;

verus! {

/// The map lists, for each key, the characters that stand to it in the
/// relation, and no key without one.
pub open spec fn shows<K>(map: Map<K, Set<char>>, rel: spec_fn(K, char) -> bool) -> bool {
    &&& forall|k: K, c: char|
        map.dom().contains(k) ==> (#[trigger] map[k].contains(c) <==> rel(k, c))
    &&& forall|k: K, c: char| #[trigger] rel(k, c) ==> map.dom().contains(k)
    &&& forall|k: K| #[trigger] map.dom().contains(k) ==> exists|c: char| #[trigger] rel(k, c)
}

pub proof fn lemma_added_shows<K>(
    map: Map<K, Set<char>>,
    rel: spec_fn(K, char) -> bool,
    key: K,
    character: char,
    more: spec_fn(K, char) -> bool,
)
    requires
        shows(map, rel),
        forall|k: K, c: char| #[trigger] more(k, c) == (rel(k, c) || (k == key && c == character)),
    ensures
        shows(added(map, key, character), more),
{
    let now = added(map, key, character);
    assert forall|k: K, c: char| now.dom().contains(k) implies (#[trigger] now[k].contains(c)
        <==> more(k, c)) by {
        if k != key {
            assert(now[k] == map[k]);
            assert(map[k].contains(c) <==> rel(k, c));
        } else if map.dom().contains(key) {
            assert(map[k].contains(c) <==> rel(k, c));
        } else {
            assert(!rel(k, c));
        }
    }
    assert forall|k: K| #[trigger] now.dom().contains(k) implies exists|c: char| #[trigger] more(k, c) by {
        if k == key {
            assert(more(k, character));
        } else {
            assert(map.dom().contains(k));
            let c = choose|c: char| #[trigger] rel(k, c);
            assert(more(k, c));
        }
    }
    assert forall|k: K, c: char| #[trigger] more(k, c) implies now.dom().contains(k) by {
        if rel(k, c) {
        }
    }
}

pub proof fn lemma_same_shows<K>(
    map: Map<K, Set<char>>,
    rel: spec_fn(K, char) -> bool,
    same: spec_fn(K, char) -> bool,
)
    requires
        shows(map, rel),
        forall|k: K, c: char| #[trigger] rel(k, c) == #[trigger] same(k, c),
    ensures
        shows(map, same),
{
    assert forall|k: K| #[trigger] map.dom().contains(k) implies exists|c: char| #[trigger] same(k, c) by {
        let c = choose|c: char| #[trigger] rel(k, c);
        assert(same(k, c));
    }
    assert forall|k: K, c: char| #[trigger] same(k, c) implies map.dom().contains(k) by {
        assert(rel(k, c));
    }
    assert forall|k: K, c: char| map.dom().contains(k) implies (#[trigger] map[k].contains(c)
        <==> same(k, c)) by {
        assert(rel(k, c) == same(k, c));
    }
}

/// `part` occurs in one of the ways in which `whole` is made.
pub open spec fn is_part(factors: Factors, whole: char, part: char) -> bool {
    exists|i: int, j: int|
        0 <= i < ways_of(factors, whole).len() && 0 <= j < ways_of(factors, whole)[i].len()
            && #[trigger] ways_of(factors, whole)[i][j] == part
}

/// Each character of the sequence is a part of the one before it.
pub open spec fn descends(factors: Factors, path: Seq<char>) -> bool {
    forall|i: int| 0 <= i < path.len() - 1 ==> is_part(factors, #[trigger] path[i], path[i + 1])
}

/// `whole` contains `part`: it is `part`, or one of its parts contains it.
pub open spec fn contains_component(factors: Factors, whole: char, part: char) -> bool {
    exists|path: Seq<char>| #[trigger]
        descends(factors, path) && path.len() > 0 && path[0] == whole && path.last() == part
}

/// A character of the repertoire contains the component.
pub open spec fn component_rel(factors: Factors, part: char, whole: char) -> bool {
    factors.dom().contains(whole) && han(whole) && contains_component(factors, whole, part)
}

pub proof fn lemma_contains_step(factors: Factors, whole: char, middle: char, part: char)
    requires
        contains_component(factors, whole, middle),
        is_part(factors, middle, part),
    ensures
        contains_component(factors, whole, part),
{
    let path = choose|path: Seq<char>| #[trigger]
        descends(factors, path) && path.len() > 0 && path[0] == whole && path.last() == middle;
    let longer = path.push(part);
    assert forall|i: int| 0 <= i < longer.len() - 1 implies is_part(
        factors,
        #[trigger] longer[i],
        longer[i + 1],
    ) by {
        if i < path.len() - 1 {
            assert(is_part(factors, path[i], path[i + 1]));
        }
    }
    assert(descends(factors, longer));
}

pub proof fn lemma_contains_self(factors: Factors, c: char)
    ensures
        contains_component(factors, c, c),
{
    let path = seq![c];
    assert(descends(factors, path));
}

/// Whatever holds of a character and passes to parts holds of all components.
proof fn lemma_closed(factors: Factors, seen: Set<char>, path: Seq<char>, n: int)
    requires
        descends(factors, path),
        0 <= n < path.len(),
        seen.contains(path[0]),
        forall|a: char, b: char| seen.contains(a) && #[trigger] is_part(factors, a, b)
            ==> seen.contains(b),
    ensures
        seen.contains(path[n]),
    decreases n,
{
    if n > 0 {
        lemma_closed(factors, seen, path, n - 1);
        assert(is_part(factors, path[n - 1], path[n]));
    }
}

/// An ascending sequence of characters is no longer than there are code points.
pub proof fn lemma_char_count(s: Seq<char>, i: int)
    requires
        ascending::<char>(s),
        0 <= i < s.len(),
    ensures
        i <= s[i] as int,
        s[i] as int <= 0x10_FFFF,
    decreases i,
{
    crate::text::lemma_code_point(s[i]);
    if i > 0 {
        lemma_char_count(s, i - 1);
        crate::text::lemma_code_point(s[i - 1]);
        assert(char::leq(s[i - 1], s[i]) && s[i - 1] != s[i]);
    }
}

/// The characters that `root` contains, itself counted.
fn collect_components(root: char, table: &FactorTable) -> (r: OrderedSet<char>)
    requires
        table.wf(),
    ensures
        r.wf(),
        forall|c: char| #[trigger] r@.contains(c) == contains_component(table@, root, c),
{
    let ghost factors = table@;
    let mut visited: OrderedSet<char> = OrderedSet::new();
    let mut stack: Vec<char> = vec![root];
    proof {
        lemma_contains_self(factors, root);
        assert(stack@[0] == root);
    }
    while stack.len() > 0
        invariant
            table.wf(),
            factors == table@,
            visited.wf(),
            visited@.contains(root) || stack@.contains(root),
            forall|c: char| visited@.contains(c) ==> contains_component(factors, root, c),
            forall|i: int|
                0 <= i < stack@.len() ==> contains_component(factors, root, #[trigger] stack@[i]),
            forall|a: char, b: char|
                visited@.contains(a) && #[trigger] is_part(factors, a, b) ==> visited@.contains(b)
                    || stack@.contains(b),
        decreases 0x11_0000 - visited.listed().len(), stack@.len(),
    {
        let ghost before = stack@;
        let ghost seen = visited@;
        let c = stack.pop().unwrap();
        proof {
            assert(before[before.len() - 1] == c);
            assert(stack@ =~= before.drop_last());
            visited.lemma_listed();
            assert forall|x: char| before.contains(x) implies stack@.contains(x) || x == c by {
                let k = choose|k: int| 0 <= k < before.len() && before[k] == x;
                if k < stack@.len() {
                    assert(stack@[k] == x);
                }
            }
        }
        if !visited.contains(&c) {
            visited.insert(c);
            proof {
                visited.lemma_listed();
                let s = visited.listed();
                assert(views(s) =~= s);
                lemma_char_count(s, s.len() - 1);
                assert(seen.insert(c).len() == seen.len() + 1) by {
                    broadcast use vstd::set::group_set_axioms;
                };
            }
            let ghost rest = stack@;
            if let Some(ways) = table.ways(c) {
                push_parts(ways, &mut stack);
            }
            proof {
                let all = ways_of(factors, c);
                assert forall|b: char| is_part(factors, c, b) implies stack@.contains(b) by {
                    let (i, j) = choose|i: int, j: int|
                        0 <= i < all.len() && 0 <= j < all[i].len() && #[trigger] all[i][j] == b;
                    assert(in_ways(all, b));
                }
                assert forall|x: char| rest.contains(x) implies stack@.contains(x) by {
                    let k = choose|k: int| 0 <= k < rest.len() && rest[k] == x;
                    assert(stack@[k] == x);
                }
                assert forall|a: char, b: char|
                    visited@.contains(a) && #[trigger] is_part(factors, a, b) implies visited@.contains(
                    b,
                ) || stack@.contains(b) by {
                    if a != c {
                        assert(seen.contains(a));
                        assert(seen.contains(b) || before.contains(b));
                    }
                }
                assert forall|i: int| 0 <= i < stack@.len() implies contains_component(
                    factors,
                    root,
                    #[trigger] stack@[i],
                ) by {
                    if i < rest.len() {
                        assert(stack@[i] == before[i]);
                    } else {
                        assert(in_ways(all, stack@[i]));
                        let (m, n) = choose|m: int, n: int|
                            0 <= m < all.len() && 0 <= n < all[m].len() && #[trigger] all[m][n]
                                == stack@[i];
                        assert(is_part(factors, c, stack@[i]));
                        lemma_contains_step(factors, root, c, stack@[i]);
                    }
                }
            }
        } else {
            proof {
                assert forall|a: char, b: char|
                    visited@.contains(a) && #[trigger] is_part(factors, a, b) implies visited@.contains(
                    b,
                ) || stack@.contains(b) by {
                    assert(seen.contains(b) || before.contains(b));
                }
                assert forall|i: int| 0 <= i < stack@.len() implies contains_component(
                    factors,
                    root,
                    #[trigger] stack@[i],
                ) by {
                    assert(stack@[i] == before[i]);
                }
            }
        }
    }
    proof {
        assert forall|a: char, b: char|
            visited@.contains(a) && #[trigger] is_part(factors, a, b) implies visited@.contains(
            b,
        ) by {
            assert(visited@.contains(b) || stack@.contains(b));
        }
        assert forall|c: char| #[trigger] visited@.contains(c) == contains_component(
            factors,
            root,
            c,
        ) by {
            if contains_component(factors, root, c) {
                let path = choose|path: Seq<char>| #[trigger]
                    descends(factors, path) && path.len() > 0 && path[0] == root && path.last()
                        == c;
                lemma_closed(factors, visited@, path, path.len() - 1);
            }
        }
    }
    visited
}

/// The character occurs in one of the ways.
spec fn in_ways(ways: Seq<Seq<char>>, c: char) -> bool {
    exists|i: int, j: int|
        0 <= i < ways.len() && 0 <= j < ways[i].len() && #[trigger] ways[i][j] == c
}

/// Puts the characters of all ways on a stack.
fn push_parts(ways: &Vec<Vec<char>>, stack: &mut Vec<char>)
    ensures
        final(stack)@.len() >= old(stack)@.len(),
        forall|k: int| 0 <= k < old(stack)@.len() ==> final(stack)@[k] == old(stack)@[k],
        forall|k: int|
            old(stack)@.len() <= k < final(stack)@.len() ==> in_ways(
                views(ways@),
                #[trigger] final(stack)@[k],
            ),
        forall|c: char| #[trigger] in_ways(views(ways@), c) ==> final(stack)@.contains(c),
{
    let ghost all = views(ways@);
    let ghost n = stack@.len();
    let mut i: usize = 0;
    while i < ways.len()
        invariant
            i <= ways@.len(),
            all == views(ways@),
            n == old(stack)@.len(),
            stack@.len() >= n,
            forall|k: int| 0 <= k < n ==> stack@[k] == old(stack)@[k],
            forall|k: int| n <= k < stack@.len() ==> in_ways(all, #[trigger] stack@[k]),
            forall|a: int, b: int|
                0 <= a < i && 0 <= b < all[a].len() ==> stack@.contains(#[trigger] all[a][b]),
        decreases ways.len() - i,
    {
        let mut j: usize = 0;
        let ghost way = all[i as int];
        assert(way == ways@[i as int]@);
        while j < ways[i].len()
            invariant
                i < ways@.len(),
                j <= ways@[i as int]@.len(),
                all == views(ways@),
                way == all[i as int],
                way == ways@[i as int]@,
                n == old(stack)@.len(),
                stack@.len() >= n,
                forall|k: int| 0 <= k < n ==> stack@[k] == old(stack)@[k],
                forall|k: int| n <= k < stack@.len() ==> in_ways(all, #[trigger] stack@[k]),
                forall|a: int, b: int|
                    0 <= a < i && 0 <= b < all[a].len() ==> stack@.contains(#[trigger] all[a][b]),
                forall|b: int| 0 <= b < j ==> stack@.contains(#[trigger] way[b]),
            decreases ways@[i as int]@.len() - j,
        {
            let ghost before = stack@;
            let c = ways[i][j];
            stack.push(c);
            proof {
                assert(all[i as int][j as int] == c);
                assert(in_ways(all, c));
                assert(stack@[before.len() as int] == c);
                assert forall|x: char| before.contains(x) implies stack@.contains(x) by {
                    let k = choose|k: int| 0 <= k < before.len() && before[k] == x;
                    assert(stack@[k] == x);
                }
                assert forall|k: int| n <= k < stack@.len() implies in_ways(
                    all,
                    #[trigger] stack@[k],
                ) by {
                    if k < before.len() {
                        assert(stack@[k] == before[k]);
                    }
                }
            }
            j += 1;
        }
        i += 1;
    }
    proof {
        assert forall|c: char| #[trigger] in_ways(all, c) implies stack@.contains(c) by {
            let (a, b) = choose|a: int, b: int|
                0 <= a < all.len() && 0 <= b < all[a].len() && #[trigger] all[a][b] == c;
            assert(stack@.contains(all[a][b]));
        }
    }
}

/// Which characters of the repertoire contain each component.
pub fn build_components(table: &FactorTable) -> (r: ClassMap<char>)
    requires
        table.wf(),
    ensures
        r.wf(),
        shows(r@, |part: char, whole: char| component_rel(table@, part, whole)),
{
    let ghost factors = table@;
    let ghost heads = table.heads();
    let mut map: ClassMap<char> = ClassMap::new();
    let mut i: usize = 0;
    while i < table.len()
        invariant
            i <= heads.len(),
            table.wf(),
            factors == table@,
            heads == table.heads(),
            map.wf(),
            shows(
                map@,
                |part: char, whole: char| upto_rel(factors, heads, i as int, part, whole),
            ),
        decreases heads.len() - i,
    {
        let root = table.head_at(i);
        let ghost start = map@;
        if is_han(root) {
            let closure = collect_components(root, table);
            proof {
                closure.lemma_listed();
            }
            let parts = closure.as_slice();
            let ghost list = closure.listed();
            assert(views(list) =~= list);
            let mut k: usize = 0;
            proof {
                lemma_same_shows(
                    map@,
                    |part: char, whole: char| upto_rel(factors, heads, i as int, part, whole),
                    |part: char, whole: char|
                        with_parts(factors, heads, i as int, list, 0, root, part, whole),
                );
            }
            while k < parts.len()
                invariant
                    k <= list.len(),
                    parts@ == list,
                    map.wf(),
                    shows(
                        map@,
                        |part: char, whole: char|
                            with_parts(factors, heads, i as int, list, k as int, root, part, whole),
                    ),
                decreases parts.len() - k,
            {
                let part = parts[k];
                let ghost before = map@;
                map.add(part, root);
                proof {
                    let a = |p: char, w: char|
                        with_parts(factors, heads, i as int, list, k as int, root, p, w);
                    let b = |p: char, w: char|
                        with_parts(factors, heads, i as int, list, k + 1, root, p, w);
                    assert forall|p: char, w: char| #[trigger] b(p, w) == (a(p, w) || (p == part
                        && w == root)) by {
                        lemma_take_contains(list, k as int, p);
                    }
                    lemma_added_shows(before, a, part, root, b);
                }
                k += 1;
            }
            proof {
                let a = |p: char, w: char|
                    with_parts(factors, heads, i as int, list, k as int, root, p, w);
                let b = |p: char, w: char| upto_rel(factors, heads, i + 1, p, w);
                assert(list.take(k as int) =~= list);
                assert forall|p: char, w: char| #[trigger] a(p, w) == #[trigger] b(p, w) by {
                    lemma_take_contains(heads, i as int, w);
                    assert(closure@.contains(p) == list.contains(p));
                }
                lemma_same_shows(map@, a, b);
            }
        } else {
            proof {
                let a = |p: char, w: char| upto_rel(factors, heads, i as int, p, w);
                let b = |p: char, w: char| upto_rel(factors, heads, i + 1, p, w);
                assert forall|p: char, w: char| #[trigger] a(p, w) == #[trigger] b(p, w) by {
                    lemma_take_contains(heads, i as int, w);
                }
                lemma_same_shows(map@, a, b);
            }
        }
        i += 1;
    }
    proof {
        table.lemma_heads();
        assert(heads.take(i as int) =~= heads);
        let a = |p: char, w: char| upto_rel(factors, heads, i as int, p, w);
        let b = |p: char, w: char| component_rel(factors, p, w);
        assert forall|p: char, w: char| #[trigger] a(p, w) == #[trigger] b(p, w) by {
            assert(factors.dom().contains(w) == heads.contains(w));
        }
        lemma_same_shows(map@, a, b);
    }
    map
}

pub proof fn lemma_take_contains(s: Seq<char>, i: int, x: char)
    requires
        0 <= i < s.len(),
    ensures
        s.take(i + 1).contains(x) == (s.take(i).contains(x) || s[i] == x),
{
    let a = s.take(i);
    let b = s.take(i + 1);
    if a.contains(x) {
        let k = choose|k: int| 0 <= k < a.len() && a[k] == x;
        assert(b[k] == x);
    }
    if s[i] == x {
        assert(b[i] == x);
    }
    if b.contains(x) {
        let k = choose|k: int| 0 <= k < b.len() && b[k] == x;
        if k < i {
            assert(a[k] == x);
        }
    }
}

/// One of the first `n` characters contains the component.
spec fn upto_rel(factors: Factors, heads: Seq<char>, n: int, part: char, whole: char) -> bool {
    heads.take(n).contains(whole) && han(whole) && contains_component(factors, whole, part)
}

/// The same, or `root` contains it among the first `k` of a list.
spec fn with_parts(
    factors: Factors,
    heads: Seq<char>,
    n: int,
    list: Seq<char>,
    k: int,
    root: char,
    part: char,
    whole: char,
) -> bool {
    upto_rel(factors, heads, n, part, whole) || (whole == root && list.take(k).contains(part))
}

} // verus!
