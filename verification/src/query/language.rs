//! Languages of strings: concatenation, repetition and rearrangement.
use vstd::prelude::*;

verus! {

/// A set of strings.
pub type Lang = Set<Seq<char>>;

/// The strings of one piece from each language, in order.
pub open spec fn lcat(ls: Seq<Lang>) -> Lang
    decreases ls.len(),
{
    if ls.len() == 0 {
        Set::new(|w: Seq<char>| w.len() == 0)
    } else {
        Set::new(
            |w: Seq<char>|
                exists|k: int|
                    0 <= k <= w.len() && ls[0].contains(#[trigger] w.take(k)) && lcat(
                        ls.skip(1),
                    ).contains(w.skip(k)),
        )
    }
}

/// `w` is made of pieces of `l`, any number of them.
pub open spec fn repeats(l: Lang, w: Seq<char>) -> bool
    decreases w.len(),
{
    w.len() == 0 || exists|k: int|
        0 < k <= w.len() && l.contains(#[trigger] w.take(k)) && repeats(l, w.skip(k))
}

/// The strings made of any number of pieces of `l`.
pub open spec fn lstar(l: Lang) -> Lang {
    Set::new(|w: Seq<char>| repeats(l, w))
}

/// The strings of one piece from each language, in any order.
pub open spec fn lanagram(ls: Seq<Lang>) -> Lang
    decreases ls.len(),
{
    if ls.len() == 0 {
        Set::new(|w: Seq<char>| w.len() == 0)
    } else {
        Set::new(
            |w: Seq<char>|
                exists|j: int, k: int|
                    0 <= j < ls.len() && 0 <= k <= w.len() && (#[trigger] ls[j]).contains(
                        #[trigger] w.take(k),
                    ) && lanagram(ls.remove(j)).contains(w.skip(k)),
        )
    }
}

/// The strings of one of the languages.
pub open spec fn lunion(ls: Seq<Lang>) -> Lang {
    Set::new(|w: Seq<char>| exists|i: int| 0 <= i < ls.len() && (#[trigger] ls[i]).contains(w))
}

/// The strings of every one of the languages.
pub open spec fn lmeet(ls: Seq<Lang>) -> Lang {
    Set::new(|w: Seq<char>| forall|i: int| 0 <= i < ls.len() ==> (#[trigger] ls[i]).contains(w))
}

/// What may follow `c` in a string of the language.
pub open spec fn after(l: Lang, c: char) -> Lang {
    Set::new(|w: Seq<char>| l.contains(seq![c] + w))
}

/// The language of the empty string.
pub open spec fn lunit() -> Lang {
    Set::new(|w: Seq<char>| w.len() == 0)
}

pub proof fn lemma_lcat_step(ls: Seq<Lang>, w: Seq<char>, k: int)
    requires
        ls.len() > 0,
        0 <= k <= w.len(),
        ls[0].contains(w.take(k)),
        lcat(ls.skip(1)).contains(w.skip(k)),
    ensures
        lcat(ls).contains(w),
{
}

pub proof fn lemma_lcat_split(ls: Seq<Lang>, w: Seq<char>) -> (k: int)
    requires
        ls.len() > 0,
        lcat(ls).contains(w),
    ensures
        0 <= k <= w.len(),
        ls[0].contains(w.take(k)),
        lcat(ls.skip(1)).contains(w.skip(k)),
{
    choose|k: int|
        0 <= k <= w.len() && ls[0].contains(#[trigger] w.take(k)) && lcat(ls.skip(1)).contains(
            w.skip(k),
        )
}

/// A concatenation of lists is the concatenation of their concatenations.
pub proof fn lemma_lcat_append(a: Seq<Lang>, b: Seq<Lang>)
    ensures
        lcat(a + b) == lcat(seq![lcat(a), lcat(b)]),
    decreases a.len(),
{
    let pair = seq![lcat(a), lcat(b)];
    lemma_lcat_single(lcat(b));
    assert(pair.skip(1) =~= seq![lcat(b)]);
    if a.len() == 0 {
        assert(a + b =~= b);
        assert forall|w: Seq<char>| lcat(b).contains(w) == lcat(pair).contains(w) by {
            assert(w.take(0).len() == 0);
            assert(w.skip(0) =~= w);
            if lcat(b).contains(w) {
                lemma_lcat_step(pair, w, 0);
            }
            if lcat(pair).contains(w) {
                let k = lemma_lcat_split(pair, w);
                assert(w.take(k).len() == 0);
                assert(k == 0);
            }
        }
    } else {
        let rest = a.skip(1);
        lemma_lcat_append(rest, b);
        assert((a + b).skip(1) =~= rest + b);
        let tail = seq![lcat(rest), lcat(b)];
        assert(tail.skip(1) =~= seq![lcat(b)]);
        assert forall|w: Seq<char>| lcat(a + b).contains(w) == lcat(pair).contains(w) by {
            if lcat(a + b).contains(w) {
                let k = lemma_lcat_split(a + b, w);
                let m = lemma_lcat_split(tail, w.skip(k));
                assert(w.take(k + m).take(k) =~= w.take(k));
                assert(w.take(k + m).skip(k) =~= w.skip(k).take(m));
                lemma_lcat_step(a, w.take(k + m), k);
                assert(w.skip(k + m) =~= w.skip(k).skip(m));
                lemma_lcat_step(pair, w, k + m);
            }
            if lcat(pair).contains(w) {
                let n = lemma_lcat_split(pair, w);
                let k = lemma_lcat_split(a, w.take(n));
                assert(w.take(n).take(k) =~= w.take(k));
                assert(w.take(n).skip(k) =~= w.skip(k).take(n - k));
                assert(w.skip(n) =~= w.skip(k).skip(n - k));
                lemma_lcat_step(tail, w.skip(k), n - k);
                lemma_lcat_step(a + b, w, k);
            }
        }
    }
    assert(lcat(a + b) =~= lcat(pair));
}

/// The concatenation of one language is that language.
pub proof fn lemma_lcat_single(l: Lang)
    ensures
        lcat(seq![l]) == l,
{
    let ls = seq![l];
    assert(ls.skip(1).len() == 0);
    assert forall|w: Seq<char>| lcat(ls).contains(w) == l.contains(w) by {
        if lcat(ls).contains(w) {
            let k = lemma_lcat_split(ls, w);
            assert(w.skip(k).len() == 0);
            assert(w.take(k) =~= w);
        }
        if l.contains(w) {
            assert(w.take(w.len() as int) =~= w);
            assert(w.skip(w.len() as int).len() == 0);
            lemma_lcat_step(ls, w, w.len() as int);
        }
    }
    assert(lcat(ls) =~= l);
}

/// A concatenation of two languages, spelled out.
pub proof fn lemma_lcat_pair(a: Lang, b: Lang, w: Seq<char>)
    ensures
        lcat(seq![a, b]).contains(w) <==> exists|k: int|
            0 <= k <= w.len() && a.contains(#[trigger] w.take(k)) && b.contains(w.skip(k)),
{
    let ls = seq![a, b];
    lemma_lcat_single(b);
    assert(ls.skip(1) =~= seq![b]);
    if lcat(ls).contains(w) {
        let k = lemma_lcat_split(ls, w);
        assert(a.contains(w.take(k)) && b.contains(w.skip(k)));
    }
    if exists|k: int|
        0 <= k <= w.len() && a.contains(#[trigger] w.take(k)) && b.contains(w.skip(k)) {
        let k = choose|k: int|
            0 <= k <= w.len() && a.contains(#[trigger] w.take(k)) && b.contains(w.skip(k));
        lemma_lcat_step(ls, w, k);
    }
}

/// A concatenation with the empty language is empty.
pub proof fn lemma_lcat_empty(ls: Seq<Lang>, i: int)
    requires
        0 <= i < ls.len(),
        ls[i] == Set::<Seq<char>>::empty(),
    ensures
        lcat(ls) == Set::<Seq<char>>::empty(),
    decreases ls.len(),
{
    if i > 0 {
        assert(ls.skip(1)[i - 1] == ls[i]);
        lemma_lcat_empty(ls.skip(1), i - 1);
    }
    assert forall|w: Seq<char>| !lcat(ls).contains(w) by {
        if lcat(ls).contains(w) {
            let k = lemma_lcat_split(ls, w);
        }
    }
    assert(lcat(ls) =~= Set::<Seq<char>>::empty());
}

/// The empty string is in a concatenation exactly where it is in every part.
pub proof fn lemma_lcat_nil(ls: Seq<Lang>)
    ensures
        lcat(ls).contains(Seq::empty()) <==> forall|i: int|
            0 <= i < ls.len() ==> (#[trigger] ls[i]).contains(Seq::<char>::empty()),
    decreases ls.len(),
{
    let e = Seq::<char>::empty();
    if ls.len() > 0 {
        lemma_lcat_nil(ls.skip(1));
        assert(e.take(0) =~= e);
        assert(e.skip(0) =~= e);
        if lcat(ls).contains(e) {
            let k = lemma_lcat_split(ls, e);
            assert forall|i: int| 0 <= i < ls.len() implies (#[trigger] ls[i]).contains(e) by {
                if i > 0 {
                    assert(ls.skip(1)[i - 1] == ls[i]);
                }
            }
        }
        if forall|i: int| 0 <= i < ls.len() ==> (#[trigger] ls[i]).contains(e) {
            assert forall|i: int| 0 <= i < ls.skip(1).len() implies (#[trigger] ls.skip(1)[i]).contains(
                e,
            ) by {
                assert(ls.skip(1)[i] == ls[i + 1]);
            }
            lemma_lcat_step(ls, e, 0);
        }
    }
}

/// What may follow `c` in a concatenation: what follows it in the first part,
/// then the other parts; or, where the first part may be empty, what follows it
/// in the other parts.
pub proof fn lemma_lcat_after(ls: Seq<Lang>, c: char, w: Seq<char>)
    requires
        ls.len() > 0,
    ensures
        lcat(ls).contains(seq![c] + w) <==> lcat(seq![after(ls[0], c)] + ls.skip(1)).contains(w)
            || (ls[0].contains(Seq::empty()) && lcat(ls.skip(1)).contains(seq![c] + w)),
{
    let cw = seq![c] + w;
    let shifted = seq![after(ls[0], c)] + ls.skip(1);
    assert(shifted.skip(1) =~= ls.skip(1));
    assert(shifted[0] == after(ls[0], c));
    if lcat(ls).contains(cw) {
        let k = lemma_lcat_split(ls, cw);
        if k == 0 {
            assert(cw.take(0) =~= Seq::empty());
            assert(cw.skip(0) =~= cw);
        } else {
            assert(cw.take(k) =~= seq![c] + w.take(k - 1));
            assert(cw.skip(k) =~= w.skip(k - 1));
            lemma_lcat_step(shifted, w, k - 1);
        }
    }
    if lcat(shifted).contains(w) {
        let k = lemma_lcat_split(shifted, w);
        assert(cw.take(k + 1) =~= seq![c] + w.take(k));
        assert(cw.skip(k + 1) =~= w.skip(k));
        lemma_lcat_step(ls, cw, k + 1);
    }
    if ls[0].contains(Seq::empty()) && lcat(ls.skip(1)).contains(cw) {
        assert(cw.take(0) =~= Seq::empty());
        assert(cw.skip(0) =~= cw);
        lemma_lcat_step(ls, cw, 0);
    }
}

/// What may follow `c` in a repetition.
pub proof fn lemma_lstar_after(l: Lang, c: char)
    ensures
        after(lstar(l), c) == lcat(seq![after(l, c), lstar(l)]),
{
    assert forall|w: Seq<char>|
        after(lstar(l), c).contains(w) == lcat(seq![after(l, c), lstar(l)]).contains(w) by {
        let cw = seq![c] + w;
        lemma_lcat_pair(after(l, c), lstar(l), w);
        if repeats(l, cw) {
            let k = choose|k: int|
                0 < k <= cw.len() && l.contains(#[trigger] cw.take(k)) && repeats(l, cw.skip(k));
            assert(cw.take(k) =~= seq![c] + w.take(k - 1));
            assert(cw.skip(k) =~= w.skip(k - 1));
            assert(after(l, c).contains(w.take(k - 1)));
        }
        if lcat(seq![after(l, c), lstar(l)]).contains(w) {
            let k = choose|k: int|
                0 <= k <= w.len() && after(l, c).contains(#[trigger] w.take(k)) && lstar(
                    l,
                ).contains(w.skip(k));
            assert(cw.take(k + 1) =~= seq![c] + w.take(k));
            assert(cw.skip(k + 1) =~= w.skip(k));
        }
    }
    assert(after(lstar(l), c) =~= lcat(seq![after(l, c), lstar(l)]));
}

/// Repeating a repetition adds nothing.
pub proof fn lemma_lstar_star(l: Lang)
    ensures
        lstar(lstar(l)) == lstar(l),
{
    assert forall|w: Seq<char>| repeats(lstar(l), w) == repeats(l, w) by {
        if repeats(lstar(l), w) {
            lemma_repeats_flat(l, w);
        }
        if repeats(l, w) && w.len() > 0 {
            assert(w.take(w.len() as int) =~= w);
            assert(w.skip(w.len() as int).len() == 0);
            assert(lstar(l).contains(w.take(w.len() as int)));
            assert(repeats(lstar(l), w.skip(w.len() as int)));
        }
    }
    assert(lstar(lstar(l)) =~= lstar(l));
}

proof fn lemma_repeats_flat(l: Lang, w: Seq<char>)
    requires
        repeats(lstar(l), w),
    ensures
        repeats(l, w),
    decreases w.len(),
{
    if w.len() > 0 {
        let k = choose|k: int|
            0 < k <= w.len() && lstar(l).contains(#[trigger] w.take(k)) && repeats(
                lstar(l),
                w.skip(k),
            );
        lemma_repeats_flat(l, w.skip(k));
        lemma_repeats_append(l, w.take(k), w.skip(k));
        assert(w.take(k) + w.skip(k) =~= w);
    }
}

proof fn lemma_repeats_append(l: Lang, u: Seq<char>, v: Seq<char>)
    requires
        repeats(l, u),
        repeats(l, v),
    ensures
        repeats(l, u + v),
    decreases u.len(),
{
    if u.len() == 0 {
        assert(u + v =~= v);
    } else {
        let k = choose|k: int|
            0 < k <= u.len() && l.contains(#[trigger] u.take(k)) && repeats(l, u.skip(k));
        lemma_repeats_append(l, u.skip(k), v);
        assert((u + v).take(k) =~= u.take(k));
        assert((u + v).skip(k) =~= u.skip(k) + v);
    }
}

/// Repeating nothing, or the empty string, gives the empty string.
pub proof fn lemma_lstar_unit(l: Lang)
    requires
        forall|w: Seq<char>| l.contains(w) ==> w.len() == 0,
    ensures
        lstar(l) == lunit(),
{
    assert forall|w: Seq<char>| repeats(l, w) == lunit().contains(w) by {
        if repeats(l, w) && w.len() > 0 {
            let k = choose|k: int|
                0 < k <= w.len() && l.contains(#[trigger] w.take(k)) && repeats(l, w.skip(k));
            assert(w.take(k).len() == 0);
        }
    }
    assert(lstar(l) =~= lunit());
}

pub proof fn lemma_lanagram_step(ls: Seq<Lang>, w: Seq<char>, j: int, k: int)
    requires
        0 <= j < ls.len(),
        0 <= k <= w.len(),
        ls[j].contains(w.take(k)),
        lanagram(ls.remove(j)).contains(w.skip(k)),
    ensures
        lanagram(ls).contains(w),
{
    assert(ls[j].contains(w.take(k)));
}

pub proof fn lemma_lanagram_split(ls: Seq<Lang>, w: Seq<char>) -> (r: (int, int))
    requires
        ls.len() > 0,
        lanagram(ls).contains(w),
    ensures
        0 <= r.0 < ls.len(),
        0 <= r.1 <= w.len(),
        ls[r.0].contains(w.take(r.1)),
        lanagram(ls.remove(r.0)).contains(w.skip(r.1)),
{
    choose|j: int, k: int|
        0 <= j < ls.len() && 0 <= k <= w.len() && (#[trigger] ls[j]).contains(#[trigger] w.take(k))
            && lanagram(ls.remove(j)).contains(w.skip(k))
}

/// Removing two elements, in either order.
proof fn lemma_remove_two<A>(s: Seq<A>, i: int, j: int)
    requires
        0 <= i < s.len(),
        0 <= j < s.len(),
        i != j,
    ensures
        ({
            let jj = if i < j { j - 1 } else { j };
            let ii = if i < j { i } else { i - 1 };
            &&& 0 <= jj < s.remove(i).len()
            &&& 0 <= ii < s.remove(j).len()
            &&& s.remove(i)[jj] == s[j]
            &&& s.remove(j)[ii] == s[i]
            &&& s.remove(i).remove(jj) == s.remove(j).remove(ii)
        }),
{
    let jj = if i < j { j - 1 } else { j };
    let ii = if i < j { i } else { i - 1 };
    assert(s.remove(i).remove(jj) =~= s.remove(j).remove(ii));
}

/// What may follow `c` in a rearrangement: what follows it in one of the
/// parts, then the others in any order.
pub proof fn lemma_lanagram_after(ls: Seq<Lang>, c: char, w: Seq<char>)
    ensures
        lanagram(ls).contains(seq![c] + w) <==> exists|j: int|
            0 <= j < ls.len() && lcat(
                seq![after(#[trigger] ls[j], c), lanagram(ls.remove(j))],
            ).contains(w),
    decreases ls.len(),
{
    let cw = seq![c] + w;
    if lanagram(ls).contains(cw) {
        assert(ls.len() > 0);
        let (j, k) = lemma_lanagram_split(ls, cw);
        if k > 0 {
            assert(cw.take(k) =~= seq![c] + w.take(k - 1));
            assert(cw.skip(k) =~= w.skip(k - 1));
            lemma_lcat_pair(after(ls[j], c), lanagram(ls.remove(j)), w);
            assert(after(ls[j], c).contains(w.take(k - 1)));
            assert(lcat(seq![after(ls[j], c), lanagram(ls.remove(j))]).contains(w));
        } else {
            let rest = ls.remove(j);
            assert(cw.skip(0) =~= cw);
            lemma_lanagram_after(rest, c, w);
            let i = choose|i: int|
                0 <= i < rest.len() && lcat(
                    seq![after(#[trigger] rest[i], c), lanagram(rest.remove(i))],
                ).contains(w);
            let p = if i < j { i } else { i + 1 };
            assert(ls[p] == rest[i]);
            lemma_remove_two(ls, j, p);
            let q = if j < p { j } else { j - 1 };
            assert(ls.remove(p)[q] == ls[j]);
            assert(ls.remove(p).remove(q) == rest.remove(i));
            lemma_lcat_pair(after(rest[i], c), lanagram(rest.remove(i)), w);
            let m = choose|m: int|
                0 <= m <= w.len() && after(rest[i], c).contains(#[trigger] w.take(m)) && lanagram(
                    rest.remove(i),
                ).contains(w.skip(m));
            let v = w.skip(m);
            assert(v.take(0) =~= cw.take(0));
            assert(v.skip(0) =~= v);
            lemma_lanagram_step(ls.remove(p), v, q, 0);
            lemma_lcat_pair(after(ls[p], c), lanagram(ls.remove(p)), w);
            assert(after(ls[p], c).contains(w.take(m)));
            assert(lcat(seq![after(ls[p], c), lanagram(ls.remove(p))]).contains(w));
        }
    }
    if exists|j: int|
        0 <= j < ls.len() && lcat(
            seq![after(#[trigger] ls[j], c), lanagram(ls.remove(j))],
        ).contains(w) {
        let j = choose|j: int|
            0 <= j < ls.len() && lcat(
                seq![after(#[trigger] ls[j], c), lanagram(ls.remove(j))],
            ).contains(w);
        lemma_lcat_pair(after(ls[j], c), lanagram(ls.remove(j)), w);
        let k = choose|k: int|
            0 <= k <= w.len() && after(ls[j], c).contains(#[trigger] w.take(k)) && lanagram(
                ls.remove(j),
            ).contains(w.skip(k));
        assert(cw.take(k + 1) =~= seq![c] + w.take(k));
        assert(cw.skip(k + 1) =~= w.skip(k));
        lemma_lanagram_step(ls, cw, j, k + 1);
    }
}

/// The empty string is in a rearrangement exactly where it is in every part.
pub proof fn lemma_lanagram_nil(ls: Seq<Lang>)
    ensures
        lanagram(ls).contains(Seq::empty()) <==> forall|i: int|
            0 <= i < ls.len() ==> (#[trigger] ls[i]).contains(Seq::<char>::empty()),
    decreases ls.len(),
{
    let e = Seq::<char>::empty();
    if ls.len() > 0 {
        assert(e.take(0) =~= e);
        assert(e.skip(0) =~= e);
        if lanagram(ls).contains(e) {
            let (j, k) = lemma_lanagram_split(ls, e);
            let rest = ls.remove(j);
            lemma_lanagram_nil(rest);
            assert forall|i: int| 0 <= i < ls.len() implies (#[trigger] ls[i]).contains(e) by {
                if i < j {
                    assert(rest[i] == ls[i]);
                } else if i > j {
                    assert(rest[i - 1] == ls[i]);
                }
            }
        }
        if forall|i: int| 0 <= i < ls.len() ==> (#[trigger] ls[i]).contains(e) {
            let rest = ls.remove(0);
            lemma_lanagram_nil(rest);
            assert forall|i: int| 0 <= i < rest.len() implies (#[trigger] rest[i]).contains(e) by {
                assert(rest[i] == ls[i + 1]);
            }
            lemma_lanagram_step(ls, e, 0, 0);
        }
    }
}

/// The order of the parts of a rearrangement does not matter.
pub proof fn lemma_lanagram_permute(a: Seq<Lang>, b: Seq<Lang>)
    requires
        a.to_multiset() == b.to_multiset(),
    ensures
        lanagram(a) == lanagram(b),
{
    assert forall|w: Seq<char>| lanagram(a).contains(w) == lanagram(b).contains(w) by {
        if lanagram(a).contains(w) {
            lemma_lanagram_permute_one(a, b, w);
        }
        if lanagram(b).contains(w) {
            lemma_lanagram_permute_one(b, a, w);
        }
    }
    assert(lanagram(a) =~= lanagram(b));
}

proof fn lemma_lanagram_permute_one(a: Seq<Lang>, b: Seq<Lang>, w: Seq<char>)
    requires
        a.to_multiset() == b.to_multiset(),
        lanagram(a).contains(w),
    ensures
        lanagram(b).contains(w),
    decreases a.len(),
{
    broadcast use vstd::seq_lib::group_to_multiset_ensures;

    assert(a.len() == a.to_multiset().len());
    assert(b.len() == b.to_multiset().len());
    if a.len() > 0 {
        let (j, k) = lemma_lanagram_split(a, w);
        assert(a.contains(a[j]));
        assert(a.to_multiset().count(a[j]) > 0);
        assert(b.contains(a[j]));
        let p = choose|p: int| 0 <= p < b.len() && b[p] == a[j];
        assert(a.remove(j).to_multiset() =~= a.to_multiset().remove(a[j]));
        assert(b.remove(p).to_multiset() =~= b.to_multiset().remove(b[p]));
        lemma_lanagram_permute_one(a.remove(j), b.remove(p), w.skip(k));
        lemma_lanagram_step(b, w, p, k);
    }
}

/// A part of the empty string alone can be left out of a rearrangement.
pub proof fn lemma_lanagram_unit(ls: Seq<Lang>, j: int)
    requires
        0 <= j < ls.len(),
        ls[j] == lunit(),
    ensures
        lanagram(ls) == lanagram(ls.remove(j)),
{
    assert forall|w: Seq<char>| lanagram(ls).contains(w) == lanagram(ls.remove(j)).contains(w) by {
        if lanagram(ls).contains(w) {
            lemma_lanagram_unit_one(ls, j, w);
        }
        if lanagram(ls.remove(j)).contains(w) {
            assert(w.take(0).len() == 0);
            assert(w.skip(0) =~= w);
            lemma_lanagram_step(ls, w, j, 0);
        }
    }
    assert(lanagram(ls) =~= lanagram(ls.remove(j)));
}

proof fn lemma_lanagram_unit_one(ls: Seq<Lang>, j: int, w: Seq<char>)
    requires
        0 <= j < ls.len(),
        ls[j] == lunit(),
        lanagram(ls).contains(w),
    ensures
        lanagram(ls.remove(j)).contains(w),
    decreases ls.len(),
{
    let (i, k) = lemma_lanagram_split(ls, w);
    if i == j {
        assert(w.take(k).len() == 0);
        assert(w.skip(0) =~= w);
    } else {
        lemma_remove_two(ls, i, j);
        let jj = if i < j { j - 1 } else { j };
        let ii = if i < j { i } else { i - 1 };
        lemma_lanagram_unit_one(ls.remove(i), jj, w.skip(k));
        lemma_lanagram_step(ls.remove(j), w, ii, k);
    }
}

/// A rearrangement with the empty language is empty.
pub proof fn lemma_lanagram_empty(ls: Seq<Lang>, j: int)
    requires
        0 <= j < ls.len(),
        ls[j] == Set::<Seq<char>>::empty(),
    ensures
        lanagram(ls) == Set::<Seq<char>>::empty(),
    decreases ls.len(),
{
    assert forall|w: Seq<char>| !lanagram(ls).contains(w) by {
        if lanagram(ls).contains(w) {
            let (i, k) = lemma_lanagram_split(ls, w);
            if i != j {
                lemma_remove_two(ls, i, j);
                let jj = if i < j { j - 1 } else { j };
                lemma_lanagram_empty(ls.remove(i), jj);
            }
        }
    }
    assert(lanagram(ls) =~= Set::<Seq<char>>::empty());
}

/// A rearrangement of one part is that part.
pub proof fn lemma_lanagram_single(l: Lang)
    ensures
        lanagram(seq![l]) == l,
{
    let ls = seq![l];
    assert(ls.remove(0).len() == 0);
    assert forall|w: Seq<char>| lanagram(ls).contains(w) == l.contains(w) by {
        if lanagram(ls).contains(w) {
            let (j, k) = lemma_lanagram_split(ls, w);
            assert(w.skip(k).len() == 0);
            assert(w.take(k) =~= w);
        }
        if l.contains(w) {
            assert(w.take(w.len() as int) =~= w);
            assert(w.skip(w.len() as int).len() == 0);
            lemma_lanagram_step(ls, w, 0, w.len() as int);
        }
    }
    assert(lanagram(ls) =~= l);
}

} // verus!
