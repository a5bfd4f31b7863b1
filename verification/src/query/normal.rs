//! Normal forms of expressions, and the languages they denote.
use crate::ordered::{ascending, lemma_sorted_unique, sort, sort_dedup, sorted, views, Ordered};
use crate::query::class::{class_has, ClassView};
use crate::query::expr::{lemma_view_parts, re_leq, Expr, Re};
use crate::query::language::{
    lanagram, lcat, lemma_lanagram_empty, lemma_lanagram_nil, lemma_lanagram_permute,
    lemma_lanagram_single, lemma_lanagram_unit, lemma_lcat_append, lemma_lcat_empty, lemma_lcat_nil,
    lemma_lcat_single, lemma_lstar_star, lemma_lstar_unit, lmeet, lstar, lunion, lunit, Lang,
};
use vstd::prelude::*;

verus! {

/// What the groups of a query stand for: anything, each place on its own, or
/// one character per group.
pub enum Env {
    Free,
    Bound(Seq<char>),
}

/// The group may stand for `c`.
pub open spec fn group_allows(env: Env, group: u32, c: char) -> bool {
    match env {
        Env::Free => true,
        Env::Bound(chosen) => group < chosen.len() && chosen[group as int] == c,
    }
}

/// The class with this number exists and holds `c`.
pub open spec fn in_class(classes: Seq<ClassView>, id: u32, c: char) -> bool {
    id < classes.len() && class_has(classes[id as int], c)
}

/// The strings that an expression matches.
pub open spec fn lang(re: Re, classes: Seq<ClassView>, env: Env) -> Lang
    decreases re,
{
    match re {
        Re::Empty => Set::empty(),
        Re::Epsilon => lunit(),
        Re::Class(id) => Set::new(|w: Seq<char>| w.len() == 1 && in_class(classes, id, w[0])),
        Re::Capture { class, group } => Set::new(
            |w: Seq<char>|
                w.len() == 1 && in_class(classes, class, w[0]) && group_allows(env, group, w[0]),
        ),
        Re::Concat(s) => lcat(langs(s, classes, env)),
        Re::Alt(s) => lunion(langs(s, classes, env)),
        Re::Intersect(s) => lmeet(langs(s, classes, env)),
        Re::Star(inner) => lstar(lang(*inner, classes, env)),
        Re::Anagram(s) => lanagram(langs(s, classes, env)),
    }
}

/// The languages of a list of expressions.
pub open spec fn langs(s: Seq<Re>, classes: Seq<ClassView>, env: Env) -> Seq<Lang>
    decreases s,
{
    Seq::new(
        s.len(),
        |i: int|
            if 0 <= i < s.len() {
                lang(s[i], classes, env)
            } else {
                Set::empty()
            },
    )
}

/// The language at each place of a list.
pub broadcast proof fn lemma_langs(s: Seq<Re>, classes: Seq<ClassView>, env: Env, i: int)
    requires
        0 <= i < s.len(),
    ensures
        #[trigger] langs(s, classes, env)[i] == lang(s[i], classes, env),
{
}

/// No intersection within the expression is one of nothing.
pub open spec fn re_wf(re: Re) -> bool
    decreases re,
{
    match re {
        Re::Concat(s) => all_wf(s),
        Re::Alt(s) => all_wf(s),
        Re::Intersect(s) => s.len() > 0 && all_wf(s),
        Re::Star(inner) => re_wf(*inner),
        Re::Anagram(s) => all_wf(s),
        _ => true,
    }
}

/// Every expression of the list is well formed.
pub open spec fn all_wf(s: Seq<Re>) -> bool
    decreases s,
{
    forall|i: int| 0 <= i < s.len() ==> re_wf(#[trigger] s[i])
}

// Lists of parts, with nested lists of the same kind opened.

/// What a part of a concatenation contributes.
pub open spec fn in_concat(p: Re) -> Seq<Re> {
    match p {
        Re::Epsilon => Seq::empty(),
        Re::Concat(s) => s,
        _ => seq![p],
    }
}

/// What a part of an alternation contributes.
pub open spec fn in_alt(p: Re) -> Seq<Re> {
    match p {
        Re::Empty => Seq::empty(),
        Re::Alt(s) => s,
        _ => seq![p],
    }
}

/// What a part of an intersection contributes.
pub open spec fn in_intersect(p: Re) -> Seq<Re> {
    match p {
        Re::Intersect(s) => s,
        _ => seq![p],
    }
}

/// What a part of a rearrangement contributes.
pub open spec fn in_anagram(p: Re) -> Seq<Re> {
    match p {
        Re::Epsilon => Seq::empty(),
        _ => seq![p],
    }
}

/// The contributions of all parts, one after the other.
pub open spec fn spliced(parts: Seq<Re>, open: spec_fn(Re) -> Seq<Re>) -> Seq<Re>
    decreases parts.len(),
{
    if parts.len() == 0 {
        Seq::empty()
    } else {
        spliced(parts.drop_last(), open) + open(parts.last())
    }
}

/// The elements of a list, each once, in order.
pub open spec fn sorted_set(s: Seq<Re>) -> Seq<Re> {
    choose|t: Seq<Re>| ascending::<Expr>(t) && t.to_set() == s.to_set()
}

/// The elements of a list, each as often as there, in order.
pub open spec fn sorted_list(s: Seq<Re>) -> Seq<Re> {
    choose|t: Seq<Re>| sorted::<Expr>(t) && t.to_multiset() == s.to_multiset()
}

/// The normal form of a concatenation.
pub open spec fn re_concat(parts: Seq<Re>) -> Re {
    if parts.contains(Re::Empty) {
        Re::Empty
    } else {
        let flat = spliced(parts, |p: Re| in_concat(p));
        if flat.len() == 0 {
            Re::Epsilon
        } else if flat.len() == 1 {
            flat[0]
        } else {
            Re::Concat(flat)
        }
    }
}

/// The normal form of an alternation.
pub open spec fn re_alt(parts: Seq<Re>) -> Re {
    let flat = sorted_set(spliced(parts, |p: Re| in_alt(p)));
    if flat.len() == 0 {
        Re::Empty
    } else if flat.len() == 1 {
        flat[0]
    } else {
        Re::Alt(flat)
    }
}

/// The normal form of an intersection.
pub open spec fn re_intersect(parts: Seq<Re>) -> Re {
    if parts.contains(Re::Empty) {
        Re::Empty
    } else {
        let flat = sorted_set(spliced(parts, |p: Re| in_intersect(p)));
        if flat.len() == 0 {
            Re::Epsilon
        } else if flat.len() == 1 {
            flat[0]
        } else {
            Re::Intersect(flat)
        }
    }
}

/// The normal form of a repetition.
pub open spec fn re_star(inner: Re) -> Re {
    match inner {
        Re::Empty | Re::Epsilon => Re::Epsilon,
        Re::Star(_) => inner,
        _ => Re::Star(Box::new(inner)),
    }
}

/// The normal form of a rearrangement.
pub open spec fn re_anagram(parts: Seq<Re>) -> Re {
    if parts.contains(Re::Empty) {
        Re::Empty
    } else {
        let flat = sorted_list(spliced(parts, |p: Re| in_anagram(p)));
        if flat.len() == 0 {
            Re::Epsilon
        } else if flat.len() == 1 {
            flat[0]
        } else {
            Re::Anagram(flat)
        }
    }
}

/// The expression matches the empty string.
pub open spec fn re_nullable(re: Re) -> bool
    decreases re,
{
    match re {
        Re::Epsilon => true,
        Re::Concat(s) => nullable_until(s, s.len() as int),
        Re::Intersect(s) => nullable_until(s, s.len() as int),
        Re::Anagram(s) => nullable_until(s, s.len() as int),
        Re::Alt(s) => nullable_somewhere(s),
        Re::Star(_) => true,
        _ => false,
    }
}

/// The first `n` expressions all match the empty string.
pub open spec fn nullable_until(s: Seq<Re>, n: int) -> bool
    decreases s,
{
    forall|i: int| 0 <= i < n && i < s.len() ==> re_nullable(#[trigger] s[i])
}

/// One of the expressions matches the empty string.
pub open spec fn nullable_somewhere(s: Seq<Re>) -> bool
    decreases s,
{
    exists|i: int| 0 <= i < s.len() && re_nullable(#[trigger] s[i])
}

/// An ascending list is determined by its elements.
pub proof fn lemma_sorted_set(s: Seq<Re>, t: Seq<Re>)
    requires
        ascending::<Expr>(t),
        t.to_set() == s.to_set(),
    ensures
        sorted_set(s) == t,
{
    let u = sorted_set(s);
    assert(ascending::<Expr>(u) && u.to_set() == s.to_set());
    lemma_ascending_multiset(t, u);
    assert(sorted::<Expr>(t) && sorted::<Expr>(u));
    lemma_sorted_unique::<Expr>(u, t);
}

proof fn lemma_ascending_multiset(t: Seq<Re>, u: Seq<Re>)
    requires
        ascending::<Expr>(t),
        ascending::<Expr>(u),
        t.to_set() == u.to_set(),
    ensures
        t.to_multiset() == u.to_multiset(),
{
    broadcast use vstd::seq_lib::group_to_multiset_ensures;

    assert(t.no_duplicates());
    assert(u.no_duplicates());
    t.lemma_multiset_has_no_duplicates();
    u.lemma_multiset_has_no_duplicates();
    assert forall|x: Re| t.to_multiset().count(x) == u.to_multiset().count(x) by {
        assert(t.to_set().contains(x) == u.to_set().contains(x));
        assert(t.to_set().contains(x) == t.contains(x));
        assert(u.to_set().contains(x) == u.contains(x));
        assert(t.contains(x) == (t.to_multiset().count(x) > 0));
        assert(u.contains(x) == (u.to_multiset().count(x) > 0));
        if t.to_multiset().count(x) > 0 {
            assert(t.to_multiset().contains(x));
            assert(u.to_multiset().contains(x));
        }
    }
    assert(t.to_multiset() =~= u.to_multiset());
}

pub proof fn lemma_sorted_list(s: Seq<Re>, t: Seq<Re>)
    requires
        sorted::<Expr>(t),
        t.to_multiset() == s.to_multiset(),
    ensures
        sorted_list(s) == t,
{
    lemma_sorted_unique::<Expr>(sorted_list(s), t);
}

/// Splices the parts of a list, which stands at the end of another.
proof fn lemma_spliced_push(parts: Seq<Re>, p: Re, open: spec_fn(Re) -> Seq<Re>)
    ensures
        spliced(parts.push(p), open) == spliced(parts, open) + open(p),
{
    assert(parts.push(p).drop_last() =~= parts);
}

proof fn lemma_views_append(a: Seq<Expr>, b: Seq<Expr>)
    ensures
        views(a + b) == views(a) + views(b),
{
    assert(views(a + b) =~= views(a) + views(b));
}

proof fn lemma_take_push<A>(s: Seq<A>, i: int)
    requires
        0 <= i < s.len(),
    ensures
        s.take(i + 1) == s.take(i).push(s[i]),
{
    assert(s.take(i + 1) =~= s.take(i).push(s[i]));
}

// The normal forms keep the languages.

/// The languages of a spliced list, where each part's language is the
/// concatenation of what it contributes.
proof fn lemma_spliced_concat(parts: Seq<Re>, classes: Seq<ClassView>, env: Env)
    ensures
        lcat(langs(spliced(parts, |p: Re| in_concat(p)), classes, env)) == lcat(
            langs(parts, classes, env),
        ),
    decreases parts.len(),
{
    let open = |p: Re| in_concat(p);
    if parts.len() > 0 {
        let init = parts.drop_last();
        let last = parts.last();
        lemma_spliced_concat(init, classes, env);
        let a = langs(spliced(init, open), classes, env);
        let b = langs(in_concat(last), classes, env);
        assert(langs(spliced(parts, open), classes, env) =~= a + b);
        lemma_lcat_append(a, b);
        let c = langs(init, classes, env);
        let d = seq![lang(last, classes, env)];
        assert(langs(parts, classes, env) =~= c + d);
        lemma_lcat_append(c, d);
        lemma_lcat_single(lang(last, classes, env));
        assert(lcat(b) == lang(last, classes, env)) by {
            match last {
                Re::Epsilon => {
                    assert(b =~= Seq::empty());
                },
                Re::Concat(s) => {},
                _ => {
                    assert(b =~= seq![lang(last, classes, env)]);
                },
            }
        }
    } else {
        assert(langs(spliced(parts, open), classes, env) =~= langs(parts, classes, env));
    }
}

/// The normal form of a concatenation matches what the concatenation matches.
pub proof fn lemma_concat_lang(parts: Seq<Re>, classes: Seq<ClassView>, env: Env)
    ensures
        lang(re_concat(parts), classes, env) == lcat(langs(parts, classes, env)),
{
    if parts.contains(Re::Empty) {
        let i = choose|i: int| 0 <= i < parts.len() && parts[i] == Re::Empty;
        lemma_langs(parts, classes, env, i);
        lemma_lcat_empty(langs(parts, classes, env), i);
    } else {
        let flat = spliced(parts, |p: Re| in_concat(p));
        lemma_spliced_concat(parts, classes, env);
        if flat.len() == 0 {
            assert(langs(flat, classes, env) =~= Seq::empty());
        } else if flat.len() == 1 {
            assert(langs(flat, classes, env) =~= seq![lang(flat[0], classes, env)]);
            lemma_lcat_single(lang(flat[0], classes, env));
        }
    }
}

/// What the elements of a spliced alternation or intersection match.
proof fn lemma_spliced_alt(parts: Seq<Re>, classes: Seq<ClassView>, env: Env, w: Seq<char>)
    ensures
        lunion(langs(spliced(parts, |p: Re| in_alt(p)), classes, env)).contains(w) == lunion(
            langs(parts, classes, env),
        ).contains(w),
    decreases parts.len(),
{
    let open = |p: Re| in_alt(p);
    let all = spliced(parts, open);
    if parts.len() > 0 {
        let init = parts.drop_last();
        let last = parts.last();
        let before = spliced(init, open);
        lemma_spliced_alt(init, classes, env, w);
        let la = langs(all, classes, env);
        let lp = langs(parts, classes, env);
        assert(all == before + in_alt(last));
        if lunion(la).contains(w) {
            let i = choose|i: int| 0 <= i < la.len() && (#[trigger] la[i]).contains(w);
            if i < before.len() {
                assert(langs(before, classes, env)[i] == la[i]);
                assert(lunion(langs(before, classes, env)).contains(w));
                let li = langs(init, classes, env);
                let k = choose|k: int| 0 <= k < li.len() && (#[trigger] li[k]).contains(w);
                assert(lp[k] == li[k]);
            } else {
                let j = i - before.len();
                assert(all[i] == in_alt(last)[j]);
                assert(lp[parts.len() - 1] == lang(last, classes, env));
                match last {
                    Re::Alt(s) => {
                        assert(langs(s, classes, env)[j] == la[i]);
                    },
                    _ => {},
                }
                assert(lp[parts.len() - 1].contains(w));
            }
        }
        if lunion(lp).contains(w) {
            let i = choose|i: int| 0 <= i < lp.len() && (#[trigger] lp[i]).contains(w);
            if i < init.len() {
                assert(langs(init, classes, env)[i] == lp[i]);
                assert(lunion(langs(init, classes, env)).contains(w));
                let lb = langs(before, classes, env);
                let k = choose|k: int| 0 <= k < lb.len() && (#[trigger] lb[k]).contains(w);
                assert(la[k] == lb[k]);
            } else {
                assert(lp[i] == lang(last, classes, env));
                match last {
                    Re::Empty => {},
                    Re::Alt(s) => {
                        let ls = langs(s, classes, env);
                        let k = choose|k: int| 0 <= k < ls.len() && (#[trigger] ls[k]).contains(w);
                        assert(all[before.len() + k] == s[k]);
                        assert(la[before.len() + k] == ls[k]);
                    },
                    _ => {
                        assert(all[before.len() as int] == last);
                        assert(la[before.len() as int].contains(w));
                    },
                }
            }
        }
    }
}

/// The union of languages depends on the set of parts alone.
proof fn lemma_union_by_set(s: Seq<Re>, t: Seq<Re>, classes: Seq<ClassView>, env: Env)
    requires
        forall|x: Re| s.contains(x) ==> t.contains(x),
    ensures
        forall|w: Seq<char>|
            lunion(langs(s, classes, env)).contains(w) ==> lunion(
                langs(t, classes, env),
            ).contains(w),
        forall|w: Seq<char>|
            lmeet(langs(t, classes, env)).contains(w) ==> lmeet(
                langs(s, classes, env),
            ).contains(w),
{
    let ls = langs(s, classes, env);
    let lt = langs(t, classes, env);
    assert forall|w: Seq<char>| lunion(ls).contains(w) implies lunion(lt).contains(w) by {
        let i = choose|i: int| 0 <= i < ls.len() && (#[trigger] ls[i]).contains(w);
        assert(s.contains(s[i]));
        let k = choose|k: int| 0 <= k < t.len() && t[k] == s[i];
        assert(lt[k] == ls[i]);
    }
    assert forall|w: Seq<char>| lmeet(lt).contains(w) implies lmeet(ls).contains(w) by {
        assert forall|i: int| 0 <= i < ls.len() implies (#[trigger] ls[i]).contains(w) by {
            assert(s.contains(s[i]));
            let k = choose|k: int| 0 <= k < t.len() && t[k] == s[i];
            assert(lt[k] == ls[i]);
        }
    }
}

/// Any list of expressions can be sorted.
pub proof fn lemma_sorted_list_exists(s: Seq<Re>)
    ensures
        sorted::<Expr>(sorted_list(s)),
        sorted_list(s).to_multiset() == s.to_multiset(),
    decreases s.len(),
{
    let leq = |a: Re, b: Re| re_leq(a, b);
    let t = s.sort_by(leq);
    assert(vstd::relations::total_ordering(leq)) by {
        assert forall|x: Re| #[trigger] leq(x, x) by {
            crate::query::expr::lemma_re_total_order(x, x, x);
        }
        assert forall|x: Re, y: Re| #[trigger] leq(x, y) && #[trigger] leq(y, x) implies x == y by {
            crate::query::expr::lemma_re_total_order(x, y, x);
        }
        assert forall|x: Re, y: Re, z: Re| #[trigger] leq(x, y) && #[trigger] leq(y, z) implies leq(
            x,
            z,
        ) by {
            crate::query::expr::lemma_re_total_order(x, y, z);
        }
        assert forall|x: Re, y: Re| #[trigger] leq(x, y) || #[trigger] leq(y, x) by {
            crate::query::expr::lemma_re_total_order(x, y, x);
        }
    }
    s.lemma_sort_by_ensures(leq);
    assert(sorted::<Expr>(t)) by {
        assert forall|i: int, j: int| 0 <= i < j < t.len() implies Expr::leq(
            #[trigger] t[i],
            #[trigger] t[j],
        ) by {
            assert(leq(t[i], t[j]));
        }
    }
    assert(sorted::<Expr>(t) && t.to_multiset() == s.to_multiset());
}

/// Any list of expressions can be sorted, each element once.
pub proof fn lemma_sorted_set_exists(s: Seq<Re>)
    ensures
        ascending::<Expr>(sorted_set(s)),
        sorted_set(s).to_set() == s.to_set(),
        forall|x: Re|
            #![trigger sorted_set(s).contains(x)]
            #![trigger s.contains(x)]
            sorted_set(s).contains(x) <==> s.contains(x),
{
    lemma_some_sorted_set(s);
    let t = sorted_set(s);
    assert forall|x: Re| t.contains(x) <==> s.contains(x) by {
        assert(t.to_set().contains(x) == t.contains(x));
        assert(s.to_set().contains(x) == s.contains(x));
    }
}

proof fn lemma_some_sorted_set(s: Seq<Re>)
    ensures
        exists|t: Seq<Re>| ascending::<Expr>(t) && #[trigger] t.to_set() == s.to_set(),
    decreases s.len(),
{
    if s.len() == 0 {
        let t = s;
        assert(ascending::<Expr>(t) && t.to_set() == s.to_set());
    } else {
        // dropping repetitions until none is left, then sorting
        if s.no_duplicates() {
            lemma_sorted_list_exists(s);
            let t = sorted_list(s);
            crate::ordered::lemma_same_multiset_same_set(t, s);
            assert(t.no_duplicates()) by {
                broadcast use vstd::seq_lib::group_to_multiset_ensures;

                s.lemma_multiset_has_no_duplicates();
                t.lemma_multiset_has_no_duplicates_conv();
            }
            assert(ascending::<Expr>(t) && t.to_set() == s.to_set());
        } else {
            let (i, j) = choose|i: int, j: int|
                0 <= i < s.len() && 0 <= j < s.len() && i != j && s[i] == s[j];
            let u = s.remove(j);
            lemma_some_sorted_set(u);
            let t = choose|t: Seq<Re>| ascending::<Expr>(t) && #[trigger] t.to_set() == u.to_set();
            assert(u.to_set() =~= s.to_set()) by {
                assert forall|x: Re| s.contains(x) == u.contains(x) by {
                    if s.contains(x) {
                        let k = choose|k: int| 0 <= k < s.len() && s[k] == x;
                        let m = if k == j { i } else { k };
                        assert(s[m] == x);
                        let n = if m < j { m } else { m - 1 };
                        assert(u[n] == x);
                    }
                    if u.contains(x) {
                        let n = choose|n: int| 0 <= n < u.len() && u[n] == x;
                        let k = if n < j { n } else { n + 1 };
                        assert(s[k] == x);
                    }
                }
                assert forall|x: Re| s.to_set().contains(x) == u.to_set().contains(x) by {
                    assert(s.to_set().contains(x) == s.contains(x));
                    assert(u.to_set().contains(x) == u.contains(x));
                }
            }
            assert(ascending::<Expr>(t) && t.to_set() == s.to_set());
        }
    }
}

/// The normal form of an alternation matches what one of its parts matches.
pub proof fn lemma_alt_lang(parts: Seq<Re>, classes: Seq<ClassView>, env: Env)
    ensures
        lang(re_alt(parts), classes, env) == lunion(langs(parts, classes, env)),
{
    let all = spliced(parts, |p: Re| in_alt(p));
    let flat = sorted_set(all);
    lemma_sorted_set_exists(all);
    lemma_union_by_set(all, flat, classes, env);
    lemma_union_by_set(flat, all, classes, env);
    let lf = langs(flat, classes, env);
    assert forall|w: Seq<char>|
        lang(re_alt(parts), classes, env).contains(w) == lunion(
            langs(parts, classes, env),
        ).contains(w) by {
        lemma_spliced_alt(parts, classes, env, w);
        assert(lunion(lf).contains(w) == lunion(langs(all, classes, env)).contains(w));
        if flat.len() == 1 {
            assert(lf[0] == lang(flat[0], classes, env));
        }
    }
    assert(lang(re_alt(parts), classes, env) =~= lunion(langs(parts, classes, env)));
}

proof fn lemma_spliced_intersect(parts: Seq<Re>, classes: Seq<ClassView>, env: Env, w: Seq<char>)
    ensures
        lmeet(langs(spliced(parts, |p: Re| in_intersect(p)), classes, env)).contains(w) == lmeet(
            langs(parts, classes, env),
        ).contains(w),
    decreases parts.len(),
{
    let open = |p: Re| in_intersect(p);
    let all = spliced(parts, open);
    if parts.len() > 0 {
        let init = parts.drop_last();
        let last = parts.last();
        let before = spliced(init, open);
        lemma_spliced_intersect(init, classes, env, w);
        let la = langs(all, classes, env);
        let lp = langs(parts, classes, env);
        let li = langs(init, classes, env);
        let lb = langs(before, classes, env);
        assert(all == before + in_intersect(last));
        if lmeet(la).contains(w) {
            assert forall|i: int| 0 <= i < lb.len() implies (#[trigger] lb[i]).contains(w) by {
                assert(la[i] == lb[i]);
            }
            assert(lmeet(li).contains(w));
            assert forall|i: int| 0 <= i < lp.len() implies (#[trigger] lp[i]).contains(w) by {
                if i < init.len() {
                    assert(li[i] == lp[i]);
                } else {
                    assert(lp[i] == lang(last, classes, env));
                    match last {
                        Re::Intersect(s) => {
                            let ls = langs(s, classes, env);
                            assert forall|k: int| 0 <= k < ls.len() implies (
                            #[trigger] ls[k]).contains(w) by {
                                assert(all[before.len() + k] == s[k]);
                                assert(la[before.len() + k] == ls[k]);
                            }
                        },
                        _ => {
                            assert(all[before.len() as int] == last);
                            assert(la[before.len() as int].contains(w));
                        },
                    }
                }
            }
        }
        if lmeet(lp).contains(w) {
            assert forall|i: int| 0 <= i < li.len() implies (#[trigger] li[i]).contains(w) by {
                assert(lp[i] == li[i]);
            }
            assert(lmeet(lb).contains(w));
            assert(lp[parts.len() - 1].contains(w));
            assert forall|i: int| 0 <= i < la.len() implies (#[trigger] la[i]).contains(w) by {
                if i < before.len() {
                    assert(lb[i] == la[i]);
                } else {
                    let k = i - before.len();
                    assert(all[i] == in_intersect(last)[k]);
                    match last {
                        Re::Intersect(s) => {
                            assert(langs(s, classes, env)[k] == la[i]);
                        },
                        _ => {},
                    }
                }
            }
        }
    }
}

/// The normal form of an intersection of one or more expressions matches what
/// each of them matches.
pub proof fn lemma_intersect_lang(parts: Seq<Re>, classes: Seq<ClassView>, env: Env)
    requires
        parts.len() > 0,
        all_wf(parts),
    ensures
        lang(re_intersect(parts), classes, env) == lmeet(langs(parts, classes, env)),
{
    let lp = langs(parts, classes, env);
    if parts.contains(Re::Empty) {
        let i = choose|i: int| 0 <= i < parts.len() && parts[i] == Re::Empty;
        lemma_langs(parts, classes, env, i);
        assert forall|w: Seq<char>| !lmeet(lp).contains(w) by {
            assert(!lp[i].contains(w));
        }
        assert(lmeet(lp) =~= Set::<Seq<char>>::empty());
    } else {
        let all = spliced(parts, |p: Re| in_intersect(p));
        let flat = sorted_set(all);
        lemma_sorted_set_exists(all);
        lemma_union_by_set(all, flat, classes, env);
        lemma_union_by_set(flat, all, classes, env);
        let lf = langs(flat, classes, env);
        assert(all.len() > 0) by {
            assert(re_wf(parts[parts.len() - 1]));
            assert(in_intersect(parts.last()).len() > 0);
        }
        assert(all.contains(all[0]));
        assert(flat.contains(all[0]));
        assert forall|w: Seq<char>|
            lang(re_intersect(parts), classes, env).contains(w) == lmeet(lp).contains(w) by {
            lemma_spliced_intersect(parts, classes, env, w);
            assert(lmeet(lf).contains(w) == lmeet(langs(all, classes, env)).contains(w));
            if flat.len() == 1 {
                assert(lf[0] == lang(flat[0], classes, env));
            }
        }
        assert(lang(re_intersect(parts), classes, env) =~= lmeet(lp));
    }
}

/// The normal form of a repetition matches what the repetition matches.
pub proof fn lemma_star_lang(inner: Re, classes: Seq<ClassView>, env: Env)
    ensures
        lang(re_star(inner), classes, env) == lstar(lang(inner, classes, env)),
{
    match inner {
        Re::Empty => {
            lemma_lstar_unit(lang(inner, classes, env));
        },
        Re::Epsilon => {
            lemma_lstar_unit(lang(inner, classes, env));
        },
        Re::Star(x) => {
            lemma_lstar_star(lang(*x, classes, env));
        },
        _ => {},
    }
}

proof fn lemma_spliced_anagram(parts: Seq<Re>, rest: Seq<Lang>, classes: Seq<ClassView>, env: Env)
    ensures
        lanagram(langs(spliced(parts, |p: Re| in_anagram(p)), classes, env) + rest) == lanagram(
            langs(parts, classes, env) + rest,
        ),
    decreases parts.len(),
{
    let open = |p: Re| in_anagram(p);
    let all = spliced(parts, open);
    if parts.len() > 0 {
        let init = parts.drop_last();
        let last = parts.last();
        let before = spliced(init, open);
        let here = lang(last, classes, env);
        let lb = langs(before, classes, env);
        let li = langs(init, classes, env);
        lemma_spliced_anagram(init, seq![here] + rest, classes, env);
        assert(langs(parts, classes, env) + rest =~= li + (seq![here] + rest));
        if last == Re::Epsilon {
            assert(all =~= before);
            let with = lb + (seq![here] + rest);
            assert(with[lb.len() as int] == here);
            lemma_lanagram_unit(with, lb.len() as int);
            assert(with.remove(lb.len() as int) =~= lb + rest);
        } else {
            assert(langs(all, classes, env) + rest =~= lb + (seq![here] + rest));
        }
    } else {
        assert(langs(all, classes, env) =~= langs(parts, classes, env));
    }
}

proof fn lemma_langs_multiset(s: Seq<Re>, t: Seq<Re>, classes: Seq<ClassView>, env: Env)
    requires
        s.to_multiset() == t.to_multiset(),
    ensures
        langs(s, classes, env).to_multiset() == langs(t, classes, env).to_multiset(),
    decreases s.len(),
{
    broadcast use vstd::seq_lib::group_to_multiset_ensures;

    let ls = langs(s, classes, env);
    let lt = langs(t, classes, env);
    assert(s.len() == s.to_multiset().len());
    assert(t.len() == t.to_multiset().len());
    if s.len() == 0 {
        assert(ls =~= lt);
    } else {
        assert(s.contains(s[0]));
        assert(s.to_multiset().count(s[0]) > 0);
        assert(t.contains(s[0]));
        let k = choose|k: int| 0 <= k < t.len() && t[k] == s[0];
        assert(s.remove(0).to_multiset() =~= s.to_multiset().remove(s[0]));
        assert(t.remove(k).to_multiset() =~= t.to_multiset().remove(t[k]));
        lemma_langs_multiset(s.remove(0), t.remove(k), classes, env);
        assert(langs(s.remove(0), classes, env) =~= ls.remove(0));
        assert(langs(t.remove(k), classes, env) =~= lt.remove(k));
        assert(ls.remove(0).to_multiset() =~= ls.to_multiset().remove(ls[0]));
        assert(lt.remove(k).to_multiset() =~= lt.to_multiset().remove(lt[k]));
        assert(ls[0] == lt[k]);
        assert(ls.contains(ls[0]));
        assert(lt.contains(lt[k]));
        assert(ls.to_multiset().remove(ls[0]).insert(ls[0]) =~= ls.to_multiset());
        assert(lt.to_multiset().remove(lt[k]).insert(lt[k]) =~= lt.to_multiset());
    }
}

/// The normal form of a rearrangement matches what the rearrangement matches.
pub proof fn lemma_anagram_lang(parts: Seq<Re>, classes: Seq<ClassView>, env: Env)
    ensures
        lang(re_anagram(parts), classes, env) == lanagram(langs(parts, classes, env)),
{
    let lp = langs(parts, classes, env);
    if parts.contains(Re::Empty) {
        let i = choose|i: int| 0 <= i < parts.len() && parts[i] == Re::Empty;
        lemma_langs(parts, classes, env, i);
        lemma_lanagram_empty(lp, i);
    } else {
        let all = spliced(parts, |p: Re| in_anagram(p));
        let flat = sorted_list(all);
        lemma_sorted_list_exists(all);
        lemma_langs_multiset(flat, all, classes, env);
        lemma_lanagram_permute(langs(flat, classes, env), langs(all, classes, env));
        lemma_spliced_anagram(parts, Seq::empty(), classes, env);
        assert(langs(all, classes, env) + Seq::<Lang>::empty() =~= langs(all, classes, env));
        assert(lp + Seq::<Lang>::empty() =~= lp);
        if flat.len() == 0 {
            assert(langs(flat, classes, env) =~= Seq::empty());
        } else if flat.len() == 1 {
            assert(langs(flat, classes, env) =~= seq![lang(flat[0], classes, env)]);
            lemma_lanagram_single(lang(flat[0], classes, env));
        }
    }
}

/// An expression matches the empty string exactly where it is nullable,
/// whatever the classes and groups stand for.
pub proof fn lemma_nullable_lang(re: Re, classes: Seq<ClassView>, env: Env)
    ensures
        re_nullable(re) <==> lang(re, classes, env).contains(Seq::empty()),
    decreases re,
{
    let e = Seq::<char>::empty();
    match re {
        Re::Concat(s) => {
            lemma_nullable_all(s, classes, env);
            lemma_lcat_nil(langs(s, classes, env));
        },
        Re::Alt(s) => {
            lemma_nullable_all(s, classes, env);
            let ls = langs(s, classes, env);
            if re_nullable(re) {
                let i = choose|i: int| 0 <= i < s.len() && re_nullable(#[trigger] s[i]);
                assert(ls[i].contains(e));
            }
        },
        Re::Intersect(s) => {
            lemma_nullable_all(s, classes, env);
            let ls = langs(s, classes, env);
            if lmeet(ls).contains(e) {
                assert forall|i: int| 0 <= i < s.len() implies re_nullable(#[trigger] s[i]) by {
                    assert(ls[i].contains(e));
                }
            }
        },
        Re::Anagram(s) => {
            lemma_nullable_all(s, classes, env);
            lemma_lanagram_nil(langs(s, classes, env));
        },
        _ => {},
    }
}

proof fn lemma_nullable_all(s: Seq<Re>, classes: Seq<ClassView>, env: Env)
    ensures
        forall|i: int|
            #![trigger s[i]]
            #![trigger langs(s, classes, env)[i]]
            0 <= i < s.len() ==> re_nullable(s[i]) == langs(s, classes, env)[i].contains(
                Seq::empty(),
            ),
    decreases s,
{
    assert forall|i: int| 0 <= i < s.len() implies re_nullable(#[trigger] s[i]) == langs(
        s,
        classes,
        env,
    )[i].contains(Seq::empty()) by {
        lemma_nullable_lang(s[i], classes, env);
    }
}

// The normal forms keep well-formedness.

proof fn lemma_spliced_wf(parts: Seq<Re>, open: spec_fn(Re) -> Seq<Re>)
    requires
        all_wf(parts),
        forall|p: Re| re_wf(p) ==> all_wf(#[trigger] open(p)),
    ensures
        all_wf(spliced(parts, open)),
    decreases parts.len(),
{
    if parts.len() > 0 {
        assert(all_wf(parts.drop_last()));
        lemma_spliced_wf(parts.drop_last(), open);
        assert(re_wf(parts[parts.len() - 1]));
        let a = spliced(parts.drop_last(), open);
        let b = open(parts.last());
        assert forall|i: int| 0 <= i < (a + b).len() implies re_wf(#[trigger] (a + b)[i]) by {
            if i < a.len() {
                assert((a + b)[i] == a[i]);
            } else {
                assert((a + b)[i] == b[i - a.len()]);
            }
        }
    }
}

/// The normal forms of well-formed parts are well formed.
pub proof fn lemma_normal_wf(parts: Seq<Re>)
    requires
        all_wf(parts),
    ensures
        re_wf(re_concat(parts)),
        re_wf(re_alt(parts)),
        re_wf(re_intersect(parts)),
        re_wf(re_anagram(parts)),
{
    let c = spliced(parts, |p: Re| in_concat(p));
    lemma_spliced_wf(parts, |p: Re| in_concat(p));
    if c.len() > 0 {
        assert(re_wf(c[0]));
    }
    let a = spliced(parts, |p: Re| in_alt(p));
    lemma_spliced_wf(parts, |p: Re| in_alt(p));
    lemma_set_wf(a);
    let n = spliced(parts, |p: Re| in_intersect(p));
    lemma_spliced_wf(parts, |p: Re| in_intersect(p));
    lemma_set_wf(n);
    let g = spliced(parts, |p: Re| in_anagram(p));
    lemma_spliced_wf(parts, |p: Re| in_anagram(p));
    lemma_sorted_list_exists(g);
    crate::ordered::lemma_same_multiset_same_set(sorted_list(g), g);
    let t = sorted_list(g);
    assert forall|i: int| 0 <= i < t.len() implies re_wf(#[trigger] t[i]) by {
        assert(t.contains(t[i]));
        assert(g.contains(t[i]));
        let k = choose|k: int| 0 <= k < g.len() && g[k] == t[i];
        assert(re_wf(g[k]));
    }
    assert(all_wf(t));
    if t.len() > 0 {
        assert(re_wf(t[0]));
    }
}

proof fn lemma_set_wf(s: Seq<Re>)
    requires
        all_wf(s),
    ensures
        all_wf(sorted_set(s)),
        sorted_set(s).len() > 0 ==> re_wf(sorted_set(s)[0]),
{
    lemma_sorted_set_exists(s);
    let t = sorted_set(s);
    assert forall|i: int| 0 <= i < t.len() implies re_wf(#[trigger] t[i]) by {
        assert(t.contains(t[i]));
        let k = choose|k: int| 0 <= k < s.len() && s[k] == t[i];
        assert(re_wf(s[k]));
    }
}

impl Expr {
    /// A concatenation: nested ones are opened, the empty string is left out,
    /// and nothing matches where a part matches nothing.
    pub fn concat(parts: Vec<Self>) -> (r: Self)
        ensures
            r@ == re_concat(views(parts@)),
    {
        broadcast use lemma_view_parts;

        if has_dead(&parts) {
            return Expr::Empty;
        }
        let ghost given = views(parts@);
        let mut todo = crate::ordered::reverse(parts);
        let mut flat: Vec<Expr> = Vec::new();
        let ghost mut done: int = 0;
        assert(views(flat@) =~= spliced(given.take(0), |p: Re| in_concat(p)));
        while todo.len() > 0
            invariant
                todo@.len() + done == given.len(),
                0 <= done,
                forall|i: int|
                    0 <= i < todo@.len() ==> #[trigger] todo@[i]@ == given[given.len() - 1 - i],
                views(flat@) == spliced(given.take(done), |p: Re| in_concat(p)),
            decreases todo.len(),
        {
            broadcast use lemma_view_parts;

            let ghost before = flat@;
            let ghost left = todo@;
            let part = todo.pop().unwrap();
            proof {
                assert(left[left.len() - 1]@ == given[done]);
                lemma_take_push(given, done);
                lemma_spliced_push(given.take(done), given[done], |p: Re| in_concat(p));
                assert forall|i: int| 0 <= i < todo@.len() implies #[trigger] todo@[i]@
                    == given[given.len() - 1 - i] by {
                    assert(todo@[i] == left[i]);
                }
            }
            match part {
                Expr::Epsilon => {
                    assert(views(flat@) =~= views(before) + in_concat(given[done]));
                },
                Expr::Concat(inner) => {
                    let mut inner = inner;
                    proof {
                        lemma_views_append(before, inner@);
                    }
                    flat.append(&mut inner);
                },
                other => {
                    flat.push(other);
                    assert(views(flat@) =~= views(before) + seq![other@]);
                },
            }
            proof {
                done = done + 1;
            }
        }
        proof {
            assert(given.take(done) =~= given);
        }
        if flat.len() == 0 {
            Expr::Epsilon
        } else if flat.len() == 1 {
            let ghost all = views(flat@);
            let only = flat.pop().unwrap();
            assert(all[0] == only@);
            only
        } else {
            Expr::Concat(flat)
        }
    }

    /// An alternation: nested ones are opened, what matches nothing is left
    /// out, and the alternatives are sorted, each once.
    pub fn alt(parts: Vec<Self>) -> (r: Self)
        ensures
            r@ == re_alt(views(parts@)),
    {
        broadcast use lemma_view_parts;

        let ghost given = views(parts@);
        let mut todo = crate::ordered::reverse(parts);
        let mut flat: Vec<Expr> = Vec::new();
        let ghost mut done: int = 0;
        assert(views(flat@) =~= spliced(given.take(0), |p: Re| in_alt(p)));
        while todo.len() > 0
            invariant
                todo@.len() + done == given.len(),
                0 <= done,
                forall|i: int|
                    0 <= i < todo@.len() ==> #[trigger] todo@[i]@ == given[given.len() - 1 - i],
                views(flat@) == spliced(given.take(done), |p: Re| in_alt(p)),
            decreases todo.len(),
        {
            broadcast use lemma_view_parts;

            let ghost before = flat@;
            let ghost left = todo@;
            let part = todo.pop().unwrap();
            proof {
                assert(left[left.len() - 1]@ == given[done]);
                lemma_take_push(given, done);
                lemma_spliced_push(given.take(done), given[done], |p: Re| in_alt(p));
                assert forall|i: int| 0 <= i < todo@.len() implies #[trigger] todo@[i]@
                    == given[given.len() - 1 - i] by {
                    assert(todo@[i] == left[i]);
                }
            }
            match part {
                Expr::Empty => {
                    assert(views(flat@) =~= views(before) + in_alt(given[done]));
                },
                Expr::Alt(inner) => {
                    let mut inner = inner;
                    proof {
                        lemma_views_append(before, inner@);
                    }
                    flat.append(&mut inner);
                },
                other => {
                    flat.push(other);
                    assert(views(flat@) =~= views(before) + seq![other@]);
                },
            }
            proof {
                done = done + 1;
            }
        }
        proof {
            assert(given.take(done) =~= given);
        }
        let ghost all = views(flat@);
        let mut flat = sort_dedup(flat);
        proof {
            lemma_sorted_set(all, views(flat@));
        }
        if flat.len() == 0 {
            Expr::Empty
        } else if flat.len() == 1 {
            let ghost all = views(flat@);
            let only = flat.pop().unwrap();
            assert(all[0] == only@);
            only
        } else {
            Expr::Alt(flat)
        }
    }

    /// An intersection: nested ones are opened, the parts are sorted, each
    /// once, and nothing matches where a part matches nothing.
    pub fn intersect(parts: Vec<Self>) -> (r: Self)
        ensures
            r@ == re_intersect(views(parts@)),
    {
        broadcast use lemma_view_parts;

        if has_dead(&parts) {
            return Expr::Empty;
        }
        let ghost given = views(parts@);
        let mut todo = crate::ordered::reverse(parts);
        let mut flat: Vec<Expr> = Vec::new();
        let ghost mut done: int = 0;
        assert(views(flat@) =~= spliced(given.take(0), |p: Re| in_intersect(p)));
        while todo.len() > 0
            invariant
                todo@.len() + done == given.len(),
                0 <= done,
                forall|i: int|
                    0 <= i < todo@.len() ==> #[trigger] todo@[i]@ == given[given.len() - 1 - i],
                views(flat@) == spliced(given.take(done), |p: Re| in_intersect(p)),
            decreases todo.len(),
        {
            broadcast use lemma_view_parts;

            let ghost before = flat@;
            let ghost left = todo@;
            let part = todo.pop().unwrap();
            proof {
                assert(left[left.len() - 1]@ == given[done]);
                lemma_take_push(given, done);
                lemma_spliced_push(given.take(done), given[done], |p: Re| in_intersect(p));
                assert forall|i: int| 0 <= i < todo@.len() implies #[trigger] todo@[i]@
                    == given[given.len() - 1 - i] by {
                    assert(todo@[i] == left[i]);
                }
            }
            match part {
                Expr::Intersect(inner) => {
                    let mut inner = inner;
                    proof {
                        lemma_views_append(before, inner@);
                    }
                    flat.append(&mut inner);
                },
                other => {
                    flat.push(other);
                    assert(views(flat@) =~= views(before) + seq![other@]);
                },
            }
            proof {
                done = done + 1;
            }
        }
        proof {
            assert(given.take(done) =~= given);
        }
        let ghost all = views(flat@);
        let mut flat = sort_dedup(flat);
        proof {
            lemma_sorted_set(all, views(flat@));
        }
        if flat.len() == 0 {
            Expr::Epsilon
        } else if flat.len() == 1 {
            let ghost all = views(flat@);
            let only = flat.pop().unwrap();
            assert(all[0] == only@);
            only
        } else {
            Expr::Intersect(flat)
        }
    }

    /// A repetition.
    pub fn star(inner: Self) -> (r: Self)
        ensures
            r@ == re_star(inner@),
    {
        match inner {
            Expr::Empty | Expr::Epsilon => Expr::Epsilon,
            Expr::Star(x) => Expr::Star(x),
            other => Expr::Star(Box::new(other)),
        }
    }

    /// A rearrangement: the empty string is left out, the parts are sorted, and
    /// nothing matches where a part matches nothing.
    pub fn anagram(parts: Vec<Self>) -> (r: Self)
        ensures
            r@ == re_anagram(views(parts@)),
    {
        broadcast use lemma_view_parts;

        if has_dead(&parts) {
            return Expr::Empty;
        }
        let ghost given = views(parts@);
        let mut todo = crate::ordered::reverse(parts);
        let mut flat: Vec<Expr> = Vec::new();
        let ghost mut done: int = 0;
        assert(views(flat@) =~= spliced(given.take(0), |p: Re| in_anagram(p)));
        while todo.len() > 0
            invariant
                todo@.len() + done == given.len(),
                0 <= done,
                forall|i: int|
                    0 <= i < todo@.len() ==> #[trigger] todo@[i]@ == given[given.len() - 1 - i],
                views(flat@) == spliced(given.take(done), |p: Re| in_anagram(p)),
            decreases todo.len(),
        {
            broadcast use lemma_view_parts;

            let ghost before = flat@;
            let ghost left = todo@;
            let part = todo.pop().unwrap();
            proof {
                assert(left[left.len() - 1]@ == given[done]);
                lemma_take_push(given, done);
                lemma_spliced_push(given.take(done), given[done], |p: Re| in_anagram(p));
                assert forall|i: int| 0 <= i < todo@.len() implies #[trigger] todo@[i]@
                    == given[given.len() - 1 - i] by {
                    assert(todo@[i] == left[i]);
                }
            }
            match part {
                Expr::Epsilon => {
                    assert(views(flat@) =~= views(before) + in_anagram(given[done]));
                },
                other => {
                    flat.push(other);
                    assert(views(flat@) =~= views(before) + seq![other@]);
                },
            }
            proof {
                done = done + 1;
            }
        }
        proof {
            assert(given.take(done) =~= given);
        }
        let ghost all = views(flat@);
        let mut flat = sort(flat);
        proof {
            lemma_sorted_list(all, views(flat@));
        }
        if flat.len() == 0 {
            Expr::Epsilon
        } else if flat.len() == 1 {
            let ghost all = views(flat@);
            let only = flat.pop().unwrap();
            assert(all[0] == only@);
            only
        } else {
            Expr::Anagram(flat)
        }
    }

    /// Whether the expression matches the empty string.
    pub fn nullable(&self) -> (r: bool)
        ensures
            r == re_nullable(self@),
        decreases self,
    {
        broadcast use lemma_view_parts;

        match self {
            Expr::Empty => false,
            Expr::Class(_) => false,
            Expr::Capture { .. } => false,
            Expr::Epsilon => true,
            Expr::Concat(parts) => all_nullable(parts, parts.len()),
            Expr::Intersect(parts) => all_nullable(parts, parts.len()),
            Expr::Anagram(parts) => all_nullable(parts, parts.len()),
            Expr::Alt(parts) => any_nullable(parts),
            Expr::Star(_) => true,
        }
    }

    /// Whether the expression is the one that matches nothing.
    pub fn is_dead(&self) -> (r: bool)
        ensures
            r == (self@ == Re::Empty),
    {
        match self {
            Expr::Empty => true,
            _ => false,
        }
    }
}

/// Whether one of the expressions is the one that matches nothing.
fn has_dead(parts: &Vec<Expr>) -> (r: bool)
    ensures
        r == views(parts@).contains(Re::Empty),
{
    let mut i: usize = 0;
    while i < parts.len()
        invariant
            i <= parts@.len(),
            forall|k: int| 0 <= k < i ==> #[trigger] views(parts@)[k] != Re::Empty,
        decreases parts.len() - i,
    {
        if parts[i].is_dead() {
            assert(views(parts@)[i as int] == Re::Empty);
            return true;
        }
        i += 1;
    }
    false
}

/// Whether the first `n` expressions all match the empty string.
pub fn all_nullable(parts: &Vec<Expr>, n: usize) -> (r: bool)
    requires
        n <= parts@.len(),
    ensures
        r == nullable_until(views(parts@), n as int),
    decreases parts, 0nat,
{
    let mut i: usize = 0;
    while i < n
        invariant
            i <= n <= parts@.len(),
            forall|k: int| 0 <= k < i ==> re_nullable(#[trigger] views(parts@)[k]),
        decreases n - i,
    {
        if !parts[i].nullable() {
            assert(!re_nullable(views(parts@)[i as int]));
            return false;
        }
        i += 1;
    }
    true
}

/// Whether one of the expressions matches the empty string.
fn any_nullable(parts: &Vec<Expr>) -> (r: bool)
    ensures
        r == nullable_somewhere(views(parts@)),
    decreases parts, 0nat,
{
    let mut i: usize = 0;
    while i < parts.len()
        invariant
            i <= parts@.len(),
            forall|k: int| 0 <= k < i ==> !re_nullable(#[trigger] views(parts@)[k]),
        decreases parts.len() - i,
    {
        if parts[i].nullable() {
            assert(re_nullable(views(parts@)[i as int]));
            return true;
        }
        i += 1;
    }
    false
}

} // verus!
