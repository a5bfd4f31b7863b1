//! What the parts of the query language mean.
use crate::chinese::data::DataView;
use crate::chinese::han::{all_han, han};
use crate::query::class::{class_has, in_ranges, separated, single, upright, ClassView};
use crate::query::expr::Re;
use crate::query::grammar::{
    copies, ends_concat, first_index, intern, peek, ranges_of, read_atom, read_concat, read_piece,
    read_quantifier, read_query, read_set, repeated, start_reading, Fault, Reading,
};
use crate::query::language::{
    lanagram, lcat, lemma_lanagram_split, lemma_lanagram_step, lemma_lcat_append,
    lemma_lcat_pair, lemma_lcat_single, lemma_lcat_split, lemma_lcat_step, lmeet, lunion, repeats,
    Lang,
};
use crate::query::normal::{
    all_wf, in_class, lang, langs, lemma_alt_lang, lemma_anagram_lang, lemma_concat_lang,
    lemma_intersect_lang, lemma_langs, lemma_normal_wf, lemma_star_lang, re_alt, re_anagram,
    re_concat, re_intersect, re_star, re_wf, Env,
};
use crate::text::{lemma_code_point, lemma_same_code_point};
use vstd::prelude::*;
use vstd::set_lib::{lemma_int_range, lemma_len_subset, set_int_range};

verus! {

/// An alternation matches what one of its parts matches.
pub proof fn law_alternatives_match_either(
    parts: Seq<Re>,
    classes: Seq<ClassView>,
    env: Env,
    w: Seq<char>,
)
    ensures
        lang(re_alt(parts), classes, env).contains(w) <==> exists|i: int|
            0 <= i < parts.len() && lang(#[trigger] parts[i], classes, env).contains(w),
{
    lemma_alt_lang(parts, classes, env);
    let ls = langs(parts, classes, env);
    if lunion(ls).contains(w) {
        let i = choose|i: int| 0 <= i < ls.len() && (#[trigger] ls[i]).contains(w);
        lemma_langs(parts, classes, env, i);
    }
    if exists|i: int| 0 <= i < parts.len() && lang(#[trigger] parts[i], classes, env).contains(w) {
        let i = choose|i: int|
            0 <= i < parts.len() && lang(#[trigger] parts[i], classes, env).contains(w);
        lemma_langs(parts, classes, env, i);
        assert(ls[i].contains(w));
    }
}

/// An intersection matches what every one of its parts matches, each the whole
/// of it.
pub proof fn law_intersection_matches_all(
    parts: Seq<Re>,
    classes: Seq<ClassView>,
    env: Env,
    w: Seq<char>,
)
    requires
        parts.len() > 0,
        all_wf(parts),
    ensures
        lang(re_intersect(parts), classes, env).contains(w) <==> forall|i: int|
            0 <= i < parts.len() ==> lang(#[trigger] parts[i], classes, env).contains(w),
{
    lemma_intersect_lang(parts, classes, env);
    let ls = langs(parts, classes, env);
    if lmeet(ls).contains(w) {
        assert forall|i: int| 0 <= i < parts.len() implies lang(
            #[trigger] parts[i],
            classes,
            env,
        ).contains(w) by {
            lemma_langs(parts, classes, env, i);
            assert(ls[i].contains(w));
        }
    }
    if forall|i: int| 0 <= i < parts.len() ==> lang(#[trigger] parts[i], classes, env).contains(w) {
        assert forall|i: int| 0 <= i < ls.len() implies (#[trigger] ls[i]).contains(w) by {
            lemma_langs(parts, classes, env, i);
            assert(lang(parts[i], classes, env).contains(w));
        }
    }
}

/// A concatenation of languages holds what is made of one piece from each.
pub proof fn lemma_pieces(ls: Seq<Lang>, w: Seq<char>)
    ensures
        lcat(ls).contains(w) <==> exists|pieces: Seq<Seq<char>>| #[trigger]
            pieces.flatten() == w && pieces.len() == ls.len() && forall|i: int|
                0 <= i < ls.len() ==> (#[trigger] ls[i]).contains(pieces[i]),
    decreases ls.len(),
{
    if lcat(ls).contains(w) {
        if ls.len() == 0 {
            let none = Seq::<Seq<char>>::empty();
            assert(none.flatten() =~= w);
        } else {
            let k = lemma_lcat_split(ls, w);
            lemma_pieces(ls.skip(1), w.skip(k));
            let rest = choose|pieces: Seq<Seq<char>>| #[trigger]
                pieces.flatten() == w.skip(k) && pieces.len() == ls.skip(1).len() && forall|i: int|
                    0 <= i < ls.skip(1).len() ==> (#[trigger] ls.skip(1)[i]).contains(pieces[i]);
            let all = seq![w.take(k)] + rest;
            assert(all.drop_first() =~= rest);
            assert(all.first() == w.take(k));
            assert(all.flatten() =~= w);
            assert forall|i: int| 0 <= i < ls.len() implies (#[trigger] ls[i]).contains(all[i]) by {
                if i > 0 {
                    assert(ls.skip(1)[i - 1] == ls[i]);
                    assert(all[i] == rest[i - 1]);
                }
            }
        }
    }
    if exists|pieces: Seq<Seq<char>>| #[trigger]
        pieces.flatten() == w && pieces.len() == ls.len() && forall|i: int|
            0 <= i < ls.len() ==> (#[trigger] ls[i]).contains(pieces[i]) {
        let pieces = choose|pieces: Seq<Seq<char>>| #[trigger]
            pieces.flatten() == w && pieces.len() == ls.len() && forall|i: int|
                0 <= i < ls.len() ==> (#[trigger] ls[i]).contains(pieces[i]);
        if ls.len() > 0 {
            let rest = pieces.drop_first();
            let k = pieces[0].len() as int;
            assert(w == pieces[0] + rest.flatten());
            assert(w.take(k) =~= pieces[0]);
            assert(w.skip(k) =~= rest.flatten());
            assert forall|i: int| 0 <= i < ls.skip(1).len() implies (
            #[trigger] ls.skip(1)[i]).contains(rest[i]) by {
                assert(ls[i + 1].contains(pieces[i + 1]));
            }
            lemma_pieces(ls.skip(1), w.skip(k));
            assert(ls[0].contains(pieces[0]));
            lemma_lcat_step(ls, w, k);
        }
    }
}

/// A concatenation matches what is made of one piece for each of its parts, in
/// order.
pub proof fn law_concatenation_matches_in_order(
    parts: Seq<Re>,
    classes: Seq<ClassView>,
    env: Env,
    w: Seq<char>,
)
    ensures
        lang(re_concat(parts), classes, env).contains(w) <==> exists|pieces: Seq<Seq<char>>|
            #[trigger]
            pieces.flatten() == w && pieces.len() == parts.len() && forall|i: int|
                0 <= i < parts.len() ==> lang(#[trigger] parts[i], classes, env).contains(
                    pieces[i],
                ),
{
    lemma_concat_lang(parts, classes, env);
    let ls = langs(parts, classes, env);
    lemma_pieces(ls, w);
    if lcat(ls).contains(w) {
        let pieces = choose|pieces: Seq<Seq<char>>| #[trigger]
            pieces.flatten() == w && pieces.len() == ls.len() && forall|i: int|
                0 <= i < ls.len() ==> (#[trigger] ls[i]).contains(pieces[i]);
        assert forall|i: int| 0 <= i < parts.len() implies lang(
            #[trigger] parts[i],
            classes,
            env,
        ).contains(pieces[i]) by {
            lemma_langs(parts, classes, env, i);
            assert(ls[i].contains(pieces[i]));
        }
    }
    if exists|pieces: Seq<Seq<char>>| #[trigger]
        pieces.flatten() == w && pieces.len() == parts.len() && forall|i: int|
            0 <= i < parts.len() ==> lang(#[trigger] parts[i], classes, env).contains(pieces[i]) {
        let pieces = choose|pieces: Seq<Seq<char>>| #[trigger]
            pieces.flatten() == w && pieces.len() == parts.len() && forall|i: int|
                0 <= i < parts.len() ==> lang(#[trigger] parts[i], classes, env).contains(
                    pieces[i],
                );
        assert forall|i: int| 0 <= i < ls.len() implies (#[trigger] ls[i]).contains(pieces[i]) by {
            lemma_langs(parts, classes, env, i);
            assert(lang(parts[i], classes, env).contains(pieces[i]));
        }
    }
}

/// The languages one after the other in some order, and in any order.
proof fn lemma_orders(ls: Seq<Lang>, w: Seq<char>)
    ensures
        lanagram(ls).contains(w) <==> exists|order: Seq<Lang>| #[trigger]
            order.to_multiset() == ls.to_multiset() && lcat(order).contains(w),
    decreases ls.len(),
{
    broadcast use vstd::seq_lib::group_to_multiset_ensures;

    if lanagram(ls).contains(w) {
        if ls.len() == 0 {
            assert(ls.to_multiset() == ls.to_multiset() && lcat(ls).contains(w));
        } else {
            let (j, k) = lemma_lanagram_split(ls, w);
            lemma_orders(ls.remove(j), w.skip(k));
            let rest = choose|rest: Seq<Lang>| #[trigger]
                rest.to_multiset() == ls.remove(j).to_multiset() && lcat(rest).contains(w.skip(k));
            let order = seq![ls[j]] + rest;
            assert(order.skip(1) =~= rest);
            lemma_lcat_step(order, w, k);
            lemma_first_multiset(ls[j], rest);
            assert(ls.contains(ls[j]));
            assert(order.to_multiset() =~= ls.to_multiset());
        }
    }
    if exists|order: Seq<Lang>| #[trigger]
        order.to_multiset() == ls.to_multiset() && lcat(order).contains(w) {
        let order = choose|order: Seq<Lang>| #[trigger]
            order.to_multiset() == ls.to_multiset() && lcat(order).contains(w);
        assert(order.len() == order.to_multiset().len() == ls.len());
        if ls.len() > 0 {
            let k = lemma_lcat_split(order, w);
            let rest = order.skip(1);
            assert(order =~= seq![order[0]] + rest);
            lemma_first_multiset(order[0], rest);
            assert(order.contains(order[0]));
            assert(ls.to_multiset().count(order[0]) > 0);
            assert(ls.contains(order[0]));
            let j = choose|j: int| 0 <= j < ls.len() && ls[j] == order[0];
            assert(rest.to_multiset() =~= ls.remove(j).to_multiset());
            lemma_orders(ls.remove(j), w.skip(k));
            lemma_lanagram_step(ls, w, j, k);
        }
    }
}

proof fn lemma_first_multiset(first: Lang, rest: Seq<Lang>)
    ensures
        (seq![first] + rest).to_multiset() == rest.to_multiset().insert(first),
{
    broadcast use vstd::seq_lib::group_to_multiset_ensures;

    vstd::seq_lib::lemma_multiset_commutative(seq![first], rest);
    assert(seq![first] =~= Seq::empty().push(first));
    assert((seq![first] + rest).to_multiset() =~= rest.to_multiset().insert(first));
}

/// A rearrangement matches what its parts match one after the other in some
/// order.
pub proof fn law_anagram_matches_in_some_order(
    parts: Seq<Re>,
    classes: Seq<ClassView>,
    env: Env,
    w: Seq<char>,
)
    ensures
        lang(re_anagram(parts), classes, env).contains(w) <==> exists|order: Seq<Lang>| #[trigger]
            order.to_multiset() == langs(parts, classes, env).to_multiset() && lcat(
                order,
            ).contains(w),
{
    lemma_anagram_lang(parts, classes, env);
    lemma_orders(langs(parts, classes, env), w);
}

/// `n` times the same language, one piece after the other.
pub open spec fn times(l: Lang, n: nat) -> Lang {
    lcat(Seq::new(n, |i: int| l))
}

pub proof fn lemma_times_step(l: Lang, n: nat)
    ensures
        Seq::new((n + 1) as nat, |i: int| l).skip(1) =~= Seq::new(n, |i: int| l),
{
}

proof fn lemma_star_times(l: Lang, w: Seq<char>)
    ensures
        repeats(l, w) ==> exists|n: nat| #[trigger] times(l, n).contains(w),
    decreases w.len(),
{
    if repeats(l, w) {
        if w.len() == 0 {
            assert(times(l, 0).contains(w));
        } else {
            let k = choose|k: int|
                0 < k <= w.len() && l.contains(#[trigger] w.take(k)) && repeats(l, w.skip(k));
            lemma_star_times(l, w.skip(k));
            let n = choose|n: nat| #[trigger] times(l, n).contains(w.skip(k));
            lemma_times_step(l, n);
            lemma_lcat_step(Seq::new((n + 1) as nat, |i: int| l), w, k);
            assert(times(l, n + 1).contains(w));
        }
    }
}

proof fn lemma_times_star(l: Lang, n: nat, w: Seq<char>)
    requires
        times(l, n).contains(w),
    ensures
        repeats(l, w),
    decreases n,
{
    if n > 0 {
        let ls = Seq::new(n, |i: int| l);
        let k = lemma_lcat_split(ls, w);
        lemma_times_step(l, (n - 1) as nat);
        lemma_times_star(l, (n - 1) as nat, w.skip(k));
        if k == 0 {
            assert(w.skip(0) =~= w);
        }
    }
}

/// So many times and so many times again.
proof fn lemma_times_sum(l: Lang, a: nat, b: nat, w: Seq<char>)
    ensures
        times(l, a + b).contains(w) <==> exists|k: int|
            0 <= k <= w.len() && times(l, a).contains(#[trigger] w.take(k)) && times(
                l,
                b,
            ).contains(w.skip(k)),
{
    let x = Seq::new(a, |i: int| l);
    let y = Seq::new(b, |i: int| l);
    assert(Seq::new(a + b, |i: int| l) =~= x + y);
    lemma_lcat_append(x, y);
    lemma_lcat_pair(lcat(x), lcat(y), w);
}

/// At most `m` times, as so many parts that may each be left out.
proof fn lemma_optional_times(l: Lang, o: Lang, m: nat, w: Seq<char>)
    requires
        forall|v: Seq<char>| #[trigger] o.contains(v) <==> v.len() == 0 || l.contains(v),
    ensures
        times(o, m).contains(w) <==> exists|j: nat| j <= m && #[trigger] times(l, j).contains(w),
    decreases m,
{
    let os = Seq::new(m, |i: int| o);
    if times(o, m).contains(w) {
        if m == 0 {
            assert(times(l, 0).contains(w));
        } else {
            let k = lemma_lcat_split(os, w);
            lemma_times_step(o, (m - 1) as nat);
            lemma_optional_times(l, o, (m - 1) as nat, w.skip(k));
            let j = choose|j: nat| j <= m - 1 && #[trigger] times(l, j).contains(w.skip(k));
            if l.contains(w.take(k)) {
                lemma_times_step(l, j);
                lemma_lcat_step(Seq::new((j + 1) as nat, |i: int| l), w, k);
                assert(times(l, j + 1).contains(w));
            } else {
                assert(k == 0);
                assert(w.skip(0) =~= w);
                assert(times(l, j).contains(w));
            }
        }
    }
    if exists|j: nat| j <= m && #[trigger] times(l, j).contains(w) {
        let j = choose|j: nat| j <= m && #[trigger] times(l, j).contains(w);
        if m > 0 {
            lemma_times_step(o, (m - 1) as nat);
            if j == 0 {
                assert(w.len() == 0);
                assert(w.take(0).len() == 0);
                assert(w.skip(0) =~= w);
                lemma_optional_times(l, o, (m - 1) as nat, w);
                assert(times(l, 0).contains(w));
                lemma_lcat_step(os, w, 0);
            } else {
                let k = lemma_lcat_split(Seq::new(j, |i: int| l), w);
                lemma_times_step(l, (j - 1) as nat);
                lemma_optional_times(l, o, (m - 1) as nat, w.skip(k));
                assert(times(l, (j - 1) as nat).contains(w.skip(k)));
                lemma_lcat_step(os, w, k);
            }
        }
    }
}

proof fn lemma_copies_langs(re: Re, n: nat, classes: Seq<ClassView>, env: Env)
    ensures
        langs(copies(re, n), classes, env) == Seq::new(n, |i: int| lang(re, classes, env)),
{
    assert(langs(copies(re, n), classes, env) =~= Seq::new(n, |i: int| lang(re, classes, env)));
}

/// A repetition matches what its inner part matches some number of times, one
/// after the other.
pub proof fn law_star_repeats(inner: Re, classes: Seq<ClassView>, env: Env, w: Seq<char>)
    ensures
        lang(re_star(inner), classes, env).contains(w) <==> exists|n: nat| #[trigger]
            times(lang(inner, classes, env), n).contains(w),
{
    let l = lang(inner, classes, env);
    lemma_star_lang(inner, classes, env);
    lemma_star_times(l, w);
    if exists|n: nat| #[trigger] times(l, n).contains(w) {
        let n = choose|n: nat| #[trigger] times(l, n).contains(w);
        lemma_times_star(l, n, w);
    }
}

/// A counted repetition matches what its inner part matches so many times, no
/// fewer than the first number and no more than the second, where there is one.
pub proof fn law_counts_bound_repetition(
    inner: Re,
    low: nat,
    high: Option<nat>,
    classes: Seq<ClassView>,
    env: Env,
    w: Seq<char>,
)
    requires
        high matches Some(h) ==> low <= h,
    ensures
        lang(repeated(inner, low, high), classes, env).contains(w) <==> exists|n: nat|
            low <= n && (high matches Some(h) ==> n <= h) && #[trigger] times(
                lang(inner, classes, env),
                n,
            ).contains(w),
{
    let l = lang(inner, classes, env);
    let first = copies(inner, low);
    let ls = Seq::new(low, |i: int| l);
    lemma_copies_langs(inner, low, classes, env);
    match high {
        None => {
            let parts = first.push(re_star(inner));
            let star = lang(re_star(inner), classes, env);
            lemma_concat_lang(parts, classes, env);
            assert(langs(parts, classes, env) =~= ls + seq![star]) by {
                assert forall|i: int| 0 <= i < parts.len() implies langs(parts, classes, env)[i]
                    == (ls + seq![star])[i] by {
                    lemma_langs(parts, classes, env, i);
                }
            }
            lemma_lcat_append(ls, seq![star]);
            lemma_lcat_single(star);
            lemma_lcat_pair(lcat(ls), star, w);
            if lang(repeated(inner, low, high), classes, env).contains(w) {
                let k = choose|k: int|
                    0 <= k <= w.len() && lcat(ls).contains(#[trigger] w.take(k)) && star.contains(
                        w.skip(k),
                    );
                law_star_repeats(inner, classes, env, w.skip(k));
                let n = choose|n: nat| #[trigger] times(l, n).contains(w.skip(k));
                assert(times(l, low).contains(w.take(k)));
                lemma_times_sum(l, low, n, w);
                assert(times(l, low + n).contains(w));
            }
            if exists|n: nat| low <= n && #[trigger] times(l, n).contains(w) {
                let n = choose|n: nat| low <= n && #[trigger] times(l, n).contains(w);
                let more = (n - low) as nat;
                lemma_times_sum(l, low, more, w);
                let k = choose|k: int|
                    0 <= k <= w.len() && times(l, low).contains(#[trigger] w.take(k)) && times(
                        l,
                        more,
                    ).contains(w.skip(k));
                law_star_repeats(inner, classes, env, w.skip(k));
                assert(star.contains(w.skip(k)));
                assert(lcat(ls).contains(w.take(k)));
            }
        },
        Some(h) => {
            let m = (h - low) as nat;
            let option = re_alt(seq![Re::Epsilon, inner]);
            let o = lang(option, classes, env);
            let os = Seq::new(m, |i: int| o);
            let parts = first + copies(option, m);
            lemma_concat_lang(parts, classes, env);
            lemma_copies_langs(option, m, classes, env);
            assert(langs(parts, classes, env) =~= ls + os) by {
                assert forall|i: int| 0 <= i < parts.len() implies langs(parts, classes, env)[i]
                    == (ls + os)[i] by {
                    lemma_langs(parts, classes, env, i);
                }
            }
            lemma_lcat_append(ls, os);
            lemma_lcat_pair(lcat(ls), lcat(os), w);
            assert forall|v: Seq<char>| #[trigger] o.contains(v) <==> v.len() == 0 || l.contains(
                v,
            ) by {
                let both = seq![Re::Epsilon, inner];
                law_alternatives_match_either(both, classes, env, v);
                assert(both[0] == Re::Epsilon && both[1] == inner);
            }
            if lang(repeated(inner, low, high), classes, env).contains(w) {
                let k = choose|k: int|
                    0 <= k <= w.len() && lcat(ls).contains(#[trigger] w.take(k)) && lcat(
                        os,
                    ).contains(w.skip(k));
                lemma_optional_times(l, o, m, w.skip(k));
                let j = choose|j: nat| j <= m && #[trigger] times(l, j).contains(w.skip(k));
                assert(times(l, low).contains(w.take(k)));
                lemma_times_sum(l, low, j, w);
                assert(times(l, low + j).contains(w));
            }
            if exists|n: nat| low <= n <= h && #[trigger] times(l, n).contains(w) {
                let n = choose|n: nat| low <= n <= h && #[trigger] times(l, n).contains(w);
                let more = (n - low) as nat;
                lemma_times_sum(l, low, more, w);
                let k = choose|k: int|
                    0 <= k <= w.len() && times(l, low).contains(#[trigger] w.take(k)) && times(
                        l,
                        more,
                    ).contains(w.skip(k));
                lemma_optional_times(l, o, m, w.skip(k));
                assert(lcat(os).contains(w.skip(k)));
                assert(lcat(ls).contains(w.take(k)));
            }
        },
    }
}

/// A part with `?` matches nothing, or what the part matches.
pub proof fn law_optional_matches_nothing_or_once(
    inner: Re,
    classes: Seq<ClassView>,
    env: Env,
    w: Seq<char>,
)
    ensures
        lang(re_alt(seq![Re::Epsilon, inner]), classes, env).contains(w) <==> w.len() == 0 || lang(
            inner,
            classes,
            env,
        ).contains(w),
{
    let both = seq![Re::Epsilon, inner];
    law_alternatives_match_either(both, classes, env, w);
    assert(both[0] == Re::Epsilon && both[1] == inner);
}

/// A part with `+` matches what the part matches some number of times, but not
/// none.
pub proof fn law_plus_repeats_at_least_once(
    inner: Re,
    classes: Seq<ClassView>,
    env: Env,
    w: Seq<char>,
)
    ensures
        lang(re_concat(seq![inner, re_star(inner)]), classes, env).contains(w) <==> exists|n: nat|
            n > 0 && #[trigger] times(lang(inner, classes, env), n).contains(w),
{
    law_counts_bound_repetition(inner, 1, None, classes, env, w);
    assert(copies(inner, 1).push(re_star(inner)) =~= seq![inner, re_star(inner)]);
}

/// The sign `.` matches any one Han character.
pub proof fn law_dot_matches_one_han_character(classes: Seq<ClassView>, env: Env, w: Seq<char>)
    requires
        classes.len() > 0,
        classes[0] == ClassView::Han,
    ensures
        lang(Re::Class(0), classes, env).contains(w) <==> w.len() == 1 && han(w[0]),
{
}

/// A group matches the one character that it stands for.
pub proof fn law_group_matches_its_character(
    class: u32,
    group: u32,
    classes: Seq<ClassView>,
    chosen: Seq<char>,
    w: Seq<char>,
)
    requires
        group < chosen.len(),
    ensures
        lang(Re::Capture { class, group }, classes, Env::Bound(chosen)).contains(w) <==> w
            == seq![chosen[group as int]] && in_class(classes, class, chosen[group as int]),
{
    if w.len() == 1 && w[0] == chosen[group as int] {
        assert(w =~= seq![chosen[group as int]]);
    }
}

/// The class holds this character alone.
pub open spec fn holds_only(class: ClassView, c: char) -> bool {
    forall|d: char| #[trigger] class_has(class, d) <==> d == c
}

/// The parts stand for the first characters of a text, one each.
pub open spec fn spelled(q: Seq<char>, classes: Seq<ClassView>, parts: Seq<Re>) -> bool {
    &&& parts.len() <= q.len()
    &&& forall|i: int|
        0 <= i < parts.len() ==> {
            &&& (#[trigger] parts[i]) is Class
            &&& parts[i]->Class_0 < classes.len()
            &&& holds_only(classes[parts[i]->Class_0 as int], q[i])
        }
}

proof fn lemma_one_range(c: char)
    requires
        han(c),
    ensures
        ranges_of(set![c]).len() > 0,
        holds_only(ClassView::Ranges { ranges: ranges_of(set![c]), negated: false }, c),
{
    let ranges = seq![single(c)];
    assert forall|d: char| #[trigger] in_ranges(ranges, d) == (han(d) && set![c].contains(d)) by {
        if d == c {
            assert(ranges[0].start <= d && d <= ranges[0].end);
        }
        if in_ranges(ranges, d) {
            assert(d == c);
        }
    }
    assert(separated(ranges) && upright(ranges));
    let found = ranges_of(set![c]);
    assert(in_ranges(found, c) == (han(c) && set![c].contains(c)));
    assert forall|d: char| #[trigger]
        class_has(ClassView::Ranges { ranges: found, negated: false }, d) <==> d == c by {
        assert(in_ranges(found, d) == (han(d) && set![c].contains(d)));
    }
}

/// Where the first occurrence of a value is, it is; and where there is none, it is
/// nowhere.
pub proof fn lemma_index_is<A>(s: Seq<A>, x: A)
    ensures
        first_index(s, x) matches Some(i) ==> 0 <= i < s.len() && s[i] == x,
        first_index(s, x) is None ==> !s.contains(x),
    decreases s.len(),
{
    if s.len() > 0 && s[0] != x {
        lemma_index_is(s.skip(1), x);
        if s.contains(x) {
            let i = choose|i: int| 0 <= i < s.len() && s[i] == x;
            assert(s.skip(1)[i - 1] == x);
        }
    } else if s.len() > 0 {
        assert(s[0] == x);
    }
}

/// The class that is read for one character.
pub open spec fn class_of_one(c: char) -> ClassView {
    ClassView::Ranges { ranges: ranges_of(set![c]), negated: false }
}

/// The classes are that of the whole repertoire and those of single characters,
/// none twice.
pub open spec fn one_each(classes: Seq<ClassView>) -> bool {
    &&& classes.len() > 0
    &&& classes.no_duplicates()
    &&& forall|k: int|
        0 < k < classes.len() ==> exists|c: char| #[trigger] classes[k] == #[trigger] class_of_one(
            c,
        )
}

/// There are no more classes of single characters than characters.
proof fn lemma_class_count(classes: Seq<ClassView>)
    requires
        one_each(classes),
    ensures
        classes.len() <= 0x11_0001,
{
    let n = (classes.len() - 1) as nat;
    let points = Seq::new(
        n,
        |i: int| (choose|c: char| classes[i + 1] == #[trigger] class_of_one(c)) as int,
    );
    assert forall|i: int| 0 <= i < n implies exists|c: char|
        c as int == #[trigger] points[i] && classes[i + 1] == #[trigger] class_of_one(c) by {
        assert(classes[i + 1] == classes[i + 1]);
        let c = choose|c: char| classes[i + 1] == #[trigger] class_of_one(c);
        assert(c as int == points[i] && classes[i + 1] == class_of_one(c));
    }
    assert(points.no_duplicates()) by {
        assert forall|i: int, j: int| 0 <= i < n && 0 <= j < n && i != j implies points[i]
            != points[j] by {
            let c = choose|c: char|
                c as int == points[i] && classes[i + 1] == #[trigger] class_of_one(c);
            let d = choose|d: char|
                d as int == points[j] && classes[j + 1] == #[trigger] class_of_one(d);
            if points[i] == points[j] {
                lemma_same_code_point(c, d);
                assert(classes[i + 1] == classes[j + 1]);
            }
        }
    }
    points.unique_seq_to_set();
    lemma_int_range(0, 0x11_0000);
    assert(points.to_set().subset_of(set_int_range(0, 0x11_0000))) by {
        assert forall|x: int| points.to_set().contains(x) implies set_int_range(
            0,
            0x11_0000,
        ).contains(x) by {
            let i = choose|i: int| 0 <= i < n && points[i] == x;
            let c = choose|c: char|
                c as int == points[i] && classes[i + 1] == #[trigger] class_of_one(c);
            lemma_code_point(c);
        }
    }
    lemma_len_subset(points.to_set(), set_int_range(0, 0x11_0000));
}

/// A further character of a literal text is read as a class of its own.
pub proof fn lemma_literal_read(q: Seq<char>, s: Reading, parts: Seq<Re>, c: char)
    requires
        spelled(q, s.classes, parts),
        parts.len() < q.len(),
        q[parts.len() as int] == c,
        han(c),
        one_each(s.classes),
    ensures
        ({
            let (re, next) = read_set(s, set![c]);
            &&& next.at == s.at
            &&& one_each(next.classes)
            &&& spelled(q, next.classes, parts.push(re))
        }),
{
    lemma_one_range(c);
    lemma_class_count(s.classes);
    let class = class_of_one(c);
    let (id, next) = intern(s, class);
    lemma_index_is(s.classes, class);
    assert(one_each(next.classes)) by {
        if first_index(s.classes, class) is None {
            assert forall|i: int, j: int|
                0 <= i < next.classes.len() && 0 <= j < next.classes.len() && i
                    != j implies next.classes[i] != next.classes[j] by {
                if i < s.classes.len() {
                    assert(s.classes.contains(s.classes[i]));
                }
                if j < s.classes.len() {
                    assert(s.classes.contains(s.classes[j]));
                }
            }
            assert forall|k: int| 0 < k < next.classes.len() implies exists|d: char|
                #[trigger] next.classes[k] == #[trigger] class_of_one(d) by {
                if k < s.classes.len() {
                    assert(next.classes[k] == s.classes[k]);
                    let d = choose|d: char| s.classes[k] == #[trigger] class_of_one(d);
                    assert(next.classes[k] == class_of_one(d));
                } else {
                    assert(next.classes[k] == class_of_one(c));
                }
            }
        }
    }
    assert(next.classes[id as int] == class);
    let more = parts.push(Re::Class(id));
    assert forall|i: int| 0 <= i < more.len() implies {
        &&& (#[trigger] more[i]) is Class
        &&& more[i]->Class_0 < next.classes.len()
        &&& holds_only(next.classes[more[i]->Class_0 as int], q[i])
    } by {
        if i < parts.len() {
            assert(more[i] == parts[i]);
            assert(next.classes[parts[i]->Class_0 as int] == s.classes[parts[i]->Class_0 as int]);
        }
    }
}

/// No Han character is a sign of the query language.
pub proof fn lemma_han_is_plain(c: char)
    requires
        han(c),
    ensures
        c as int > 0x3000,
        !ends_concat(c),
{
}

/// The rest of a literal text is read to its end.
proof fn lemma_literal_concat(q: Seq<char>, data: DataView, s: Reading, parts: Seq<Re>) -> (r: (
    Seq<Re>,
    Reading,
))
    requires
        all_han(q),
        0 <= s.at <= q.len(),
        parts.len() == s.at,
        one_each(s.classes),
        spelled(q, s.classes, parts),
    ensures
        read_concat(q, data, s, parts) == Ok::<(Re, Reading), Fault>(
            (re_concat(r.0), r.1),
        ),
        r.1.at == q.len(),
        r.0.len() == q.len(),
        spelled(q, r.1.classes, r.0),
    decreases q.len() - s.at,
{
    if s.at == q.len() {
        (parts, s)
    } else {
        let c = q[s.at];
        assert(han(c));
        if s.at + 1 < q.len() {
            assert(han(q[s.at + 1]));
        }
        let after = Reading { at: s.at + 1, ..s };
        lemma_literal_read(q, after, parts, c);
        let (re, next) = read_set(after, set![c]);
        assert(peek(q, s.at) == Some(c));
        lemma_han_is_plain(c);
        assert(read_atom(q, data, s) == Ok::<(Re, Reading), Fault>((re, next)));
        if s.at + 1 < q.len() {
            lemma_han_is_plain(q[s.at + 1]);
        }
        assert(read_quantifier(q, next, re) == Ok::<(Re, Reading), Fault>((re, next)));
        assert(read_piece(q, data, s) == Ok::<(Re, Reading), Fault>((re, next)));
        assert(read_concat(q, data, s, parts) == read_concat(q, data, next, parts.push(re)));
        lemma_literal_concat(q, data, next, parts.push(re))
    }
}

/// The parts of a literal text match it and nothing else.
proof fn lemma_spelled_lang(
    q: Seq<char>,
    classes: Seq<ClassView>,
    parts: Seq<Re>,
    env: Env,
    w: Seq<char>,
)
    requires
        spelled(q, classes, parts),
        parts.len() == q.len(),
    ensures
        lcat(langs(parts, classes, env)).contains(w) <==> w == q,
    decreases q.len(),
{
    let ls = langs(parts, classes, env);
    if q.len() == 0 {
        assert(w.len() == 0 ==> w =~= q);
    } else {
        let rest = parts.skip(1);
        let tail = q.skip(1);
        assert(ls.skip(1) =~= langs(rest, classes, env)) by {
            assert forall|i: int| 0 <= i < rest.len() implies ls.skip(1)[i] == langs(
                rest,
                classes,
                env,
            )[i] by {
                lemma_langs(parts, classes, env, i + 1);
                lemma_langs(rest, classes, env, i);
            }
        }
        assert forall|i: int| 0 <= i < rest.len() implies {
            &&& (#[trigger] rest[i]) is Class
            &&& rest[i]->Class_0 < classes.len()
            &&& holds_only(classes[rest[i]->Class_0 as int], tail[i])
        } by {
            assert(rest[i] == parts[i + 1]);
        }
        lemma_langs(parts, classes, env, 0);
        assert(parts[0] is Class && holds_only(classes[parts[0]->Class_0 as int], q[0]));
        if lcat(ls).contains(w) {
            let k = lemma_lcat_split(ls, w);
            lemma_spelled_lang(tail, classes, rest, env, w.skip(k));
            assert(w.take(k).len() == 1);
            assert(class_has(classes[parts[0]->Class_0 as int], w.take(k)[0]));
            assert(w =~= w.take(k) + w.skip(k));
            assert(q =~= seq![q[0]] + tail);
            assert(w =~= q);
        }
        if w == q {
            lemma_spelled_lang(tail, classes, rest, env, w.skip(1));
            assert(w.take(1)[0] == q[0]);
            assert(class_has(classes[parts[0]->Class_0 as int], q[0]));
            lemma_lcat_step(ls, w, 1);
        }
    }
}

/// A query of Han characters alone is read, and matches that text and nothing
/// else.
pub proof fn law_literal_query_matches_itself(
    q: Seq<char>,
    data: DataView,
    env: Env,
    w: Seq<char>,
)
    requires
        q.len() > 0,
        all_han(q),
    ensures
        read_query(q, data) matches Ok((re, end)) && (lang(re, end.classes, env).contains(w) <==> w
            == q),
{
    let s = start_reading();
    let none = Seq::<Re>::empty();
    let (parts, end) = lemma_literal_concat(q, data, s, none);
    let first = re_concat(parts);
    let both = re_intersect(seq![first]);
    let whole = re_alt(seq![both]);
    assert(peek(q, end.at) is None);
    assert(read_query(q, data) == Ok::<(Re, Reading), Fault>((whole, end)));
    law_alternatives_match_either(seq![both], end.classes, env, w);
    assert forall|i: int| 0 <= i < parts.len() implies re_wf(#[trigger] parts[i]) by {
        assert(parts[i] is Class);
    }
    lemma_normal_wf(parts);
    assert(all_wf(seq![first]));
    law_intersection_matches_all(seq![first], end.classes, env, w);
    assert(seq![both][0] == both && seq![first][0] == first);
    lemma_concat_lang(parts, end.classes, env);
    lemma_spelled_lang(q, end.classes, parts, env, w);
}

} // verus!
