//! What holds of every query.
use crate::chinese::han::{all_han, han};
use crate::query::class::ClassView;
use crate::query::derive::{lemma_derive_lang, lemma_derive_wf, re_derive};
use crate::query::expr::Re;
use crate::query::language::{
    lanagram, lcat, lemma_lanagram_split, lemma_lanagram_step, lemma_lcat_split, lemma_lcat_step,
    repeats, Lang,
};
use crate::query::normal::{all_wf, lang, langs, re_wf, Env};
use crate::query::program::ProgramView;
use vstd::prelude::*;

verus! {

/// Each language of `a` is within the one of `b` at its place.
spec fn each_within(a: Seq<Lang>, b: Seq<Lang>) -> bool {
    a.len() == b.len() && forall|i: int, w: Seq<char>|
        0 <= i < a.len() && (#[trigger] a[i].contains(w)) ==> b[i].contains(w)
}

proof fn lemma_lcat_mono(a: Seq<Lang>, b: Seq<Lang>, w: Seq<char>)
    requires
        each_within(a, b),
        lcat(a).contains(w),
    ensures
        lcat(b).contains(w),
    decreases a.len(),
{
    if a.len() > 0 {
        let k = lemma_lcat_split(a, w);
        assert forall|i: int, v: Seq<char>|
            0 <= i < a.skip(1).len() && (#[trigger] a.skip(1)[i].contains(v)) implies b.skip(
            1,
        )[i].contains(v) by {
            assert(a[i + 1].contains(v));
        }
        lemma_lcat_mono(a.skip(1), b.skip(1), w.skip(k));
        assert(a[0].contains(w.take(k)));
        lemma_lcat_step(b, w, k);
    }
}

proof fn lemma_lanagram_mono(a: Seq<Lang>, b: Seq<Lang>, w: Seq<char>)
    requires
        each_within(a, b),
        lanagram(a).contains(w),
    ensures
        lanagram(b).contains(w),
    decreases a.len(),
{
    if a.len() > 0 {
        let (j, k) = lemma_lanagram_split(a, w);
        assert forall|i: int, v: Seq<char>|
            0 <= i < a.remove(j).len() && (#[trigger] a.remove(j)[i].contains(v)) implies b.remove(
            j,
        )[i].contains(v) by {
            if i < j {
                assert(a[i].contains(v));
            } else {
                assert(a[i + 1].contains(v));
            }
        }
        lemma_lanagram_mono(a.remove(j), b.remove(j), w.skip(k));
        assert(a[j].contains(w.take(k)));
        lemma_lanagram_step(b, w, j, k);
    }
}

proof fn lemma_repeats_mono(a: Lang, b: Lang, w: Seq<char>)
    requires
        forall|v: Seq<char>| a.contains(v) ==> b.contains(v),
        repeats(a, w),
    ensures
        repeats(b, w),
    decreases w.len(),
{
    if w.len() > 0 {
        let k = choose|k: int|
            0 < k <= w.len() && a.contains(#[trigger] w.take(k)) && repeats(a, w.skip(k));
        lemma_repeats_mono(a, b, w.skip(k));
        assert(b.contains(w.take(k)));
    }
}

/// No group occurs in the expression.
pub open spec fn group_free(re: Re) -> bool
    decreases re,
{
    match re {
        Re::Capture { class, group } => false,
        Re::Concat(s) => all_group_free(s),
        Re::Alt(s) => all_group_free(s),
        Re::Intersect(s) => all_group_free(s),
        Re::Star(inner) => group_free(*inner),
        Re::Anagram(s) => all_group_free(s),
        _ => true,
    }
}

/// No group occurs in the expressions.
pub open spec fn all_group_free(s: Seq<Re>) -> bool
    decreases s,
{
    forall|i: int| 0 <= i < s.len() ==> group_free(#[trigger] s[i])
}

/// What matches under a choice of characters for the groups matches where the
/// groups are free; without groups, under any choice and the other way round.
proof fn lemma_env_mono(re: Re, classes: Seq<ClassView>, env: Env, other: Env, w: Seq<char>)
    requires
        other == Env::Free || group_free(re),
        lang(re, classes, env).contains(w),
    ensures
        lang(re, classes, other).contains(w),
    decreases re, 1nat,
{
    match re {
        Re::Concat(s) => {
            lemma_env_each(s, classes, env, other);
            lemma_lcat_mono(langs(s, classes, env), langs(s, classes, other), w);
        },
        Re::Alt(s) => {
            lemma_env_each(s, classes, env, other);
            let ls = langs(s, classes, env);
            let i = choose|i: int| 0 <= i < ls.len() && (#[trigger] ls[i]).contains(w);
            assert(langs(s, classes, other)[i].contains(w));
        },
        Re::Intersect(s) => {
            lemma_env_each(s, classes, env, other);
            let ls = langs(s, classes, env);
            let lo = langs(s, classes, other);
            assert forall|i: int| 0 <= i < lo.len() implies (#[trigger] lo[i]).contains(w) by {
                assert(ls[i].contains(w));
            }
        },
        Re::Star(inner) => {
            let a = lang(*inner, classes, env);
            let b = lang(*inner, classes, other);
            assert forall|v: Seq<char>| a.contains(v) implies b.contains(v) by {
                lemma_env_mono(*inner, classes, env, other, v);
            }
            lemma_repeats_mono(a, b, w);
        },
        Re::Anagram(s) => {
            lemma_env_each(s, classes, env, other);
            lemma_lanagram_mono(langs(s, classes, env), langs(s, classes, other), w);
        },
        _ => {},
    }
}

proof fn lemma_env_each(s: Seq<Re>, classes: Seq<ClassView>, env: Env, other: Env)
    requires
        other == Env::Free || all_group_free(s),
    ensures
        each_within(langs(s, classes, env), langs(s, classes, other)),
    decreases s, 0nat,
{
    let ls = langs(s, classes, env);
    let lo = langs(s, classes, other);
    assert forall|i: int, w: Seq<char>|
        0 <= i < ls.len() && (#[trigger] ls[i].contains(w)) implies lo[i].contains(w) by {
        assert(other == Env::Free || group_free(s[i]));
        lemma_env_mono(s[i], classes, env, other, w);
    }
}

/// Whatever matches with its groups bound matches with its groups free: the
/// search by free groups passes over no match.
pub proof fn law_matches_imply_approximate_matches(program: ProgramView, w: Seq<char>)
    requires
        program.accepts(w),
    ensures
        program.accepts_approx(w),
{
    let sigma = choose|sigma: Seq<char>|
        sigma.len() == program.capture_count && #[trigger] lang(
            program.expr,
            program.classes,
            Env::Bound(sigma),
        ).contains(w);
    lemma_env_mono(program.expr, program.classes, Env::Bound(sigma), Env::Free, w);
}

/// Without groups the two ways of matching agree.
pub proof fn law_matching_without_groups_is_exact(program: ProgramView, w: Seq<char>)
    requires
        re_wf(program.expr),
        group_free(program.expr),
    ensures
        program.accepts(w) == program.accepts_approx(w),
{
    if program.accepts(w) {
        law_matches_imply_approximate_matches(program, w);
    }
    if program.accepts_approx(w) {
        law_matches_are_han(program, w);
        let sigma = Seq::new(program.capture_count as nat, |i: int| 'a');
        lemma_env_mono(program.expr, program.classes, Env::Free, Env::Bound(sigma), w);
        assert(lang(program.expr, program.classes, Env::Bound(sigma)).contains(w));
    }
}

/// Every string of each language is made of characters of the repertoire.
spec fn each_han(ls: Seq<Lang>) -> bool {
    forall|i: int, w: Seq<char>| 0 <= i < ls.len() && (#[trigger] ls[i].contains(w)) ==> all_han(w)
}

proof fn lemma_han_join(w: Seq<char>, k: int)
    requires
        0 <= k <= w.len(),
        all_han(w.take(k)),
        all_han(w.skip(k)),
    ensures
        all_han(w),
{
    assert forall|i: int| 0 <= i < w.len() implies han(#[trigger] w[i]) by {
        if i < k {
            assert(w.take(k)[i] == w[i]);
        } else {
            assert(w.skip(k)[i - k] == w[i]);
        }
    }
}

proof fn lemma_lcat_han(ls: Seq<Lang>, w: Seq<char>)
    requires
        each_han(ls),
        lcat(ls).contains(w),
    ensures
        all_han(w),
    decreases ls.len(),
{
    if ls.len() > 0 {
        let k = lemma_lcat_split(ls, w);
        assert forall|i: int, v: Seq<char>|
            0 <= i < ls.skip(1).len() && (#[trigger] ls.skip(1)[i].contains(v)) implies all_han(
            v,
        ) by {
            assert(ls[i + 1].contains(v));
        }
        lemma_lcat_han(ls.skip(1), w.skip(k));
        assert(ls[0].contains(w.take(k)));
        lemma_han_join(w, k);
    }
}

proof fn lemma_lanagram_han(ls: Seq<Lang>, w: Seq<char>)
    requires
        each_han(ls),
        lanagram(ls).contains(w),
    ensures
        all_han(w),
    decreases ls.len(),
{
    if ls.len() > 0 {
        let (j, k) = lemma_lanagram_split(ls, w);
        assert forall|i: int, v: Seq<char>|
            0 <= i < ls.remove(j).len() && (#[trigger] ls.remove(j)[i].contains(v)) implies all_han(
            v,
        ) by {
            if i < j {
                assert(ls[i].contains(v));
            } else {
                assert(ls[i + 1].contains(v));
            }
        }
        lemma_lanagram_han(ls.remove(j), w.skip(k));
        assert(ls[j].contains(w.take(k)));
        lemma_han_join(w, k);
    }
}

proof fn lemma_repeats_han(l: Lang, w: Seq<char>)
    requires
        forall|v: Seq<char>| l.contains(v) ==> all_han(v),
        repeats(l, w),
    ensures
        all_han(w),
    decreases w.len(),
{
    if w.len() > 0 {
        let k = choose|k: int|
            0 < k <= w.len() && l.contains(#[trigger] w.take(k)) && repeats(l, w.skip(k));
        lemma_repeats_han(l, w.skip(k));
        lemma_han_join(w, k);
    }
}

proof fn lemma_lang_han(re: Re, classes: Seq<ClassView>, env: Env, w: Seq<char>)
    requires
        re_wf(re),
        lang(re, classes, env).contains(w),
    ensures
        all_han(w),
    decreases re, 1nat,
{
    match re {
        Re::Concat(s) => {
            lemma_langs_han(s, classes, env);
            lemma_lcat_han(langs(s, classes, env), w);
        },
        Re::Alt(s) => {
            lemma_langs_han(s, classes, env);
            let ls = langs(s, classes, env);
            let i = choose|i: int| 0 <= i < ls.len() && (#[trigger] ls[i]).contains(w);
            assert(ls[i].contains(w));
        },
        Re::Intersect(s) => {
            lemma_langs_han(s, classes, env);
            let ls = langs(s, classes, env);
            assert(ls[0].contains(w));
        },
        Re::Star(inner) => {
            let l = lang(*inner, classes, env);
            assert forall|v: Seq<char>| l.contains(v) implies all_han(v) by {
                lemma_lang_han(*inner, classes, env, v);
            }
            lemma_repeats_han(l, w);
        },
        Re::Anagram(s) => {
            lemma_langs_han(s, classes, env);
            lemma_lanagram_han(langs(s, classes, env), w);
        },
        _ => {},
    }
}

proof fn lemma_langs_han(s: Seq<Re>, classes: Seq<ClassView>, env: Env)
    requires
        all_wf(s),
    ensures
        each_han(langs(s, classes, env)),
    decreases s, 0nat,
{
    let ls = langs(s, classes, env);
    assert forall|i: int, w: Seq<char>|
        0 <= i < ls.len() && (#[trigger] ls[i].contains(w)) implies all_han(w) by {
        assert(re_wf(s[i]));
        lemma_lang_han(s[i], classes, env, w);
    }
}

/// Only strings of characters of the repertoire match.
pub proof fn law_matches_are_han(program: ProgramView, w: Seq<char>)
    requires
        re_wf(program.expr),
        program.accepts_approx(w),
    ensures
        all_han(w),
{
    lemma_lang_han(program.expr, program.classes, Env::Free, w);
}

/// The derivative by a character matches exactly what may follow the
/// character in a match.
pub proof fn law_derivative_matches_what_follows(
    re: Re,
    c: char,
    classes: Seq<ClassView>,
    w: Seq<char>,
)
    requires
        re_wf(re),
    ensures
        re_wf(re_derive(re, c, classes)),
        lang(re_derive(re, c, classes), classes, Env::Free).contains(w) <==> lang(
            re,
            classes,
            Env::Free,
        ).contains(seq![c] + w),
{
    lemma_derive_wf(re, c, classes);
    lemma_derive_lang(re, c, classes);
}

} // verus!
