//! Derivatives: what is left of an expression to match after one character.
use crate::ordered::views;
use crate::query::class::{class_wf, CharacterClass, ClassView};
use crate::query::expr::{duplicate_all, lemma_view_parts, Expr, Re};
use crate::query::language::{
    after, lanagram, lcat, lemma_lanagram_after, lemma_lcat_after, lemma_lstar_after, lstar,
};
use crate::query::normal::{
    all_nullable, all_wf, in_class, lang, langs, lemma_alt_lang, lemma_anagram_lang,
    lemma_concat_lang, lemma_intersect_lang, lemma_normal_wf, lemma_nullable_lang, lemma_star_lang,
    nullable_until, re_alt, re_anagram, re_concat, re_intersect, re_nullable, re_star, re_wf, Env,
};
use vstd::prelude::*;

verus! {

/// The ranges of every class are separated.
pub open spec fn classes_wf(classes: Seq<ClassView>) -> bool {
    forall|i: int| 0 <= i < classes.len() ==> class_wf(#[trigger] classes[i])
}

/// How many parts of a concatenation may take the next character: those before
/// which every part may be empty.
pub open spec fn reach(s: Seq<Re>) -> nat
    decreases s.len(),
{
    if s.len() == 0 {
        0
    } else if re_nullable(s[0]) {
        1 + reach(s.skip(1))
    } else {
        1
    }
}

/// What is left to match after `c`, where a group may stand for any character.
pub open spec fn re_derive(re: Re, c: char, classes: Seq<ClassView>) -> Re
    decreases re,
{
    match re {
        Re::Empty => Re::Empty,
        Re::Epsilon => Re::Empty,
        Re::Class(id) => if in_class(classes, id, c) {
            Re::Epsilon
        } else {
            Re::Empty
        },
        Re::Capture { class, group } => if in_class(classes, class, c) {
            Re::Epsilon
        } else {
            Re::Empty
        },
        Re::Alt(s) => re_alt(derive_each(s, c, classes)),
        Re::Intersect(s) => re_intersect(derive_each(s, c, classes)),
        Re::Concat(s) => re_alt(concat_steps(s, c, classes)),
        Re::Star(inner) => re_concat(seq![re_derive(*inner, c, classes), re_star(*inner)]),
        Re::Anagram(s) => re_alt(anagram_steps(s, c, classes)),
    }
}

/// The derivatives of the expressions of a list.
pub open spec fn derive_each(s: Seq<Re>, c: char, classes: Seq<ClassView>) -> Seq<Re>
    decreases s,
{
    Seq::new(
        s.len(),
        |i: int|
            if 0 <= i < s.len() {
                re_derive(s[i], c, classes)
            } else {
                Re::Empty
            },
    )
}

/// For each part of a concatenation that may take the character: its
/// derivative, then the parts behind it.
pub open spec fn concat_steps(s: Seq<Re>, c: char, classes: Seq<ClassView>) -> Seq<Re>
    decreases s,
{
    Seq::new(
        reach(s),
        |i: int|
            if 0 <= i < s.len() {
                re_concat(seq![re_derive(s[i], c, classes)] + s.skip(i + 1))
            } else {
                Re::Empty
            },
    )
}

/// For each part of a rearrangement: its derivative, then the other parts in
/// any order.
pub open spec fn anagram_steps(s: Seq<Re>, c: char, classes: Seq<ClassView>) -> Seq<Re>
    decreases s,
{
    Seq::new(
        s.len(),
        |i: int|
            if 0 <= i < s.len() {
                re_concat(seq![re_derive(s[i], c, classes), re_anagram(s.remove(i))])
            } else {
                Re::Empty
            },
    )
}

pub proof fn lemma_reach(s: Seq<Re>)
    ensures
        reach(s) <= s.len(),
        forall|i: int| 0 <= i < s.len() ==> (i < reach(s) <==> nullable_until(s, i)),
    decreases s.len(),
{
    if s.len() > 0 {
        lemma_reach(s.skip(1));
        assert forall|i: int| 0 <= i < s.len() implies (i < reach(s) <==> nullable_until(s, i)) by {
            if i > 0 {
                let t = s.skip(1);
                if nullable_until(s, i) {
                    assert(re_nullable(s[0]));
                    assert forall|k: int| 0 <= k < i - 1 && k < t.len() implies re_nullable(
                        #[trigger] t[k],
                    ) by {
                        assert(t[k] == s[k + 1]);
                    }
                    assert(nullable_until(t, i - 1));
                }
                if i < reach(s) {
                    assert(nullable_until(t, i - 1));
                    assert forall|k: int| 0 <= k < i && k < s.len() implies re_nullable(
                        #[trigger] s[k],
                    ) by {
                        if k > 0 {
                            assert(t[k - 1] == s[k]);
                        }
                    }
                }
            }
        }
    }
}

/// A concatenation takes a character in one of the parts within reach.
pub proof fn lemma_concat_after(s: Seq<Re>, c: char, classes: Seq<ClassView>, env: Env, w: Seq<char>)
    ensures
        lcat(langs(s, classes, env)).contains(seq![c] + w) <==> exists|i: int|
            0 <= i < reach(s) && i < s.len() && #[trigger] lcat(
                seq![after(lang(s[i], classes, env), c)] + langs(s, classes, env).skip(i + 1),
            ).contains(w),
    decreases s.len(),
{
    let ls = langs(s, classes, env);
    let cw = seq![c] + w;
    if s.len() > 0 {
        let t = s.skip(1);
        let lt = langs(t, classes, env);
        assert(ls.skip(1) =~= lt);
        assert(ls[0] == lang(s[0], classes, env));
        lemma_lcat_after(ls, c, w);
        lemma_nullable_lang(s[0], classes, env);
        lemma_concat_after(t, c, classes, env, w);
        if lcat(ls).contains(cw) {
            if lcat(seq![after(ls[0], c)] + ls.skip(1)).contains(w) {
                let k: int = 0;
                assert(lcat(seq![after(lang(s[k], classes, env), c)] + ls.skip(k + 1)).contains(w));
            } else {
                let k = choose|i: int|
                    0 <= i < reach(t) && i < t.len() && #[trigger] lcat(
                        seq![after(lang(t[i], classes, env), c)] + lt.skip(i + 1),
                    ).contains(w);
                assert(t[k] == s[k + 1]);
                assert(lt.skip(k + 1) =~= ls.skip(k + 2));
                assert(lcat(
                    seq![after(lang(s[k + 1], classes, env), c)] + ls.skip((k + 1) + 1),
                ).contains(w));
            }
        }
        if exists|i: int|
            0 <= i < reach(s) && i < s.len() && #[trigger] lcat(
                seq![after(lang(s[i], classes, env), c)] + ls.skip(i + 1),
            ).contains(w) {
            let k = choose|i: int|
                0 <= i < reach(s) && i < s.len() && #[trigger] lcat(
                    seq![after(lang(s[i], classes, env), c)] + ls.skip(i + 1),
                ).contains(w);
            if k > 0 {
                let m = k - 1;
                assert(t[m] == s[k]);
                assert(lt.skip(m + 1) =~= ls.skip(k + 1));
                assert(lcat(seq![after(lang(t[m], classes, env), c)] + lt.skip(m + 1)).contains(w));
            }
        }
    } else {
        assert(!lcat(ls).contains(cw));
    }
}

/// The derivative of a well-formed expression is well formed.
pub proof fn lemma_derive_wf(re: Re, c: char, classes: Seq<ClassView>)
    requires
        re_wf(re),
    ensures
        re_wf(re_derive(re, c, classes)),
    decreases re,
{
    match re {
        Re::Alt(s) => {
            lemma_derive_each_wf(s, c, classes);
            lemma_normal_wf(derive_each(s, c, classes));
        },
        Re::Intersect(s) => {
            lemma_derive_each_wf(s, c, classes);
            lemma_normal_wf(derive_each(s, c, classes));
        },
        Re::Concat(s) => {
            assert(all_wf(s));
            lemma_derive_each_wf(s, c, classes);
            let steps = concat_steps(s, c, classes);
            lemma_reach(s);
            assert forall|i: int| 0 <= i < steps.len() implies re_wf(#[trigger] steps[i]) by {
                let parts = seq![re_derive(s[i], c, classes)] + s.skip(i + 1);
                assert(derive_each(s, c, classes)[i] == re_derive(s[i], c, classes));
                assert forall|k: int| 0 <= k < parts.len() implies re_wf(#[trigger] parts[k]) by {
                    if k > 0 {
                        assert(parts[k] == s[i + k]);
                        assert(re_wf(s[i + k]));
                    } else {
                        assert(re_wf(derive_each(s, c, classes)[i]));
                    }
                }
                lemma_normal_wf(parts);
            }
            lemma_normal_wf(steps);
        },
        Re::Star(inner) => {
            lemma_derive_wf(*inner, c, classes);
            let parts = seq![re_derive(*inner, c, classes), re_star(*inner)];
            assert(re_wf(re_star(*inner)));
            lemma_normal_wf(parts);
        },
        Re::Anagram(s) => {
            assert(all_wf(s));
            lemma_derive_each_wf(s, c, classes);
            let steps = anagram_steps(s, c, classes);
            assert forall|i: int| 0 <= i < steps.len() implies re_wf(#[trigger] steps[i]) by {
                let others = s.remove(i);
                assert forall|k: int| 0 <= k < others.len() implies re_wf(#[trigger] others[k]) by {
                    if k < i {
                        assert(others[k] == s[k]);
                        assert(re_wf(s[k]));
                    } else {
                        assert(others[k] == s[k + 1]);
                        assert(re_wf(s[k + 1]));
                    }
                }
                lemma_normal_wf(others);
                assert(derive_each(s, c, classes)[i] == re_derive(s[i], c, classes));
                lemma_normal_wf(seq![re_derive(s[i], c, classes), re_anagram(others)]);
            }
            lemma_normal_wf(steps);
        },
        _ => {},
    }
}

proof fn lemma_derive_each_wf(s: Seq<Re>, c: char, classes: Seq<ClassView>)
    requires
        all_wf(s),
    ensures
        all_wf(derive_each(s, c, classes)),
    decreases s,
{
    let ds = derive_each(s, c, classes);
    assert forall|i: int| 0 <= i < ds.len() implies re_wf(#[trigger] ds[i]) by {
        assert(re_wf(s[i]));
        lemma_derive_wf(s[i], c, classes);
    }
}

/// The language of a derivative is what may follow the character.
#[verifier::rlimit(50)]
pub proof fn lemma_derive_lang(re: Re, c: char, classes: Seq<ClassView>)
    requires
        re_wf(re),
    ensures
        lang(re_derive(re, c, classes), classes, Env::Free) == after(
            lang(re, classes, Env::Free),
            c,
        ),
    decreases re,
{
    let env = Env::Free;
    let d = re_derive(re, c, classes);
    let left = lang(d, classes, env);
    let right = after(lang(re, classes, env), c);
    match re {
        Re::Alt(s) => {
            lemma_derive_each_lang(s, c, classes);
            let ds = derive_each(s, c, classes);
            lemma_alt_lang(ds, classes, env);
            let ls = langs(s, classes, env);
            let lds = langs(ds, classes, env);
            assert forall|w: Seq<char>| left.contains(w) == right.contains(w) by {
                if left.contains(w) {
                    let i = choose|i: int| 0 <= i < lds.len() && (#[trigger] lds[i]).contains(w);
                    assert(ls[i].contains(seq![c] + w));
                }
                if right.contains(w) {
                    let i = choose|i: int|
                        0 <= i < ls.len() && (#[trigger] ls[i]).contains(seq![c] + w);
                    assert(lds[i].contains(w));
                }
            }
        },
        Re::Intersect(s) => {
            lemma_derive_each_lang(s, c, classes);
            lemma_derive_each_wf(s, c, classes);
            let ds = derive_each(s, c, classes);
            lemma_intersect_lang(ds, classes, env);
            let ls = langs(s, classes, env);
            let lds = langs(ds, classes, env);
            assert forall|w: Seq<char>| left.contains(w) == right.contains(w) by {
                if left.contains(w) {
                    assert forall|i: int| 0 <= i < ls.len() implies (#[trigger] ls[i]).contains(
                        seq![c] + w,
                    ) by {
                        assert(lds[i].contains(w));
                    }
                }
                if right.contains(w) {
                    assert forall|i: int| 0 <= i < lds.len() implies (#[trigger] lds[i]).contains(
                        w,
                    ) by {
                        assert(ls[i].contains(seq![c] + w));
                    }
                }
            }
        },
        Re::Concat(s) => {
            lemma_derive_each_lang(s, c, classes);
            let steps = concat_steps(s, c, classes);
            lemma_reach(s);
            lemma_alt_lang(steps, classes, env);
            let ls = langs(s, classes, env);
            let lsteps = langs(steps, classes, env);
            assert forall|i: int| 0 <= i < steps.len() implies #[trigger] lsteps[i] == lcat(
                seq![after(lang(s[i], classes, env), c)] + ls.skip(i + 1),
            ) by {
                let parts = seq![re_derive(s[i], c, classes)] + s.skip(i + 1);
                lemma_concat_lang(parts, classes, env);
                assert(langs(derive_each(s, c, classes), classes, env)[i] == after(ls[i], c));
                assert(langs(parts, classes, env) =~= seq![after(lang(s[i], classes, env), c)]
                    + ls.skip(i + 1));
            }
            assert forall|w: Seq<char>| left.contains(w) == right.contains(w) by {
                lemma_concat_after(s, c, classes, env, w);
                if left.contains(w) {
                    let i = choose|i: int|
                        0 <= i < lsteps.len() && (#[trigger] lsteps[i]).contains(w);
                    assert(lcat(
                        seq![after(lang(s[i], classes, env), c)] + ls.skip(i + 1),
                    ).contains(w));
                }
                if right.contains(w) {
                    let i = choose|i: int|
                        0 <= i < reach(s) && i < s.len() && #[trigger] lcat(
                            seq![after(lang(s[i], classes, env), c)] + ls.skip(i + 1),
                        ).contains(w);
                    assert(lsteps[i].contains(w));
                }
            }
        },
        Re::Star(inner) => {
            lemma_derive_lang(*inner, c, classes);
            lemma_star_lang(*inner, classes, env);
            let parts = seq![re_derive(*inner, c, classes), re_star(*inner)];
            lemma_concat_lang(parts, classes, env);
            let l = lang(*inner, classes, env);
            assert(langs(parts, classes, env) =~= seq![after(l, c), lstar(l)]);
            lemma_lstar_after(l, c);
        },
        Re::Anagram(s) => {
            lemma_derive_each_lang(s, c, classes);
            let steps = anagram_steps(s, c, classes);
            lemma_alt_lang(steps, classes, env);
            let ls = langs(s, classes, env);
            let lsteps = langs(steps, classes, env);
            assert forall|i: int| 0 <= i < steps.len() implies #[trigger] lsteps[i] == lcat(
                seq![after(ls[i], c), lanagram(ls.remove(i))],
            ) by {
                lemma_anagram_lang(s.remove(i), classes, env);
                assert(langs(s.remove(i), classes, env) =~= ls.remove(i));
                let parts = seq![re_derive(s[i], c, classes), re_anagram(s.remove(i))];
                lemma_concat_lang(parts, classes, env);
                assert(langs(derive_each(s, c, classes), classes, env)[i] == after(ls[i], c));
                assert(langs(parts, classes, env) =~= seq![
                    after(ls[i], c),
                    lanagram(ls.remove(i)),
                ]);
            }
            assert forall|w: Seq<char>| left.contains(w) == right.contains(w) by {
                lemma_lanagram_after(ls, c, w);
                if left.contains(w) {
                    let i = choose|i: int|
                        0 <= i < lsteps.len() && (#[trigger] lsteps[i]).contains(w);
                    assert(lcat(seq![after(ls[i], c), lanagram(ls.remove(i))]).contains(w));
                }
                if right.contains(w) {
                    let i = choose|i: int|
                        0 <= i < ls.len() && lcat(
                            seq![after(#[trigger] ls[i], c), lanagram(ls.remove(i))],
                        ).contains(w);
                    assert(lsteps[i].contains(w));
                }
            }
        },
        _ => {
            assert forall|w: Seq<char>| left.contains(w) == right.contains(w) by {
                let cw = seq![c] + w;
                assert(cw.len() == w.len() + 1);
                assert(cw[0] == c);
            }
        },
    }
    assert(left =~= right);
}

proof fn lemma_derive_each_lang(s: Seq<Re>, c: char, classes: Seq<ClassView>)
    requires
        all_wf(s),
    ensures
        forall|i: int|
            0 <= i < s.len() ==> #[trigger] langs(
                derive_each(s, c, classes),
                classes,
                Env::Free,
            )[i] == after(langs(s, classes, Env::Free)[i], c),
    decreases s,
{
    let lds = langs(derive_each(s, c, classes), classes, Env::Free);
    let ls = langs(s, classes, Env::Free);
    assert forall|i: int| 0 <= i < s.len() implies #[trigger] lds[i] == after(ls[i], c) by {
        assert(re_wf(s[i]));
        lemma_derive_lang(s[i], c, classes);
    }
}

/// Whether the class with this number exists and holds `character`.
pub fn class_matches(classes: &[CharacterClass], class: u32, character: char) -> (r: bool)
    requires
        classes_wf(views(classes@)),
    ensures
        r == in_class(views(classes@), class, character),
{
    let id: usize = class as usize;
    if id < classes.len() {
        assert(class_wf(views(classes@)[id as int]));
        classes[id].contains(character)
    } else {
        false
    }
}

impl Expr {
    /// What is left to match after `character`, where a group may stand for
    /// any character of its class.
    pub fn derive_approx(&self, character: char, classes: &[CharacterClass]) -> (r: Self)
        requires
            classes_wf(views(classes@)),
        ensures
            r@ == re_derive(self@, character, views(classes@)),
        decreases self,
    {
        broadcast use lemma_view_parts;

        match self {
            Expr::Empty => Expr::Empty,
            Expr::Epsilon => Expr::Empty,
            Expr::Class(class) => {
                if class_matches(classes, *class, character) {
                    Expr::Epsilon
                } else {
                    Expr::Empty
                }
            },
            Expr::Capture { class, .. } => {
                if class_matches(classes, *class, character) {
                    Expr::Epsilon
                } else {
                    Expr::Empty
                }
            },
            Expr::Alt(parts) => Expr::alt(derive_parts(parts, character, classes)),
            Expr::Intersect(parts) => Expr::intersect(derive_parts(parts, character, classes)),
            Expr::Concat(parts) => derive_concat_approx(parts, character, classes),
            Expr::Star(inner) => {
                let first = inner.derive_approx(character, classes);
                let again = Expr::star(inner.duplicate());
                let both = vec![first, again];
                assert(views(both@) =~= seq![first@, again@]);
                Expr::concat(both)
            },
            Expr::Anagram(parts) => derive_anagram_approx(parts, character, classes),
        }
    }
}

fn derive_parts(parts: &Vec<Expr>, character: char, classes: &[CharacterClass]) -> (r: Vec<Expr>)
    requires
        classes_wf(views(classes@)),
    ensures
        views(r@) == derive_each(views(parts@), character, views(classes@)),
    decreases parts, 0nat,
{
    let ghost all = derive_each(views(parts@), character, views(classes@));
    let mut out: Vec<Expr> = Vec::new();
    let mut i: usize = 0;
    while i < parts.len()
        invariant
            i <= parts.len(),
            classes_wf(views(classes@)),
            all == derive_each(views(parts@), character, views(classes@)),
            views(out@) == all.take(i as int),
        decreases parts.len() - i,
    {
        let d = parts[i].derive_approx(character, classes);
        let ghost before = out@;
        out.push(d);
        proof {
            assert(views(out@) =~= views(before).push(d@));
            assert(all[i as int] == d@);
            assert(all.take(i + 1) =~= all.take(i as int).push(all[i as int]));
        }
        i += 1;
    }
    proof {
        assert(all.take(i as int) =~= all);
    }
    out
}

/// The derivative of a concatenation.
fn derive_concat_approx(parts: &Vec<Expr>, character: char, classes: &[CharacterClass]) -> (r: Expr)
    requires
        classes_wf(views(classes@)),
    ensures
        r@ == re_alt(concat_steps(views(parts@), character, views(classes@))),
    decreases parts, 0nat,
{
    let ghost s = views(parts@);
    let ghost steps = concat_steps(s, character, views(classes@));
    let mut alternatives: Vec<Expr> = Vec::new();
    let mut index: usize = 0;
    proof {
        lemma_reach(s);
        assert(views(alternatives@) =~= steps.take(0));
    }
    while index < parts.len() && all_nullable(parts, index)
        invariant
            index <= parts.len(),
            classes_wf(views(classes@)),
            s == views(parts@),
            steps == concat_steps(s, character, views(classes@)),
            reach(s) <= s.len(),
            forall|i: int| 0 <= i < s.len() ==> (i < reach(s) <==> nullable_until(s, i)),
            index <= reach(s),
            views(alternatives@) == steps.take(index as int),
        ensures
            index == reach(s),
        decreases parts.len() - index,
    {
        let first = parts[index].derive_approx(character, classes);
        let mut rest = duplicate_all(parts, index + 1);
        let ghost behind = rest@;
        let mut result = vec![first];
        result.append(&mut rest);
        proof {
            assert(views(result@) =~= seq![first@] + s.skip(index + 1)) by {
                assert(result@ =~= seq![first] + behind);
                assert forall|k: int| 0 <= k < views(result@).len() implies views(result@)[k] == (
                seq![first@] + s.skip(index + 1))[k] by {
                    if k > 0 {
                        assert(views(behind)[k - 1] == s.skip(index + 1)[k - 1]);
                    }
                }
                assert(views(behind).len() == s.skip(index + 1).len());
            }
        }
        let ghost before = alternatives@;
        let step = Expr::concat(result);
        alternatives.push(step);
        proof {
            assert(views(alternatives@) =~= views(before).push(step@));
            assert(steps[index as int] == step@);
            assert(steps.take(index + 1) =~= steps.take(index as int).push(steps[index as int]));
        }
        index += 1;
    }
    proof {
        assert(steps.take(index as int) =~= steps);
    }
    Expr::alt(alternatives)
}

/// The derivative of a rearrangement.
fn derive_anagram_approx(
    parts: &Vec<Expr>,
    character: char,
    classes: &[CharacterClass],
) -> (r: Expr)
    requires
        classes_wf(views(classes@)),
    ensures
        r@ == re_alt(anagram_steps(views(parts@), character, views(classes@))),
    decreases parts, 0nat,
{
    let ghost s = views(parts@);
    let ghost steps = anagram_steps(s, character, views(classes@));
    let mut alternatives: Vec<Expr> = Vec::new();
    let mut index: usize = 0;
    proof {
        assert(views(alternatives@) =~= steps.take(0));
    }
    while index < parts.len()
        invariant
            index <= parts.len(),
            classes_wf(views(classes@)),
            s == views(parts@),
            steps == anagram_steps(s, character, views(classes@)),
            views(alternatives@) == steps.take(index as int),
        decreases parts.len() - index,
    {
        let first = parts[index].derive_approx(character, classes);
        let rest = others_of(parts, index);
        let again = Expr::anagram(rest);
        let both = vec![first, again];
        assert(views(both@) =~= seq![first@, again@]);
        let ghost before = alternatives@;
        let step = Expr::concat(both);
        alternatives.push(step);
        proof {
            assert(views(alternatives@) =~= views(before).push(step@));
            assert(steps[index as int] == step@);
            assert(steps.take(index + 1) =~= steps.take(index as int).push(steps[index as int]));
        }
        index += 1;
    }
    proof {
        assert(steps.take(index as int) =~= steps);
    }
    Expr::alt(alternatives)
}

/// A copy of the expressions of a list but for one.
pub fn others_of(parts: &Vec<Expr>, index: usize) -> (r: Vec<Expr>)
    requires
        index < parts@.len(),
    ensures
        views(r@) == views(parts@).remove(index as int),
{
    let mut all = duplicate_all(parts, 0);
    let ghost copied = all@;
    assert(views(copied) =~= views(parts@));
    assert(views(copied).len() == copied.len());
    let removed = all.remove(index);
    proof {
        assert(views(copied) =~= views(parts@));
        assert forall|k: int| 0 <= k < all@.len() implies views(all@)[k] == views(parts@).remove(
            index as int,
        )[k] by {
            assert(all@[k] == if k < index { copied[k] } else { copied[k + 1] });
            assert(views(copied)[k] == views(parts@)[k]);
            assert(views(copied)[k + 1] == views(parts@)[k + 1]);
        }
        assert(views(all@).len() == views(parts@).remove(index as int).len());
        assert(views(all@) =~= views(parts@).remove(index as int));
    }
    all
}

} // verus!
