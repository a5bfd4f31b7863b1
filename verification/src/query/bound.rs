//! Derivatives that keep track of what the groups of a query stand for.
use crate::ordered::{pair_leq, sort_dedup, views, Ordered, Scalar};
use crate::query::class::{CharacterClass, ClassView};
use crate::query::derive::{class_matches, classes_wf, lemma_concat_after, lemma_reach, others_of, reach};
use crate::query::expr::{duplicate_all, lemma_view_parts, Expr, Re};
use crate::query::language::{
    after, lanagram, lcat, lemma_lanagram_after, lemma_lcat_split, lemma_lcat_step,
    lemma_lstar_after, lmeet, lstar, lunion,
};
use crate::query::normal::{
    all_nullable, all_wf, group_allows, lang, langs, lemma_anagram_lang, lemma_concat_lang,
    lemma_intersect_lang, lemma_normal_wf, lemma_star_lang, nullable_until, re_concat, re_intersect,
    re_wf, Env,
};
use vstd::prelude::*;

verus! {

impl Ordered for Option<char> {
    open spec fn leq(a: Option<char>, b: Option<char>) -> bool {
        match (a, b) {
            (None, _) => true,
            (Some(_), None) => false,
            (Some(x), Some(y)) => x <= y,
        }
    }

    proof fn leq_total_order(a: Option<char>, b: Option<char>, c: Option<char>) {
    }

    fn is_leq(&self, other: &Self) -> (r: bool) {
        match (self, other) {
            (None, _) => true,
            (Some(_), None) => false,
            (Some(x), Some(y)) => *x <= *y,
        }
    }
}

impl Scalar for Option<char> {
    proof fn view_is_self(self) {
    }
}

/// What is left to match, with the characters that groups are bound to.
pub struct BoundState {
    pub expr: Expr,
    pub captures: Vec<Option<char>>,
}

impl View for BoundState {
    type V = (Re, Seq<Option<char>>);

    open spec fn view(&self) -> (Re, Seq<Option<char>>) {
        (self.expr@, self.captures@)
    }
}

impl Ordered for BoundState {
    open spec fn leq(a: (Re, Seq<Option<char>>), b: (Re, Seq<Option<char>>)) -> bool {
        pair_leq::<Expr, Vec<Option<char>>>(a, b)
    }

    proof fn leq_total_order(
        a: (Re, Seq<Option<char>>),
        b: (Re, Seq<Option<char>>),
        c: (Re, Seq<Option<char>>),
    ) {
        <(Expr, Vec<Option<char>>) as Ordered>::leq_total_order(a, b, c);
    }

    fn is_leq(&self, other: &Self) -> (r: bool) {
        let below = self.expr.is_leq(&other.expr);
        let above = other.expr.is_leq(&self.expr);
        proof {
            Expr::leq_total_order(self.expr@, other.expr@, self.expr@);
        }
        if below && above {
            self.captures.is_leq(&other.captures)
        } else {
            below
        }
    }
}

/// Derivatives of the parts of an intersection, with the bindings so far.
struct Combination {
    parts: Vec<Expr>,
    captures: Vec<Option<char>>,
}

impl View for Combination {
    type V = (Seq<Re>, Seq<Option<char>>);

    closed spec fn view(&self) -> (Seq<Re>, Seq<Option<char>>) {
        (views(self.parts@), self.captures@)
    }
}

/// The choice of a character per group keeps every binding.
pub open spec fn extends(sigma: Seq<char>, captures: Seq<Option<char>>) -> bool {
    &&& sigma.len() == captures.len()
    &&& forall|g: int|
        0 <= g < captures.len() ==> match #[trigger] captures[g] {
            Some(c) => sigma[g] == c,
            None => true,
        }
}

/// One of the states matches `w` under the choice `sigma`.
pub open spec fn some_state(
    states: Seq<(Re, Seq<Option<char>>)>,
    classes: Seq<ClassView>,
    sigma: Seq<char>,
    w: Seq<char>,
) -> bool {
    exists|k: int|
        0 <= k < states.len() && extends(sigma, (#[trigger] states[k]).1) && lang(
            states[k].0,
            classes,
            Env::Bound(sigma),
        ).contains(w)
}

/// The expressions of the states are well formed, and each binds `n` groups.
pub open spec fn states_wf(states: Seq<(Re, Seq<Option<char>>)>, n: int) -> bool {
    forall|k: int|
        0 <= k < states.len() ==> re_wf((#[trigger] states[k]).0) && states[k].1.len() == n
}

/// The states are what is left of `re` after `c`, under the bindings.
pub open spec fn bound_derivative(
    re: Re,
    c: char,
    captures: Seq<Option<char>>,
    classes: Seq<ClassView>,
    states: Seq<(Re, Seq<Option<char>>)>,
) -> bool {
    &&& states_wf(states, captures.len() as int)
    &&& forall|sigma: Seq<char>, w: Seq<char>| #[trigger]
        some_state(states, classes, sigma, w) <==> extends(sigma, captures) && lang(
            re,
            classes,
            Env::Bound(sigma),
        ).contains(seq![c] + w)
}

pub proof fn lemma_some_state_append(
    a: Seq<(Re, Seq<Option<char>>)>,
    b: Seq<(Re, Seq<Option<char>>)>,
    classes: Seq<ClassView>,
    sigma: Seq<char>,
    w: Seq<char>,
)
    ensures
        some_state(a + b, classes, sigma, w) <==> some_state(a, classes, sigma, w) || some_state(
            b,
            classes,
            sigma,
            w,
        ),
{
    if some_state(a + b, classes, sigma, w) {
        let k = choose|k: int|
            0 <= k < (a + b).len() && extends(sigma, (#[trigger] (a + b)[k]).1) && lang(
                (a + b)[k].0,
                classes,
                Env::Bound(sigma),
            ).contains(w);
        if k < a.len() {
            assert(a[k] == (a + b)[k]);
        } else {
            assert(b[k - a.len()] == (a + b)[k]);
        }
    }
    if some_state(a, classes, sigma, w) {
        let k = choose|k: int|
            0 <= k < a.len() && extends(sigma, (#[trigger] a[k]).1) && lang(
                a[k].0,
                classes,
                Env::Bound(sigma),
            ).contains(w);
        assert((a + b)[k] == a[k]);
    }
    if some_state(b, classes, sigma, w) {
        let k = choose|k: int|
            0 <= k < b.len() && extends(sigma, (#[trigger] b[k]).1) && lang(
                b[k].0,
                classes,
                Env::Bound(sigma),
            ).contains(w);
        assert((a + b)[k + a.len()] == b[k]);
    }
}

proof fn lemma_states_wf_append(
    a: Seq<(Re, Seq<Option<char>>)>,
    b: Seq<(Re, Seq<Option<char>>)>,
    n: int,
)
    requires
        states_wf(a, n),
        states_wf(b, n),
    ensures
        states_wf(a + b, n),
{
    assert forall|k: int| 0 <= k < (a + b).len() implies re_wf((#[trigger] (a + b)[k]).0) && (a
        + b)[k].1.len() == n by {
        if k < a.len() {
            assert((a + b)[k] == a[k]);
        } else {
            assert((a + b)[k] == b[k - a.len()]);
        }
    }
}

/// Only the set of states matters.
proof fn lemma_same_states(
    a: Seq<(Re, Seq<Option<char>>)>,
    b: Seq<(Re, Seq<Option<char>>)>,
    classes: Seq<ClassView>,
    n: int,
)
    requires
        a.to_set() == b.to_set(),
    ensures
        states_wf(a, n) ==> states_wf(b, n),
        forall|sigma: Seq<char>, w: Seq<char>|
            some_state(a, classes, sigma, w) == #[trigger] some_state(b, classes, sigma, w),
{
    assert forall|x: (Re, Seq<Option<char>>)| a.contains(x) == b.contains(x) by {
        assert(a.to_set().contains(x) == a.contains(x));
        assert(b.to_set().contains(x) == b.contains(x));
    }
    if states_wf(a, n) {
        assert forall|k: int| 0 <= k < b.len() implies re_wf((#[trigger] b[k]).0) && b[k].1.len()
            == n by {
            assert(b.contains(b[k]));
            assert(a.contains(b[k]));
            let m = choose|m: int| 0 <= m < a.len() && a[m] == b[k];
            assert(re_wf(a[m].0));
        }
    }
    assert forall|sigma: Seq<char>, w: Seq<char>|
        some_state(a, classes, sigma, w) == #[trigger] some_state(b, classes, sigma, w) by {
        if some_state(a, classes, sigma, w) {
            let k = choose|k: int|
                0 <= k < a.len() && extends(sigma, (#[trigger] a[k]).1) && lang(
                    a[k].0,
                    classes,
                    Env::Bound(sigma),
                ).contains(w);
            assert(a.contains(a[k]));
            assert(b.contains(a[k]));
            let m = choose|m: int| 0 <= m < b.len() && b[m] == a[k];
            assert(extends(sigma, b[m].1));
        }
        if some_state(b, classes, sigma, w) {
            let k = choose|k: int|
                0 <= k < b.len() && extends(sigma, (#[trigger] b[k]).1) && lang(
                    b[k].0,
                    classes,
                    Env::Bound(sigma),
                ).contains(w);
            assert(b.contains(b[k]));
            assert(a.contains(b[k]));
            let m = choose|m: int| 0 <= m < a.len() && a[m] == b[k];
            assert(extends(sigma, a[m].1));
        }
    }
}

/// Each state once, in order.
pub fn deduplicate_bound(
    states: Vec<BoundState>,
    Ghost(classes): Ghost<Seq<ClassView>>,
    Ghost(n): Ghost<int>,
) -> (r: Vec<BoundState>)
    ensures
        states_wf(views(states@), n) ==> states_wf(views(r@), n),
        forall|sigma: Seq<char>, w: Seq<char>|
            some_state(views(states@), classes, sigma, w) == #[trigger] some_state(
                views(r@),
                classes,
                sigma,
                w,
            ),
{
    let ghost given = views(states@);
    let r = sort_dedup(states);
    proof {
        lemma_same_states(given, views(r@), classes, n);
    }
    r
}

/// The states with further expressions to match behind each.
pub open spec fn attached(states: Seq<(Re, Seq<Option<char>>)>, rest: Seq<Re>) -> Seq<
    (Re, Seq<Option<char>>),
> {
    Seq::new(states.len(), |k: int| (re_concat(seq![states[k].0] + rest), states[k].1))
}

/// Appends further expressions to match to every state.
fn attach(states: Vec<BoundState>, rest: &Vec<Expr>) -> (r: Vec<BoundState>)
    ensures
        views(r@) == attached(views(states@), views(rest@)),
{
    let ghost given = views(states@);
    let ghost all = attached(given, views(rest@));
    let mut todo = crate::ordered::reverse(states);
    let mut out: Vec<BoundState> = Vec::new();
    while todo.len() > 0
        invariant
            todo@.len() + out@.len() == given.len(),
            forall|i: int|
                0 <= i < todo@.len() ==> #[trigger] todo@[i]@ == given[given.len() - 1 - i],
            all == attached(given, views(rest@)),
            views(out@) == all.take(out@.len() as int),
        decreases todo.len(),
    {
        let ghost left = todo@;
        let ghost before = out@;
        let state = todo.pop().unwrap();
        let mut more = duplicate_all(rest, 0);
        let ghost behind = more@;
        let mut parts = vec![state.expr];
        parts.append(&mut more);
        proof {
            assert(state@ == left[left.len() - 1]@);
            assert(views(behind) =~= views(rest@));
            assert forall|k: int| 0 <= k < parts@.len() implies views(parts@)[k] == (seq![
                state@.0,
            ] + views(rest@))[k] by {
                if k > 0 {
                    assert(parts@[k] == behind[k - 1]);
                    assert(views(behind)[k - 1] == views(rest@)[k - 1]);
                }
            }
            assert(views(behind).len() == behind.len());
            assert(views(parts@) =~= seq![state@.0] + views(rest@));
            assert forall|i: int| 0 <= i < todo@.len() implies #[trigger] todo@[i]@
                == given[given.len() - 1 - i] by {
                assert(todo@[i] == left[i]);
            }
        }
        let joined = BoundState { expr: Expr::concat(parts), captures: state.captures };
        out.push(joined);
        proof {
            assert(views(out@) =~= views(before).push(joined@));
            let n = before.len() as int;
            assert(all[n] == joined@);
            assert(all.take(n + 1) =~= all.take(n).push(all[n]));
        }
    }
    proof {
        assert(all.take(out@.len() as int) =~= all);
    }
    out
}

/// What the states match once further expressions stand behind them.
proof fn lemma_attached(
    re: Re,
    c: char,
    captures: Seq<Option<char>>,
    classes: Seq<ClassView>,
    states: Seq<(Re, Seq<Option<char>>)>,
    rest: Seq<Re>,
)
    requires
        bound_derivative(re, c, captures, classes, states),
        all_wf(rest),
    ensures
        states_wf(attached(states, rest), captures.len() as int),
        forall|sigma: Seq<char>, w: Seq<char>| #[trigger]
            some_state(attached(states, rest), classes, sigma, w) <==> extends(sigma, captures)
                && lcat(
                seq![after(lang(re, classes, Env::Bound(sigma)), c)] + langs(
                    rest,
                    classes,
                    Env::Bound(sigma),
                ),
            ).contains(w),
{
    let joined = attached(states, rest);
    assert forall|k: int| 0 <= k < joined.len() implies re_wf((#[trigger] joined[k]).0)
        && joined[k].1.len() == captures.len() by {
        let parts = seq![states[k].0] + rest;
        assert(re_wf(states[k].0));
        assert forall|i: int| 0 <= i < parts.len() implies re_wf(#[trigger] parts[i]) by {
            if i > 0 {
                assert(parts[i] == rest[i - 1]);
            }
        }
        lemma_normal_wf(parts);
    }
    assert forall|sigma: Seq<char>, w: Seq<char>| #[trigger]
        some_state(joined, classes, sigma, w) <==> extends(sigma, captures) && lcat(
            seq![after(lang(re, classes, Env::Bound(sigma)), c)] + langs(
                rest,
                classes,
                Env::Bound(sigma),
            ),
        ).contains(w) by {
        let env = Env::Bound(sigma);
        let behind = langs(rest, classes, env);
        let l = lang(re, classes, env);
        let whole = seq![after(l, c)] + behind;
        assert(whole.skip(1) =~= behind);
        if some_state(joined, classes, sigma, w) {
            let k = choose|k: int|
                0 <= k < joined.len() && extends(sigma, (#[trigger] joined[k]).1) && lang(
                    joined[k].0,
                    classes,
                    env,
                ).contains(w);
            let parts = seq![states[k].0] + rest;
            lemma_concat_lang(parts, classes, env);
            let lp = langs(parts, classes, env);
            assert(lp =~= seq![lang(states[k].0, classes, env)] + behind);
            let m = lemma_lcat_split(lp, w);
            assert(lp.skip(1) =~= behind);
            assert(extends(sigma, states[k].1));
            assert(some_state(states, classes, sigma, w.take(m)));
            lemma_lcat_step(whole, w, m);
        }
        if extends(sigma, captures) && lcat(whole).contains(w) {
            let m = lemma_lcat_split(whole, w);
            assert(l.contains(seq![c] + w.take(m)));
            assert(some_state(states, classes, sigma, w.take(m)));
            let k = choose|k: int|
                0 <= k < states.len() && extends(sigma, (#[trigger] states[k]).1) && lang(
                    states[k].0,
                    classes,
                    env,
                ).contains(w.take(m));
            let parts = seq![states[k].0] + rest;
            lemma_concat_lang(parts, classes, env);
            let lp = langs(parts, classes, env);
            assert(lp =~= seq![lang(states[k].0, classes, env)] + behind);
            assert(lp.skip(1) =~= behind);
            lemma_lcat_step(lp, w, m);
            assert(joined[k].1 == states[k].1);
            assert(lang(joined[k].0, classes, env).contains(w));
        }
    }
}

/// A copy of the bindings.
fn duplicate_captures(captures: &Vec<Option<char>>) -> (r: Vec<Option<char>>)
    ensures
        r@ == captures@,
{
    let mut r: Vec<Option<char>> = Vec::new();
    r.extend_from_slice(captures.as_slice());
    proof {
        assert(r@ =~= captures@);
    }
    r
}

/// The states that are left of an expression after a character.
#[verifier::rlimit(50)]
pub fn derive_bound(
    expression: &Expr,
    character: char,
    captures: &Vec<Option<char>>,
    classes: &[CharacterClass],
) -> (r: Vec<BoundState>)
    requires
        classes_wf(views(classes@)),
        re_wf(expression@),
    ensures
        bound_derivative(
            expression@,
            character,
            captures@,
            views(classes@),
            views(r@),
        ),
    decreases expression, 0nat,
{
    broadcast use lemma_view_parts;

    let ghost cls = views(classes@);
    match expression {
        Expr::Empty => {
            let r: Vec<BoundState> = Vec::new();
            r
        },
        Expr::Epsilon => {
            let r: Vec<BoundState> = Vec::new();
            r
        },
        Expr::Class(class) => derive_class_bound(*class, character, captures, classes),
        Expr::Capture { class, group } => derive_capture_bound(
            *class,
            *group,
            character,
            captures,
            classes,
        ),
        Expr::Alt(parts) => {
            assert(all_wf(views(parts@)));
            derive_alt_bound(parts, character, captures, classes)
        },
        Expr::Intersect(parts) => {
            assert(all_wf(views(parts@)));
            derive_intersection_bound(parts, character, captures, classes)
        },
        Expr::Concat(parts) => {
            assert(all_wf(views(parts@)));
            derive_concat_bound(parts, character, captures, classes)
        },
        Expr::Star(inner) => {
            let first = derive_bound(inner, character, captures, classes);
            let again = Expr::star(inner.duplicate());
            let rest = vec![again];
            let ghost states = views(first@);
            proof {
                assert(views(rest@) =~= seq![again@]);
                assert(re_wf(again@));
                lemma_attached(inner@, character, captures@, cls, states, views(rest@));
            }
            let r = attach(first, &rest);
            proof {
                assert forall|sigma: Seq<char>, w: Seq<char>| #[trigger]
                    some_state(views(r@), cls, sigma, w) <==> extends(sigma, captures@) && lang(
                        expression@,
                        cls,
                        Env::Bound(sigma),
                    ).contains(seq![character] + w) by {
                    let env = Env::Bound(sigma);
                    let l = lang(inner@, cls, env);
                    lemma_star_lang(inner@, cls, env);
                    lemma_lstar_after(l, character);
                    assert(seq![after(l, character)] + langs(views(rest@), cls, env) =~= seq![
                        after(l, character),
                        lstar(l),
                    ]);
                    assert(after(lstar(l), character).contains(w) == lstar(l).contains(
                        seq![character] + w,
                    ));
                }
            }
            r
        },
        Expr::Anagram(parts) => {
            assert(all_wf(views(parts@)));
            derive_anagram_bound(parts, character, captures, classes)
        },
    }
}

fn derive_class_bound(
    class: u32,
    character: char,
    captures: &Vec<Option<char>>,
    classes: &[CharacterClass],
) -> (r: Vec<BoundState>)
    requires
        classes_wf(views(classes@)),
    ensures
        bound_derivative(Re::Class(class), character, captures@, views(classes@), views(r@)),
{
    let ghost cls = views(classes@);
    if class_matches(classes, class, character) {
        let kept = duplicate_captures(captures);
        let r = vec![BoundState { expr: Expr::Epsilon, captures: kept }];
        proof {
            assert forall|sigma: Seq<char>, w: Seq<char>| #[trigger]
                some_state(views(r@), cls, sigma, w) <==> extends(sigma, captures@) && lang(
                    Re::Class(class),
                    cls,
                    Env::Bound(sigma),
                ).contains(seq![character] + w) by {
                let cw = seq![character] + w;
                assert(cw.len() == w.len() + 1 && cw[0] == character);
                assert(views(r@)[0] == (Re::Epsilon, captures@));
            }
        }
        r
    } else {
        let r: Vec<BoundState> = Vec::new();
        proof {
            assert forall|sigma: Seq<char>, w: Seq<char>| #[trigger]
                some_state(views(r@), cls, sigma, w) <==> extends(sigma, captures@) && lang(
                    Re::Class(class),
                    cls,
                    Env::Bound(sigma),
                ).contains(seq![character] + w) by {
                let cw = seq![character] + w;
                assert(cw[0] == character);
            }
        }
        r
    }
}

fn derive_capture_bound(
    class: u32,
    group: u32,
    character: char,
    captures: &Vec<Option<char>>,
    classes: &[CharacterClass],
) -> (r: Vec<BoundState>)
    requires
        classes_wf(views(classes@)),
    ensures
        bound_derivative(
            Re::Capture { class, group },
            character,
            captures@,
            views(classes@),
            views(r@),
        ),
{
    let ghost cls = views(classes@);
    let ghost re = Re::Capture { class, group };
    let place: usize = group as usize;
    let allowed = class_matches(classes, class, character) && place < captures.len() && (
    match captures[place] {
        None => true,
        Some(bound) => bound == character,
    });
    if allowed {
        let mut kept = duplicate_captures(captures);
        kept.set(place, Some(character));
        let r = vec![BoundState { expr: Expr::Epsilon, captures: kept }];
        proof {
            assert forall|sigma: Seq<char>, w: Seq<char>| #[trigger]
                some_state(views(r@), cls, sigma, w) <==> extends(sigma, captures@) && lang(
                    re,
                    cls,
                    Env::Bound(sigma),
                ).contains(seq![character] + w) by {
                let cw = seq![character] + w;
                assert(cw.len() == w.len() + 1 && cw[0] == character);
                assert(views(r@)[0] == (Re::Epsilon, kept@));
                if some_state(views(r@), cls, sigma, w) {
                    assert(extends(sigma, kept@));
                    assert(kept@[place as int] == Some(character));
                    assert(sigma[place as int] == character);
                    assert forall|g: int| 0 <= g < captures@.len() implies match #[trigger] captures@[g] {
                        Some(c) => sigma[g] == c,
                        None => true,
                    } by {
                        if g != place {
                            assert(kept@[g] == captures@[g]);
                        }
                    }
                }
                if extends(sigma, captures@) && lang(re, cls, Env::Bound(sigma)).contains(cw) {
                    assert(group_allows(Env::Bound(sigma), group, character));
                    assert(extends(sigma, kept@)) by {
                        assert forall|g: int| 0 <= g < kept@.len() implies match #[trigger] kept@[g] {
                            Some(c) => sigma[g] == c,
                            None => true,
                        } by {
                            if g != place {
                                assert(kept@[g] == captures@[g]);
                            }
                        }
                    }
                }
            }
        }
        r
    } else {
        let r: Vec<BoundState> = Vec::new();
        proof {
            assert forall|sigma: Seq<char>, w: Seq<char>| #[trigger]
                some_state(views(r@), cls, sigma, w) <==> extends(sigma, captures@) && lang(
                    re,
                    cls,
                    Env::Bound(sigma),
                ).contains(seq![character] + w) by {
                let cw = seq![character] + w;
                assert(cw[0] == character);
                if place < captures@.len() {
                    let b = captures@[place as int];
                    assert(extends(sigma, captures@) ==> match b {
                        Some(c) => sigma[place as int] == c,
                        None => true,
                    });
                }
            }
        }
        r
    }
}

fn derive_alt_bound(
    parts: &Vec<Expr>,
    character: char,
    captures: &Vec<Option<char>>,
    classes: &[CharacterClass],
) -> (r: Vec<BoundState>)
    requires
        classes_wf(views(classes@)),
        all_wf(views(parts@)),
    ensures
        bound_derivative(
            Re::Alt(views(parts@)),
            character,
            captures@,
            views(classes@),
            views(r@),
        ),
    decreases parts, 0nat,
{
    let ghost cls = views(classes@);
    let ghost s: Seq<Re> = views(parts@);
    let ghost n = captures@.len() as int;
    let mut output: Vec<BoundState> = Vec::new();
    let mut i: usize = 0;
    while i < parts.len()
        invariant
            i <= parts.len(),
            classes_wf(views(classes@)),
            all_wf(s),
            s == views(parts@),
            cls == views(classes@),
            n == captures@.len(),
            states_wf(views(output@), n),
            forall|sigma: Seq<char>, w: Seq<char>| #[trigger]
                some_state(views(output@), cls, sigma, w) <==> extends(sigma, captures@) && exists|
                    j: int,
                |
                    0 <= j < i && lang(#[trigger] s[j], cls, Env::Bound(sigma)).contains(
                        seq![character] + w,
                    ),
        decreases parts.len() - i,
    {
        assert(re_wf(s[i as int]));
        let mut more = derive_bound(&parts[i], character, captures, classes);
        let ghost before = output@;
        let ghost added = more@;
        output.append(&mut more);
        proof {
            assert(views(output@) =~= views(before) + views(added));
            lemma_states_wf_append(views(before), views(added), n);
            assert forall|sigma: Seq<char>, w: Seq<char>| #[trigger]
                some_state(views(output@), cls, sigma, w) <==> extends(sigma, captures@) && exists|
                    j: int,
                |
                    0 <= j < i + 1 && lang(#[trigger] s[j], cls, Env::Bound(sigma)).contains(
                        seq![character] + w,
                    ) by {
                lemma_some_state_append(views(before), views(added), cls, sigma, w);
                assert(some_state(views(added), cls, sigma, w) <==> extends(sigma, captures@)
                    && lang(s[i as int], cls, Env::Bound(sigma)).contains(seq![character] + w));
            }
        }
        i += 1;
    }
    let ghost all = views(output@);
    let r = deduplicate_bound(output, Ghost(cls), Ghost(n));
    proof {
        assert forall|sigma: Seq<char>, w: Seq<char>| #[trigger]
            some_state(views(r@), cls, sigma, w) <==> extends(sigma, captures@) && lang(
                Re::Alt(s),
                cls,
                Env::Bound(sigma),
            ).contains(seq![character] + w) by {
            assert(some_state(all, cls, sigma, w) == some_state(views(r@), cls, sigma, w));
            let ls = langs(s, cls, Env::Bound(sigma));
            let cw = seq![character] + w;
            if lunion(ls).contains(cw) {
                let j = choose|j: int| 0 <= j < ls.len() && (#[trigger] ls[j]).contains(cw);
                assert(lang(s[j], cls, Env::Bound(sigma)).contains(cw));
            }
            if exists|j: int|
                0 <= j < i && lang(#[trigger] s[j], cls, Env::Bound(sigma)).contains(cw) {
                let j = choose|j: int|
                    0 <= j < i && lang(#[trigger] s[j], cls, Env::Bound(sigma)).contains(cw);
                assert(ls[j].contains(cw));
            }
        }
    }
    r
}

#[verifier::rlimit(50)]
fn derive_concat_bound(
    parts: &Vec<Expr>,
    character: char,
    captures: &Vec<Option<char>>,
    classes: &[CharacterClass],
) -> (r: Vec<BoundState>)
    requires
        classes_wf(views(classes@)),
        all_wf(views(parts@)),
    ensures
        bound_derivative(
            Re::Concat(views(parts@)),
            character,
            captures@,
            views(classes@),
            views(r@),
        ),
    decreases parts, 0nat,
{
    let ghost cls = views(classes@);
    let ghost s: Seq<Re> = views(parts@);
    let ghost n = captures@.len() as int;
    let mut output: Vec<BoundState> = Vec::new();
    let mut index: usize = 0;
    proof {
        lemma_reach(s);
    }
    while index < parts.len() && all_nullable(parts, index)
        invariant
            index <= parts.len(),
            classes_wf(views(classes@)),
            all_wf(s),
            s == views(parts@),
            cls == views(classes@),
            n == captures@.len(),
            reach(s) <= s.len(),
            forall|i: int| 0 <= i < s.len() ==> (i < reach(s) <==> nullable_until(s, i)),
            index <= reach(s),
            states_wf(views(output@), n),
            forall|sigma: Seq<char>, w: Seq<char>| #[trigger]
                some_state(views(output@), cls, sigma, w) <==> extends(sigma, captures@) && exists|
                    j: int,
                |
                    0 <= j < index && #[trigger] lcat(
                        seq![after(lang(s[j], cls, Env::Bound(sigma)), character)] + langs(
                            s,
                            cls,
                            Env::Bound(sigma),
                        ).skip(j + 1),
                    ).contains(w),
        ensures
            index == reach(s),
        decreases parts.len() - index,
    {
        assert(re_wf(s[index as int]));
        let first = derive_bound(&parts[index], character, captures, classes);
        let rest = duplicate_all(parts, index + 1);
        let ghost states = views(first@);
        proof {
            assert forall|k: int| 0 <= k < views(rest@).len() implies re_wf(
                #[trigger] views(rest@)[k],
            ) by {
                assert(views(rest@)[k] == s[index + 1 + k]);
                assert(re_wf(s[index + 1 + k]));
            }
            assert(all_wf(views(rest@)));
            lemma_attached(s[index as int], character, captures@, cls, states, views(rest@));
        }
        let mut more = attach(first, &rest);
        let ghost before = output@;
        let ghost added = more@;
        output.append(&mut more);
        proof {
            assert(views(output@) =~= views(before) + views(added));
            lemma_states_wf_append(views(before), views(added), n);
            assert forall|sigma: Seq<char>, w: Seq<char>| #[trigger]
                some_state(views(output@), cls, sigma, w) <==> extends(sigma, captures@) && exists|
                    j: int,
                |
                    0 <= j < index + 1 && #[trigger] lcat(
                        seq![after(lang(s[j], cls, Env::Bound(sigma)), character)] + langs(
                            s,
                            cls,
                            Env::Bound(sigma),
                        ).skip(j + 1),
                    ).contains(w) by {
                lemma_some_state_append(views(before), views(added), cls, sigma, w);
                let env = Env::Bound(sigma);
                assert(langs(views(rest@), cls, env) =~= langs(s, cls, env).skip(index + 1));
                assert(some_state(views(added), cls, sigma, w) <==> extends(sigma, captures@)
                    && lcat(
                    seq![after(lang(s[index as int], cls, env), character)] + langs(
                        s,
                        cls,
                        env,
                    ).skip(index + 1),
                ).contains(w));
            }
        }
        index += 1;
    }
    let ghost all = views(output@);
    let r = deduplicate_bound(output, Ghost(cls), Ghost(n));
    proof {
        assert forall|sigma: Seq<char>, w: Seq<char>| #[trigger]
            some_state(views(r@), cls, sigma, w) <==> extends(sigma, captures@) && lang(
                Re::Concat(s),
                cls,
                Env::Bound(sigma),
            ).contains(seq![character] + w) by {
            assert(some_state(all, cls, sigma, w) == some_state(views(r@), cls, sigma, w));
            lemma_concat_after(s, character, cls, Env::Bound(sigma), w);
        }
    }
    r
}

#[verifier::rlimit(50)]
fn derive_anagram_bound(
    parts: &Vec<Expr>,
    character: char,
    captures: &Vec<Option<char>>,
    classes: &[CharacterClass],
) -> (r: Vec<BoundState>)
    requires
        classes_wf(views(classes@)),
        all_wf(views(parts@)),
    ensures
        bound_derivative(
            Re::Anagram(views(parts@)),
            character,
            captures@,
            views(classes@),
            views(r@),
        ),
    decreases parts, 0nat,
{
    let ghost cls = views(classes@);
    let ghost s: Seq<Re> = views(parts@);
    let ghost n = captures@.len() as int;
    let mut output: Vec<BoundState> = Vec::new();
    let mut index: usize = 0;
    while index < parts.len()
        invariant
            index <= parts.len(),
            classes_wf(views(classes@)),
            all_wf(s),
            s == views(parts@),
            cls == views(classes@),
            n == captures@.len(),
            states_wf(views(output@), n),
            forall|sigma: Seq<char>, w: Seq<char>| #[trigger]
                some_state(views(output@), cls, sigma, w) <==> extends(sigma, captures@) && exists|
                    j: int,
                |
                    0 <= j < index && lcat(
                        seq![
                            after(#[trigger] langs(s, cls, Env::Bound(sigma))[j], character),
                            lanagram(langs(s, cls, Env::Bound(sigma)).remove(j)),
                        ],
                    ).contains(w),
        decreases parts.len() - index,
    {
        assert(re_wf(s[index as int]));
        let first = derive_bound(&parts[index], character, captures, classes);
        let others = others_of(parts, index);
        let ghost remaining: Seq<Re> = views(others@);
        let again = Expr::anagram(others);
        let rest = vec![again];
        let ghost states = views(first@);
        proof {
            assert forall|k: int| 0 <= k < remaining.len() implies re_wf(#[trigger] remaining[k]) by {
                if k < index {
                    assert(remaining[k] == s[k]);
                    assert(re_wf(s[k]));
                } else {
                    assert(remaining[k] == s[k + 1]);
                    assert(re_wf(s[k + 1]));
                }
            }
            lemma_normal_wf(remaining);
            assert(views(rest@) =~= seq![again@]);
            assert(all_wf(views(rest@)));
            lemma_attached(s[index as int], character, captures@, cls, states, views(rest@));
        }
        let mut more = attach(first, &rest);
        let ghost before = output@;
        let ghost added = more@;
        output.append(&mut more);
        proof {
            assert(views(output@) =~= views(before) + views(added));
            lemma_states_wf_append(views(before), views(added), n);
            assert forall|sigma: Seq<char>, w: Seq<char>| #[trigger]
                some_state(views(output@), cls, sigma, w) <==> extends(sigma, captures@) && exists|
                    j: int,
                |
                    0 <= j < index + 1 && lcat(
                        seq![
                            after(#[trigger] langs(s, cls, Env::Bound(sigma))[j], character),
                            lanagram(langs(s, cls, Env::Bound(sigma)).remove(j)),
                        ],
                    ).contains(w) by {
                lemma_some_state_append(views(before), views(added), cls, sigma, w);
                let env = Env::Bound(sigma);
                let ls = langs(s, cls, env);
                lemma_anagram_lang(remaining, cls, env);
                assert(langs(remaining, cls, env) =~= ls.remove(index as int));
                assert(seq![after(lang(s[index as int], cls, env), character)] + langs(
                    views(rest@),
                    cls,
                    env,
                ) =~= seq![after(ls[index as int], character), lanagram(ls.remove(index as int))]);
                assert(some_state(views(added), cls, sigma, w) <==> extends(sigma, captures@)
                    && lcat(
                    seq![after(ls[index as int], character), lanagram(ls.remove(index as int))],
                ).contains(w));
            }
        }
        index += 1;
    }
    let ghost all = views(output@);
    let r = deduplicate_bound(output, Ghost(cls), Ghost(n));
    proof {
        assert forall|sigma: Seq<char>, w: Seq<char>| #[trigger]
            some_state(views(r@), cls, sigma, w) <==> extends(sigma, captures@) && lang(
                Re::Anagram(s),
                cls,
                Env::Bound(sigma),
            ).contains(seq![character] + w) by {
            assert(some_state(all, cls, sigma, w) == some_state(views(r@), cls, sigma, w));
            let ls = langs(s, cls, Env::Bound(sigma));
            lemma_lanagram_after(ls, character, w);
        }
    }
    r
}

/// One of the combinations matches `w` in all its parts.
spec fn some_combination(
    combined: Seq<(Seq<Re>, Seq<Option<char>>)>,
    classes: Seq<ClassView>,
    sigma: Seq<char>,
    w: Seq<char>,
) -> bool {
    exists|k: int|
        0 <= k < combined.len() && extends(sigma, (#[trigger] combined[k]).1) && lmeet(
            langs(combined[k].0, classes, Env::Bound(sigma)),
        ).contains(w)
}

/// Each combination has `m` well-formed parts and binds `n` groups.
spec fn combined_wf(combined: Seq<(Seq<Re>, Seq<Option<char>>)>, m: int, n: int) -> bool {
    forall|k: int|
        0 <= k < combined.len() ==> all_wf((#[trigger] combined[k]).0) && combined[k].0.len() == m
            && combined[k].1.len() == n
}

/// The combination of derivatives so far with each of the next states.
fn extend_combination(prefix: &Vec<Expr>, states: Vec<BoundState>) -> (r: Vec<Combination>)
    ensures
        views(r@) == Seq::new(
            views(states@).len(),
            |k: int| (views(prefix@).push(views(states@)[k].0), views(states@)[k].1),
        ),
{
    let ghost given = views(states@);
    let ghost all = Seq::new(
        given.len(),
        |k: int| (views(prefix@).push(given[k].0), given[k].1),
    );
    let mut todo = crate::ordered::reverse(states);
    let mut out: Vec<Combination> = Vec::new();
    while todo.len() > 0
        invariant
            todo@.len() + out@.len() == given.len(),
            forall|i: int|
                0 <= i < todo@.len() ==> #[trigger] todo@[i]@ == given[given.len() - 1 - i],
            all == Seq::new(given.len(), |k: int| (views(prefix@).push(given[k].0), given[k].1)),
            views(out@) == all.take(out@.len() as int),
        decreases todo.len(),
    {
        let ghost left = todo@;
        let ghost before = out@;
        let state = todo.pop().unwrap();
        let mut parts = duplicate_all(prefix, 0);
        let ghost copied = parts@;
        parts.push(state.expr);
        proof {
            assert(state@ == left[left.len() - 1]@);
            assert(views(copied) =~= views(prefix@));
            assert(views(parts@) =~= views(copied).push(state@.0));
            assert forall|i: int| 0 <= i < todo@.len() implies #[trigger] todo@[i]@
                == given[given.len() - 1 - i] by {
                assert(todo@[i] == left[i]);
            }
        }
        let joined = Combination { parts, captures: state.captures };
        out.push(joined);
        proof {
            assert(views(out@) =~= views(before).push(joined@));
            let n = before.len() as int;
            assert(all[n] == joined@);
            assert(all.take(n + 1) =~= all.take(n).push(all[n]));
        }
    }
    proof {
        assert(all.take(out@.len() as int) =~= all);
    }
    out
}

/// What extending one combination adds.
proof fn lemma_extended(
    prefix: Seq<Re>,
    bindings: Seq<Option<char>>,
    part: Re,
    c: char,
    classes: Seq<ClassView>,
    states: Seq<(Re, Seq<Option<char>>)>,
    added: Seq<(Seq<Re>, Seq<Option<char>>)>,
)
    requires
        bound_derivative(part, c, bindings, classes, states),
        all_wf(prefix),
        added == Seq::new(states.len(), |k: int| (prefix.push(states[k].0), states[k].1)),
    ensures
        combined_wf(added, (prefix.len() + 1) as int, bindings.len() as int),
        forall|sigma: Seq<char>, w: Seq<char>| #[trigger]
            some_combination(added, classes, sigma, w) <==> extends(sigma, bindings) && lmeet(
                langs(prefix, classes, Env::Bound(sigma)),
            ).contains(w) && lang(part, classes, Env::Bound(sigma)).contains(seq![c] + w),
{
    assert forall|k: int| 0 <= k < added.len() implies all_wf((#[trigger] added[k]).0)
        && added[k].0.len() == prefix.len() + 1 && added[k].1.len() == bindings.len() by {
        assert(re_wf(states[k].0));
        let parts = prefix.push(states[k].0);
        assert forall|i: int| 0 <= i < parts.len() implies re_wf(#[trigger] parts[i]) by {
            if i < prefix.len() {
                assert(parts[i] == prefix[i]);
            }
        }
    }
    assert forall|sigma: Seq<char>, w: Seq<char>| #[trigger]
        some_combination(added, classes, sigma, w) <==> extends(sigma, bindings) && lmeet(
            langs(prefix, classes, Env::Bound(sigma)),
        ).contains(w) && lang(part, classes, Env::Bound(sigma)).contains(seq![c] + w) by {
        let env = Env::Bound(sigma);
        let lp = langs(prefix, classes, env);
        assert(some_state(states, classes, sigma, w) <==> extends(sigma, bindings) && lang(
            part,
            classes,
            env,
        ).contains(seq![c] + w));
        if some_combination(added, classes, sigma, w) {
            let k = choose|k: int|
                0 <= k < added.len() && extends(sigma, (#[trigger] added[k]).1) && lmeet(
                    langs(added[k].0, classes, env),
                ).contains(w);
            let la = langs(added[k].0, classes, env);
            assert(la[prefix.len() as int].contains(w));
            assert(lang(states[k].0, classes, env).contains(w));
            assert(extends(sigma, states[k].1));
            assert forall|i: int| 0 <= i < lp.len() implies (#[trigger] lp[i]).contains(w) by {
                assert(la[i] == lp[i]);
            }
        }
        if some_state(states, classes, sigma, w) && lmeet(lp).contains(w) {
            let k = choose|k: int|
                0 <= k < states.len() && extends(sigma, (#[trigger] states[k]).1) && lang(
                    states[k].0,
                    classes,
                    env,
                ).contains(w);
            let la = langs(added[k].0, classes, env);
            assert forall|i: int| 0 <= i < la.len() implies (#[trigger] la[i]).contains(w) by {
                if i < prefix.len() {
                    assert(la[i] == lp[i]);
                }
            }
            assert(extends(sigma, added[k].1));
        }
    }
}

proof fn lemma_some_combination_append(
    a: Seq<(Seq<Re>, Seq<Option<char>>)>,
    b: Seq<(Seq<Re>, Seq<Option<char>>)>,
    classes: Seq<ClassView>,
    sigma: Seq<char>,
    w: Seq<char>,
)
    ensures
        some_combination(a + b, classes, sigma, w) <==> some_combination(a, classes, sigma, w)
            || some_combination(b, classes, sigma, w),
{
    let env = Env::Bound(sigma);
    if some_combination(a + b, classes, sigma, w) {
        let k = choose|k: int|
            0 <= k < (a + b).len() && extends(sigma, (#[trigger] (a + b)[k]).1) && lmeet(
                langs((a + b)[k].0, classes, env),
            ).contains(w);
        if k < a.len() {
            assert(a[k] == (a + b)[k]);
        } else {
            assert(b[k - a.len()] == (a + b)[k]);
        }
    }
    if some_combination(a, classes, sigma, w) {
        let k = choose|k: int|
            0 <= k < a.len() && extends(sigma, (#[trigger] a[k]).1) && lmeet(
                langs(a[k].0, classes, env),
            ).contains(w);
        assert((a + b)[k] == a[k]);
    }
    if some_combination(b, classes, sigma, w) {
        let k = choose|k: int|
            0 <= k < b.len() && extends(sigma, (#[trigger] b[k]).1) && lmeet(
                langs(b[k].0, classes, env),
            ).contains(w);
        assert((a + b)[k + a.len()] == b[k]);
    }
}

/// Every combination so far, extended by the states of one more part.
#[verifier::rlimit(50)]
fn combine_next(
    combined: &Vec<Combination>,
    part: &Expr,
    character: char,
    classes: &[CharacterClass],
    Ghost(m): Ghost<int>,
    Ghost(n): Ghost<int>,
) -> (next: Vec<Combination>)
    requires
        classes_wf(views(classes@)),
        re_wf(part@),
        combined_wf(views(combined@), m, n),
    ensures
        combined_wf(views(next@), m + 1, n),
        forall|sigma: Seq<char>, w: Seq<char>| #[trigger]
            some_combination(views(next@), views(classes@), sigma, w) <==> some_combination(
                views(combined@),
                views(classes@),
                sigma,
                w,
            ) && lang(part@, views(classes@), Env::Bound(sigma)).contains(seq![character] + w),
    decreases part, 1nat,
{
    let ghost cls = views(classes@);
    let ghost given = views(combined@);
    let mut next: Vec<Combination> = Vec::new();
    let mut k: usize = 0;
    assert(given.take(0) =~= Seq::empty());
    while k < combined.len()
        invariant
            k <= combined.len(),
            classes_wf(views(classes@)),
            re_wf(part@),
            cls == views(classes@),
            given == views(combined@),
            combined_wf(given, m, n),
            combined_wf(views(next@), m + 1, n),
            forall|sigma: Seq<char>, w: Seq<char>| #[trigger]
                some_combination(views(next@), cls, sigma, w) <==> some_combination(
                    given.take(k as int),
                    cls,
                    sigma,
                    w,
                ) && lang(part@, cls, Env::Bound(sigma)).contains(seq![character] + w),
        decreases combined.len() - k,
    {
        let ghost here = given[k as int];
        assert(all_wf(here.0));
        assert(here == (views(combined@[k as int].parts@), combined@[k as int].captures@));
        let states = derive_bound(part, character, &combined[k].captures, classes);
        let ghost found = views(states@);
        let mut more = extend_combination(&combined[k].parts, states);
        let ghost before = next@;
        let ghost added = more@;
        proof {
            lemma_extended(here.0, here.1, part@, character, cls, found, views(added));
        }
        next.append(&mut more);
        proof {
            assert(views(next@) =~= views(before) + views(added));
            assert forall|i: int| 0 <= i < views(next@).len() implies all_wf(
                (#[trigger] views(next@)[i]).0,
            ) && views(next@)[i].0.len() == m + 1 && views(next@)[i].1.len() == n by {
                if i < before.len() {
                    assert(views(next@)[i] == views(before)[i]);
                } else {
                    assert(views(next@)[i] == views(added)[i - before.len()]);
                }
            }
            assert(given.take(k + 1) =~= given.take(k as int) + seq![here]);
            assert forall|sigma: Seq<char>, w: Seq<char>| #[trigger]
                some_combination(views(next@), cls, sigma, w) <==> some_combination(
                    given.take(k + 1),
                    cls,
                    sigma,
                    w,
                ) && lang(part@, cls, Env::Bound(sigma)).contains(seq![character] + w) by {
                lemma_some_combination_append(views(before), views(added), cls, sigma, w);
                lemma_some_combination_append(given.take(k as int), seq![here], cls, sigma, w);
                assert(some_combination(seq![here], cls, sigma, w) <==> extends(sigma, here.1)
                    && lmeet(langs(here.0, cls, Env::Bound(sigma))).contains(w)) by {
                    assert(seq![here][0] == here);
                }
                assert(some_combination(views(before), cls, sigma, w) <==> some_combination(
                    given.take(k as int),
                    cls,
                    sigma,
                    w,
                ) && lang(part@, cls, Env::Bound(sigma)).contains(seq![character] + w));
            }
        }
        k += 1;
    }
    proof {
        assert(given.take(k as int) =~= given);
    }
    next
}

/// The intersections of the combinations.
fn intersect_each(combined: Vec<Combination>) -> (r: Vec<BoundState>)
    ensures
        views(r@) == Seq::new(
            views(combined@).len(),
            |k: int| (re_intersect(views(combined@)[k].0), views(combined@)[k].1),
        ),
{
    let ghost given = views(combined@);
    let ghost all = Seq::new(given.len(), |k: int| (re_intersect(given[k].0), given[k].1));
    let mut todo = crate::ordered::reverse(combined);
    let mut out: Vec<BoundState> = Vec::new();
    while todo.len() > 0
        invariant
            todo@.len() + out@.len() == given.len(),
            forall|i: int|
                0 <= i < todo@.len() ==> #[trigger] todo@[i]@ == given[given.len() - 1 - i],
            all == Seq::new(given.len(), |k: int| (re_intersect(given[k].0), given[k].1)),
            views(out@) == all.take(out@.len() as int),
        decreases todo.len(),
    {
        let ghost left = todo@;
        let ghost before = out@;
        let one = todo.pop().unwrap();
        proof {
            assert(one@ == left[left.len() - 1]@);
            assert forall|i: int| 0 <= i < todo@.len() implies #[trigger] todo@[i]@
                == given[given.len() - 1 - i] by {
                assert(todo@[i] == left[i]);
            }
        }
        let joined = BoundState { expr: Expr::intersect(one.parts), captures: one.captures };
        out.push(joined);
        proof {
            assert(views(out@) =~= views(before).push(joined@));
            let n = before.len() as int;
            assert(all[n] == joined@);
            assert(all.take(n + 1) =~= all.take(n).push(all[n]));
        }
    }
    proof {
        assert(all.take(out@.len() as int) =~= all);
    }
    out
}

#[verifier::rlimit(50)]
fn derive_intersection_bound(
    parts: &Vec<Expr>,
    character: char,
    captures: &Vec<Option<char>>,
    classes: &[CharacterClass],
) -> (r: Vec<BoundState>)
    requires
        classes_wf(views(classes@)),
        all_wf(views(parts@)),
        parts@.len() > 0,
    ensures
        bound_derivative(
            Re::Intersect(views(parts@)),
            character,
            captures@,
            views(classes@),
            views(r@),
        ),
    decreases parts, 0nat,
{
    let ghost cls = views(classes@);
    let ghost s: Seq<Re> = views(parts@);
    let ghost n = captures@.len() as int;
    let none: Vec<Expr> = Vec::new();
    let start = Combination { parts: none, captures: duplicate_captures(captures) };
    let mut combined: Vec<Combination> = vec![start];
    let mut i: usize = 0;
    proof {
        assert(views(combined@)[0] == (views(none@), captures@));
        assert(views(none@) =~= Seq::empty());
        assert forall|sigma: Seq<char>, w: Seq<char>| #[trigger]
            some_combination(views(combined@), cls, sigma, w) <==> extends(sigma, captures@)
                && matches_until(s, 0, cls, sigma, seq![character] + w) by {
            assert(extends(sigma, views(combined@)[0].1) == extends(sigma, captures@));
        }
    }
    while i < parts.len()
        invariant
            i <= parts.len(),
            classes_wf(views(classes@)),
            all_wf(s),
            s == views(parts@),
            cls == views(classes@),
            n == captures@.len(),
            combined_wf(views(combined@), i as int, n),
            forall|sigma: Seq<char>, w: Seq<char>| #[trigger]
                some_combination(views(combined@), cls, sigma, w) <==> extends(sigma, captures@)
                    && matches_until(s, i as int, cls, sigma, seq![character] + w),
        decreases parts.len() - i,
    {
        assert(re_wf(s[i as int]));
        let next = combine_next(
            &combined,
            &parts[i],
            character,
            classes,
            Ghost(i as int),
            Ghost(n),
        );
        proof {
            assert forall|sigma: Seq<char>, w: Seq<char>| #[trigger]
                some_combination(views(next@), cls, sigma, w) <==> extends(sigma, captures@)
                    && matches_until(s, i + 1, cls, sigma, seq![character] + w) by {
                assert(some_combination(views(combined@), cls, sigma, w) <==> extends(
                    sigma,
                    captures@,
                ) && matches_until(s, i as int, cls, sigma, seq![character] + w));
            }
        }
        combined = next;
        i += 1;
    }
    let ghost done = views(combined@);
    let each = intersect_each(combined);
    let ghost all = views(each@);
    proof {
        assert forall|k: int| 0 <= k < all.len() implies re_wf((#[trigger] all[k]).0)
            && all[k].1.len() == n by {
            assert(all_wf(done[k].0));
            lemma_normal_wf(done[k].0);
        }
    }
    let r = deduplicate_bound(each, Ghost(cls), Ghost(n));
    proof {
        assert forall|sigma: Seq<char>, w: Seq<char>| #[trigger]
            some_state(views(r@), cls, sigma, w) <==> extends(sigma, captures@) && lang(
                Re::Intersect(s),
                cls,
                Env::Bound(sigma),
            ).contains(seq![character] + w) by {
            let env = Env::Bound(sigma);
            let cw = seq![character] + w;
            assert(some_state(all, cls, sigma, w) == some_state(views(r@), cls, sigma, w));
            assert(some_state(all, cls, sigma, w) <==> some_combination(done, cls, sigma, w)) by {
                if some_state(all, cls, sigma, w) {
                    let k = choose|k: int|
                        0 <= k < all.len() && extends(sigma, (#[trigger] all[k]).1) && lang(
                            all[k].0,
                            cls,
                            env,
                        ).contains(w);
                    assert(all_wf(done[k].0));
                    lemma_intersect_lang(done[k].0, cls, env);
                    assert(extends(sigma, done[k].1));
                }
                if some_combination(done, cls, sigma, w) {
                    let k = choose|k: int|
                        0 <= k < done.len() && extends(sigma, (#[trigger] done[k]).1) && lmeet(
                            langs(done[k].0, cls, env),
                        ).contains(w);
                    assert(all_wf(done[k].0));
                    lemma_intersect_lang(done[k].0, cls, env);
                    assert(extends(sigma, all[k].1));
                }
            }
            let ls = langs(s, cls, env);
            if matches_until(s, s.len() as int, cls, sigma, cw) {
                assert forall|j: int| 0 <= j < ls.len() implies (#[trigger] ls[j]).contains(cw) by {
                    assert(lang(s[j], cls, env).contains(cw));
                }
            }
            if lmeet(ls).contains(cw) {
                assert forall|j: int| 0 <= j < s.len() implies lang(
                    #[trigger] s[j],
                    cls,
                    env,
                ).contains(cw) by {
                    assert(ls[j].contains(cw));
                }
            }
        }
    }
    r
}

/// The first `n` expressions all match `w` under the choice `sigma`.
spec fn matches_until(
    s: Seq<Re>,
    n: int,
    classes: Seq<ClassView>,
    sigma: Seq<char>,
    w: Seq<char>,
) -> bool {
    forall|j: int|
        0 <= j < n ==> lang(#[trigger] s[j], classes, Env::Bound(sigma)).contains(w)
}

} // verus!
