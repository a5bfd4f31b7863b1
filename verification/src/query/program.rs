//! Parsed queries and their matching.
use crate::chinese::han::{all_han, are_all_han};
use crate::ordered::views;
use crate::query::bound::{derive_bound, extends, some_state, states_wf, BoundState};
use crate::query::class::{CharacterClass, ClassView};
use crate::query::derive::{classes_wf, lemma_derive_lang, lemma_derive_wf, re_derive};
use crate::query::expr::{Expr, Re};
use crate::query::language::after;
use crate::query::normal::{lang, lemma_nullable_lang, re_nullable, re_wf, Env};
use crate::text::chars_of;
use vstd::prelude::*;

verus! {

/// A parsed query, with its character classes and the number of its groups.
#[derive(Clone, Debug, PartialEq, Eq)]
pub struct Program {
    pub expr: Expr,
    pub classes: Vec<CharacterClass>,
    pub capture_count: u32,
}

/// The mathematical content of a [`Program`].
pub struct ProgramView {
    pub expr: Re,
    pub classes: Seq<ClassView>,
    pub capture_count: u32,
}

impl View for Program {
    type V = ProgramView;

    open spec fn view(&self) -> ProgramView {
        ProgramView {
            expr: self.expr@,
            classes: views(self.classes@),
            capture_count: self.capture_count,
        }
    }
}

impl ProgramView {
    /// The classes and the expression are well formed.
    pub open spec fn wf(self) -> bool {
        classes_wf(self.classes) && re_wf(self.expr)
    }

    /// `w` matches, where a group may stand for any character at each place.
    pub open spec fn accepts_approx(self, w: Seq<char>) -> bool {
        lang(self.expr, self.classes, Env::Free).contains(w)
    }

    /// `w` is made of characters of the repertoire and matches, where each
    /// group stands for one character.
    pub open spec fn accepts(self, w: Seq<char>) -> bool {
        all_han(w) && exists|sigma: Seq<char>|
            sigma.len() == self.capture_count && #[trigger] lang(
                self.expr,
                self.classes,
                Env::Bound(sigma),
            ).contains(w)
    }
}

/// The expression that is left after the characters of `w`, one by one.
pub open spec fn derive_string(re: Re, w: Seq<char>, classes: Seq<ClassView>) -> Re
    decreases w.len(),
{
    if w.len() == 0 {
        re
    } else {
        re_derive(derive_string(re, w.drop_last(), classes), w.last(), classes)
    }
}

/// What is left after a string matches what may follow the string.
pub proof fn lemma_derive_string(re: Re, w: Seq<char>, classes: Seq<ClassView>, v: Seq<char>)
    requires
        re_wf(re),
    ensures
        re_wf(derive_string(re, w, classes)),
        lang(derive_string(re, w, classes), classes, Env::Free).contains(v) <==> lang(
            re,
            classes,
            Env::Free,
        ).contains(w + v),
    decreases w.len(),
{
    if w.len() == 0 {
        assert(w + v =~= v);
    } else {
        let init = w.drop_last();
        let before = derive_string(re, init, classes);
        lemma_derive_string(re, init, classes, seq![w.last()] + v);
        lemma_derive_wf(before, w.last(), classes);
        lemma_derive_lang(before, w.last(), classes);
        assert(init + (seq![w.last()] + v) =~= w + v);
    }
}

/// The states that are left after a further character.
fn advance(
    states: &Vec<BoundState>,
    character: char,
    classes: &[CharacterClass],
    Ghost(n): Ghost<int>,
) -> (r: Vec<BoundState>)
    requires
        classes_wf(views(classes@)),
        states_wf(views(states@), n),
    ensures
        states_wf(views(r@), n),
        forall|sigma: Seq<char>, w: Seq<char>| #[trigger]
            some_state(views(r@), views(classes@), sigma, w) <==> some_state(
                views(states@),
                views(classes@),
                sigma,
                seq![character] + w,
            ),
{
    let ghost cls = views(classes@);
    let ghost given = views(states@);
    let mut next: Vec<BoundState> = Vec::new();
    let mut i: usize = 0;
    while i < states.len()
        invariant
            i <= states.len(),
            cls == views(classes@),
            given == views(states@),
            classes_wf(cls),
            states_wf(given, n),
            states_wf(views(next@), n),
            forall|sigma: Seq<char>, w: Seq<char>| #[trigger]
                some_state(views(next@), cls, sigma, w) <==> some_state(
                    given.take(i as int),
                    cls,
                    sigma,
                    seq![character] + w,
                ),
        decreases states.len() - i,
    {
        let ghost here = given[i as int];
        assert(re_wf(here.0) && here.1.len() == n);
        let found = derive_bound(&states[i].expr, character, &states[i].captures, classes);
        let ghost all = views(found@);
        let mut alive = live_states(found, Ghost(n), Ghost(cls));
        let ghost before = next@;
        let ghost added = alive@;
        next.append(&mut alive);
        proof {
            assert(views(next@) =~= views(before) + views(added));
            assert forall|k: int| 0 <= k < views(next@).len() implies re_wf(
                (#[trigger] views(next@)[k]).0,
            ) && views(next@)[k].1.len() == n by {
                if k < before.len() {
                    assert(views(next@)[k] == views(before)[k]);
                } else {
                    assert(views(next@)[k] == views(added)[k - before.len()]);
                }
            }
            assert(given.take(i + 1) =~= given.take(i as int) + seq![here]);
            assert forall|sigma: Seq<char>, w: Seq<char>| #[trigger]
                some_state(views(next@), cls, sigma, w) <==> some_state(
                    given.take(i + 1),
                    cls,
                    sigma,
                    seq![character] + w,
                ) by {
                let cw = seq![character] + w;
                crate::query::bound::lemma_some_state_append(
                    views(before),
                    views(added),
                    cls,
                    sigma,
                    w,
                );
                crate::query::bound::lemma_some_state_append(
                    given.take(i as int),
                    seq![here],
                    cls,
                    sigma,
                    cw,
                );
                assert(some_state(views(added), cls, sigma, w) == some_state(all, cls, sigma, w));
                assert(some_state(seq![here], cls, sigma, cw) <==> extends(sigma, here.1) && lang(
                    here.0,
                    cls,
                    Env::Bound(sigma),
                ).contains(cw)) by {
                    assert(seq![here][0] == here);
                }
                assert(some_state(views(before), cls, sigma, w) <==> some_state(
                    given.take(i as int),
                    cls,
                    sigma,
                    cw,
                ));
            }
        }
        i += 1;
    }
    proof {
        assert(given.take(i as int) =~= given);
    }
    crate::query::bound::deduplicate_bound(next, Ghost(cls), Ghost(n))
}

/// The states that still match something by their form.
fn live_states(
    states: Vec<BoundState>,
    Ghost(n): Ghost<int>,
    Ghost(classes): Ghost<Seq<ClassView>>,
) -> (r: Vec<BoundState>)
    requires
        states_wf(views(states@), n),
    ensures
        states_wf(views(r@), n),
        forall|sigma: Seq<char>, w: Seq<char>| #[trigger]
            some_state(views(r@), classes, sigma, w) == some_state(
                views(states@),
                classes,
                sigma,
                w,
            ),
{
    let ghost given = views(states@);
    let mut todo = states;
    let mut kept: Vec<BoundState> = Vec::new();
    assert(given.take(todo@.len() as int) =~= given);
    while todo.len() > 0
        invariant
            states_wf(given, n),
            todo@.len() <= given.len(),
            views(todo@) == given.take(todo@.len() as int),
            states_wf(views(kept@), n),
            forall|sigma: Seq<char>, w: Seq<char>|
                #![trigger some_state(views(kept@), classes, sigma, w)]
                #![trigger some_state(given, classes, sigma, w)]
                some_state(given, classes, sigma, w) == (some_state(
                    views(todo@),
                    classes,
                    sigma,
                    w,
                ) || some_state(views(kept@), classes, sigma, w)),
        decreases todo.len(),
    {
        let ghost left = views(todo@);
        let ghost before = views(kept@);
        let ghost here = left[left.len() - 1];
        let state = todo.pop().unwrap();
        proof {
            assert(here == given[left.len() - 1]);
            assert(state@ == here);
            assert(views(todo@) =~= left.drop_last());
            assert(views(todo@) =~= given.take(todo@.len() as int));
            assert(left =~= left.drop_last() + seq![here]);
        }
        if !state.expr.is_dead() {
            kept.push(state);
            proof {
                assert(views(kept@) =~= before + seq![here]);
                assert forall|k: int| 0 <= k < views(kept@).len() implies re_wf(
                    (#[trigger] views(kept@)[k]).0,
                ) && views(kept@)[k].1.len() == n by {
                    if k < before.len() {
                        assert(views(kept@)[k] == before[k]);
                    }
                }
                assert forall|sigma: Seq<char>, w: Seq<char>|
                    #![trigger some_state(views(kept@), classes, sigma, w)]
                    #![trigger some_state(given, classes, sigma, w)]
                    some_state(given, classes, sigma, w) == (some_state(
                        views(todo@),
                        classes,
                        sigma,
                        w,
                    ) || some_state(views(kept@), classes, sigma, w)) by {
                    crate::query::bound::lemma_some_state_append(
                        left.drop_last(),
                        seq![here],
                        classes,
                        sigma,
                        w,
                    );
                    crate::query::bound::lemma_some_state_append(
                        before,
                        seq![here],
                        classes,
                        sigma,
                        w,
                    );
                    assert(some_state(given, classes, sigma, w) == (some_state(
                        left,
                        classes,
                        sigma,
                        w,
                    ) || some_state(before, classes, sigma, w)));
                }
            }
        } else {
            proof {
                assert forall|sigma: Seq<char>, w: Seq<char>|
                    #![trigger some_state(views(kept@), classes, sigma, w)]
                    #![trigger some_state(given, classes, sigma, w)]
                    some_state(given, classes, sigma, w) == (some_state(
                        views(todo@),
                        classes,
                        sigma,
                        w,
                    ) || some_state(views(kept@), classes, sigma, w)) by {
                    crate::query::bound::lemma_some_state_append(
                        left.drop_last(),
                        seq![here],
                        classes,
                        sigma,
                        w,
                    );
                    assert(some_state(given, classes, sigma, w) == (some_state(
                        left,
                        classes,
                        sigma,
                        w,
                    ) || some_state(before, classes, sigma, w)));
                }
            }
        }
    }
    kept
}

/// No group bound, for each of `n` groups.
fn unbound(n: u32) -> (r: Vec<Option<char>>)
    ensures
        r@ == Seq::new(n as nat, |i: int| None::<char>),
{
    let mut r: Vec<Option<char>> = Vec::new();
    let mut i: u32 = 0;
    while i < n
        invariant
            i <= n,
            r@ == Seq::new(i as nat, |i: int| None::<char>),
        decreases n - i,
    {
        r.push(None);
        proof {
            assert(r@ =~= Seq::new((i + 1) as nat, |i: int| None::<char>));
        }
        i += 1;
    }
    r
}

/// The choice that keeps the bindings, with one character for the others.
spec fn completion(captures: Seq<Option<char>>) -> Seq<char> {
    Seq::new(
        captures.len(),
        |g: int|
            match captures[g] {
                Some(c) => c,
                None => 'a',
            },
    )
}

impl Program {
    /// The whole expression.
    pub fn root(&self) -> (r: &Expr)
        ensures
            *r == self.expr,
    {
        &self.expr
    }

    /// Whether an expression matches the empty string.
    pub fn nullable(&self, expression: &Expr) -> (r: bool)
        ensures
            r == re_nullable(expression@),
    {
        expression.nullable()
    }

    /// Whether an expression is the one that matches nothing.
    pub fn is_dead(&self, expression: &Expr) -> (r: bool)
        ensures
            r == (expression@ == Re::Empty),
    {
        expression.is_dead()
    }

    /// What is left of an expression to match after a character.
    pub fn derive_approx(&self, expression: &Expr, character: char) -> (r: Expr)
        requires
            self@.wf(),
        ensures
            r@ == re_derive(expression@, character, self@.classes),
    {
        expression.derive_approx(character, self.classes.as_slice())
    }

    /// Whether the whole input matches, where a group may stand for any
    /// character at each place.
    pub fn matches_approx(&self, input: &str) -> (r: bool)
        requires
            self@.wf(),
        ensures
            r == self@.accepts_approx(input@),
    {
        let chars = chars_of(input);
        let mut state = self.expr.duplicate();
        let mut i: usize = 0;
        while i < chars.len()
            invariant
                i <= chars.len(),
                chars@ == input@,
                self@.wf(),
                state@ == derive_string(self@.expr, chars@.take(i as int), self@.classes),
            decreases chars.len() - i,
        {
            let next = self.derive_approx(&state, chars[i]);
            proof {
                assert(chars@.take(i + 1).drop_last() =~= chars@.take(i as int));
            }
            state = next;
            i += 1;
            if state.is_dead() {
                proof {
                    lemma_derive_string(
                        self@.expr,
                        chars@.take(i as int),
                        self@.classes,
                        chars@.skip(i as int),
                    );
                    assert(chars@.take(i as int) + chars@.skip(i as int) =~= chars@);
                }
                return false;
            }
        }
        proof {
            assert(chars@.take(i as int) =~= chars@);
            lemma_derive_string(self@.expr, chars@, self@.classes, Seq::empty());
            assert(chars@ + Seq::<char>::empty() =~= chars@);
            lemma_nullable_lang(state@, self@.classes, Env::Free);
        }
        state.nullable()
    }

    /// Whether the whole input matches, with each group standing for one
    /// character.
    #[verifier::rlimit(50)]
    pub fn matches(&self, input: &str) -> (r: bool)
        requires
            self@.wf(),
        ensures
            r == self@.accepts(input@),
    {
        let chars = chars_of(input);
        if !are_all_han(chars.as_slice()) {
            return false;
        }
        let ghost cls = self@.classes;
        let ghost n = self.capture_count as int;
        let ghost re = self@.expr;
        let first = BoundState {
            expr: self.expr.duplicate(),
            captures: unbound(self.capture_count),
        };
        let mut states: Vec<BoundState> = vec![first];
        let mut i: usize = 0;
        proof {
            assert(views(states@)[0] == (re, first.captures@));
            assert forall|sigma: Seq<char>, w: Seq<char>| #[trigger]
                some_state(views(states@), cls, sigma, w) <==> sigma.len() == n && lang(
                    re,
                    cls,
                    Env::Bound(sigma),
                ).contains(chars@.take(0) + w) by {
                assert(chars@.take(0) + w =~= w);
                assert(extends(sigma, views(states@)[0].1) <==> sigma.len() == n);
            }
        }
        while i < chars.len()
            invariant
                i <= chars.len(),
                self@.wf(),
                chars@ == input@,
                cls == self@.classes,
                n == self.capture_count,
                re == self@.expr,
                states_wf(views(states@), n),
                forall|sigma: Seq<char>, w: Seq<char>| #[trigger]
                    some_state(views(states@), cls, sigma, w) <==> sigma.len() == n && lang(
                        re,
                        cls,
                        Env::Bound(sigma),
                    ).contains(chars@.take(i as int) + w),
            decreases chars.len() - i,
        {
            let c = chars[i];
            let next = advance(&states, c, self.classes.as_slice(), Ghost(n));
            proof {
                assert forall|sigma: Seq<char>, w: Seq<char>| #[trigger]
                    some_state(views(next@), cls, sigma, w) <==> sigma.len() == n && lang(
                        re,
                        cls,
                        Env::Bound(sigma),
                    ).contains(chars@.take(i + 1) + w) by {
                    assert(chars@.take(i as int) + (seq![c] + w) =~= chars@.take(i + 1) + w);
                    assert(some_state(views(states@), cls, sigma, seq![c] + w) <==> sigma.len()
                        == n && lang(re, cls, Env::Bound(sigma)).contains(
                        chars@.take(i as int) + (seq![c] + w),
                    ));
                }
            }
            if next.len() == 0 {
                proof {
                    assert(!self@.accepts(input@)) by {
                        if self@.accepts(input@) {
                            let sigma = choose|sigma: Seq<char>|
                                sigma.len() == self.capture_count && #[trigger] lang(
                                    re,
                                    cls,
                                    Env::Bound(sigma),
                                ).contains(input@);
                            let rest = chars@.skip(i + 1);
                            assert(chars@.take(i + 1) + rest =~= chars@);
                            assert(some_state(views(next@), cls, sigma, rest));
                        }
                    }
                }
                return false;
            }
            states = next;
            i += 1;
        }
        let mut k: usize = 0;
        let ghost all = views(states@);
        let ghost e = Seq::<char>::empty();
        proof {
            assert(chars@.take(i as int) + e =~= chars@);
        }
        while k < states.len()
            invariant
                k <= states.len(),
                all == views(states@),
                states_wf(all, n),
                forall|j: int| 0 <= j < k ==> !re_nullable((#[trigger] all[j]).0),
                e == Seq::<char>::empty(),
                cls == self@.classes,
                n == self.capture_count,
                re == self@.expr,
                all_han(input@),
                forall|sigma: Seq<char>| #[trigger]
                    some_state(all, cls, sigma, e) <==> sigma.len() == n && lang(
                        re,
                        cls,
                        Env::Bound(sigma),
                    ).contains(input@),
            decreases states.len() - k,
        {
            if states[k].expr.nullable() {
                proof {
                    let sigma = completion(all[k as int].1);
                    assert(all[k as int].1.len() == n);
                    assert(extends(sigma, all[k as int].1));
                    lemma_nullable_lang(all[k as int].0, cls, Env::Bound(sigma));
                    assert(some_state(all, cls, sigma, e));
                    assert(lang(re, cls, Env::Bound(sigma)).contains(input@));
                }
                return true;
            }
            k += 1;
        }
        proof {
            if self@.accepts(input@) {
                let sigma = choose|sigma: Seq<char>|
                    sigma.len() == self.capture_count && #[trigger] lang(
                        re,
                        cls,
                        Env::Bound(sigma),
                    ).contains(input@);
                assert(some_state(all, cls, sigma, e));
                let j = choose|j: int|
                    0 <= j < all.len() && extends(sigma, (#[trigger] all[j]).1) && lang(
                        all[j].0,
                        cls,
                        Env::Bound(sigma),
                    ).contains(e);
                lemma_nullable_lang(all[j].0, cls, Env::Bound(sigma));
            }
        }
        false
    }

    /// The class with this number.
    pub fn class(&self, id: u32) -> (r: Option<&CharacterClass>)
        ensures
            match r {
                Some(class) => id < self.classes@.len() && *class == self.classes@[id as int],
                None => id >= self.classes@.len(),
            },
    {
        let place: usize = id as usize;
        if place < self.classes.len() {
            Some(&self.classes[place])
        } else {
            None
        }
    }
}

} // verus!
