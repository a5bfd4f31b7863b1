//! The states of a query that a search meets, numbered, with the steps between
//! them.
use crate::ordered::views;
use crate::query::derive::{lemma_derive_wf, re_derive};
use crate::query::expr::{lemma_re_total_order, place, re_leq, Expr, Place, Re};
use crate::query::normal::{re_nullable, re_wf};
use crate::query::program::Program;
use crate::search::types::{SearchError, SearchErrorView};
use std::collections::HashMap;
use vstd::prelude::*;
use vstd::std_specs::hash::obeys_key_model;

verus! {

/// The states met so far, and the steps taken between them.
pub struct DerivativeMachine<'a> {
    program: &'a Program,
    states: Vec<Expr>,
    /// The numbers of the states, in the order of the states.
    order: Vec<u32>,
    transitions: HashMap<u64, Option<u32>>,
    max_states: usize,
}

/// The number of a step.
spec fn step_key(state: u32, c: char) -> u64 {
    (state as int * 0x11_0000 + c as int) as u64
}

proof fn lemma_step_key(a: u32, c: char, b: u32, d: char)
    ensures
        step_key(a, c) == a as int * 0x11_0000 + c as int,
        step_key(a, c) == step_key(b, d) ==> a == b && c == d,
{
    assert(c as int <= 0x10_FFFF);
    assert(d as int <= 0x10_FFFF);
    if step_key(a, c) == step_key(b, d) {
        assert(a as int * 0x11_0000 + c as int == b as int * 0x11_0000 + d as int);
        assert(a == b);
        assert(c as u32 == d as u32);
    }
}

/// What a step leads to: a state with the derivative, or none where nothing is
/// left to match.
spec fn leads(states: Seq<Re>, from: int, c: char, classes: Seq<crate::query::class::ClassView>, to: Option<
    u32,
>) -> bool {
    let next = re_derive(states[from], c, classes);
    match to {
        None => next == Re::Empty,
        Some(id) => next != Re::Empty && id < states.len() && states[id as int] == next,
    }
}

/// The numbers list every state once, in the order of the states.
spec fn order_ok(states: Seq<Re>, order: Seq<u32>) -> bool {
    &&& order.len() == states.len()
    &&& forall|i: int| 0 <= i < order.len() ==> (#[trigger] order[i]) < states.len()
    &&& forall|i: int, j: int|
        0 <= i < j < order.len() ==> re_leq(
            states[#[trigger] order[i] as int],
            states[#[trigger] order[j] as int],
        ) && states[order[i] as int] != states[order[j] as int]
    &&& forall|id: int| 0 <= id < states.len() ==> #[trigger] listed(order, id)
}

/// The number is one of the list.
spec fn listed(order: Seq<u32>, id: int) -> bool {
    exists|i: int| 0 <= i < order.len() && #[trigger] order[i] == id
}

impl<'a> DerivativeMachine<'a> {
    /// The states met so far.
    pub closed spec fn states(&self) -> Seq<Re> {
        views(self.states@)
    }

    /// The query.
    pub closed spec fn program(&self) -> Program {
        *self.program
    }

    /// The largest number of states.
    pub closed spec fn max_states(&self) -> usize {
        self.max_states
    }

    /// The states are well formed, and every step recorded is right.
    pub closed spec fn wf(&self) -> bool {
        let states: Seq<Re> = views(self.states@);
        &&& self.program@.wf()
        &&& 0 < states.len() <= self.max_states <= u32::MAX
        &&& forall|i: int| 0 <= i < states.len() ==> re_wf(#[trigger] states[i])
        &&& order_ok(states, self.order@)
        &&& obeys_key_model::<u64>()
        &&& forall|state: u32, c: char|
            self.transitions@.contains_key(#[trigger] step_key(state, c)) ==> state < states.len()
                && leads(
                states,
                state as int,
                c,
                self.program@.classes,
                self.transitions@[step_key(state, c)],
            )
    }

    pub proof fn lemma_wf(&self)
        requires
            self.wf(),
        ensures
            self.program()@.wf(),
            0 < self.states().len() <= self.max_states() <= u32::MAX,
            forall|i: int| 0 <= i < self.states().len() ==> re_wf(#[trigger] self.states()[i]),
            self.states().no_duplicates(),
    {
        let states = self.states();
        let order = self.order@;
        assert forall|i: int, j: int|
            0 <= i < states.len() && 0 <= j < states.len() && i != j implies states[i]
            != states[j] by {
            assert(listed(order, i) && listed(order, j));
            let a = choose|a: int| 0 <= a < order.len() && #[trigger] order[a] == i;
            let b = choose|b: int| 0 <= b < order.len() && #[trigger] order[b] == j;
            if a < b {
                assert(states[order[a] as int] != states[order[b] as int]);
            } else {
                assert(states[order[b] as int] != states[order[a] as int]);
            }
        }
    }

    /// A machine at the start of a query.
    pub fn new(program: &'a Program, max_states: usize) -> (r: Result<Self, SearchError>)
        requires
            program@.wf(),
        ensures
            match r {
                Ok(m) => 0 < max_states <= u32::MAX && m.wf() && m.program() == *program
                    && m.max_states() == max_states && m.states() == seq![program@.expr],
                Err(e) => (max_states == 0 || max_states > u32::MAX) && e@
                    == SearchErrorView::InvalidOptions("max_states 必须在 1..=u32::MAX 范围内"@),
            },
    {
        broadcast use vstd::std_specs::hash::group_hash_axioms;

        if max_states == 0 || max_states as u64 > u32::MAX as u64 {
            return Err(
                SearchError::InvalidOptions("max_states 必须在 1..=u32::MAX 范围内".to_owned()),
            );
        }
        let root = program.root().duplicate();
        let states: Vec<Expr> = vec![root];
        let order: Vec<u32> = vec![0u32];
        proof {
            assert(views(states@) =~= seq![program@.expr]);
            assert(order@[0] == 0);
            assert(listed(order@, 0));
        }
        Ok(
            DerivativeMachine {
                program,
                states,
                order,
                transitions: HashMap::new(),
                max_states,
            },
        )
    }

    /// The number of states met so far.
    pub fn state_count(&self) -> (r: usize)
        ensures
            r == self.states().len(),
    {
        self.states.len()
    }

    /// Whether the query may end in a state.
    pub fn nullable(&self, state: u32) -> (r: bool)
        requires
            state < self.states().len(),
        ensures
            r == re_nullable(self.states()[state as int]),
    {
        self.program.nullable(&self.states[state as usize])
    }

    /// Where a state stands, or would stand, in the order.
    fn locate(&self, wanted: &Expr) -> (r: (usize, bool))
        requires
            self.wf(),
        ensures
            r.0 <= self.order@.len(),
            r.1 ==> r.0 < self.order@.len() && self.states()[self.order@[r.0 as int] as int]
                == wanted@,
            !r.1 ==> {
                &&& forall|i: int|
                    0 <= i < r.0 ==> re_leq(
                        self.states()[#[trigger] self.order@[i] as int],
                        wanted@,
                    ) && self.states()[self.order@[i] as int] != wanted@
                &&& forall|i: int|
                    r.0 <= i < self.order@.len() ==> re_leq(
                        wanted@,
                        self.states()[#[trigger] self.order@[i] as int],
                    ) && self.states()[self.order@[i] as int] != wanted@
            },
    {
        let ghost states: Seq<Re> = views(self.states@);
        let ghost order = self.order@;
        let ghost w = wanted@;
        let mut low: usize = 0;
        let mut high: usize = self.order.len();
        while low < high
            invariant
                low <= high <= order.len(),
                states == views(self.states@),
                order == self.order@,
                w == wanted@,
                order_ok(states, order),
                forall|i: int|
                    0 <= i < low ==> re_leq(states[#[trigger] order[i] as int], w)
                        && states[order[i] as int] != w,
                forall|i: int|
                    high <= i < order.len() ==> re_leq(w, states[#[trigger] order[i] as int])
                        && states[order[i] as int] != w,
            decreases high - low,
        {
            let mid: usize = low + (high - low) / 2;
            assert(order[mid as int] < states.len());
            let here = &self.states[self.order[mid] as usize];
            let ghost at = states[order[mid as int] as int];
            assert(here@ == at);
            match place(here, wanted) {
                Place::Same => {
                    return (mid, true);
                },
                Place::Before => {
                    proof {
                        assert forall|i: int| 0 <= i < mid + 1 implies re_leq(
                            states[#[trigger] order[i] as int],
                            w,
                        ) && states[order[i] as int] != w by {
                            if i < mid {
                                let x = states[order[i] as int];
                                assert(re_leq(x, at) && x != at) by {
                                    assert(order[mid as int] < states.len());
                                }
                                lemma_re_total_order(x, at, w);
                                lemma_re_total_order(at, x, at);
                            }
                        }
                    }
                    low = mid + 1;
                },
                Place::After => {
                    proof {
                        lemma_re_total_order(at, w, at);
                        assert forall|i: int| mid <= i < order.len() implies re_leq(
                            w,
                            states[#[trigger] order[i] as int],
                        ) && states[order[i] as int] != w by {
                            if i > mid {
                                let x = states[order[i] as int];
                                assert(re_leq(at, x) && x != at) by {
                                    assert(order[mid as int] < states.len());
                                }
                                lemma_re_total_order(w, at, x);
                                lemma_re_total_order(at, x, at);
                            }
                        }
                    }
                    high = mid;
                },
            }
        }
        (low, false)
    }

    /// The state that a character leads to from another, none where nothing is
    /// left to match. A new state beyond the limit is an error.
    pub fn transition(&mut self, state: u32, character: char) -> (r: Result<
        Option<u32>,
        SearchError,
    >)
        requires
            old(self).wf(),
            state < old(self).states().len(),
        ensures
            final(self).wf(),
            final(self).program() == old(self).program(),
            final(self).max_states() == old(self).max_states(),
            old(self).states().len() <= final(self).states().len(),
            forall|i: int|
                0 <= i < old(self).states().len() ==> final(self).states()[i] == old(self).states()[i],
            ({
                let next = re_derive(
                    old(self).states()[state as int],
                    character,
                    old(self).program()@.classes,
                );
                &&& final(self).states() == old(self).states() || (next != Re::Empty && final(
                    self).states() == old(self).states().push(next))
                &&& match r {
                    Ok(None) => next == Re::Empty,
                    Ok(Some(id)) => next != Re::Empty && id < final(self).states().len() && final(self).states()[id as int] == next,
                    Err(e) => e@ == (SearchErrorView::StateLimit { limit: old(self).max_states() })
                        && old(self).states().len() == old(self).max_states() && next != Re::Empty
                        && !old(self).states().contains(next) && final(self).states() == old(self).states(),
                }
            }),
    {
        broadcast use vstd::std_specs::hash::group_hash_axioms;

        let ghost states: Seq<Re> = views(self.states@);
        let ghost classes = self.program@.classes;
        let ghost order = self.order@;
        proof {
            lemma_step_key(state, character, state, character);
        }
        let key: u64 = state as u64 * 0x11_0000 + character as u64;
        assert(key == step_key(state, character));
        if let Some(cached) = self.transitions.get(&key) {
            return Ok(*cached);
        }
        let next = self.program.derive_approx(&self.states[state as usize], character);
        let ghost target = next@;
        proof {
            lemma_derive_wf(states[state as int], character, classes);
        }
        let to: Option<u32> = if self.program.is_dead(&next) {
            None
        } else {
            let (at, found) = self.locate(&next);
            if found {
                assert(order[at as int] < states.len());
                Some(self.order[at])
            } else {
                proof {
                    assert(!states.contains(target)) by {
                        if states.contains(target) {
                            let id = choose|id: int| 0 <= id < states.len() && states[id] == target;
                            assert(listed(order, id));
                            let i = choose|i: int| 0 <= i < order.len() && #[trigger] order[i] == id;
                            assert(order[i] == id);
                        }
                    }
                }
                if self.states.len() >= self.max_states {
                    return Err(SearchError::StateLimit { limit: self.max_states });
                }
                let id: u32 = self.states.len() as u32;
                self.states.push(next);
                self.order.insert(at, id);
                proof {
                    let more: Seq<Re> = views(self.states@);
                    let now = self.order@;
                    assert(more =~= states.push(target));
                    assert(now =~= order.insert(at as int, id));
                    lemma_order_insert(states, order, target, at as int, id);
                }
                Some(id)
            }
        };
        let ghost known = self.transitions@;
        self.transitions.insert(key, to);
        proof {
            let now: Seq<Re> = views(self.states@);
            assert forall|s: u32, c: char|
                self.transitions@.contains_key(
                    #[trigger] step_key(s, c),
                ) implies s < now.len() && leads(
                now,
                s as int,
                c,
                classes,
                self.transitions@[step_key(s, c)],
            ) by {
                lemma_step_key(s, c, state, character);
                if step_key(s, c) == key {
                    assert(s == state && c == character);
                } else {
                    assert(known.contains_key(step_key(s, c)));
                    assert(leads(states, s as int, c, classes, known[step_key(s, c)]));
                }
            }
        }
        Ok(to)
    }
}

proof fn lemma_order_insert(states: Seq<Re>, order: Seq<u32>, target: Re, at: int, id: u32)
    requires
        order_ok(states, order),
        id == states.len(),
        0 <= at <= order.len(),
        forall|i: int|
            0 <= i < at ==> re_leq(states[#[trigger] order[i] as int], target)
                && states[order[i] as int] != target,
        forall|i: int|
            at <= i < order.len() ==> re_leq(target, states[#[trigger] order[i] as int])
                && states[order[i] as int] != target,
    ensures
        order_ok(states.push(target), order.insert(at, id)),
{
    let more = states.push(target);
    let now = order.insert(at, id);
    assert forall|i: int| 0 <= i < now.len() implies (#[trigger] now[i]) < more.len() by {
        if i < at {
            assert(now[i] == order[i]);
        } else if i > at {
            assert(now[i] == order[i - 1]);
        }
    }
    assert forall|i: int, j: int| 0 <= i < j < now.len() implies re_leq(
        more[#[trigger] now[i] as int],
        more[#[trigger] now[j] as int],
    ) && more[now[i] as int] != more[now[j] as int] by {
        let a = if i < at { i } else { i - 1 };
        let b = if j < at { j } else { j - 1 };
        if i != at {
            assert(now[i] == order[a]);
            assert(order[a] < states.len());
        }
        if j != at {
            assert(now[j] == order[b]);
            assert(order[b] < states.len());
        }
        if i != at && j != at {
            assert(re_leq(states[order[a] as int], states[order[b] as int]));
        }
    }
    assert forall|k: int| 0 <= k < more.len() implies #[trigger] listed(now, k) by {
        if k == states.len() {
            assert(now[at] == k);
        } else {
            assert(listed(order, k));
            let i = choose|i: int| 0 <= i < order.len() && #[trigger] order[i] == k;
            let m = if i < at { i } else { i + 1 };
            assert(now[m] == k);
        }
    }
}

} // verus!
