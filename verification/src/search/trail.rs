//! The steps that lead to the nodes of a search, shared between them.
use vstd::prelude::*;

verus! {

/// One label behind another step.
#[derive(Clone, Copy, Debug, PartialEq, Eq, Structural)]
pub struct Step {
    pub parent: usize,
    pub label: char,
}

/// Steps, each behind an earlier one. The step with number 0 is the start.
pub struct Trail {
    steps: Vec<Step>,
}

/// The labels up to a step.
spec fn text_at(steps: Seq<Step>, id: int) -> Seq<char>
    decreases id,
{
    if id <= 0 || id > steps.len() || steps[id - 1].parent >= id {
        Seq::empty()
    } else {
        text_at(steps, steps[id - 1].parent as int).push(steps[id - 1].label)
    }
}

proof fn lemma_text_push(steps: Seq<Step>, step: Step, id: int)
    requires
        id <= steps.len(),
    ensures
        text_at(steps.push(step), id) == text_at(steps, id),
    decreases id,
{
    if id > 0 && steps[id - 1].parent < id {
        assert(steps.push(step)[id - 1] == steps[id - 1]);
        lemma_text_push(steps, step, steps[id - 1].parent as int);
    }
}

impl Trail {
    /// Every step stands behind an earlier one.
    pub closed spec fn wf(&self) -> bool {
        forall|i: int| 0 <= i < self.steps@.len() ==> (#[trigger] self.steps@[i]).parent <= i
    }

    /// The number of steps, the start counted.
    pub closed spec fn count(&self) -> nat {
        self.steps@.len() + 1
    }

    /// The labels up to a step.
    pub closed spec fn text(&self, id: usize) -> Seq<char> {
        text_at(self.steps@, id as int)
    }

    /// No label leads to the start.
    pub proof fn lemma_start(&self)
        ensures
            self.text(0) == Seq::<char>::empty(),
    {
    }

    /// The start alone.
    pub fn new() -> (r: Self)
        ensures
            r.wf(),
            r.count() == 1,
            r.text(0) == Seq::<char>::empty(),
    {
        Trail { steps: Vec::new() }
    }

    /// Adds a step behind another.
    pub fn extend(&mut self, parent: usize, label: char) -> (id: usize)
        requires
            old(self).wf(),
            parent < old(self).count(),
        ensures
            final(self).wf(),
            final(self).count() == old(self).count() + 1,
            old(self).count() <= id < final(self).count(),
            final(self).text(id) == old(self).text(parent).push(label),
            forall|k: usize| k < old(self).count() ==> final(self).text(k) == old(self).text(k),
    {
        let ghost before = self.steps@;
        let step = Step { parent, label };
        self.steps.push(step);
        let id: usize = self.steps.len();
        proof {
            assert forall|i: int| 0 <= i < self.steps@.len() implies (
            #[trigger] self.steps@[i]).parent <= i by {
                if i < before.len() {
                    assert(self.steps@[i] == before[i]);
                }
            }
            assert forall|k: usize| k < before.len() + 1 implies text_at(self.steps@, k as int)
                == text_at(before, k as int) by {
                lemma_text_push(before, step, k as int);
            }
            assert(self.steps@[id - 1] == step);
        }
        id
    }

    /// The labels up to a step, as a vector.
    pub fn spell(&self, id: usize) -> (r: Vec<char>)
        requires
            self.wf(),
            id < self.count(),
        ensures
            r@ == self.text(id),
        decreases id,
    {
        let mut back: Vec<char> = Vec::new();
        let mut at: usize = id;
        let ghost whole = self.text(id);
        assert(whole =~= self.text(id) + back@.reverse());
        while at > 0
            invariant
                self.wf(),
                at < self.count(),
                whole == self.text(at) + back@.reverse(),
            decreases at,
        {
            let step = self.steps[at - 1];
            let ghost before = back@;
            assert(step.parent <= at - 1);
            back.push(step.label);
            proof {
                let head = self.text(step.parent);
                assert(self.text(at) == head.push(step.label));
                assert(head.push(step.label) + before.reverse() =~= head + back@.reverse());
            }
            at = step.parent;
        }
        proof {
            assert(self.text(0) =~= Seq::<char>::empty());
            assert(whole =~= back@.reverse());
        }
        crate::ordered::reverse(back)
    }
}

} // verus!
