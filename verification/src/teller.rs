//! Callbacks that keep a record of what they were told.
use vstd::prelude::*;

verus! {

/// The callback has been told these, one after the other.
pub open spec fn all_told<E, F: FnMut(E)>(callback: F, events: Seq<E>) -> bool {
    forall|i: int| 0 <= i < events.len() ==> call_ensures(callback, (#[trigger] events[i],), ())
}

/// A callback with what it has been told so far. It can be called through this
/// alone, and each call adds to the record.
pub struct Teller<E, F: FnMut(E)> {
    callback: F,
    origin: Ghost<F>,
    told: Ghost<Seq<E>>,
}

impl<E, F: FnMut(E)> Teller<E, F> {
    /// The callback as it was given.
    pub closed spec fn origin(&self) -> F {
        self.origin@
    }

    /// What it has been told, in order.
    pub closed spec fn told(&self) -> Seq<E> {
        self.told@
    }

    /// The callback has been told what the record says, and takes what it took.
    pub closed spec fn wf(&self) -> bool {
        &&& all_told(self.origin@, self.told@)
        &&& forall|e: E|
            call_requires(self.origin@, (e,)) ==> #[trigger] call_requires(self.callback, (e,))
        &&& forall|e: E| #[trigger]
            call_ensures(self.callback, (e,), ()) ==> call_ensures(self.origin@, (e,), ())
    }

    /// What the record says has been told.
    pub proof fn lemma_told(&self)
        requires
            self.wf(),
        ensures
            all_told(self.origin(), self.told()),
    {
    }

    /// A callback that has been told nothing.
    pub fn new(callback: F) -> (r: Self)
        ensures
            r.wf(),
            r.origin() == callback,
            r.told() == Seq::<E>::empty(),
    {
        let ghost origin = callback;
        let ghost nothing = Seq::<E>::empty();
        Teller { callback, origin: Ghost(origin), told: Ghost(nothing) }
    }

    /// Tells it something more.
    pub fn tell(self, event: E) -> (r: Self)
        requires
            self.wf(),
            call_requires(self.origin(), (event,)),
        ensures
            r.wf(),
            r.origin() == self.origin(),
            r.told() == self.told().push(event),
    {
        let ghost before = self.told@;
        let ghost first = self.origin@;
        let ghost more = before.push(event);
        let Teller { callback, origin, told } = self;
        let mut callback = callback;
        callback(event);
        proof {
            assert(call_ensures(first, (event,), ()));
            assert forall|i: int| 0 <= i < more.len() implies call_ensures(
                first,
                (#[trigger] more[i],),
                (),
            ) by {
                if i < before.len() {
                    assert(more[i] == before[i]);
                }
            }
        }
        Teller { callback, origin, told: Ghost(more) }
    }
}

/// The callback has been asked about these, one after the other, and has answered
/// so.
pub open spec fn all_answered<E, F: FnMut(&E) -> bool>(
    callback: F,
    answers: Seq<(E, bool)>,
) -> bool {
    forall|i: int|
        0 <= i < answers.len() ==> call_ensures(
            callback,
            (&(#[trigger] answers[i]).0,),
            answers[i].1,
        )
}

/// A callback that answers, with what it has been asked about so far and what it
/// has answered. It can be called through this alone, and each call adds to the
/// record.
pub struct Asker<E, F: FnMut(&E) -> bool> {
    callback: F,
    origin: Ghost<F>,
    answers: Ghost<Seq<(E, bool)>>,
}

impl<E, F: FnMut(&E) -> bool> Asker<E, F> {
    /// The callback as it was given.
    pub closed spec fn origin(&self) -> F {
        self.origin@
    }

    /// What it has been asked about and has answered, in order.
    pub closed spec fn answers(&self) -> Seq<(E, bool)> {
        self.answers@
    }

    /// The callback has answered what the record says, and takes what it took.
    pub closed spec fn wf(&self) -> bool {
        &&& all_answered(self.origin@, self.answers@)
        &&& forall|e: &E|
            call_requires(self.origin@, (e,)) ==> #[trigger] call_requires(self.callback, (e,))
        &&& forall|e: &E, answer: bool| #[trigger]
            call_ensures(self.callback, (e,), answer) ==> call_ensures(self.origin@, (e,), answer)
    }

    /// What the record says has been answered.
    pub proof fn lemma_answered(&self)
        requires
            self.wf(),
        ensures
            all_answered(self.origin(), self.answers()),
    {
    }

    /// A callback that has been asked nothing.
    pub fn new(callback: F) -> (r: Self)
        ensures
            r.wf(),
            r.origin() == callback,
            r.answers() == Seq::<(E, bool)>::empty(),
    {
        let ghost origin = callback;
        let ghost nothing = Seq::<(E, bool)>::empty();
        Asker { callback, origin: Ghost(origin), answers: Ghost(nothing) }
    }

    /// Asks it about something more.
    pub fn ask(self, event: &E) -> (r: (Self, bool))
        requires
            self.wf(),
            call_requires(self.origin(), (event,)),
        ensures
            r.0.wf(),
            r.0.origin() == self.origin(),
            r.0.answers() == self.answers().push((*event, r.1)),
    {
        let ghost before = self.answers@;
        let ghost first = self.origin@;
        let Asker { callback, origin, answers } = self;
        let mut callback = callback;
        let answer = callback(event);
        let ghost more = before.push((*event, answer));
        proof {
            assert(call_ensures(first, (event,), answer));
            assert forall|i: int| 0 <= i < more.len() implies call_ensures(
                first,
                (&(#[trigger] more[i]).0,),
                more[i].1,
            ) by {
                if i < before.len() {
                    assert(more[i] == before[i]);
                }
            }
        }
        (Asker { callback, origin, answers: Ghost(more) }, answer)
    }
}

} // verus!
