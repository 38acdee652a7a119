//! A lock that keeps account of what happens to the value behind it.
//!
//! A value behind a [`Ledger`] changes in steps. To make one, a handle takes the
//! value out, and what it puts back is entered in its [`Ticket`] together with what
//! was found. All tickets but the open ones, or the right to hand them out, are given
//! when the ledger is created, and none can be copied. So where the [`Rules`] allow a
//! step only by such a ticket, these tell all such steps that have ever been made.
//!
//! What has been `seen`, `taken` or `kept` is known elsewhere only from the functions
//! that read, write and take apart.

use vstd::prelude::*;
use vstd::rwlock::{ReadHandle, RwLock, RwLockPredicate, WriteHandle};

verus! {

/// What a ticket is good for is up to the rules. Anyone who can reach a ledger can have
/// an open ticket.
pub enum Grade {
    Open,
    Member,
    Master,
}

/// What may happen to a value behind a lock. `E` tells what is done to it.
pub trait Rules<S, E>: RwLockPredicate<S> {
    /// Whether `event` turns `found` into `left`, and may be done by a ticket of the
    /// given grade.
    spec fn allows(self, grade: Grade, found: S, event: E, left: S) -> bool;
}

/// One step of a value behind a lock: what was found, what was done, what was left.
#[verifier::reject_recursive_types(S)]
#[verifier::reject_recursive_types(E)]
pub struct Step<S, E> {
    pub found: S,
    pub event: E,
    pub left: S,
}

/// A value behind a lock.
#[verifier::reject_recursive_types(S)]
#[verifier::reject_recursive_types(P)]
pub struct Ledger<S, P: RwLockPredicate<S>> {
    lock: RwLock<S, P>,
    initial: Ghost<S>,
}

/// The right to write, with an account of all that has been done by it.
#[verifier::reject_recursive_types(S)]
#[verifier::reject_recursive_types(P)]
#[verifier::reject_recursive_types(E)]
pub struct Ticket<S, P: RwLockPredicate<S>, E> {
    ledger: Ghost<Ledger<S, P>>,
    grade: Ghost<Grade>,
    steps: Ghost<Seq<Step<S, E>>>,
    unfinished: Ghost<int>,
}

/// The right to hand out tickets of some grade.
#[verifier::reject_recursive_types(S)]
#[verifier::reject_recursive_types(P)]
pub struct Mint<S, P: RwLockPredicate<S>> {
    ledger: Ghost<Ledger<S, P>>,
    grade: Ghost<Grade>,
}

impl<S, P: RwLockPredicate<S>> Mint<S, P> {
    /// The ledger that the tickets are for.
    pub closed spec fn ledger(self) -> Ledger<S, P> {
        self.ledger@
    }

    /// What the tickets are good for.
    pub closed spec fn grade(self) -> Grade {
        self.grade@
    }

    /// Hands out a ticket.
    pub(crate) fn issue<E>(&self) -> (ticket: Ticket<S, P, E>)
        ensures
            ticket.ledger() == self.ledger(),
            ticket.grade() == self.grade(),
            ticket.steps() == Seq::<Step<S, E>>::empty(),
            ticket.unfinished() == 0,
    {
        Ticket {
            ledger: self.ledger,
            grade: self.grade,
            steps: Ghost(Seq::empty()),
            unfinished: Ghost(0),
        }
    }
}

/// What it takes to put a value back.
#[verifier::reject_recursive_types(S)]
#[verifier::reject_recursive_types(P)]
pub struct Writing<'a, S, P: RwLockPredicate<S>> {
    handle: WriteHandle<'a, S, P>,
    ledger: Ghost<Ledger<S, P>>,
    found: Ghost<S>,
}

/// A step that has been entered, and takes effect when it is finished.
#[verifier::reject_recursive_types(S)]
#[verifier::reject_recursive_types(P)]
pub struct Entered<'a, S, P: RwLockPredicate<S>> {
    handle: WriteHandle<'a, S, P>,
    ledger: Ghost<Ledger<S, P>>,
    value: S,
}

/// What shows that a value has been put back.
#[verifier::reject_recursive_types(S)]
#[verifier::reject_recursive_types(P)]
pub struct Finished<S, P: RwLockPredicate<S>> {
    ledger: Ghost<Ledger<S, P>>,
}

/// Access to a value, until it is released.
#[verifier::reject_recursive_types(S)]
#[verifier::reject_recursive_types(P)]
#[verifier::reject_recursive_types(W)]
pub struct Reading<'a, S, P: RwLockPredicate<S>, W> {
    handle: ReadHandle<'a, S, P>,
    ledger: Ghost<Ledger<S, P>>,
    witness: Ghost<W>,
}

impl<S, P: RwLockPredicate<S>, E> Ticket<S, P, E> {
    /// The ledger that this is a ticket of.
    pub closed spec fn ledger(self) -> Ledger<S, P> {
        self.ledger@
    }

    /// What this is good for.
    pub closed spec fn grade(self) -> Grade {
        self.grade@
    }

    /// The steps that have been made by this ticket, in order.
    pub closed spec fn steps(self) -> Seq<Step<S, E>> {
        self.steps@
    }

    /// How many of these steps the value has not been put back after.
    pub closed spec fn unfinished(self) -> int {
        self.unfinished@
    }

    /// Notes that the value has been put back after a step.
    pub(crate) fn settle(&mut self, finished: Finished<S, P>)
        requires
            finished.ledger() == old(self).ledger(),
        ensures
            final(self).ledger() == old(self).ledger(),
            final(self).grade() == old(self).grade(),
            final(self).steps() == old(self).steps(),
            final(self).unfinished() == old(self).unfinished() - 1,
        no_unwind
    {
        self.unfinished = Ghost(self.unfinished@ - 1);
    }
}

impl<S, P: RwLockPredicate<S>> Ledger<S, P> {
    /// The condition that the value keeps.
    pub closed spec fn pred(self) -> P {
        self.lock.pred()
    }

    /// Whether the value can be the given one.
    pub open spec fn inv(self, value: S) -> bool {
        self.pred().inv(value)
    }

    /// The value at first.
    pub closed spec fn initial(self) -> S {
        self.initial@
    }

    /// Whether a reader has met `value` behind the lock, at a time at which
    /// `witness` was as it is given.
    pub closed spec fn seen<W>(self, value: S, witness: W) -> bool {
        exists|handle: ReadHandle<'_, S, P>|
            #[trigger] handle.rwlock() == self.lock && handle@ == value
    }

    /// Whether a writer has taken `value` out, at a time at which `witness` was as it
    /// is given.
    pub closed spec fn taken<W>(self, value: S, witness: W) -> bool {
        self.inv(value)
    }

    /// Whether `step` is the last one that has been made by some ticket. Where it is the
    /// only one, the value has been put back.
    pub open spec fn made<E>(self, step: Step<S, E>) -> bool {
        exists|ticket: Ticket<S, P, E>|
            {
                &&& #[trigger] ticket.ledger() == self
                &&& ticket.steps().len() > 0
                &&& ticket.steps().last() == step
                &&& ticket.steps().len() == 1 ==> ticket.unfinished() == 0
            }
    }

    /// Whether `value` was behind the lock when it was taken apart, and `witness` as it
    /// is given.
    pub closed spec fn kept<W>(self, value: S, witness: W) -> bool {
        self.inv(value)
    }

    /// Puts `value` behind a lock, and gives the only master ticket for it.
    pub(crate) fn new<E>(value: S, Ghost(pred): Ghost<P>) -> (r: (Self, Ticket<S, P, E>))
        requires
            pred.inv(value),
        ensures
            r.0.pred() == pred,
            r.0.initial() == value,
            r.1.ledger() == r.0,
            r.1.grade() is Master,
            r.1.steps() == Seq::<Step<S, E>>::empty(),
            r.1.unfinished() == 0,
    {
        let ghost initial = value;
        let ledger = Ledger { lock: RwLock::new(value, Ghost(pred)), initial: Ghost(initial) };
        let ticket = Ticket {
            ledger: Ghost(ledger),
            grade: Ghost(Grade::Master),
            steps: Ghost(Seq::empty()),
            unfinished: Ghost(0),
        };
        (ledger, ticket)
    }

    /// Puts `value` behind a lock, and gives the only two master tickets for it.
    pub(crate) fn new_pair<E>(value: S, Ghost(pred): Ghost<P>) -> (r: (
        Self,
        Ticket<S, P, E>,
        Ticket<S, P, E>,
    ))
        requires
            pred.inv(value),
        ensures
            r.0.pred() == pred,
            r.0.initial() == value,
            r.1.ledger() == r.0,
            r.1.grade() is Master,
            r.1.steps() == Seq::<Step<S, E>>::empty(),
            r.1.unfinished() == 0,
            r.2.ledger() == r.0,
            r.2.grade() is Master,
            r.2.steps() == Seq::<Step<S, E>>::empty(),
            r.2.unfinished() == 0,
    {
        let (ledger, first) = Ledger::new(value, Ghost(pred));
        let second = Ticket {
            ledger: Ghost(ledger),
            grade: Ghost(Grade::Master),
            steps: Ghost(Seq::empty()),
            unfinished: Ghost(0),
        };
        (ledger, first, second)
    }

    /// Puts `value` behind a lock, and gives the only master ticket for it and the
    /// only right to hand out tickets to members.
    pub(crate) fn new_joint<E>(value: S, Ghost(pred): Ghost<P>) -> (r: (
        Self,
        Ticket<S, P, E>,
        Mint<S, P>,
    ))
        requires
            pred.inv(value),
        ensures
            r.0.pred() == pred,
            r.0.initial() == value,
            r.1.ledger() == r.0,
            r.1.grade() is Master,
            r.1.steps() == Seq::<Step<S, E>>::empty(),
            r.1.unfinished() == 0,
            r.2.ledger() == r.0,
            r.2.grade() is Member,
    {
        let (ledger, ticket) = Ledger::new(value, Ghost(pred));
        let members = Mint { ledger: Ghost(ledger), grade: Ghost(Grade::Member) };
        (ledger, ticket, members)
    }

    /// Puts `value` behind a lock, and gives the only rights to hand out master
    /// tickets for it, and tickets to members.
    pub(crate) fn new_shared(value: S, Ghost(pred): Ghost<P>) -> (r: (
        Self,
        Mint<S, P>,
        Mint<S, P>,
    ))
        requires
            pred.inv(value),
        ensures
            r.0.pred() == pred,
            r.0.initial() == value,
            r.1.ledger() == r.0,
            r.1.grade() is Master,
            r.2.ledger() == r.0,
            r.2.grade() is Member,
    {
        let (ledger, _, members): (Self, Ticket<S, P, ()>, Mint<S, P>) = Ledger::new_joint(
            value,
            Ghost(pred),
        );
        let masters = Mint { ledger: Ghost(ledger), grade: Ghost(Grade::Master) };
        (ledger, masters, members)
    }

    /// Gives a new open ticket.
    pub(crate) fn ticket<E>(&self) -> (ticket: Ticket<S, P, E>)
        ensures
            ticket.ledger() == *self,
            ticket.grade() is Open,
            ticket.steps() == Seq::<Step<S, E>>::empty(),
            ticket.unfinished() == 0,
    {
        Ticket {
            ledger: Ghost(*self),
            grade: Ghost(Grade::Open),
            steps: Ghost(Seq::empty()),
            unfinished: Ghost(0),
        }
    }

    /// Takes the value out, to be put back by [`Writing::enter`]. The witness shows
    /// when that was.
    pub(crate) fn write<W>(&self, witness: &W) -> (r: (S, Writing<'_, S, P>))
        ensures
            self.inv(r.0),
            self.taken(r.0, *witness),
            r.1.ledger() == *self,
            r.1.found() == r.0,
    {
        let (value, handle) = self.lock.acquire_write();
        let ghost found = value;
        (value, Writing { handle, ledger: Ghost(*self), found: Ghost(found) })
    }

    /// Gives access to the value, until it is released. The witness shows when that
    /// was.
    pub(crate) fn read<W>(&self, witness: &W) -> (reading: Reading<'_, S, P, W>)
        ensures
            reading.ledger() == *self,
            reading.witness() == *witness,
            self.inv(reading@),
    {
        let handle = self.lock.acquire_read();
        Reading { handle, ledger: Ghost(*self), witness: Ghost(*witness) }
    }

    /// Takes the lock apart. The witness, which is given up too, shows when that was.
    pub(crate) fn into_inner<W>(self, witness: W) -> (value: S)
        ensures
            self.inv(value),
            self.kept(value, witness),
    {
        self.lock.into_inner()
    }
}

impl<'a, S, P: RwLockPredicate<S>> Writing<'a, S, P> {
    /// The ledger that the value was taken from.
    pub closed spec fn ledger(self) -> Ledger<S, P> {
        self.ledger@
    }

    /// The value that was found.
    pub closed spec fn found(self) -> S {
        self.found@
    }

    #[verifier::type_invariant]
    spec fn wf(self) -> bool {
        self.handle.rwlock() == self.ledger@.lock
    }

    /// Enters what has been done and what is left of the value.
    pub(crate) fn enter<E>(
        self,
        value: S,
        Ghost(event): Ghost<E>,
        ticket: &mut Ticket<S, P, E>,
    ) -> (entered: Entered<'a, S, P>) where P: Rules<S, E>
        requires
            old(ticket).ledger() == self.ledger(),
            self.ledger().inv(value),
            self.ledger().pred().allows(old(ticket).grade(), self.found(), event, value),
        ensures
            final(ticket).ledger() == old(ticket).ledger(),
            final(ticket).grade() == old(ticket).grade(),
            final(ticket).steps() == old(ticket).steps().push(
                Step { found: self.found(), event, left: value },
            ),
            final(ticket).unfinished() == old(ticket).unfinished() + 1,
            entered.ledger() == self.ledger(),
        no_unwind
    {
        proof {
            use_type_invariant(&self);
        }
        ticket.steps = Ghost(
            ticket.steps@.push(Step { found: self.found(), event, left: value }),
        );
        ticket.unfinished = Ghost(ticket.unfinished@ + 1);
        Entered { handle: self.handle, ledger: self.ledger, value }
    }
}

impl<'a, S, P: RwLockPredicate<S>> Entered<'a, S, P> {
    /// The ledger that the value belongs to.
    pub closed spec fn ledger(self) -> Ledger<S, P> {
        self.ledger@
    }

    #[verifier::type_invariant]
    spec fn wf(self) -> bool {
        self.handle.rwlock().inv(self.value)
    }

    /// Puts the value back.
    pub(crate) fn finish(self) -> (finished: Finished<S, P>)
        ensures
            finished.ledger() == self.ledger(),
    {
        proof {
            use_type_invariant(&self);
        }
        let Entered { handle, ledger, value } = self;
        handle.release_write(value);
        Finished { ledger }
    }
}

impl<S, P: RwLockPredicate<S>> Finished<S, P> {
    /// The ledger that the value belongs to.
    pub closed spec fn ledger(self) -> Ledger<S, P> {
        self.ledger@
    }
}

impl<'a, S, P: RwLockPredicate<S>, W> View for Reading<'a, S, P, W> {
    type V = S;

    /// The value that was met.
    closed spec fn view(&self) -> S {
        self.handle@
    }
}

impl<'a, S, P: RwLockPredicate<S>, W> Reading<'a, S, P, W> {
    /// The ledger that the value belongs to.
    pub closed spec fn ledger(self) -> Ledger<S, P> {
        self.ledger@
    }

    /// What shows when the value was met.
    pub closed spec fn witness(self) -> W {
        self.witness@
    }

    #[verifier::type_invariant]
    spec fn wf(self) -> bool {
        self.handle.rwlock() == self.ledger@.lock
    }

    /// The value.
    pub(crate) fn value(&self) -> (value: &S)
        ensures
            *value == self@,
    {
        self.handle.borrow()
    }

    /// Releases the value.
    pub(crate) fn release(self)
        ensures
            self.ledger().seen(self@, self.witness()),
    {
        proof {
            use_type_invariant(&self);
        }
        let Reading { handle, ledger: _, witness: _ } = self;
        assert(handle.rwlock() == self.ledger@.lock && handle@ == self@);
        handle.release_read();
    }
}

} // verus!
