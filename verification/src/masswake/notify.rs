//! A waker designed for efficiently waking a large number of tasks.
//!
//! All it does is keep track of the wakers of all registered tasks and wake
//! them when [`MassNotify::notify_all`] is called. Whether a task that has been
//! woken is ready has to be tracked by other means.
//!
//! There is a queue per thread. An [`Interest`] that registers puts a waker into
//! the queue of the current thread, and [`MassNotify::notify_all`] takes the
//! wakers out of every queue in bulk. What happens to the queues is stated and
//! proved of [`Locals`], which both reach through a lock.

use std::sync::Arc;
use std::task::{Context, Waker};

use thread_local::ThreadLocal;
use vstd::prelude::*;
use vstd::rwlock::RwLockPredicate;

use crate::ledger::{Grade, Ledger, Mint, Rules, Step, Ticket, Writing};
use crate::masswake::locals::{Locals, Registration};
use crate::masswake::locals;
use crate::masswake::place::Place;
use crate::masswake::wakeups;
use crate::masswake::wakeups::Wakes;
use crate::refcnt;

verus! {

/// `std::task::Waker`, the handle by which a task is woken.
#[verifier::external_type_specification]
#[verifier::external_body]
pub struct ExWaker(Waker);

/// `std::task::Context`, what a task is polled with.
#[verifier::external_type_specification]
#[verifier::external_body]
pub struct ExContext<'a>(Context<'a>);

/// `thread_local::ThreadLocal`, which holds a value per thread.
#[verifier::external_type_specification]
#[verifier::external_body]
#[verifier::reject_recursive_types(T)]
pub struct ExThreadLocal<T: Send>(ThreadLocal<T>);

/// `Waker::clone` makes a waker of the same task. A waker shows nothing but which
/// task it wakes, so the two are the same value.
pub assume_specification[ <Waker as Clone>::clone ](waker: &Waker) -> (copy: Waker)
    ensures
        copy == *waker,
;

/// `Waker::wake` wakes the task. Nothing is claimed of what the task then does.
pub assume_specification[ Waker::wake ](waker: Waker);

/// `Waker::will_wake` tells whether both wakers wake the same task. It works on a
/// best-effort basis: nothing is claimed where the answer is no.
pub assume_specification[ Waker::will_wake ](waker: &Waker, other: &Waker) -> (same: bool)
    ensures
        same ==> *waker == *other,
;

/// The waker that a context holds, which `Context::waker` gives.
pub uninterp spec fn task_waker(cx: Context<'_>) -> Waker;

/// `Context::waker` gives the waker of the task that is polled. It depends on
/// nothing but the context.
#[verifier::external_body]
fn waker_of<'c>(cx: &'c Context<'_>) -> (waker: &'c Waker)
    ensures
        *waker == task_waker(*cx),
{
    cx.waker()
}

/// `noop_waker::noop_waker` makes a waker that does nothing. Nothing is claimed
/// of it.
#[verifier::external_body]
fn noop_waker() -> (waker: Waker) {
    noop_waker::noop_waker()
}

/// `ThreadLocal::new` makes one that holds no value for any thread.
#[verifier::external_body]
fn new_slots() -> (slots: ThreadLocal<usize>) {
    ThreadLocal::new()
}

/// `ThreadLocal::get` gives the value of the current thread, if there is one.
/// Nothing is claimed of it, as it depends on the thread.
#[verifier::external_body]
pub(crate) fn current_slot(slots: &ThreadLocal<usize>) -> (slot: Option<usize>) {
    slots.get().copied()
}

/// `ThreadLocal::get_or` gives the value of the current thread, which is `slot`
/// where there was none. Nothing is claimed of it, as it depends on the thread.
#[verifier::external_body]
pub(crate) fn slot_or(slots: &ThreadLocal<usize>, slot: usize) -> (current: usize) {
    *slots.get_or(|| slot)
}

/// What is done to the queues.
pub enum Event {
    /// A task has registered, or found that it need not.
    Registered {
        noted: Registration,
        will_wake: bool,
        slot: usize,
        waker: Waker,
        registration: Registration,
    },
    /// All tasks are taken out, to be woken.
    Notified { this: Option<usize>, woken: Seq<Waker> },
    /// What the last notification has left of a queue is taken out, to be woken.
    Assisted { slot: usize, taken: Seq<Waker> },
}

/// What an event does to the queues.
pub open spec fn happens(before: Locals<Waker>, event: Event, after: Locals<Waker>) -> bool {
    match event {
        Event::Registered { noted, will_wake, slot, waker, registration } => locals::registered(
            before@,
            noted,
            will_wake,
            slot,
            waker,
            after@,
            registration,
        ),
        Event::Notified { this, woken } => {
            &&& this matches Some(i) ==> i < before@.len()
            &&& locals::notifies(before@, this, after@, woken)
        },
        Event::Assisted { slot, taken } => locals::assisted(before@, slot, after@, taken),
    }
}

/// The condition that the lock keeps: the queues are sound.
pub struct LocalsPred;

impl RwLockPredicate<Locals<Waker>> for LocalsPred {
    open spec fn inv(self, locals: Locals<Waker>) -> bool {
        locals.wf()
    }
}

/// A task registers by its interest. Only a notifier takes all tasks out.
impl Rules<Locals<Waker>, Event> for LocalsPred {
    open spec fn allows(
        self,
        grade: Grade,
        found: Locals<Waker>,
        event: Event,
        left: Locals<Waker>,
    ) -> bool {
        &&& happens(found, event, left)
        &&& event is Notified ==> grade is Master
        &&& event is Registered ==> grade is Member
    }
}

/// One step that has been made.
pub type QueueStep = Step<Locals<Waker>, Event>;

/// The right to change the queues.
pub type QueueTicket = Ticket<Locals<Waker>, LocalsPred, Event>;

/// The queues of all threads, and for each thread the place of its own.
pub struct Shared {
    slots: ThreadLocal<usize>,
    locals: Ledger<Locals<Waker>, LocalsPred>,
}

/// The queue of the thread that notifies, given its place and how many queues there
/// are.
pub open spec fn own_queue(slot: Option<usize>, len: int) -> Option<usize> {
    match slot {
        Some(slot) if slot < len => Some(slot),
        _ => None,
    }
}

impl Shared {
    /// The lock that the queues are behind.
    pub closed spec fn ledger(self) -> Ledger<Locals<Waker>, LocalsPred> {
        self.locals
    }

    /// The queues at first.
    pub open spec fn initial(self) -> Locals<Waker> {
        self.ledger().initial()
    }

    /// Whether the queues can be in the given state.
    pub open spec fn admits(self, locals: Locals<Waker>) -> bool {
        locals.wf()
    }

    /// Whether the queues were in the given state when they were given up.
    pub closed spec fn kept(self, locals: Locals<Waker>) -> bool {
        self.locals.kept(locals, ())
    }

    /// Whether `slot` has been found to be the place of a thread.
    pub closed spec fn is_place(self, slot: Option<usize>) -> bool {
        exists|place: Place|
            {
                &&& #[trigger] place.slots() == self.slots
                &&& place.slot() == slot
                &&& place.offered() is None
            }
    }

    /// Whether `slot` has been found to be the place of a thread, where a thread without
    /// one gets that of a new queue after all the others.
    pub closed spec fn is_settled(self, slot: usize, found: Locals<Waker>) -> bool {
        exists|place: Place|
            {
                &&& #[trigger] place.slots() == self.slots
                &&& place.slot() == Some(slot)
                &&& place.offered() is Some
                &&& place.offered()->0 == found@.len()
            }
    }

    /// Whether `step` has been made.
    pub open spec fn made(self, step: QueueStep) -> bool {
        self.ledger().made(step)
    }

    /// Creates queues in which no task is registered. Only the holder of the ticket can
    /// notify, and only the holder of the mint can let tasks register.
    pub(crate) fn create() -> (r: (Self, QueueTicket, Mint<Locals<Waker>, LocalsPred>))
        ensures
            r.0.initial()@ == Seq::<locals::LocalView<Waker>>::empty(),
            r.1.ledger() == r.0.ledger(),
            r.1.grade() is Master,
            r.1.steps() == Seq::<QueueStep>::empty(),
            r.1.unfinished() == 0,
            r.2.ledger() == r.0.ledger(),
            r.2.grade() is Member,
    {
        let (locals, ticket, members) = Ledger::new_joint(Locals::new(), Ghost(LocalsPred));
        (Shared { slots: new_slots(), locals }, ticket, members)
    }

    /// Takes the wakers of all registered tasks out of the queues, in the order in
    /// which they are to be woken. The witness shows when that was.
    pub(crate) fn begin<W>(&self, witness: &W) -> (r: (
        Vec<Waker>,
        Ghost<Event>,
        Locals<Waker>,
        Writing<'_, Locals<Waker>, LocalsPred>,
    ))
        ensures
            r.3.ledger() == self.ledger(),
            self.ledger().taken(r.3.found(), *witness),
            self.admits(r.3.found()),
            self.admits(r.2),
            happens(r.3.found(), r.1@, r.2),
            notification(*self, r.3.found(), r.1@, r.0@),
    {
        let place = Place::of(&self.slots);
        let (mut locals, writing) = self.locals.write(witness);
        let this_thread: Option<usize> = match place.get() {
            Some(slot) if slot < locals.len() => Some(slot),
            _ => None,
        };
        let wakers = locals.take_all(this_thread);
        let ghost event = Event::Notified { this: this_thread, woken: wakers@ };
        assert(place.slots() == self.slots);
        assert(self.is_place(place.slot()));
        (wakers, Ghost(event), locals, writing)
    }
}

/// Whether `event` is the notification of all tasks in the queues, which are those to
/// be woken.
pub open spec fn notification(
    queues: Shared,
    found: Locals<Waker>,
    event: Event,
    woken: Seq<Waker>,
) -> bool {
    exists|slot: Option<usize>| #[trigger]
        queues.is_place(slot) && event == (Event::Notified {
            this: own_queue(slot, found@.len() as int),
            woken,
        })
}

/// The queues, given what was left of what is shared: nothing where there are
/// other pointers to it.
pub fn left_queues(shared: Option<Shared>) -> (locals: Option<Locals<Waker>>)
    ensures
        locals is Some == shared is Some,
        locals matches Some(locals) ==> locals.wf(),
        locals matches Some(locals) ==> shared->0.kept(locals),
{
    match shared {
        Some(shared) => Some(shared.locals.into_inner(())),
        None => None,
    }
}

/// Whether `locals` is what giving up a pointer to the queues gives: the queues where it
/// was the last.
pub open spec fn yields(queues: Shared, locals: Option<Locals<Waker>>) -> bool {
    exists|left: Option<Shared>|
        {
            &&& #[trigger] refcnt::std_released(queues, left)
            &&& locals is Some == left is Some
        }
}

/// The queues, where this is the last pointer to them.
pub(crate) fn into_queues(shared: Arc<Shared>) -> (locals: Option<Locals<Waker>>)
    ensures
        locals matches Some(locals) ==> locals.wf() && shared.kept(locals),
        yields(*shared, locals),
{
    left_queues(refcnt::std_release(shared))
}

/// Wakes every task that has registered its interest.
pub struct MassNotify {
    shared: Arc<Shared>,
    /// The right to notify.
    masters: Mint<Locals<Waker>, LocalsPred>,
    /// The right to let tasks register.
    members: Mint<Locals<Waker>, LocalsPred>,
}

impl MassNotify {
    #[verifier::type_invariant]
    spec fn wf(self) -> bool {
        &&& self.masters.ledger() == self.shared.locals
        &&& self.masters.grade() is Master
        &&& self.members.ledger() == self.shared.locals
        &&& self.members.grade() is Member
    }
}

/// Whether `woken` is what has been taken out of the given queues, in order, in a
/// state that they were in.
pub open spec fn takes_all(queues: Shared, woken: Seq<Waker>) -> bool {
    exists|step: QueueStep|
        {
            &&& #[trigger] queues.made(step)
            &&& queues.admits(step.found)
            &&& queues.admits(step.left)
            &&& happens(step.found, step.event, step.left)
            &&& notification(queues, step.found, step.event, woken)
        }
}

/// Whether `woken` is what has been taken out of one of the given queues to assist
/// the notifier, in a state that they were in.
pub open spec fn takes_local(queues: Shared, woken: Seq<Waker>) -> bool {
    exists|step: QueueStep, slot: usize|
        {
            &&& #[trigger] queues.made(step)
            &&& queues.admits(step.found)
            &&& queues.admits(step.left)
            &&& #[trigger] queues.is_settled(slot, step.found)
            &&& step.event == Event::Assisted { slot, taken: woken }
            &&& locals::assisted(step.found@, slot, step.left@, woken)
        }
}

/// Whether the tasks have been taken out of the given queues and woken.
pub open spec fn notifies_some(queues: Shared) -> bool {
    exists|woken: Seq<Waker>| #[trigger]
        takes_all(queues, woken) && wakeups::were_woken(woken)
}

/// Wakes the given tasks, in order.
pub(crate) fn wake_all(wakers: Vec<Waker>)
    ensures
        wakeups::were_woken(wakers@),
{
    let ghost all = wakers@;
    let mut wakes = Wakes::new();
    assert(all.take(0) =~= Seq::<Waker>::empty());
    for waker in it: wakers
        invariant
            wakes@ == all.take(it.index() as int),
            it.seq() == all,
    {
        wakes.make(waker);
        assert(all.take(it.index() as int).push(waker) =~= all.take(it.index() + 1));
    }
    assert(all.take(all.len() as int) =~= all);
    assert(wakes@ == all);
}

impl Default for MassNotify {
    fn default() -> (notify: Self)
        ensures
            notify.queues().initial()@ == Seq::<locals::LocalView<Waker>>::empty(),
    {
        Self::new()
    }
}

impl MassNotify {
    /// The queues that tasks register in.
    pub closed spec fn queues(self) -> Shared {
        *self.shared
    }

    /// Creates a notifier in which no task is registered.
    pub fn new() -> (notify: Self)
        ensures
            notify.queues().initial()@ == Seq::<locals::LocalView<Waker>>::empty(),
    {
        let (locals, masters, members) = Ledger::new_shared(Locals::new(), Ghost(LocalsPred));
        Self { shared: Arc::new(Shared { slots: new_slots(), locals }), masters, members }
    }

    /// Takes the wakers of all registered tasks out of the queues, in the order
    /// in which they are to be woken.
    pub fn take_all(&self) -> (wakers: Vec<Waker>)
        ensures
            takes_all(self.queues(), wakers@),
    {
        proof {
            use_type_invariant(self);
        }
        let mut ticket: QueueTicket = self.masters.issue();
        let (wakers, event, locals, writing) = self.shared.begin(&());
        let entered = writing.enter(locals, event, &mut ticket);
        let finished = entered.finish();
        ticket.settle(finished);
        assert(self.queues().made(ticket.steps().last()));
        wakers
    }

    /// Wakes every registered task.
    ///
    /// That the tasks then run is up to their wakers.
    pub fn notify_all(&self)
        ensures
            notifies_some(self.queues()),
    {
        let wakers = self.take_all();
        assert(takes_all(self.queues(), wakers@));
        wake_all(wakers);
    }

    /// Gives the notifier up. Where there is no interest left in it, this gets the
    /// queues.
    pub fn into_queues(self) -> (locals: Option<Locals<Waker>>)
        ensures
            locals matches Some(locals) ==> locals.wf() && self.queues().kept(locals),
            yields(self.queues(), locals),
    {
        into_queues(self.shared)
    }
}

/// The interest of one task in being woken.
pub struct Interest {
    shared: Arc<Shared>,
    /// Where the waker was put the last time.
    registration: Registration,
    /// The last waker to have been put into a queue.
    waker: Waker,
    /// The right to register.
    ticket: QueueTicket,
}

impl Interest {
    #[verifier::type_invariant]
    spec fn wf(self) -> bool {
        &&& self.ticket.ledger() == self.shared.locals
        &&& self.ticket.grade() is Member
    }

    /// The queues that this registers in.
    pub closed spec fn queues(self) -> Shared {
        *self.shared
    }

    /// What the last registration was.
    pub closed spec fn registration(self) -> Registration {
        self.registration
    }

    /// All that this has done to the queues in order to register.
    pub closed spec fn steps(self) -> Seq<QueueStep> {
        self.ticket.steps()
    }

    /// How many of these steps the queues have not been given back after.
    pub closed spec fn unfinished(self) -> int {
        self.ticket.unfinished()
    }

    /// Whether there has been a registration.
    pub open spec fn is_registered(self) -> bool {
        self.registration().watermark != u64::MAX
    }

    /// The last waker to have been registered.
    pub closed spec fn waker(self) -> Waker {
        self.waker
    }

    /// Creates an interest in what `notify` wakes. It is not registered yet.
    pub fn new(notify: &MassNotify) -> (interest: Self)
        ensures
            interest.queues() == notify.queues(),
            interest.registration() == (Registration { watermark: u64::MAX, queue: None }),
            interest.steps() == Seq::<QueueStep>::empty(),
            interest.unfinished() == 0,
    {
        proof {
            use_type_invariant(notify);
        }
        Self::of(&notify.shared, &notify.members)
    }

    /// Creates an interest in what is woken from the given queues. It is not
    /// registered yet.
    pub(crate) fn of(
        shared: &Arc<Shared>,
        members: &Mint<Locals<Waker>, LocalsPred>,
    ) -> (interest: Self)
        requires
            members.ledger() == shared.ledger(),
            members.grade() is Member,
        ensures
            interest.queues() == **shared,
            interest.registration() == (Registration { watermark: u64::MAX, queue: None }),
            interest.steps() == Seq::<QueueStep>::empty(),
            interest.unfinished() == 0,
    {
        Self {
            shared: shared.clone(),
            registration: Registration::new(),
            waker: noop_waker(),
            ticket: members.issue(),
        }
    }

    /// Assists the notifier in waking the tasks of the current thread. Only those
    /// that the last notification was for are woken.
    ///
    /// That the tasks then run is up to their wakers.
    pub fn assist(&mut self)
        ensures
            *final(self) == *old(self),
            exists|woken: Seq<Waker>| #[trigger]
                takes_local(old(self).queues(), woken) && wakeups::were_woken(woken),
    {
        let wakers = self.take_local();
        assert(takes_local(self.queues(), wakers@));
        wake_all(wakers);
    }

    /// Takes out of the queue of the current thread what the last notification
    /// has left in it.
    pub fn take_local(&self) -> (wakers: Vec<Waker>)
        ensures
            takes_local(self.queues(), wakers@),
    {
        let mut ticket: QueueTicket = self.shared.locals.ticket();
        let (mut locals, writing) = self.shared.locals.write(&());
        let place = Place::settle(&self.shared.slots, locals.len());
        let slot: usize = place.settled();
        let wakers = locals.take_local(slot);
        let ghost event = Event::Assisted { slot, taken: wakers@ };
        let entered = writing.enter(locals, Ghost(event), &mut ticket);
        let finished = entered.finish();
        ticket.settle(finished);
        assert(place.slots() == self.queues().slots);
        assert(self.queues().is_settled(slot, ticket.steps().last().found));
        assert(self.queues().made(ticket.steps().last()));
        wakers
    }

    /// Gives the interest up. The last one, where the notifier has been given up
    /// too, gets the queues.
    pub fn into_queues(self) -> (locals: Option<Locals<Waker>>)
        ensures
            locals matches Some(locals) ==> locals.wf() && self.queues().kept(locals),
            yields(self.queues(), locals),
    {
        into_queues(self.shared)
    }

    /// Registers the current task to be woken the next time that
    /// [`MassNotify::notify_all`] is called.
    ///
    /// A task that is still registered is not registered again.
    pub fn register(&mut self, cx: &mut Context<'_>)
        ensures
            *final(cx) == *old(cx),
            registers(*old(self), task_waker(*old(cx)), *final(self)),
    {
        let waker = waker_of(cx);
        self.register_waker(waker);
    }

    /// Registers the task that `waker` wakes.
    pub fn register_waker(&mut self, waker: &Waker)
        ensures
            registers(*old(self), *waker, *final(self)),
    {
        proof {
            use_type_invariant(&*self);
        }
        let will_wake: bool = wakeups::compare(waker, &self.waker);
        let (mut locals, writing) = self.shared.locals.write(&());
        let mut registration = self.registration;
        if !locals.needs_to_register(&registration, will_wake) {
            let ghost event = Event::Registered {
                noted: registration,
                will_wake,
                slot: 0,
                waker: *waker,
                registration,
            };
            let entered = writing.enter(locals, Ghost(event), &mut self.ticket);
            let finished = entered.finish();
            self.ticket.settle(finished);
            assert(registers_as(*old(self), *waker, *self, will_wake, 0));
            return ;
        }
        let place = Place::settle(&self.shared.slots, locals.len());
        let slot: usize = place.settled();
        let done: bool = locals.enroll(&mut registration, slot, waker.clone());
        let ghost event = Event::Registered {
            noted: self.registration,
            will_wake,
            slot,
            waker: *waker,
            registration,
        };
        let entered = writing.enter(locals, Ghost(event), &mut self.ticket);
        let finished = entered.finish();
        self.ticket.settle(finished);
        self.registration = registration;
        if done {
            self.waker = waker.clone();
        }
        assert(place.slots() == self.queues().slots);
        assert(self.queues().is_settled(slot, self.steps().last().found));
        assert(registers_as(*old(self), *waker, *self, will_wake, slot));
    }
}

/// What registering the task of `waker` does, in a single step: the waker is put into the
/// queue of the current thread where this is needed, and becomes the last one. It is
/// needed wherever the last waker may be that of another task.
pub open spec fn registers(before: Interest, waker: Waker, after: Interest) -> bool {
    let step = after.steps().last();
    &&& after.queues() == before.queues()
    &&& after.steps() == before.steps().push(step)
    &&& after.unfinished() == before.unfinished()
    &&& before.queues().admits(step.found)
    &&& before.queues().admits(step.left)
    &&& happens(step.found, step.event, step.left)
    &&& exists|will_wake: bool, slot: usize| #[trigger]
        registers_as(before, waker, after, will_wake, slot)
}

/// The same, given whether the last waker was found to be that of the same task, and the
/// place of the current thread.
pub open spec fn registers_as(
    before: Interest,
    waker: Waker,
    after: Interest,
    will_wake: bool,
    slot: usize,
) -> bool {
    let step = after.steps().last();
    &&& will_wake ==> waker == before.waker()
    &&& wakeups::compared(waker, before.waker(), will_wake)
    &&& step.event == registration_of(before, will_wake, slot, waker, after)
    &&& if locals::needs_to_register(step.found@, before.registration(), will_wake) {
        &&& before.queues().is_settled(slot, step.found)
        &&& after.waker() == if locals::has_room(step.found@, slot as int) {
            waker
        } else {
            before.waker()
        }
    } else {
        after.waker() == before.waker()
    }
}

/// The event of a task registering.
pub open spec fn registration_of(
    before: Interest,
    will_wake: bool,
    slot: usize,
    waker: Waker,
    after: Interest,
) -> Event {
    Event::Registered {
        noted: before.registration(),
        will_wake,
        slot,
        waker,
        registration: after.registration(),
    }
}

} // verus!
