//! What the sender and the receivers of a broadcast channel share.
//!
//! [`Shared`] is the channel with its exact behaviour. The handles reach it
//! through a lock, so each of their operations acts on whatever state the other
//! handles have left.

use std::task::Waker;

use triomphe::Arc;
use vstd::prelude::*;
use vstd::rwlock::RwLockPredicate;
use vstd::std_specs::iter::IteratorSpec;

use crate::arcbuf;
use crate::arcbuf::{ArcBuffer, BufferView, IndexError};
use crate::ledger::{Grade, Ledger, Mint, Rules, Step, Ticket};
use crate::masswake::locals::{LocalView, Locals};
use crate::masswake::notify;
use crate::masswake::notify::{Interest, LocalsPred, QueueStep, QueueTicket};
use crate::masswake::wakeups;
use crate::refcnt;
use crate::refcnt::ArcCache;

verus! {

/// Why there is no value for a receiver.
#[derive(Copy, Clone, Debug, PartialEq, Eq, Structural)]
pub enum GetError {
    /// The buffer does not hold the value.
    Index(IndexError),
    /// The value has not been sent and never will be.
    Closed,
}

/// What a broadcast channel is: its buffer, and whether it is closed.
#[verifier::ext_equal]
pub struct SharedView<T> {
    pub buffer: BufferView<T>,
    pub closed: bool,
}

impl<T> SharedView<T> {
    /// The channel that holds up to `capacity` values and that `history` has
    /// been sent into.
    pub open spec fn with_history(capacity: int, history: Seq<T>, closed: bool) -> Self {
        SharedView { buffer: BufferView::empty(capacity).push_all(history), closed }
    }

    /// The values that sending `values` overwrites.
    pub open spec fn displaced(self, values: Seq<T>) -> Seq<T> {
        if self.buffer.head + values.len() <= u64::MAX {
            self.buffer.overwritten(values)
        } else {
            Seq::empty()
        }
    }

    /// The position of a receiver that subscribes: that of the next value to be sent.
    pub open spec fn newcomer(self) -> int {
        self.buffer.head
    }

    /// What is to be had for value number `index`.
    pub open spec fn get(self, index: int) -> Result<T, GetError> {
        match self.buffer.get(index) {
            Ok(value) => Ok(value),
            Err(IndexError::Invalid) if self.closed => Err(GetError::Closed),
            Err(e) => Err(GetError::Index(e)),
        }
    }

    /// What a receiver at position `watermark` gets. Where it has fallen behind,
    /// that is how many values it has missed.
    pub open spec fn received(self, watermark: int) -> Result<T, GetError> {
        match self.get(watermark) {
            Err(GetError::Index(IndexError::Outdated(tail))) => Err(
                GetError::Index(IndexError::Outdated((tail - watermark) as u64)),
            ),
            r => r,
        }
    }

    /// The position of that receiver afterwards. Where it has fallen behind, it
    /// goes on with the oldest value held.
    pub open spec fn position(self, watermark: int) -> int {
        match self.get(watermark) {
            Ok(_) => watermark + 1,
            Err(GetError::Index(IndexError::Outdated(tail))) => tail as int,
            Err(_) => watermark,
        }
    }
}

/// Whether the results are the same, but that one holds the shared value.
pub open spec fn same<T, E>(shared: Result<Arc<T>, E>, plain: Result<T, E>) -> bool {
    match shared {
        Ok(value) => plain == Ok::<T, E>(refcnt::held(value)),
        Err(e) => plain == Err::<T, E>(e),
    }
}

/// What a receiver gets, given what the channel holds for it and whether the sender
/// is gone: where there is nothing and the sender is gone, there will be nothing.
pub open spec fn noted<V>(received: Result<V, GetError>, gone: bool) -> Result<V, GetError> {
    match received {
        Err(GetError::Index(IndexError::Invalid)) if gone => Err(GetError::Closed),
        r => r,
    }
}

/// A channel whose sender is gone is as good as closed.
pub proof fn lemma_sender_gone<T>(channel: SharedView<T>, watermark: int)
    ensures
        ({
            let closed = SharedView { closed: true, ..channel };
            &&& closed.received(watermark) == noted(channel.received(watermark), true)
            &&& closed.position(watermark) == channel.position(watermark)
        }),
{
}

/// Takes note of whether the sender is gone.
pub fn note_sender<T>(received: Result<Arc<T>, GetError>, gone: bool) -> (r: Result<
    Arc<T>,
    GetError,
>)
    ensures
        r == noted(received, gone),
{
    match received {
        Err(GetError::Index(IndexError::Invalid)) if gone => Err(GetError::Closed),
        r => r,
    }
}

/// What sending `values` does to a channel. Where there are no numbers left for
/// all of them, nothing is sent.
pub open spec fn broadcasts<T>(
    before: SharedView<T>,
    values: Seq<T>,
    after: SharedView<T>,
) -> bool {
    if before.buffer.head + values.len() <= u64::MAX {
        &&& after.buffer == before.buffer.push_all(values)
        &&& after.closed == before.closed
    } else {
        after == before
    }
}

/// What closing a channel does.
pub open spec fn closes<T>(before: SharedView<T>, after: SharedView<T>) -> bool {
    after == SharedView { closed: true, ..before }
}

/// The state of a broadcast channel.
#[verifier::reject_recursive_types(T)]
pub struct Shared<T> {
    buffer: ArcBuffer<T>,
    closed: bool,
}

impl<T> View for Shared<T> {
    type V = SharedView<T>;

    closed spec fn view(&self) -> SharedView<T> {
        SharedView { buffer: self.buffer@, closed: self.closed }
    }
}

impl<T> Shared<T> {
    /// The buffer is sound.
    pub closed spec fn wf(self) -> bool {
        self.buffer.wf()
    }

    /// What holds of every channel.
    pub proof fn lemma_view(self)
        requires
            self.wf(),
        ensures
            0 <= self@.buffer.tail() <= self@.buffer.head <= u64::MAX,
            self@.buffer.tail() == oldest_held(self@.buffer.capacity, self@.buffer.head),
    {
        self.buffer.lemma_view();
    }

    /// Creates an open channel that holds up to `capacity` values.
    pub fn with_capacity(capacity: usize) -> (shared: Self)
        ensures
            shared.wf(),
            shared@ == SharedView::<T>::with_history(capacity as int, Seq::empty(), false),
    {
        let shared = Self { buffer: ArcBuffer::with_capacity(capacity), closed: false };
        assert(shared@ =~= SharedView::<T>::with_history(capacity as int, Seq::empty(), false));
        shared
    }

    /// Whether the channel has been closed.
    pub fn is_closed(&self) -> (closed: bool)
        ensures
            closed == self@.closed,
    {
        self.closed
    }

    /// Closes the channel.
    pub fn close(&mut self)
        requires
            old(self).wf(),
        ensures
            final(self).wf(),
            closes(old(self)@, final(self)@),
    {
        self.closed = true;
    }

    /// The number of values sent so far.
    pub fn head(&self) -> (head: u64)
        ensures
            head == self@.buffer.head,
    {
        self.buffer.head()
    }

    /// The value with the given number.
    pub fn get(&self, watermark: u64) -> (r: Result<Arc<T>, GetError>)
        requires
            self.wf(),
            self@.buffer.capacity > 0,
        ensures
            same(r, self@.get(watermark as int)),
    {
        match self.buffer.get(watermark) {
            Ok(value) => Ok(value),
            Err(IndexError::Invalid) if self.closed => Err(GetError::Closed),
            Err(e) => Err(GetError::Index(e)),
        }
    }

    /// Receives the next value for a receiver at position `watermark`.
    pub fn receive(&self, watermark: &mut u64) -> (r: Result<Arc<T>, GetError>)
        requires
            self.wf(),
            self@.buffer.capacity > 0,
        ensures
            same(r, self@.received(*old(watermark) as int)),
            *final(watermark) == self@.position(*old(watermark) as int),
    {
        proof {
            self.buffer.lemma_view();
        }
        match self.get(*watermark) {
            Ok(value) => {
                *watermark = *watermark + 1;
                Ok(value)
            },
            Err(GetError::Index(IndexError::Outdated(tail))) => {
                let skipped: u64 = tail - *watermark;
                *watermark = tail;
                Err(GetError::Index(IndexError::Outdated(skipped)))
            },
            Err(e) => Err(e),
        }
    }

    /// Sends a value, where there is a number left for it. The value overwritten
    /// goes to `cache`.
    pub fn send(&mut self, value: T, cache: &mut ArcCache<T>)
        requires
            old(self).wf(),
            old(self)@.buffer.capacity > 0,
        ensures
            final(self).wf(),
            broadcasts(old(self)@, seq![value], final(self)@),
            final(cache)@ == old(cache)@ + old(self)@.displaced(seq![value]),
    {
        if self.buffer.head() < u64::MAX {
            self.buffer.push(value, cache);
        } else {
            assert(cache@ =~= cache@ + Seq::<T>::empty());
        }
    }

    /// Sends several values, where there are numbers left for all of them. The
    /// values overwritten go to `cache`.
    pub fn send_bulk(&mut self, values: Vec<T>, cache: &mut ArcCache<T>)
        requires
            old(self).wf(),
            old(self)@.buffer.capacity > 0,
        ensures
            final(self).wf(),
            broadcasts(old(self)@, values@, final(self)@),
            final(cache)@ == old(cache)@ + old(self)@.displaced(values@),
    {
        if values.len() as u64 <= u64::MAX - self.buffer.head() {
            self.buffer.push_bulk(values.into_iter(), cache);
        } else {
            assert(cache@ =~= cache@ + Seq::<T>::empty());
        }
    }
}

/// The values that an iterator gives.
pub fn collect<I: Iterator>(iter: I) -> (values: Vec<I::Item>)
    requires
        iter.obeys_prophetic_iter_laws(),
        iter.decrease() is Some,
    ensures
        values@ == iter.remaining(),
{
    let ghost all = iter.remaining();
    let mut rest = iter;
    let mut values: Vec<I::Item> = Vec::new();
    loop
        invariant_except_break
            rest.obeys_prophetic_iter_laws(),
            rest.decrease() is Some,
            values@ + rest.remaining() == all,
        ensures
            values@ == all,
        decreases rest.decrease()->0,
    {
        match rest.next() {
            Some(value) => {
                values.push(value);
                assert(values@ + rest.remaining() =~= all);
            },
            None => {
                assert(values@ =~= all);
                break;
            },
        }
    }
    values
}

/// The condition that the lock keeps: the channel is sound, and holds as many
/// values as it was made for.
pub struct SharedPred {
    pub capacity: usize,
}

impl<T> RwLockPredicate<Shared<T>> for SharedPred {
    open spec fn inv(self, shared: Shared<T>) -> bool {
        &&& shared.wf()
        &&& shared@.buffer.capacity == self.capacity
    }
}

/// What the sender does to a channel.
pub enum Event<T> {
    Sent(Seq<T>),
    Closed,
}

/// What an event does.
pub open spec fn happens<T>(before: SharedView<T>, event: Event<T>, after: SharedView<T>) -> bool {
    match event {
        Event::Sent(values) => broadcasts(before, values, after),
        Event::Closed => closes(before, after),
    }
}

/// Only the sender writes.
impl<T> Rules<Shared<T>, Event<T>> for SharedPred {
    open spec fn allows(
        self,
        grade: Grade,
        found: Shared<T>,
        event: Event<T>,
        left: Shared<T>,
    ) -> bool {
        &&& grade is Master
        &&& happens(found@, event, left@)
    }
}

/// One step that the sender has made.
pub type SharedStep<T> = Step<Shared<T>, Event<T>>;

/// The channel as it is for a receiver that finds the sender gone, or not.
pub open spec fn closed_if<T>(channel: SharedView<T>, gone: bool) -> SharedView<T> {
    SharedView { closed: channel.closed || gone, ..channel }
}

/// A broadcast channel that all handles can reach.
#[verifier::reject_recursive_types(T)]
pub struct Channel<T> {
    state: Ledger<Shared<T>, SharedPred>,
    waiting: std::sync::Arc<notify::Shared>,
    /// The right to let tasks wait.
    members: Mint<Locals<Waker>, LocalsPred>,
    /// A pointer that is shared with the sender, as long as there is one.
    sender: Arc<()>,
}

/// The right of the sender to change its channel and to wake the tasks that wait.
#[verifier::reject_recursive_types(T)]
pub struct Pen<T> {
    channel: Arc<Channel<T>>,
    ticket: Ticket<Shared<T>, SharedPred, Event<T>>,
    notifier: QueueTicket,
}

impl<T> Pen<T> {
    #[verifier::type_invariant]
    spec fn wf(self) -> bool {
        &&& self.ticket.ledger() == refcnt::held(self.channel).state
        &&& self.ticket.grade() is Master
        &&& self.notifier.ledger() == refcnt::held(self.channel).waiting.ledger()
        &&& self.notifier.grade() is Master
        &&& self.notifier.steps().len() == 0 ==> self.notifier.unfinished() == 0
    }

    /// The pointer to the channel.
    pub closed spec fn pointer(self) -> Arc<Channel<T>> {
        self.channel
    }

    /// The channel.
    pub open spec fn channel(self) -> Channel<T> {
        refcnt::held(self.pointer())
    }

    /// What shows the state of the sender's account.
    pub closed spec fn account(self) -> Ticket<Shared<T>, SharedPred, Event<T>> {
        self.ticket
    }

    /// All that has been done to the channel, in order.
    pub open spec fn steps(self) -> Seq<SharedStep<T>> {
        self.account().steps()
    }

    /// All notifications of the tasks that wait, in order.
    pub closed spec fn notices(self) -> Seq<QueueStep> {
        self.notifier.steps()
    }

    /// How many of these notifications the queues have not been given back after.
    pub closed spec fn unfinished_notices(self) -> int {
        self.notifier.unfinished()
    }

    /// Creates an open channel that holds up to `capacity` values. The pointer shows
    /// that the sender is there: the channel counts as closed when it has been
    /// dropped.
    pub(crate) fn new(capacity: usize) -> (r: (Self, Arc<()>))
        ensures
            r.0.channel().capacity() == capacity,
            r.0.channel().starts_empty(),
            r.0.channel().presence() == r.1,
            r.0.steps() == Seq::<SharedStep<T>>::empty(),
            r.0.notices() == Seq::<QueueStep>::empty(),
            r.0.account().unfinished() == 0,
            r.0.unfinished_notices() == 0,
    {
        let (channel, ticket, notifier) = Channel::create(capacity);
        let alive = channel.attach();
        (Pen { channel: Arc::new(channel), ticket, notifier }, alive)
    }

    /// Gives access to the pointer to the channel.
    pub(crate) fn get(&self) -> (channel: &Arc<Channel<T>>)
        ensures
            *channel == self.pointer(),
    {
        &self.channel
    }

    /// Gives the right up.
    pub(crate) fn into_parts(self) -> (r: (
        Arc<Channel<T>>,
        Ticket<Shared<T>, SharedPred, Event<T>>,
    ))
        ensures
            r.0 == self.pointer(),
            r.1 == self.account(),
    {
        (self.channel, self.ticket)
    }
}

/// Whether the steps of the sender from `before` to `after` are one, in which `event`
/// happens to the channel.
pub open spec fn makes<T>(before: Pen<T>, event: Event<T>, after: Pen<T>) -> bool {
    let step = after.steps().last();
    &&& after.pointer() == before.pointer()
    &&& after.steps() == before.steps().push(step)
    &&& after.account().unfinished() == before.account().unfinished()
    &&& step.event == event
    &&& before.channel().admits(step.found)
    &&& before.channel().admits(step.left)
    &&& happens(step.found@, event, step.left@)
}

/// Whether the tasks that wait are notified once, after all that the sender has done:
/// those that are in the queues then are taken out and woken.
pub open spec fn notifies<T>(before: Pen<T>, after: Pen<T>) -> bool {
    let queues = before.channel().queues();
    let step = after.notices().last();
    &&& after.notices() == before.notices().push(step)
    &&& after.unfinished_notices() == before.unfinished_notices()
    &&& queues.ledger().taken(step.found, after.account())
    &&& queues.admits(step.found)
    &&& queues.admits(step.left)
    &&& notify::happens(step.found, step.event, step.left)
    &&& step.event is Notified
    &&& notify::notification(queues, step.found, step.event, step.event->woken)
    &&& wakeups::were_woken(step.event->woken)
}

impl<T> Channel<T> {
    #[verifier::type_invariant]
    spec fn wf(self) -> bool {
        &&& self.members.ledger() == self.waiting.ledger()
        &&& self.members.grade() is Member
    }

    /// How many values the channel holds.
    pub closed spec fn capacity(self) -> int {
        self.state.pred().capacity as int
    }

    /// The state at first.
    pub closed spec fn initial(self) -> Shared<T> {
        self.state.initial()
    }

    /// The queues that tasks wait in.
    pub closed spec fn queues(self) -> notify::Shared {
        *self.waiting
    }

    /// The pointer by which the sender shows that it is there.
    pub closed spec fn presence(self) -> Arc<()> {
        self.sender
    }

    /// Whether the channel can be in the given state.
    pub open spec fn admits(self, shared: Shared<T>) -> bool {
        &&& shared.wf()
        &&& shared@.buffer.capacity == self.capacity()
    }

    /// Whether the channel is open and nothing has been sent at first, and no task
    /// waits.
    pub open spec fn starts_empty(self) -> bool {
        &&& self.admits(self.initial())
        &&& self.initial()@ == SharedView::<T>::with_history(
            self.capacity(),
            Seq::empty(),
            false,
        )
        &&& self.queues().initial()@ == Seq::<LocalView<Waker>>::empty()
    }

    /// Whether the channel has been met in the given state, at a time at which
    /// `witness` was as it is given.
    pub closed spec fn seen<W>(self, shared: Shared<T>, witness: W) -> bool {
        self.state.seen(shared, witness)
    }

    /// Whether the channel was in the given state when it was given up, and `witness` as
    /// it is given.
    pub closed spec fn kept<W>(self, shared: Shared<T>, witness: W) -> bool {
        self.state.kept(shared, witness)
    }

    /// Whether the sender has been looked for, and was gone or not.
    pub open spec fn lost_sender(self, gone: bool) -> bool {
        exists|count: usize|
            #[trigger] refcnt::counted(self.presence(), count) && gone == (count < 2)
    }

    /// Creates an open channel that holds up to `capacity` values.
    pub fn with_capacity(capacity: usize) -> (channel: Self)
        ensures
            channel.capacity() == capacity,
            channel.starts_empty(),
    {
        let (channel, _, _) = Self::create(capacity);
        channel
    }

    /// Creates an open channel that holds up to `capacity` values, and gives the
    /// tickets of its sender.
    fn create(capacity: usize) -> (r: (
        Self,
        Ticket<Shared<T>, SharedPred, Event<T>>,
        QueueTicket,
    ))
        ensures
            r.0.capacity() == capacity,
            r.0.starts_empty(),
            r.1.ledger() == r.0.state,
            r.1.grade() is Master,
            r.1.steps() == Seq::<SharedStep<T>>::empty(),
            r.2.ledger() == r.0.queues().ledger(),
            r.2.grade() is Master,
            r.2.steps() == Seq::<QueueStep>::empty(),
            r.1.unfinished() == 0,
            r.2.unfinished() == 0,
    {
        let (state, ticket) = Ledger::new(
            Shared::with_capacity(capacity),
            Ghost(SharedPred { capacity }),
        );
        let (waiting, notifier, members) = notify::Shared::create();
        let waiting = std::sync::Arc::new(waiting);
        (Self { state, waiting, members, sender: Arc::new(()) }, ticket, notifier)
    }

    /// The pointer by which the sender shows that it is there. The channel counts
    /// as closed when it has been dropped.
    pub(crate) fn attach(&self) -> (sender: Arc<()>)
        ensures
            sender == self.presence(),
    {
        self.sender.clone()
    }

    /// Creates an interest in what this channel sends. It is not registered yet.
    pub fn interest(&self) -> (interest: Interest)
        ensures
            interest.queues() == self.queues(),
            !interest.is_registered(),
            interest.steps() == Seq::<QueueStep>::empty(),
    {
        proof {
            use_type_invariant(self);
        }
        Interest::of(&self.waiting, &self.members)
    }

    /// The number of values sent so far.
    pub fn head(&self) -> (head: u64)
        ensures
            exists|shared: Shared<T>|
                {
                    &&& self.admits(shared)
                    &&& self.seen(shared, ())
                    &&& head == #[trigger] shared@.newcomer()
                },
    {
        let reading = self.state.read(&());
        let ghost shared = reading@;
        let head: u64 = reading.value().head();
        reading.release();
        assert(self.admits(shared) && head == shared@.newcomer());
        head
    }

    /// Receives the next value for a receiver at position `watermark`. The witness
    /// shows when that was.
    pub fn receive<W>(&self, watermark: &mut u64, witness: &W) -> (r: Result<Arc<T>, GetError>)
        requires
            self.capacity() > 0,
        ensures
            exists|shared: Shared<T>|
                {
                    &&& self.admits(shared)
                    &&& same(r, shared@.received(*old(watermark) as int))
                    &&& *final(watermark) == #[trigger] shared@.position(*old(watermark) as int)
                },
            exists|shared: Shared<T>, gone: bool|
                {
                    let channel = closed_if(shared@, gone);
                    &&& self.admits(shared)
                    &&& #[trigger] self.seen(shared, *witness)
                    &&& #[trigger] self.lost_sender(gone)
                    &&& same(r, channel.received(*old(watermark) as int))
                    &&& *final(watermark) == channel.position(*old(watermark) as int)
                },
    {
        let reading = self.state.read(witness);
        let ghost shared = reading@;
        let r = reading.value().receive(watermark);
        let count: usize = refcnt::shares(&self.sender);
        let gone = count < 2;
        reading.release();
        proof {
            let seen = if gone {
                Shared { closed: true, ..shared }
            } else {
                shared
            };
            assert(self.admits(seen));
            lemma_sender_gone(shared@, *old(watermark) as int);
            assert(*watermark == seen@.position(*old(watermark) as int));
            assert(seen@ =~= closed_if(shared@, gone));
            assert(refcnt::counted(self.presence(), count));
            assert(self.seen(shared, *witness) && self.lost_sender(gone));
        }
        note_sender(r, gone)
    }

    /// Wakes the tasks that wait.
    fn notify(pen: &mut Pen<T>)
        ensures
            final(pen).pointer() == old(pen).pointer(),
            final(pen).account() == old(pen).account(),
            notifies(*old(pen), *final(pen)),
            notify::notifies_some(old(pen).channel().queues()),
    {
        proof {
            use_type_invariant(&*pen);
        }
        let channel = refcnt::value(&pen.channel);
        let (wakers, event, locals, writing) = channel.waiting.begin(&pen.ticket);
        let entered = writing.enter(locals, event, &mut pen.notifier);
        let finished = entered.finish();
        pen.notifier.settle(finished);
        proof {
            let queues = old(pen).channel().queues();
            let step = pen.notifier.steps().last();
            assert(queues.made(step));
            assert(notify::takes_all(queues, wakers@));
        }
        notify::wake_all(wakers);
    }

    /// Sends a value, and wakes the tasks that wait for one. The value
    /// overwritten is dropped once the channel can be used again.
    pub fn send(pen: &mut Pen<T>, value: T, cache: &mut ArcCache<T>)
        requires
            old(pen).channel().capacity() > 0,
        ensures
            final(cache)@ == Seq::<T>::empty(),
            makes(*old(pen), Event::Sent(seq![value]), *final(pen)),
            notifies(*old(pen), *final(pen)),
            notify::notifies_some(old(pen).channel().queues()),
            exists|before: Shared<T>, after: Shared<T>|
                {
                    &&& old(pen).channel().admits(before)
                    &&& old(pen).channel().admits(after)
                    &&& #[trigger] broadcasts(before@, seq![value], after@)
                },
    {
        proof {
            use_type_invariant(&*pen);
        }
        let ghost event = Event::Sent(seq![value]);
        let channel = refcnt::value(&pen.channel);
        let (mut shared, writing) = channel.state.write(&());
        shared.send(value, cache);
        let ghost (before, after) = (writing.found(), shared);
        let entered = writing.enter(shared, Ghost(event), &mut pen.ticket);
        let finished = entered.finish();
        pen.ticket.settle(finished);
        cache.clear();
        assert(broadcasts(before@, seq![value], after@));
        Self::notify(pen);
    }

    /// Sends several values, and wakes the tasks that wait for one. The values
    /// overwritten are dropped once the channel can be used again.
    pub fn send_bulk(pen: &mut Pen<T>, values: Vec<T>, cache: &mut ArcCache<T>)
        requires
            old(pen).channel().capacity() > 0,
        ensures
            final(cache)@ == Seq::<T>::empty(),
            makes(*old(pen), Event::Sent(values@), *final(pen)),
            notifies(*old(pen), *final(pen)),
            notify::notifies_some(old(pen).channel().queues()),
            exists|before: Shared<T>, after: Shared<T>|
                {
                    &&& old(pen).channel().admits(before)
                    &&& old(pen).channel().admits(after)
                    &&& #[trigger] broadcasts(before@, values@, after@)
                },
    {
        proof {
            use_type_invariant(&*pen);
        }
        let ghost sent = values@;
        let channel = refcnt::value(&pen.channel);
        let (mut shared, writing) = channel.state.write(&());
        shared.send_bulk(values, cache);
        let ghost (before, after) = (writing.found(), shared);
        let entered = writing.enter(shared, Ghost(Event::Sent(sent)), &mut pen.ticket);
        let finished = entered.finish();
        pen.ticket.settle(finished);
        cache.clear();
        assert(broadcasts(before@, sent, after@));
        Self::notify(pen);
    }

    /// Closes the channel, and wakes the tasks that wait for a value.
    pub fn close(pen: &mut Pen<T>)
        ensures
            makes(*old(pen), Event::Closed, *final(pen)),
            notifies(*old(pen), *final(pen)),
            notify::notifies_some(old(pen).channel().queues()),
            exists|before: Shared<T>, after: Shared<T>|
                {
                    &&& old(pen).channel().admits(before)
                    &&& old(pen).channel().admits(after)
                    &&& #[trigger] closes(before@, after@)
                },
    {
        proof {
            use_type_invariant(&*pen);
        }
        let channel = refcnt::value(&pen.channel);
        let (mut shared, writing) = channel.state.write(&());
        shared.close();
        let ghost (before, after) = (writing.found(), shared);
        let entered = writing.enter(shared, Ghost(Event::Closed), &mut pen.ticket);
        let finished = entered.finish();
        pen.ticket.settle(finished);
        assert(closes(before@, after@));
        Self::notify(pen);
    }
}

impl<T> Channel<T> {
    /// The state of the channel, given what was left of it: nothing where there are
    /// other handles.
    pub fn left_state(channel: Option<Self>) -> (state: Option<Shared<T>>)
        ensures
            match (channel, state) {
                (Some(channel), Some(state)) => channel.admits(state) && channel.kept(
                    state,
                    (),
                ),
                (None, None) => true,
                _ => false,
            },
    {
        Self::left_with(channel, ())
    }

    /// The same, with a witness that is given up too.
    fn left_with<W>(channel: Option<Self>, witness: W) -> (state: Option<Shared<T>>)
        ensures
            match (channel, state) {
                (Some(channel), Some(state)) => {
                    &&& channel.admits(state)
                    &&& channel.kept(state, witness)
                },
                (None, None) => true,
                _ => false,
            },
    {
        match channel {
            Some(channel) => {
                let Channel { state, waiting, members: _, sender: _ } = channel;
                let _ = notify::into_queues(waiting);
                Some(state.into_inner(witness))
            },
            None => None,
        }
    }

    /// The state of the channel, closed, where this is the last handle. The witness is
    /// given up too.
    pub(crate) fn into_state<W>(this: Arc<Self>, witness: W) -> (state: Option<Shared<T>>)
        ensures
            state matches Some(state) ==> refcnt::held(this).admits(state) && state@.closed,
            gives_up(this, witness, state),
    {
        let left = refcnt::release(this);
        let ghost released = left;
        assert(refcnt::released(this, released));
        let state = Self::left_with(left, witness);
        closed_state(state)
    }
}

/// What giving up a pointer to a channel gives, and a witness with it: what is left of
/// the channel, closed, where it was the last.
pub open spec fn gives_up<T, W>(
    pointer: Arc<Channel<T>>,
    witness: W,
    state: Option<Shared<T>>,
) -> bool {
    exists|left: Option<Channel<T>>|
        {
            &&& #[trigger] refcnt::released(pointer, left)
            &&& state is Some == left is Some
            &&& state matches Some(state) ==> exists|found: Shared<T>| #[trigger]
                refcnt::held(pointer).kept(found, witness) && closes(found@, state@)
        }
}

/// Closes what is left of a channel, if anything is.
pub fn closed_state<T>(state: Option<Shared<T>>) -> (closed: Option<Shared<T>>)
    requires
        state matches Some(state) ==> state.wf(),
    ensures
        match (state, closed) {
            (Some(state), Some(closed)) => closed.wf() && closes(state@, closed@),
            (None, None) => true,
            _ => false,
        },
{
    match state {
        Some(state) => {
            let mut state = state;
            state.close();
            Some(state)
        },
        None => None,
    }
}

/// The number of the oldest value that a channel holds after `sent` values.
pub open spec fn oldest_held(capacity: int, sent: int) -> int {
    if sent <= capacity {
        0
    } else {
        sent - capacity
    }
}

/// What a receiver sees of everything that has been sent: value number
/// `watermark` where the channel still holds it; how many it has missed where it
/// has been overwritten, after which it goes on with the oldest value held; and
/// nothing where it has received all, which is final if the channel is closed.
///
/// So every receiver gets the values in the order in which they were sent, each
/// at most once, and is told of every one that it misses. It never gets ahead of
/// what has been sent.
pub proof fn lemma_received<T>(capacity: int, history: Seq<T>, closed: bool, watermark: int)
    requires
        capacity > 0,
        0 <= watermark <= history.len() <= u64::MAX,
    ensures
        ({
            let channel = SharedView::with_history(capacity, history, closed);
            let oldest = oldest_held(capacity, history.len() as int);
            &&& watermark <= channel.position(watermark) <= history.len()
            &&& if watermark == history.len() {
                &&& channel.received(watermark) == Err::<T, GetError>(
                    if closed {
                        GetError::Closed
                    } else {
                        GetError::Index(IndexError::Invalid)
                    },
                )
                &&& channel.position(watermark) == watermark
            } else if watermark < oldest {
                &&& channel.received(watermark) == Err::<T, GetError>(
                    GetError::Index(IndexError::Outdated((oldest - watermark) as u64)),
                )
                &&& channel.position(watermark) == oldest
            } else {
                &&& channel.received(watermark) == Ok::<T, GetError>(history[watermark])
                &&& channel.position(watermark) == watermark + 1
            }
        }),
{
    let buffer = BufferView::<T>::empty(capacity).push_all(history);
    assert(Seq::<T>::empty() + history =~= history);
    assert(buffer.retained =~= arcbuf::keep_last(history, capacity));
}

/// A receiver that has been told of missed values gets the oldest value that the
/// channel holds next, unless that has been overwritten meanwhile.
pub proof fn lemma_after_lag<T>(channel: SharedView<T>, watermark: int)
    requires
        0 <= watermark < channel.buffer.tail(),
        channel.buffer.tail() < channel.buffer.head <= u64::MAX,
    ensures
        channel.received(watermark) == Err::<T, GetError>(
            GetError::Index(IndexError::Outdated((channel.buffer.tail() - watermark) as u64)),
        ),
        channel.received(channel.position(watermark)) == Ok::<T, GetError>(
            channel.buffer.retained[0],
        ),
{
}

/// A receiver that subscribes after `before` was sent gets exactly what is sent
/// after that, from the first value on.
pub proof fn lemma_subscribed<T>(capacity: int, before: Seq<T>, after: Seq<T>, k: int)
    requires
        before.len() + after.len() <= u64::MAX,
        0 <= k < after.len() <= capacity,
    ensures
        ({
            let channel = SharedView::with_history(capacity, before + after, false);
            &&& channel.received(before.len() + k) == Ok::<T, GetError>(after[k])
            &&& channel.position(before.len() + k) == before.len() + k + 1
        }),
{
    lemma_received(capacity, before + after, false, before.len() + k);
}

/// Sending keeps the account of what has been sent.
pub proof fn lemma_history<T>(capacity: int, history: Seq<T>, values: Seq<T>, closed: bool)
    requires
        capacity >= 0,
    ensures
        SharedView::with_history(capacity, history, closed).buffer.push_all(values)
            == SharedView::with_history(capacity, history + values, closed).buffer,
{
    BufferView::<T>::empty(capacity).lemma_push_all_join(history, values);
}

/// A closed channel is reported as such only once everything in it has been
/// received, and never as merely empty.
pub proof fn lemma_closed<T>(channel: SharedView<T>, watermark: int)
    requires
        channel.closed,
    ensures
        channel.received(watermark) != Err::<T, GetError>(GetError::Index(IndexError::Invalid)),
        channel.received(watermark) == Err::<T, GetError>(GetError::Closed) <==> watermark
            >= channel.buffer.head,
{
}

} // verus!
