//! A queue shared by one sending and one receiving handle.
//!
//! [`ChannelState`] is the channel with its exact behaviour. The handles reach
//! it through a lock, so each of their operations acts on whatever state the
//! other handle has left.

use std::fmt::{Debug, Formatter};
use std::sync::Arc;

use vstd::prelude::*;
use vstd::rwlock::RwLockPredicate;

use crate::fifo::QueueState;
use crate::ledger::{Grade, Ledger, Rules, Step, Ticket};
use crate::refcnt;
use crate::spsc::detail;
use crate::spsc::detail::Drain;
use crate::spsc::raw::RawChannel;

verus! {

/// The value that could not be sent.
#[derive(Copy, Clone, PartialEq, Eq)]
pub struct SendError<T>(pub T);

impl<T> Debug for SendError<T> {
    /// Writes the error out without the value, which need not be printable.
    fn fmt(&self, f: &mut Formatter<'_>) -> (r: Result<(), std::fmt::Error>) {
        f.debug_struct("SendError").finish_non_exhaustive()
    }
}

impl<T> SendError<T> {
    /// Describes the error.
    pub fn to_string(&self) -> (text: String)
        ensures
            text@ == "channel closed"@,
    {
        "channel closed".to_owned()
    }
}

/// Why no value could be received.
#[derive(Copy, Clone, Debug, PartialEq, Eq, Structural)]
pub enum RecvError {
    /// There is no value in the channel.
    Empty,
    /// There is no value in the channel and it is closed.
    Disconnected,
}

impl RecvError {
    /// Describes the error.
    pub fn to_string(&self) -> (text: String)
        ensures
            text@ == match self {
                RecvError::Empty => "receiving on an empty channel"@,
                RecvError::Disconnected => "receiving on a closed channel"@,
            },
    {
        match self {
            RecvError::Empty => "receiving on an empty channel".to_owned(),
            RecvError::Disconnected => "receiving on a closed channel".to_owned(),
        }
    }
}

/// There was nothing to drain and the channel is closed.
#[derive(Copy, Clone, Debug, PartialEq, Eq, Structural)]
pub struct DrainError;

impl DrainError {
    /// Describes the error.
    pub fn to_string(&self) -> (text: String)
        ensures
            text@ == "receiving on a closed channel"@,
    {
        "receiving on a closed channel".to_owned()
    }
}

/// What a channel is: its queue, whether it is closed, and how many slots it has.
#[verifier::ext_equal]
pub struct ChannelView<T> {
    pub queue: QueueState<T>,
    pub closed: bool,
    pub slots: int,
}

impl<T> ChannelView<T> {
    /// Whether there is a value in every slot.
    pub open spec fn is_full(self) -> bool {
        self.queue.items.len() == self.slots
    }

    /// Whether one more value can be given an index and a slot. The number of slots
    /// is doubled when all are taken.
    pub open spec fn has_room(self) -> bool {
        &&& self.queue.head() < u64::MAX
        &&& self.is_full() ==> 2 * self.slots <= usize::MAX
    }

    /// The channel after `value` is put into it.
    pub open spec fn push(self, value: T) -> Self {
        ChannelView {
            queue: self.queue.push(value),
            slots: if self.is_full() {
                2 * self.slots
            } else {
                self.slots
            },
            ..self
        }
    }
}

/// What sending `value` does.
pub open spec fn sends<T>(
    before: ChannelView<T>,
    value: T,
    after: ChannelView<T>,
    r: Result<u64, SendError<T>>,
) -> bool {
    if before.closed || !before.has_room() {
        &&& r == Err::<u64, SendError<T>>(SendError(value))
        &&& after == before
    } else {
        &&& r is Ok
        &&& r->Ok_0 == before.queue.head()
        &&& after == before.push(value)
    }
}

/// What receiving does.
pub open spec fn receives<T>(
    before: ChannelView<T>,
    after: ChannelView<T>,
    r: Result<T, RecvError>,
) -> bool {
    &&& r == match before.queue.popped() {
        Some(value) => Ok(value),
        None if before.closed => Err(RecvError::Disconnected),
        None => Err(RecvError::Empty),
    }
    &&& after == ChannelView { queue: before.queue.pop(), ..before }
}

/// What draining up to `watermark` does.
pub open spec fn drains<T>(
    before: ChannelView<T>,
    watermark: u64,
    after: ChannelView<T>,
    r: Result<Drain<T>, DrainError>,
) -> bool {
    &&& match r {
        Ok(drain) => {
            &&& !(before.closed && before.queue.items.len() == 0)
            &&& drain@ == before.queue.drained(watermark as int)
        },
        Err(DrainError) => before.closed && before.queue.items.len() == 0,
    }
    &&& after == ChannelView { queue: before.queue.drain_to(watermark as int), ..before }
}

/// What closing does.
pub open spec fn closes<T>(before: ChannelView<T>, after: ChannelView<T>) -> bool {
    after == ChannelView { closed: true, ..before }
}

/// A queue that can be closed.
pub struct ChannelState<T> {
    queue: RawChannel<T>,
    closed: bool,
}

impl<T> View for ChannelState<T> {
    type V = ChannelView<T>;

    closed spec fn view(&self) -> ChannelView<T> {
        ChannelView { queue: self.queue@, closed: self.closed, slots: self.queue.slots() }
    }
}

impl<T> ChannelState<T> {
    /// The queue is sound, and all slots without a value can be used.
    pub closed spec fn wf(self) -> bool {
        &&& self.queue.wf()
        &&& self.queue.unreturned() == 0
    }

    /// The indices of every channel fit a `u64`, and its values fit its slots.
    pub proof fn lemma_indices(self)
        requires
            self.wf(),
        ensures
            0 <= self@.queue.tail <= self@.queue.head() <= u64::MAX,
            self@.queue.items.len() <= self@.slots,
    {
        self.queue.lemma_indices();
    }

    /// Creates an open channel with the requested initial capacity.
    pub fn new(capacity: usize) -> (state: Self)
        requires
            capacity != 0,
        ensures
            state.wf(),
            state@.queue == QueueState::<T>::empty(),
            !state@.closed,
            detail::initial_capacity(capacity as int, state@.slots),
            state@.has_room(),
    {
        Self { queue: RawChannel::with_capacity(capacity), closed: false }
    }

    /// Whether the channel has been closed.
    pub fn is_closed(&self) -> (closed: bool)
        ensures
            closed == self@.closed,
    {
        self.closed
    }

    /// Takes note of how many handles there are: a channel that has lost one is
    /// closed.
    pub fn note_handles(&mut self, handles: usize)
        requires
            old(self).wf(),
        ensures
            final(self).wf(),
            if handles < 2 {
                closes(old(self)@, final(self)@)
            } else {
                *final(self) == *old(self)
            },
    {
        if handles < 2 {
            self.close();
        }
    }

    /// Closes the channel.
    pub fn close(&mut self)
        requires
            old(self).wf(),
        ensures
            final(self).wf(),
            closes(old(self)@, final(self)@),
    {
        self.closed = true;
    }

    /// The index at which the next value will be inserted.
    pub fn head(&self) -> (head: u64)
        requires
            self.wf(),
        ensures
            head == self@.queue.head(),
    {
        self.queue.head()
    }

    /// The index of the next value to be removed.
    pub fn tail(&self) -> (tail: u64)
        requires
            self.wf(),
        ensures
            tail == self@.queue.tail,
    {
        self.queue.tail()
    }

    /// Sends a value, unless the channel is closed or no index or slot is left.
    pub fn send(&mut self, value: T) -> (r: Result<u64, SendError<T>>)
        requires
            old(self).wf(),
        ensures
            final(self).wf(),
            sends(old(self)@, value, final(self)@, r),
    {
        if self.closed || !self.queue.can_push() {
            return Err(SendError(value));
        }
        Ok(self.queue.push(value))
    }

    /// Receives the next value.
    pub fn recv(&mut self) -> (r: Result<T, RecvError>)
        requires
            old(self).wf(),
        ensures
            final(self).wf(),
            receives(old(self)@, final(self)@, r),
    {
        match self.queue.pop() {
            Some(value) => Ok(value),
            None => if self.closed {
                Err(RecvError::Disconnected)
            } else {
                Err(RecvError::Empty)
            },
        }
    }

    /// Drains the channel up to `watermark`.
    pub fn drain_to(&mut self, watermark: u64) -> (r: Result<Drain<T>, DrainError>)
        requires
            old(self).wf(),
        ensures
            final(self).wf(),
            drains(old(self)@, watermark, final(self)@, r),
    {
        let drain = self.queue.drain_to(watermark);
        self.queue.release();
        if drain.len() == 0 && self.closed && self.queue.is_empty() {
            proof {
                let before = old(self)@.queue;
                assert(before.items =~= drain@ + self.queue@.items);
            }
            return Err(DrainError);
        }
        Ok(drain)
    }
}

/// What is done to a channel by one of its handles. It is closed first where a
/// handle is gone or has closed it.
pub struct Operation<T> {
    pub closing: bool,
    pub event: Event<T>,
}

/// The channel once it is closed, where it has to be.
pub open spec fn closed_if<T>(channel: ChannelView<T>, closing: bool) -> ChannelView<T> {
    ChannelView { closed: channel.closed || closing, ..channel }
}

/// What an operation does.
pub open spec fn operates<T>(
    before: ChannelView<T>,
    operation: Operation<T>,
    after: ChannelView<T>,
) -> bool {
    happens(closed_if(before, operation.closing), operation.event, after)
}

/// The condition that the lock keeps: the channel is sound, and has at least as many
/// slots as were asked for.
pub struct ChannelPred {
    pub capacity: usize,
}

impl<T> RwLockPredicate<ChannelState<T>> for ChannelPred {
    open spec fn inv(self, state: ChannelState<T>) -> bool {
        &&& state.wf()
        &&& self.capacity <= state@.slots
    }
}

/// Only the two handles write, and each step of theirs is an operation.
impl<T> Rules<ChannelState<T>, Operation<T>> for ChannelPred {
    open spec fn allows(
        self,
        grade: Grade,
        found: ChannelState<T>,
        operation: Operation<T>,
        left: ChannelState<T>,
    ) -> bool {
        &&& grade is Master
        &&& operates(found@, operation, left@)
    }
}

/// One step that a handle has made.
pub type ChannelStep<T> = Step<ChannelState<T>, Operation<T>>;

/// A channel that both handles can reach.
#[verifier::reject_recursive_types(T)]
pub struct Channel<T> {
    state: Ledger<ChannelState<T>, ChannelPred>,
}

/// The right of a handle to change its channel.
#[verifier::reject_recursive_types(T)]
struct Pen<T> {
    channel: Arc<Channel<T>>,
    ticket: Ticket<ChannelState<T>, ChannelPred, Operation<T>>,
}

impl<T> Pen<T> {
    #[verifier::type_invariant]
    spec fn wf(self) -> bool {
        &&& self.ticket.ledger() == self.channel.state
        &&& self.ticket.grade() is Master
    }
}

/// Whether `step` is what a handle does to its channel by `event`. `has_closed` is
/// whether that handle has closed it before.
pub open spec fn makes<T>(
    channel: Channel<T>,
    has_closed: bool,
    step: ChannelStep<T>,
    event: Event<T>,
) -> bool {
    &&& channel.admits(step.found)
    &&& channel.admits(step.left)
    &&& step.event.event == event
    &&& operates(step.found@, step.event, step.left@)
    &&& event is Closed || channel.found_closed(has_closed, step.event.closing)
}

impl<T> Channel<T> {
    /// The initial capacity that was asked for.
    pub closed spec fn requested(self) -> int {
        self.state.pred().capacity as int
    }

    /// The state at first.
    pub closed spec fn initial(self) -> ChannelState<T> {
        self.state.initial()
    }

    /// Whether the channel can be in the given state.
    pub open spec fn admits(self, state: ChannelState<T>) -> bool {
        &&& state.wf()
        &&& self.requested() <= state@.slots
    }

    /// Whether this is a ticket for the channel.
    pub closed spec fn issued(self, ticket: ChannelTicket<T>) -> bool {
        ticket.ledger() == self.state
    }

    /// Whether a handle has met the channel in the given state.
    pub closed spec fn seen(self, state: ChannelState<T>) -> bool {
        self.state.seen(state, ())
    }

    /// Whether the channel was in the given state when it was given up, and `witness` as
    /// it is given.
    pub closed spec fn kept<W>(self, state: ChannelState<T>, witness: W) -> bool {
        self.state.kept(state, witness)
    }

    /// Whether a handle has found that the channel has to be closed: it has closed
    /// it before, or the other handle is gone.
    pub open spec fn found_closed(self, has_closed: bool, closing: bool) -> bool {
        exists|handles: usize|
            #[trigger] refcnt::std_counted(self, handles) && closing == (has_closed || handles
                < 2)
    }

    /// Whether the channel has been closed, or the other handle dropped.
    fn is_closed(this: &Arc<Self>) -> (closed: bool)
        ensures
            exists|state: ChannelState<T>|
                this.admits(state) && #[trigger] state@.closed == closed,
            exists|state: ChannelState<T>, closing: bool|
                {
                    &&& this.admits(state)
                    &&& #[trigger] this.seen(state)
                    &&& #[trigger] this.found_closed(false, closing)
                    &&& closed == (state@.closed || closing)
                },
    {
        let reading = this.state.read(&());
        let ghost state = reading@;
        let handles: usize = refcnt::std_shares(this);
        let closing = handles < 2;
        let closed = reading.value().is_closed() || closing;
        reading.release();
        proof {
            let noted = ChannelState { closed, ..state };
            assert(this.admits(noted) && noted@.closed == closed);
            assert(this.seen(state) && this.found_closed(false, closing));
        }
        closed
    }

    fn close(pen: &mut Pen<T>)
        ensures
            final(pen).channel == old(pen).channel,
            final(pen).ticket.steps() == old(pen).ticket.steps().push(
                final(pen).ticket.steps().last(),
            ),
            final(pen).ticket.unfinished() == old(pen).ticket.unfinished(),
            makes(
                *old(pen).channel,
                false,
                final(pen).ticket.steps().last(),
                Event::Closed,
            ),
            !final(pen).ticket.steps().last().event.closing,
    {
        proof {
            use_type_invariant(&*pen);
        }
        let (mut state, writing) = pen.channel.state.write(&());
        state.close();
        let ghost operation = Operation { closing: false, event: Event::Closed };
        let entered = writing.enter(state, Ghost(operation), &mut pen.ticket);
        let finished = entered.finish();
        pen.ticket.settle(finished);
    }

    /// The state of the channel, closed, given what was left of the channel: nothing
    /// where there is another handle.
    pub fn left_state(channel: Option<Self>) -> (state: Option<ChannelState<T>>)
        ensures
            match (channel, state) {
                (Some(channel), Some(state)) => {
                    &&& channel.admits(state)
                    &&& state@.closed
                    &&& exists|found: ChannelState<T>| #[trigger]
                        channel.kept(found, ()) && closes(found@, state@)
                },
                (None, None) => true,
                _ => false,
            },
    {
        Self::left_with(channel, ())
    }

    /// The same, with a witness that is given up too.
    fn left_with<W>(channel: Option<Self>, witness: W) -> (state: Option<ChannelState<T>>)
        ensures
            match (channel, state) {
                (Some(channel), Some(state)) => {
                    &&& channel.admits(state)
                    &&& state@.closed
                    &&& exists|found: ChannelState<T>| #[trigger]
                        channel.kept(found, witness) && closes(found@, state@)
                },
                (None, None) => true,
                _ => false,
            },
    {
        match channel {
            Some(channel) => {
                let mut state = channel.state.into_inner(witness);
                let ghost found = state;
                state.close();
                assert(channel.kept(found, witness) && closes(found@, state@));
                Some(state)
            },
            None => None,
        }
    }

    /// The state of the channel, closed, where this is the last handle.
    fn into_state(pen: Pen<T>) -> (state: Option<ChannelState<T>>)
        ensures
            state matches Some(state) ==> {
                &&& pen.channel.admits(state)
                &&& state@.closed
            },
            gives_up(*pen.channel, pen.ticket.steps(), pen.ticket.unfinished(), state),
    {
        let mut pen = pen;
        Self::close(&mut pen);
        proof {
            use_type_invariant(&pen);
        }
        let Pen { channel, ticket } = pen;
        let ghost pointer = channel;
        let ghost last = ticket;
        let left = refcnt::std_release(channel);
        let ghost released = left;
        let state = Self::left_with(left, ticket);
        proof {
            assert(refcnt::std_released(*pointer, released));
            assert(last.steps().len() > 0);
        }
        state
    }
}

/// The right to change a channel.
pub type ChannelTicket<T> = Ticket<ChannelState<T>, ChannelPred, Operation<T>>;

/// What giving up a handle does, that has made the given steps: it closes the channel,
/// and nothing else. What is left of the channel comes out where it was the last handle.
pub open spec fn gives_up<T>(
    channel: Channel<T>,
    steps: Seq<ChannelStep<T>>,
    unfinished: int,
    state: Option<ChannelState<T>>,
) -> bool {
    exists|ticket: ChannelTicket<T>, left: Option<Channel<T>>|
        {
            let step = ticket.steps().last();
            &&& #[trigger] refcnt::std_released(channel, left)
            &&& channel.issued(ticket)
            &&& #[trigger] ticket.steps() == steps.push(step)
            &&& ticket.unfinished() == unfinished
            &&& makes(channel, false, step, Event::Closed)
            &&& state is Some == left is Some
            &&& state matches Some(state) ==> exists|found: ChannelState<T>| #[trigger]
                channel.kept(found, ticket) && closes(found@, state@)
        }
}

/// Creates an open channel with the requested initial capacity, and gives its two
/// handles.
pub fn channel<T>(capacity: usize) -> (r: (Sender<T>, Receiver<T>))
    requires
        capacity != 0,
    ensures
        r.0.channel() == r.1.channel(),
        r.0.channel().requested() == capacity,
        !r.0.has_closed(),
        !r.1.has_closed(),
        r.0.channel().admits(r.0.channel().initial()),
        r.0.channel().initial()@.queue == QueueState::<T>::empty(),
        !r.0.channel().initial()@.closed,
        detail::initial_capacity(capacity as int, r.0.channel().initial()@.slots),
        r.0.steps() == Seq::<ChannelStep<T>>::empty(),
        r.1.steps() == Seq::<ChannelStep<T>>::empty(),
        r.0.unfinished() == 0,
        r.1.unfinished() == 0,
{
    let state = ChannelState::new(capacity);
    let (state, first, second) = Ledger::new_pair(state, Ghost(ChannelPred { capacity }));
    let channel = Arc::new(Channel { state });
    (
        Sender { pen: Pen { channel: channel.clone(), ticket: first }, closed: false },
        Receiver { pen: Pen { channel, ticket: second }, closed: false },
    )
}

/// The sending handle of a channel.
#[verifier::reject_recursive_types(T)]
pub struct Sender<T> {
    pen: Pen<T>,
    closed: bool,
}

impl<T> Sender<T> {
    /// The channel that this is a handle of.
    pub closed spec fn channel(self) -> Channel<T> {
        *self.pen.channel
    }

    /// Whether this handle has closed the channel.
    pub closed spec fn has_closed(self) -> bool {
        self.closed
    }

    /// All that this handle has done to the channel, in order.
    pub closed spec fn steps(self) -> Seq<ChannelStep<T>> {
        self.pen.ticket.steps()
    }

    /// How many of these steps the channel has not been given back after.
    pub closed spec fn unfinished(self) -> int {
        self.pen.ticket.unfinished()
    }

    /// Checks if the channel has been closed, by this handle or by the other.
    pub fn is_closed(&self) -> (closed: bool)
        ensures
            self.has_closed() ==> closed,
            exists|state: ChannelState<T>|
                {
                    &&& self.channel().admits(state)
                    &&& closed == (#[trigger] state@.closed || self.has_closed())
                },
            exists|state: ChannelState<T>, closing: bool|
                {
                    &&& self.channel().admits(state)
                    &&& #[trigger] self.channel().seen(state)
                    &&& #[trigger] self.channel().found_closed(false, closing)
                    &&& closed == (state@.closed || closing || self.has_closed())
                },
    {
        let closed = Channel::is_closed(&self.pen.channel);
        let ghost state = choose|state: ChannelState<T>|
            self.channel().admits(state) && #[trigger] state@.closed == closed;
        assert(self.channel().admits(state) && state@.closed == closed);
        self.closed || closed
    }

    /// Sends a value into the channel, and returns its index.
    ///
    /// Fails where the channel is closed. Fails too where no index or slot is
    /// left, which takes more values than can be sent in practice.
    pub fn send(&mut self, value: T) -> (r: Result<u64, SendError<T>>)
        ensures
            old(self).has_closed() ==> r == Err::<u64, SendError<T>>(SendError(value)),
            final(self).channel() == old(self).channel(),
            final(self).has_closed() == old(self).has_closed(),
            final(self).steps() == old(self).steps().push(final(self).steps().last()),
            final(self).unfinished() == old(self).unfinished(),
            makes(
                old(self).channel(),
                old(self).has_closed(),
                final(self).steps().last(),
                Event::Sent(value, r),
            ),
            exists|before: ChannelState<T>, after: ChannelState<T>|
                {
                    &&& old(self).channel().admits(before)
                    &&& old(self).channel().admits(after)
                    &&& old(self).has_closed() ==> before@.closed
                    &&& #[trigger] sends(before@, value, after@, r)
                },
    {
        proof {
            use_type_invariant(&self.pen);
        }
        let (mut state, writing) = self.pen.channel.state.write(&());
        let handles: usize = refcnt::std_shares(&self.pen.channel);
        state.note_handles(handles);
        if self.closed {
            state.close();
        }
        let ghost before = state;
        let r = state.send(value);
        let ghost after = state;
        let ghost closing = self.closed || handles < 2;
        let ghost operation = Operation { closing, event: Event::Sent(value, r) };
        assert(before@ =~= closed_if(writing.found()@, closing));
        let entered = writing.enter(state, Ghost(operation), &mut self.pen.ticket);
        let finished = entered.finish();
        self.pen.ticket.settle(finished);
        assert(sends(before@, value, after@, r));
        assert(old(self).channel().found_closed(old(self).has_closed(), closing));
        r
    }

    /// Closes the channel. Values in it can still be received, but all further
    /// sends fail.
    pub fn close(&mut self)
        ensures
            final(self).channel() == old(self).channel(),
            final(self).has_closed(),
            final(self).steps() == old(self).steps().push(final(self).steps().last()),
            final(self).unfinished() == old(self).unfinished(),
            makes(old(self).channel(), false, final(self).steps().last(), Event::Closed),
            closes(
                final(self).steps().last().found@,
                final(self).steps().last().left@,
            ),
            exists|before: ChannelState<T>, after: ChannelState<T>|
                {
                    &&& old(self).channel().admits(before)
                    &&& old(self).channel().admits(after)
                    &&& #[trigger] closes(before@, after@)
                },
    {
        Channel::close(&mut self.pen);
        self.closed = true;
    }

    /// Gives this handle up, and with it closes the channel. The last handle to be
    /// given up gets what is left of the channel.
    pub fn into_state(self) -> (state: Option<ChannelState<T>>)
        ensures
            state matches Some(state) ==> self.channel().admits(state) && state@.closed,
            gives_up(self.channel(), self.steps(), self.unfinished(), state),
    {
        Channel::into_state(self.pen)
    }
}

/// The receiving handle of a channel.
#[verifier::reject_recursive_types(T)]
pub struct Receiver<T> {
    pen: Pen<T>,
    closed: bool,
}

impl<T> Receiver<T> {
    /// The channel that this is a handle of.
    pub closed spec fn channel(self) -> Channel<T> {
        *self.pen.channel
    }

    /// Whether this handle has closed the channel.
    pub closed spec fn has_closed(self) -> bool {
        self.closed
    }

    /// All that this handle has done to the channel, in order.
    pub closed spec fn steps(self) -> Seq<ChannelStep<T>> {
        self.pen.ticket.steps()
    }

    /// How many of these steps the channel has not been given back after.
    pub closed spec fn unfinished(self) -> int {
        self.pen.ticket.unfinished()
    }

    /// Checks if the channel has been closed, by this handle or by the other.
    pub fn is_closed(&self) -> (closed: bool)
        ensures
            self.has_closed() ==> closed,
            exists|state: ChannelState<T>|
                {
                    &&& self.channel().admits(state)
                    &&& closed == (#[trigger] state@.closed || self.has_closed())
                },
            exists|state: ChannelState<T>, closing: bool|
                {
                    &&& self.channel().admits(state)
                    &&& #[trigger] self.channel().seen(state)
                    &&& #[trigger] self.channel().found_closed(false, closing)
                    &&& closed == (state@.closed || closing || self.has_closed())
                },
    {
        let closed = Channel::is_closed(&self.pen.channel);
        let ghost state = choose|state: ChannelState<T>|
            self.channel().admits(state) && #[trigger] state@.closed == closed;
        assert(self.channel().admits(state) && state@.closed == closed);
        self.closed || closed
    }

    /// The index at which the next value will be inserted.
    pub fn head(&self) -> (head: u64)
        ensures
            exists|state: ChannelState<T>|
                {
                    &&& self.channel().admits(state)
                    &&& self.channel().seen(state)
                    &&& #[trigger] state@.queue.head() == head
                },
    {
        let reading = self.pen.channel.state.read(&());
        let ghost state = reading@;
        let head: u64 = reading.value().head();
        reading.release();
        assert(self.channel().admits(state) && state@.queue.head() == head);
        head
    }

    /// The index of the first value in the channel.
    pub fn tail(&self) -> (tail: u64)
        ensures
            exists|state: ChannelState<T>|
                {
                    &&& self.channel().admits(state)
                    &&& self.channel().seen(state)
                    &&& #[trigger] state@.queue.tail == tail
                },
    {
        let reading = self.pen.channel.state.read(&());
        let ghost state = reading@;
        let tail: u64 = reading.value().tail();
        reading.release();
        assert(self.channel().admits(state) && state@.queue.tail == tail);
        tail
    }

    /// Receives the next value from the channel. Never blocks on an empty one.
    pub fn recv(&mut self) -> (r: Result<T, RecvError>)
        ensures
            final(self).channel() == old(self).channel(),
            final(self).has_closed() == old(self).has_closed(),
            old(self).has_closed() ==> r != Err::<T, RecvError>(RecvError::Empty),
            final(self).steps() == old(self).steps().push(final(self).steps().last()),
            final(self).unfinished() == old(self).unfinished(),
            makes(
                old(self).channel(),
                old(self).has_closed(),
                final(self).steps().last(),
                Event::Received(r),
            ),
            exists|before: ChannelState<T>, after: ChannelState<T>|
                {
                    &&& old(self).channel().admits(before)
                    &&& old(self).channel().admits(after)
                    &&& old(self).has_closed() ==> before@.closed
                    &&& #[trigger] receives(before@, after@, r)
                },
    {
        proof {
            use_type_invariant(&self.pen);
        }
        let (mut state, writing) = self.pen.channel.state.write(&());
        let handles: usize = refcnt::std_shares(&self.pen.channel);
        state.note_handles(handles);
        if self.closed {
            state.close();
        }
        let ghost before = state;
        let r = state.recv();
        let ghost after = state;
        let ghost closing = self.closed || handles < 2;
        let ghost operation = Operation { closing, event: Event::Received(r) };
        assert(before@ =~= closed_if(writing.found()@, closing));
        let entered = writing.enter(state, Ghost(operation), &mut self.pen.ticket);
        let finished = entered.finish();
        self.pen.ticket.settle(finished);
        assert(receives(before@, after@, r));
        assert(old(self).channel().found_closed(old(self).has_closed(), closing));
        r
    }

    /// Drains all values from the channel.
    pub fn drain(&mut self) -> (r: Result<Drain<T>, DrainError>)
        ensures
            final(self).channel() == old(self).channel(),
            final(self).has_closed() == old(self).has_closed(),
            old(self).has_closed() && r is Ok ==> r->Ok_0@.len() > 0,
            final(self).steps() == old(self).steps().push(final(self).steps().last()),
            final(self).unfinished() == old(self).unfinished(),
            makes(
                old(self).channel(),
                old(self).has_closed(),
                final(self).steps().last(),
                Event::Drained(u64::MAX, r),
            ),
            exists|before: ChannelState<T>, after: ChannelState<T>|
                {
                    &&& old(self).channel().admits(before)
                    &&& old(self).channel().admits(after)
                    &&& old(self).has_closed() ==> before@.closed
                    &&& #[trigger] drains(before@, u64::MAX, after@, r)
                },
    {
        let r = self.drain_to(u64::MAX);
        proof {
            let (before, after) = choose|before: ChannelState<T>, after: ChannelState<T>|
                {
                    &&& old(self).channel().admits(before)
                    &&& old(self).channel().admits(after)
                    &&& old(self).has_closed() ==> before@.closed
                    &&& #[trigger] drains(before@, u64::MAX, after@, r)
                };
            before.lemma_indices();
        }
        r
    }

    /// Drains the channel up to `watermark`. Never blocks on an empty one.
    pub fn drain_to(&mut self, watermark: u64) -> (r: Result<Drain<T>, DrainError>)
        ensures
            final(self).channel() == old(self).channel(),
            final(self).has_closed() == old(self).has_closed(),
            final(self).steps() == old(self).steps().push(final(self).steps().last()),
            final(self).unfinished() == old(self).unfinished(),
            makes(
                old(self).channel(),
                old(self).has_closed(),
                final(self).steps().last(),
                Event::Drained(watermark, r),
            ),
            exists|before: ChannelState<T>, after: ChannelState<T>|
                {
                    &&& old(self).channel().admits(before)
                    &&& old(self).channel().admits(after)
                    &&& old(self).has_closed() ==> before@.closed
                    &&& #[trigger] drains(before@, watermark, after@, r)
                },
    {
        proof {
            use_type_invariant(&self.pen);
        }
        let (mut state, writing) = self.pen.channel.state.write(&());
        let handles: usize = refcnt::std_shares(&self.pen.channel);
        state.note_handles(handles);
        if self.closed {
            state.close();
        }
        let ghost before = state;
        let r = state.drain_to(watermark);
        let ghost after = state;
        let ghost closing = self.closed || handles < 2;
        let ghost operation = Operation { closing, event: Event::Drained(watermark, r) };
        assert(before@ =~= closed_if(writing.found()@, closing));
        let entered = writing.enter(state, Ghost(operation), &mut self.pen.ticket);
        let finished = entered.finish();
        self.pen.ticket.settle(finished);
        assert(drains(before@, watermark, after@, r));
        assert(old(self).channel().found_closed(old(self).has_closed(), closing));
        r
    }

    /// Closes the channel. Values in it can still be received.
    pub fn close(&mut self)
        ensures
            final(self).channel() == old(self).channel(),
            final(self).has_closed(),
            final(self).steps() == old(self).steps().push(final(self).steps().last()),
            final(self).unfinished() == old(self).unfinished(),
            makes(old(self).channel(), false, final(self).steps().last(), Event::Closed),
            closes(
                final(self).steps().last().found@,
                final(self).steps().last().left@,
            ),
            exists|before: ChannelState<T>, after: ChannelState<T>|
                {
                    &&& old(self).channel().admits(before)
                    &&& old(self).channel().admits(after)
                    &&& #[trigger] closes(before@, after@)
                },
    {
        Channel::close(&mut self.pen);
        self.closed = true;
    }

    /// Gives this handle up, and with it closes the channel. The last handle to be
    /// given up gets what is left of the channel.
    pub fn into_state(self) -> (state: Option<ChannelState<T>>)
        ensures
            state matches Some(state) ==> self.channel().admits(state) && state@.closed,
            gives_up(self.channel(), self.steps(), self.unfinished(), state),
    {
        Channel::into_state(self.pen)
    }
}

/// What a closed channel promises: nothing more can be sent, a value still in
/// it is received, and only once it is empty is the receiver told that it is
/// closed.
pub proof fn lemma_closed<T>(
    before: ChannelView<T>,
    value: T,
    after: ChannelView<T>,
    sent: Result<u64, SendError<T>>,
    received: Result<T, RecvError>,
)
    requires
        before.closed,
    ensures
        sends(before, value, after, sent) ==> sent is Err && after == before,
        receives(before, after, received) ==> after.closed && (received is Ok
            <==> before.queue.items.len() > 0),
        receives(before, after, received) ==> (received == Err::<T, RecvError>(
            RecvError::Disconnected,
        ) <==> before.queue.items.len() == 0),
{
}

/// One operation on a channel and its outcome.
pub enum Event<T> {
    Sent(T, Result<u64, SendError<T>>),
    Received(Result<T, RecvError>),
    Drained(u64, Result<Drain<T>, DrainError>),
    Closed,
}

/// What an operation does.
pub open spec fn happens<T>(
    before: ChannelView<T>,
    event: Event<T>,
    after: ChannelView<T>,
) -> bool {
    match event {
        Event::Sent(value, r) => sends(before, value, after, r),
        Event::Received(r) => receives(before, after, r),
        Event::Drained(watermark, r) => drains(before, watermark, after, r),
        Event::Closed => closes(before, after),
    }
}

/// What operation number `i` of a series does.
pub open spec fn happens_at<T>(
    states: Seq<ChannelView<T>>,
    events: Seq<Event<T>>,
    i: int,
) -> bool {
    happens(states[i], events[i], states[i + 1])
}

/// Whether a channel goes through `states` by the given series of operations. The
/// operations of two threads that share a channel are such a series, whatever the
/// order in which they get the lock.
pub open spec fn passes_through<T>(states: Seq<ChannelView<T>>, events: Seq<Event<T>>) -> bool {
    &&& states.len() == events.len() + 1
    &&& forall|i: int| 0 <= i < events.len() ==> #[trigger] happens_at(states, events, i)
}

/// The values that a series of operations has sent.
pub open spec fn values_sent<T>(events: Seq<Event<T>>) -> Seq<T>
    decreases events.len(),
{
    if events.len() == 0 {
        Seq::empty()
    } else {
        let earlier = values_sent(events.drop_last());
        match events.last() {
            Event::Sent(value, Ok(_)) => earlier.push(value),
            _ => earlier,
        }
    }
}

/// The values that a series of operations has received, in order.
pub open spec fn values_received<T>(events: Seq<Event<T>>) -> Seq<T>
    decreases events.len(),
{
    if events.len() == 0 {
        Seq::empty()
    } else {
        let earlier = values_received(events.drop_last());
        match events.last() {
            Event::Received(Ok(value)) => earlier.push(value),
            Event::Drained(_, Ok(drain)) => earlier + drain@,
            _ => earlier,
        }
    }
}

/// Whether one of the operations closes the channel.
pub open spec fn closed_in<T>(events: Seq<Event<T>>) -> bool {
    exists|i: int| 0 <= i < events.len() && #[trigger] events[i] is Closed
}

/// What a channel promises over any series of operations: the values received,
/// followed by those still in it, are those that were in it, followed by those
/// sent, so none is lost, repeated or reordered. And it is closed exactly when it
/// was or when it has been closed meanwhile; nothing opens it again.
pub proof fn lemma_series<T>(states: Seq<ChannelView<T>>, events: Seq<Event<T>>)
    requires
        passes_through(states, events),
    ensures
        values_received(events) + states.last().queue.items == states[0].queue.items
            + values_sent(events),
        states.last().queue.tail == states[0].queue.tail + values_received(events).len(),
        states.last().closed == (states[0].closed || closed_in(events)),
    decreases events.len(),
{
    if events.len() == 0 {
        assert(values_received(events) + states.last().queue.items =~= states[0].queue.items
            + values_sent(events));
    } else {
        let n = events.len() - 1;
        let fewer = events.drop_last();
        let earlier = states.drop_last();
        assert forall|i: int| 0 <= i < fewer.len() implies #[trigger] happens_at(
            earlier,
            fewer,
            i,
        ) by {
            assert(happens_at(states, events, i));
        }
        lemma_series(earlier, fewer);
        assert(happens_at(states, events, n));
        let before = states[n].queue;
        let got = values_received(fewer);
        let supplied = states[0].queue.items + values_sent(fewer);
        assert(closed_in(events) == (closed_in(fewer) || events[n] is Closed)) by {
            if closed_in(fewer) {
                let i = choose|i: int| 0 <= i < fewer.len() && #[trigger] fewer[i] is Closed;
                assert(events[i] is Closed);
            }
            if closed_in(events) {
                let i = choose|i: int| 0 <= i < events.len() && #[trigger] events[i] is Closed;
                assert(i < n ==> fewer[i] is Closed);
            }
        }
        match events[n] {
            Event::Sent(value, r) => {
                if r is Ok {
                    assert(got + before.items.push(value) =~= supplied.push(value));
                    assert(supplied.push(value) =~= states[0].queue.items + values_sent(events));
                }
            },
            Event::Received(r) => {
                if before.items.len() > 0 {
                    assert(got.push(before.items[0]) + before.items.drop_first() =~= got
                        + before.items);
                }
            },
            Event::Drained(watermark, r) => {
                let k = before.below(watermark as int);
                assert((got + before.items.take(k)) + before.items.skip(k) =~= got + before.items);
                if r is Err {
                    assert(before.items.skip(k) =~= before.items);
                }
            },
            Event::Closed => {},
        }
    }
}

/// A channel that is open takes every value that is sent, however few slots it was
/// made with and however many values wait in it, and gives it the next index: send
/// number `k` of a channel that started empty at 0 returns `k`.
///
/// The bounds are those of the machine: that there is a `u64` for the index, and
/// that twice the number of values in the channel fits a `usize`.
pub proof fn lemma_open_takes_all<T>(
    states: Seq<ChannelView<T>>,
    events: Seq<Event<T>>,
    i: int,
    value: T,
    r: Result<u64, SendError<T>>,
)
    requires
        passes_through(states, events),
        0 <= i < events.len(),
        events[i] == Event::Sent(value, r),
        !states[0].closed,
        !closed_in(events.take(i)),
        states[i].queue.head() < u64::MAX,
        2 * states[i].queue.items.len() <= usize::MAX,
    ensures
        r is Ok,
        r->Ok_0 == states[0].queue.head() + values_sent(events.take(i)).len(),
{
    let earlier = states.take(i + 1);
    let fewer = events.take(i);
    assert forall|j: int| 0 <= j < fewer.len() implies #[trigger] happens_at(
        earlier,
        fewer,
        j,
    ) by {
        assert(happens_at(states, events, j));
    }
    lemma_series(earlier, fewer);
    assert(happens_at(states, events, i));
    let all = values_received(fewer) + states[i].queue.items;
    assert(all.len() == values_received(fewer).len() + states[i].queue.items.len());
}

} // verus!
