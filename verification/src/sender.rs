//! The sending half of a broadcast channel.

use triomphe::Arc;
use vstd::prelude::*;
use vstd::std_specs::iter::IteratorSpec;

use crate::masswake::notify;
use crate::receiver::Receiver;
use crate::refcnt;
use crate::refcnt::ArcCache;
use crate::masswake::notify::QueueStep;
use crate::shared::{Channel, Event, Pen, Shared, SharedStep};
use crate::shared;

verus! {

/// How many there are besides one of them.
pub open spec fn others(handles: int) -> int {
    handles - 1
}

/// The number of receivers among the handles of a channel: all but the sender.
pub fn other_handles(handles: usize) -> (receivers: usize)
    requires
        handles >= 1,
    ensures
        receivers == others(handles as int),
{
    handles - 1
}

/// The sending half of a broadcast channel.
///
/// Dropping it closes the channel, but wakes no task that already waits: for that,
/// call [`Sender::close`] or [`Sender::into_state`].
#[verifier::reject_recursive_types(T)]
pub struct Sender<T> {
    pen: Pen<T>,
    cache: ArcCache<T>,
    closed: bool,
    /// Shows that this is there. It goes when this is dropped.
    _alive: Arc<()>,
}

impl<T> Sender<T> {
    /// The channel that this sends into.
    pub open spec fn channel(self) -> Channel<T> {
        self.pen().channel()
    }

    /// The right by which this changes the channel.
    pub closed spec fn pen(self) -> Pen<T> {
        self.pen
    }

    /// All that this has done to the channel, in order.
    pub open spec fn steps(self) -> Seq<SharedStep<T>> {
        self.pen().steps()
    }

    /// All notifications of the tasks that wait, in order.
    pub open spec fn notices(self) -> Seq<QueueStep> {
        self.pen().notices()
    }

    /// The pointer to the channel, which this shares with the receivers.
    pub open spec fn pointer(self) -> Arc<Channel<T>> {
        self.pen().pointer()
    }

    /// Whether the channel has been closed.
    pub closed spec fn has_closed(self) -> bool {
        self.closed
    }

    /// Creates a channel that holds up to `capacity` values.
    pub fn new(capacity: usize) -> (sender: Self)
        ensures
            sender.channel().capacity() == capacity,
            !sender.has_closed(),
            sender.channel().starts_empty(),
            sender.steps() == Seq::<SharedStep<T>>::empty(),
            sender.notices() == Seq::<QueueStep>::empty(),
            sender.pen().account().unfinished() == 0,
            sender.pen().unfinished_notices() == 0,
    {
        let (pen, alive) = Pen::new(capacity);
        Self {
            pen,
            cache: ArcCache::new(),
            closed: false,
            _alive: alive,
        }
    }

    /// Creates a receiver of the values that are sent after this call.
    pub fn subscribe(&self) -> (receiver: Receiver<T>)
        ensures
            receiver.channel() == self.channel(),
            receiver.listens(),
            !receiver.interest().is_registered(),
            exists|state: Shared<T>|
                {
                    &&& self.channel().admits(state)
                    &&& self.channel().seen(state, ())
                    &&& receiver.watermark() == #[trigger] state@.newcomer()
                },
    {
        Receiver::new(self.pen.get().clone())
    }

    /// Sends a value to all receivers, and wakes those that wait for one.
    ///
    /// Where several values are available at the same time,
    /// [`Sender::send_bulk`] is much more efficient.
    pub fn send(&mut self, value: T)
        requires
            old(self).channel().capacity() > 0,
            !old(self).has_closed(),
        ensures
            final(self).channel() == old(self).channel(),
            notify::notifies_some(old(self).channel().queues()),
            final(self).has_closed() == old(self).has_closed(),
            shared::makes(old(self).pen(), Event::Sent(seq![value]), final(self).pen()),
            shared::notifies(old(self).pen(), final(self).pen()),
            exists|before: Shared<T>, after: Shared<T>|
                {
                    &&& old(self).channel().admits(before)
                    &&& old(self).channel().admits(after)
                    &&& #[trigger] shared::broadcasts(before@, seq![value], after@)
                },
    {
        Channel::send(&mut self.pen, value, &mut self.cache);
    }

    /// Sends several values to all receivers, and wakes those that wait for one
    /// once all are sent.
    pub fn send_bulk<I: Iterator<Item = T>>(&mut self, items: I)
        requires
            old(self).channel().capacity() > 0,
            !old(self).has_closed(),
            items.obeys_prophetic_iter_laws(),
            items.decrease() is Some,
        ensures
            final(self).channel() == old(self).channel(),
            notify::notifies_some(old(self).channel().queues()),
            final(self).has_closed() == old(self).has_closed(),
            shared::makes(old(self).pen(), Event::Sent(items.remaining()), final(self).pen()),
            shared::notifies(old(self).pen(), final(self).pen()),
            exists|before: Shared<T>, after: Shared<T>|
                {
                    &&& old(self).channel().admits(before)
                    &&& old(self).channel().admits(after)
                    &&& #[trigger] shared::broadcasts(before@, items.remaining(), after@)
                },
    {
        let values: Vec<T> = shared::collect(items);
        Channel::send_bulk(&mut self.pen, values, &mut self.cache);
    }

    /// The number of active receivers.
    ///
    /// How many handles there are depends on the rest of the program.
    pub fn receiver_count(&self) -> (count: usize)
        ensures
            exists|handles: usize| handles >= 1 && count == #[trigger] others(handles as int),
            exists|handles: usize| #[trigger]
                refcnt::counted(self.pointer(), handles) && count == others(handles as int),
    {
        let handles: usize = refcnt::shares(self.pen.get());
        let count: usize = other_handles(handles);
        assert(count == others(handles as int));
        assert(refcnt::counted(self.pointer(), handles));
        count
    }

    /// Closes the channel: nothing more can be sent. Receivers still get what is
    /// in it, and those that wait are woken.
    pub fn close(&mut self)
        ensures
            final(self).channel() == old(self).channel(),
            notify::notifies_some(old(self).channel().queues()),
            final(self).has_closed(),
            shared::makes(old(self).pen(), Event::Closed, final(self).pen()),
            shared::notifies(old(self).pen(), final(self).pen()),
            exists|before: Shared<T>, after: Shared<T>|
                {
                    &&& old(self).channel().admits(before)
                    &&& old(self).channel().admits(after)
                    &&& #[trigger] shared::closes(before@, after@)
                },
    {
        self.closed = true;
        Channel::close(&mut self.pen);
    }

    /// Gives the sender up, and with it closes the channel. The last handle to be
    /// given up gets what is left of the channel.
    pub fn into_state(self) -> (state: Option<Shared<T>>)
        ensures
            state matches Some(state) ==> self.channel().admits(state) && state@.closed,
            exists|pen: Pen<T>|
                {
                    &&& #[trigger] shared::makes(self.pen(), Event::Closed, pen)
                    &&& shared::notifies(self.pen(), pen)
                    &&& shared::gives_up(self.pointer(), pen.account(), state)
                },
    {
        let mut pen = self.pen;
        Channel::close(&mut pen);
        let ghost last = pen;
        let (channel, ticket) = pen.into_parts();
        assert(shared::makes(self.pen(), Event::Closed, last));
        Channel::into_state(channel, ticket)
    }
}

} // verus!
