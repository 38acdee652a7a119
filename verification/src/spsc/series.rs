//! What a channel promises over any series of operations through its two handles.
//!
//! The steps of both handles, in the order in which they had the lock, are one
//! series: each finds what the one before has left.

use vstd::prelude::*;

use crate::fifo::QueueState;
use crate::spsc::channel::{
    makes, values_received, values_sent, Channel, ChannelState, ChannelStep, DrainError, Event,
    Receiver, Sender,
};
use crate::spsc::channel;
use crate::spsc::detail::Drain;

verus! {

/// What the steps were.
pub open spec fn events_of<T>(steps: Seq<ChannelStep<T>>) -> Seq<Event<T>> {
    steps.map_values(|step: ChannelStep<T>| step.event.event)
}

/// Whether each step finds what the one before has left, from `first` on.
pub open spec fn consecutive<T>(first: ChannelState<T>, steps: Seq<ChannelStep<T>>) -> bool {
    &&& steps.len() > 0 ==> steps[0].found == first
    &&& forall|i: int| 0 < i < steps.len() ==> (#[trigger] steps[i]).found == steps[i - 1].left
}

/// The state that the steps leave.
pub open spec fn state_after<T>(
    first: ChannelState<T>,
    steps: Seq<ChannelStep<T>>,
) -> ChannelState<T> {
    if steps.len() == 0 {
        first
    } else {
        steps.last().left
    }
}

/// Whether a step is one that the sending handle makes.
pub open spec fn by_sender<T>(channel: Channel<T>, step: ChannelStep<T>) -> bool {
    &&& step.event.event is Sent || step.event.event is Closed
    &&& exists|has_closed: bool| #[trigger] makes(channel, has_closed, step, step.event.event)
}

/// Whether a step is one that the receiving handle makes.
pub open spec fn by_receiver<T>(channel: Channel<T>, step: ChannelStep<T>) -> bool {
    &&& !(step.event.event is Sent)
    &&& exists|has_closed: bool| #[trigger] makes(channel, has_closed, step, step.event.event)
}

/// The steps of one handle, given which of all steps are those of the sending one.
pub open spec fn part<T>(
    steps: Seq<ChannelStep<T>>,
    sending: Seq<bool>,
    which: bool,
) -> Seq<ChannelStep<T>>
    decreases steps.len(),
{
    if steps.len() == 0 {
        Seq::empty()
    } else {
        let earlier = part(steps.drop_last(), sending.drop_last(), which);
        if sending.last() == which {
            earlier.push(steps.last())
        } else {
            earlier
        }
    }
}

/// Whether `steps` are all steps of both handles of a channel so far, in order. Those
/// of the sending handle are marked in `sending`.
pub open spec fn series<T>(
    channel: Channel<T>,
    steps: Seq<ChannelStep<T>>,
    sending: Seq<bool>,
) -> bool {
    &&& steps.len() == sending.len()
    &&& consecutive(channel.initial(), steps)
    &&& forall|i: int|
        0 <= i < steps.len() ==> if sending[i] {
            by_sender(channel, #[trigger] steps[i])
        } else {
            by_receiver(channel, steps[i])
        }
}

proof fn lemma_events<T>(steps: Seq<ChannelStep<T>>, step: ChannelStep<T>)
    ensures
        events_of(steps.push(step)) == events_of(steps).push(step.event.event),
        events_of(steps.push(step)).drop_last() == events_of(steps),
{
    assert(events_of(steps.push(step)) =~= events_of(steps).push(step.event.event));
    assert(events_of(steps.push(step)).drop_last() =~= events_of(steps));
}

/// Nothing is lost, repeated or reordered: over any series of operations through both
/// handles of a channel, the values that the receiving handle has got, followed by
/// those still in the channel, are those that the sending handle has sent.
pub proof fn lemma_handles<T>(
    sender: Sender<T>,
    receiver: Receiver<T>,
    steps: Seq<ChannelStep<T>>,
    sending: Seq<bool>,
)
    requires
        receiver.channel() == sender.channel(),
        sender.channel().initial()@.queue == QueueState::<T>::empty(),
        series(sender.channel(), steps, sending),
        part(steps, sending, true) == sender.steps(),
        part(steps, sending, false) == receiver.steps(),
    ensures
        ({
            let queue = state_after(sender.channel().initial(), steps)@.queue;
            let received = values_received(events_of(receiver.steps()));
            &&& received + queue.items == values_sent(events_of(sender.steps()))
            &&& queue.tail == received.len()
        }),
{
    lemma_parts(sender.channel(), steps, sending);
}

proof fn lemma_parts<T>(
    channel: Channel<T>,
    steps: Seq<ChannelStep<T>>,
    sending: Seq<bool>,
)
    requires
        series(channel, steps, sending),
        channel.initial()@.queue.items.len() == 0,
        channel.initial()@.queue.tail == 0,
    ensures
        values_received(events_of(part(steps, sending, false))) + state_after(
            channel.initial(),
            steps,
        )@.queue.items == values_sent(events_of(part(steps, sending, true))),
        state_after(channel.initial(), steps)@.queue.tail == values_received(
            events_of(part(steps, sending, false)),
        ).len(),
    decreases steps.len(),
{
    let first = channel.initial();
    let got = events_of(part(steps, sending, false));
    let put = events_of(part(steps, sending, true));
    if steps.len() == 0 {
        assert(values_received(got) + first@.queue.items =~= values_sent(put));
    } else {
        let n = steps.len() - 1;
        let fewer = steps.drop_last();
        let marks = sending.drop_last();
        assert forall|i: int| 0 <= i < fewer.len() implies if marks[i] {
            by_sender(channel, #[trigger] fewer[i])
        } else {
            by_receiver(channel, fewer[i])
        } by {
            assert(fewer[i] == steps[i]);
        }
        assert forall|i: int| 0 < i < fewer.len() implies (#[trigger] fewer[i]).found == fewer[i
            - 1].left by {
            assert(steps[i].found == steps[i - 1].left);
        }
        lemma_parts(channel, fewer, marks);
        let step = steps[n];
        assert(step.found == state_after(first, fewer));
        lemma_events(part(fewer, marks, sending[n]), step);
        let before = step.found@.queue;
        let after = step.left@.queue;
        let received = values_received(events_of(part(fewer, marks, false)));
        let sent = values_sent(events_of(part(fewer, marks, true)));
        let has_closed = choose|has_closed: bool| #[trigger]
            makes(channel, has_closed, step, step.event.event);
        assert(makes(channel, has_closed, step, step.event.event));
        match step.event.event {
            Event::Sent(value, r) => {
                if r is Ok {
                    assert(received + before.items.push(value) =~= sent.push(value));
                }
            },
            Event::Received(r) => {
                if before.items.len() > 0 {
                    assert(received.push(before.items[0]) + before.items.drop_first() =~= received
                        + before.items);
                }
            },
            Event::Drained(watermark, r) => {
                let k = before.below(watermark as int);
                assert((received + before.items.take(k)) + before.items.skip(k) =~= received
                    + before.items);
                if r is Err {
                    assert(before.items.skip(k) =~= before.items);
                }
            },
            Event::Closed => {},
        }
    }
}

/// Draining up to a watermark takes exactly the values whose index is below it, in
/// order, and leaves every other one in the channel under the index that it had.
pub proof fn lemma_drain_to<T>(
    channel: Channel<T>,
    has_closed: bool,
    step: ChannelStep<T>,
    watermark: u64,
    r: Result<Drain<T>, DrainError>,
    index: int,
)
    requires
        makes(channel, has_closed, step, Event::Drained(watermark, r)),
        step.found@.queue.tail <= index < step.found@.queue.head(),
    ensures
        ({
            let before = step.found@.queue;
            let after = step.left@.queue;
            let value = before.items[index - before.tail];
            &&& after.head() == before.head()
            &&& r is Ok
            &&& if index < watermark {
                &&& 0 <= index - before.tail < r->Ok_0@.len()
                &&& r->Ok_0@[index - before.tail] == value
                &&& index < after.tail
            } else {
                &&& r->Ok_0@.len() <= index - before.tail
                &&& after.tail <= index < after.head()
                &&& after.items[index - after.tail] == value
            }
        }),
{
}

/// A value that is sent through an open channel gets the next index, and is the last
/// one to be received: before it come exactly those that were in the channel. It is
/// refused only where the channel has been closed, by either handle, or a handle is gone,
/// or where the machine has no index or memory left for it.
pub proof fn lemma_send<T>(
    channel: Channel<T>,
    has_closed: bool,
    step: ChannelStep<T>,
    value: T,
    r: Result<u64, channel::SendError<T>>,
)
    requires
        makes(channel, has_closed, step, Event::Sent(value, r)),
    ensures
        r is Ok ==> {
            &&& r->Ok_0 == step.found@.queue.head()
            &&& !step.found@.closed
            &&& step.left@.queue.items == step.found@.queue.items + seq![value]
            &&& step.left@.queue.tail == step.found@.queue.tail
        },
        r is Err ==> {
            &&& r->Err_0.0 == value
            &&& step.left@.queue == step.found@.queue
        },
        step.found@.closed || has_closed ==> r is Err,
        r is Err ==> step.found@.closed || step.event.closing || step.found@.queue.head()
            >= u64::MAX || 2 * step.found@.queue.items.len() > usize::MAX,
{
    assert(step.found@.queue.items.push(value) =~= step.found@.queue.items + seq![value]);
}

/// The receiving handle gets the value that has been in the channel longest, and is
/// told that there is none exactly where the channel is empty.
pub proof fn lemma_recv<T>(
    channel: Channel<T>,
    has_closed: bool,
    step: ChannelStep<T>,
    r: Result<T, channel::RecvError>,
)
    requires
        makes(channel, has_closed, step, Event::Received(r)),
    ensures
        r is Err <==> step.found@.queue.items.len() == 0,
        r is Err ==> step.left@.queue == step.found@.queue,
        r matches Ok(value) ==> step.found@.queue.items == seq![value] + step.left@.queue.items,
        has_closed && r is Err ==> r->Err_0 is Disconnected,
        r is Err && r->Err_0 is Disconnected ==> step.left@.closed,
{
    if r is Ok {
        let items = step.found@.queue.items;
        assert(items =~= seq![items[0]] + items.drop_first());
    }
}

} // verus!
