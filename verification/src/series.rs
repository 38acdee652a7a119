//! What a broadcast channel promises over any series of operations.
//!
//! Only the sender changes a channel. So its steps, each of which finds what the one
//! before has left, are all that ever happens to it, and a receiver meets it in the
//! state that some of them have left.

use std::task::Waker;

use vstd::prelude::*;

use crate::error::{RecvError, TryRecvError};
use crate::masswake::notify::{Interest, QueueStep};
use crate::masswake::series::{consecutive, joins, lemma_registered_is_woken, notified_by};
use crate::masswake::wakeups::were_woken;
use crate::receiver::{polled, polls, polls_twice, same_poll, Poll};
use crate::receiver;
use crate::shared::{closed_if, lemma_history, lemma_received, makes, notifies, Pen};
use crate::shared::{Channel, Event, Shared, SharedStep, SharedView};
use crate::shared;

verus! {

/// The values that the steps have sent, in order.
pub open spec fn sent_by<T>(steps: Seq<SharedStep<T>>) -> Seq<T>
    decreases steps.len(),
{
    if steps.len() == 0 {
        Seq::empty()
    } else {
        match steps.last().event {
            Event::Sent(values) => sent_by(steps.drop_last()) + values,
            Event::Closed => sent_by(steps.drop_last()),
        }
    }
}

/// Whether one of the steps closes the channel.
pub open spec fn closed_by<T>(steps: Seq<SharedStep<T>>) -> bool {
    exists|i: int| 0 <= i < steps.len() && (#[trigger] steps[i]).event is Closed
}

/// The state that the steps leave.
pub open spec fn state_after<T>(channel: Channel<T>, steps: Seq<SharedStep<T>>) -> Shared<T> {
    if steps.len() == 0 {
        channel.initial()
    } else {
        steps.last().left
    }
}

/// Whether step number `i` finds what the one before has left, and does what it says.
pub open spec fn step_at<T>(channel: Channel<T>, steps: Seq<SharedStep<T>>, i: int) -> bool {
    &&& steps[i].found == if i == 0 {
        channel.initial()
    } else {
        steps[i - 1].left
    }
    &&& shared::happens(steps[i].found@, steps[i].event, steps[i].left@)
}

/// Whether the steps are all that has happened to a channel that was created empty.
/// There is a `u64` for the number of every value.
pub open spec fn series<T>(channel: Channel<T>, steps: Seq<SharedStep<T>>) -> bool {
    &&& channel.starts_empty()
    &&& channel.capacity() > 0
    &&& sent_by(steps).len() <= u64::MAX
    &&& forall|i: int| 0 <= i < steps.len() ==> #[trigger] step_at(channel, steps, i)
}

/// What has been sent up to some step is the beginning of what has been sent.
proof fn lemma_sent_prefix<T>(steps: Seq<SharedStep<T>>, n: int)
    requires
        0 <= n <= steps.len(),
    ensures
        sent_by(steps.take(n)).len() <= sent_by(steps).len(),
        sent_by(steps.take(n)) == sent_by(steps).take(sent_by(steps.take(n)).len() as int),
    decreases steps.len(),
{
    if n == steps.len() {
        assert(steps.take(n) =~= steps);
        assert(sent_by(steps).take(sent_by(steps).len() as int) =~= sent_by(steps));
    } else {
        let fewer = steps.drop_last();
        assert(fewer.take(n) =~= steps.take(n));
        lemma_sent_prefix(fewer, n);
        let k = sent_by(steps.take(n)).len() as int;
        assert(sent_by(steps).take(k) =~= sent_by(fewer).take(k));
    }
}

/// A part of a series from its start is a series.
proof fn lemma_prefix<T>(channel: Channel<T>, steps: Seq<SharedStep<T>>, n: int)
    requires
        series(channel, steps),
        0 <= n <= steps.len(),
    ensures
        series(channel, steps.take(n)),
{
    lemma_sent_prefix(steps, n);
    assert forall|i: int| 0 <= i < n implies #[trigger] step_at(channel, steps.take(n), i) by {
        assert(step_at(channel, steps, i));
    }
}

/// The state that a series leaves is that of a channel into which the values have
/// been sent.
proof fn lemma_state<T>(channel: Channel<T>, steps: Seq<SharedStep<T>>)
    requires
        series(channel, steps),
    ensures
        state_after(channel, steps)@ == SharedView::with_history(
            channel.capacity(),
            sent_by(steps),
            closed_by(steps),
        ),
    decreases steps.len(),
{
    if steps.len() > 0 {
        let n = steps.len() - 1;
        let fewer = steps.take(n);
        assert(fewer =~= steps.drop_last());
        lemma_prefix(channel, steps, n);
        lemma_state(channel, fewer);
        assert(step_at(channel, steps, n));
        assert(steps[n].found == state_after(channel, fewer));
        assert(closed_by(steps) == (closed_by(fewer) || steps[n].event is Closed)) by {
            if closed_by(fewer) {
                let i = choose|i: int| 0 <= i < n && (#[trigger] fewer[i]).event is Closed;
                assert(steps[i].event is Closed);
            }
            if closed_by(steps) {
                let i = choose|i: int|
                    0 <= i < steps.len() && (#[trigger] steps[i]).event is Closed;
                assert(i < n ==> fewer[i].event is Closed);
            }
        }
        match steps[n].event {
            Event::Sent(values) => {
                lemma_history(channel.capacity(), sent_by(fewer), values, closed_by(fewer));
            },
            Event::Closed => {},
        }
    }
}

/// Every step of the sender carries a series on.
pub proof fn lemma_series_kept<T>(before: Pen<T>, event: Event<T>, after: Pen<T>)
    requires
        series(before.channel(), before.steps()),
        makes(before, event, after),
        after.steps().last().found == state_after(before.channel(), before.steps()),
        sent_by(after.steps()).len() <= u64::MAX,
    ensures
        series(after.channel(), after.steps()),
        sent_by(after.steps()) == match event {
            Event::Sent(values) => sent_by(before.steps()) + values,
            Event::Closed => sent_by(before.steps()),
        },
        closed_by(after.steps()) == (closed_by(before.steps()) || event is Closed),
{
    let earlier = before.steps();
    let steps = after.steps();
    let n = earlier.len() as int;
    assert(steps.drop_last() =~= earlier);
    assert forall|i: int| 0 <= i < steps.len() implies #[trigger] step_at(
        before.channel(),
        steps,
        i,
    ) by {
        if i < n {
            assert(step_at(before.channel(), earlier, i));
        }
    }
    if closed_by(earlier) {
        let i = choose|i: int| 0 <= i < n && (#[trigger] earlier[i]).event is Closed;
        assert(steps[i].event is Closed);
    }
    if closed_by(steps) {
        let i = choose|i: int| 0 <= i < steps.len() && (#[trigger] steps[i]).event is Closed;
        assert(i < n ==> earlier[i].event is Closed);
    }
    if event is Closed {
        assert(steps[n].event is Closed);
    }
}

/// How many values a receiver has got or been told that it has missed.
pub open spec fn passed<T>(results: Seq<Result<T, TryRecvError>>) -> int
    decreases results.len(),
{
    if results.len() == 0 {
        0
    } else {
        passed(results.drop_last()) + match results.last() {
            Ok(_) => 1,
            Err(TryRecvError::Lagged(missed)) => missed as int,
            Err(_) => 0,
        }
    }
}

proof fn lemma_passed<T>(results: Seq<Result<T, TryRecvError>>)
    ensures
        passed(results) >= 0,
    decreases results.len(),
{
    if results.len() > 0 {
        lemma_passed(results.drop_last());
    }
}

/// One attempt of a receiver: how many steps of the sender it came after, whether it
/// found the sender gone, and what it got.
pub struct Attempt<T> {
    pub after: int,
    pub gone: bool,
    pub result: Result<T, TryRecvError>,
}

/// What the attempts got.
pub open spec fn results_of<T>(attempts: Seq<Attempt<T>>) -> Seq<Result<T, TryRecvError>> {
    attempts.map_values(|attempt: Attempt<T>| attempt.result)
}

/// Whether a receiver at position `positions[i]` makes attempt number `i`, and goes on
/// from `positions[i + 1]`.
pub open spec fn attempt_at<T>(
    channel: Channel<T>,
    steps: Seq<SharedStep<T>>,
    start: int,
    attempts: Seq<Attempt<T>>,
    positions: Seq<int>,
    i: int,
) -> bool {
    let attempt = attempts[i];
    let met = closed_if(state_after(channel, steps.take(attempt.after))@, attempt.gone);
    &&& 0 <= (if i == 0 {
        start
    } else {
        attempts[i - 1].after
    }) <= attempt.after <= steps.len()
    &&& attempt.result == receiver::tried(met, positions[i])
    &&& positions[i + 1] == met.position(positions[i])
}

/// Whether a receiver that subscribes after `start` steps of the sender makes the given
/// attempts, one after the other, and is at the given positions meanwhile.
pub open spec fn receives<T>(
    channel: Channel<T>,
    steps: Seq<SharedStep<T>>,
    start: int,
    attempts: Seq<Attempt<T>>,
    positions: Seq<int>,
) -> bool {
    &&& positions.len() == attempts.len() + 1
    &&& 0 <= start <= steps.len()
    &&& positions[0] == state_after(channel, steps.take(start))@.newcomer()
    &&& forall|i: int|
        0 <= i < attempts.len() ==> #[trigger] attempt_at(
            channel,
            steps,
            start,
            attempts,
            positions,
            i,
        )
}

/// A receiver gets every value that is sent after it has subscribed, in order and
/// once, but for those that it is told that it has missed; and it is told of no other.
///
/// Attempt number `i` is for the value that comes next after those sent before the
/// receiver subscribed, those that it has got, and those that it has missed. It gives
/// that value where it is one of the last that the channel has room for. Where it is
/// not, it tells how many come between it and the oldest of these. Only where the
/// value has not been sent is there none, for good if the channel is closed or the
/// sender is gone.
pub proof fn lemma_receiver<T>(
    channel: Channel<T>,
    steps: Seq<SharedStep<T>>,
    start: int,
    attempts: Seq<Attempt<T>>,
    positions: Seq<int>,
    i: int,
)
    requires
        series(channel, steps),
        receives(channel, steps, start, attempts, positions),
        0 <= i < attempts.len(),
    ensures
        ({
            let next = sent_by(steps.take(start)).len() + passed(results_of(attempts.take(i)));
            let available = steps.take(attempts[i].after);
            let sent = sent_by(available);
            &&& next == positions[i]
            &&& next <= sent.len()
            &&& sent == sent_by(steps).take(sent.len() as int)
            &&& match attempts[i].result {
                Ok(value) => {
                    &&& sent.len() - channel.capacity() <= next < sent.len()
                    &&& value == sent_by(steps)[next]
                },
                Err(TryRecvError::Lagged(missed)) => {
                    &&& missed > 0
                    &&& next + missed == sent.len() - channel.capacity()
                },
                Err(TryRecvError::Closed) => {
                    &&& next == sent.len()
                    &&& closed_by(available) || attempts[i].gone
                },
                Err(TryRecvError::Empty) => {
                    &&& next == sent.len()
                    &&& !closed_by(available) && !attempts[i].gone
                },
            }
        }),
    decreases i,
{
    let attempt = attempts[i];
    assert(attempt_at(channel, steps, start, attempts, positions, i));
    let available = steps.take(attempt.after);
    let sent = sent_by(available);
    lemma_prefix(channel, steps, attempt.after);
    lemma_sent_prefix(steps, attempt.after);
    lemma_state(channel, available);
    let earlier = if i == 0 {
        start
    } else {
        attempts[i - 1].after
    };
    assert(available.take(earlier) =~= steps.take(earlier));
    lemma_sent_prefix(available, earlier);
    if i == 0 {
        lemma_prefix(channel, steps, start);
        lemma_state(channel, steps.take(start));
        assert(results_of(attempts.take(0)).len() == 0);
    } else {
        lemma_receiver(channel, steps, start, attempts, positions, i - 1);
        lemma_passed(results_of(attempts.take(i - 1)));
        assert(attempt_at(channel, steps, start, attempts, positions, i - 1));
        let results = results_of(attempts.take(i));
        assert(results.drop_last() =~= results_of(attempts.take(i - 1)));
        assert(results.last() == attempts[i - 1].result);
        lemma_prefix(channel, steps, earlier);
        lemma_state(channel, steps.take(earlier));
        let before = sent_by(steps.take(earlier));
        lemma_received(
            channel.capacity(),
            before,
            closed_by(steps.take(earlier)) || attempts[i - 1].gone,
            positions[i - 1],
        );
        assert(closed_if(
            state_after(channel, steps.take(earlier))@,
            attempts[i - 1].gone,
        ) =~= SharedView::with_history(
            channel.capacity(),
            before,
            closed_by(steps.take(earlier)) || attempts[i - 1].gone,
        ));
    }
    lemma_passed(results_of(attempts.take(i)));
    assert(positions[i] == sent_by(steps.take(start)).len() + passed(
        results_of(attempts.take(i)),
    ));
    assert(positions[i] <= sent.len());
    let closed = closed_by(available) || attempt.gone;
    lemma_received(channel.capacity(), sent, closed, positions[i]);
    assert(closed_if(state_after(channel, available)@, attempt.gone) =~= SharedView::with_history(
        channel.capacity(),
        sent,
        closed,
    ));
}

/// A receiver that subscribes gets the next value that is sent first: none that was
/// sent before, and it is not told that it has missed any of those.
pub proof fn lemma_first_after_subscribing<T>(
    channel: Channel<T>,
    steps: Seq<SharedStep<T>>,
    start: int,
    attempts: Seq<Attempt<T>>,
    positions: Seq<int>,
    value: T,
)
    requires
        series(channel, steps),
        receives(channel, steps, start, attempts, positions),
        attempts.len() > 0,
        start < steps.len(),
        steps[start].event == Event::Sent(seq![value]),
        attempts[0].after == start + 1,
    ensures
        attempts[0].result == Ok::<T, TryRecvError>(value),
{
    lemma_receiver(channel, steps, start, attempts, positions, 0);
    assert(results_of(attempts.take(0)).len() == 0);
    let sent = steps.take(start + 1);
    assert(sent.drop_last() =~= steps.take(start));
    assert(sent_by(sent) == sent_by(steps.take(start)) + seq![value]);
    lemma_sent_prefix(steps, start + 1);
    let next = sent_by(steps.take(start)).len() as int;
    assert(passed(results_of(attempts.take(0))) == 0);
    assert(sent_by(sent)[next] == value);
    assert(sent_by(sent).len() == next + 1);
    assert(sent_by(steps).take(next + 1)[next] == sent_by(steps)[next]);
}

/// A task that waits for a value is woken by the next thing that the sender does, and
/// only once that is done. The first of the steps on the queues is that of the task
/// registering, and the last that of the sender notifying.
pub proof fn lemma_waiting_task_is_woken<T>(
    before: Pen<T>,
    event: Event<T>,
    after: Pen<T>,
    steps: Seq<QueueStep>,
    waker: Waker,
)
    requires
        makes(before, event, after),
        notifies(before, after),
        steps.len() > 1,
        consecutive(steps),
        joins(steps[0]),
        steps[0].event->waker == waker,
        !notified_by(steps, steps.len() - 2),
        steps.last() == after.notices().last(),
    ensures
        exists|woken: Seq<Waker>| #[trigger] were_woken(woken) && woken.contains(waker),
        before.channel().queues().ledger().taken(steps.last().found, after.account()),
        after.account().steps().last().event == event,
{
    lemma_registered_is_woken(steps, waker, steps.len() - 1);
    assert(were_woken(steps.last().event->woken));
}

/// A task that is told to wait has looked once it was registered, and there was nothing
/// for it, nor was the channel closed or the sender gone. Its position stays as it was.
pub proof fn lemma_pending_has_looked<T>(
    channel: Channel<T>,
    before: Interest,
    watermark: int,
    registered: Interest,
    after: int,
)
    requires
        polls_twice(channel, before, watermark, Poll::Pending, registered, after),
    ensures
        after == watermark,
        exists|shared: Shared<T>|
            {
                &&& #[trigger] channel.seen(shared, registered)
                &&& shared@.buffer.head <= watermark
                &&& !shared@.closed
            },
        channel.lost_sender(false),
{
    let between = choose|between: int|
        {
            &&& #[trigger] polls(channel, before, watermark, Poll::Pending, between)
            &&& polls(channel, registered, between, Poll::Pending, after)
        };
    assert(polls(channel, before, watermark, Poll::Pending, between));
    assert(polls(channel, registered, between, Poll::Pending, after));
    let (shared, gone) = choose|shared: Shared<T>, gone: bool|
        {
            let met = closed_if(shared@, gone);
            &&& channel.admits(shared)
            &&& #[trigger] channel.seen(shared, registered)
            &&& #[trigger] channel.lost_sender(gone)
            &&& same_poll(Poll::Pending, polled(met, between))
            &&& after == met.position(between)
        };
    assert(channel.seen(shared, registered) && channel.lost_sender(gone));
}

/// What polling gives is what trying gives, but that a receiver is to wait where there
/// is nothing yet.
pub proof fn lemma_polled<T>(channel: SharedView<T>, watermark: int)
    ensures
        receiver::polled(channel, watermark) == match receiver::tried(channel, watermark) {
            Ok(value) => Poll::Ready(Ok(value)),
            Err(TryRecvError::Closed) => Poll::Ready(Err(RecvError::Closed)),
            Err(TryRecvError::Lagged(missed)) => Poll::Ready(Err(RecvError::Lagged(missed))),
            Err(TryRecvError::Empty) => Poll::Pending,
        },
{
}

} // verus!
