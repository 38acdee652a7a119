//! What a notifier promises over any series of operations.
//!
//! All steps that are made on the queues, in the order in which they had the lock, are
//! one series: each finds what the one before has left.

use std::task::Waker;

use vstd::multiset::Multiset;
use vstd::prelude::*;

use crate::masswake::locals::{
    concat, has_room, lemma_all_woken, lemma_enrolled_adds, lemma_notified_empty,
    lemma_nothing_to_assist, lemma_woken_once, needs_to_register, queued, LocalView, Locals,
    Registration,
};
use crate::masswake::notify::{
    happens, notification, notifies_some, registers, registers_as, takes_all, Event, Interest,
    QueueStep, Shared,
};
use crate::masswake::wakeups::were_woken;

verus! {

/// Whether step number `i` does what it says to sound queues.
pub open spec fn step_at(steps: Seq<QueueStep>, i: int) -> bool {
    &&& steps[i].found.wf()
    &&& steps[i].left.wf()
    &&& happens(steps[i].found, steps[i].event, steps[i].left)
    &&& i > 0 ==> steps[i].found == steps[i - 1].left
}

/// Whether each step finds what the one before has left, and does what it says.
pub open spec fn consecutive(steps: Seq<QueueStep>) -> bool {
    forall|i: int| 0 <= i < steps.len() ==> #[trigger] step_at(steps, i)
}

/// Whether the steps are all that has happened to queues that were created empty.
pub open spec fn series(queues: Shared, steps: Seq<QueueStep>) -> bool {
    &&& queues.initial()@.len() == 0
    &&& steps.len() > 0 ==> steps[0].found == queues.initial()
    &&& consecutive(steps)
}

/// The queues that the steps leave.
pub open spec fn state_after(queues: Shared, steps: Seq<QueueStep>) -> Locals<Waker> {
    if steps.len() == 0 {
        queues.initial()
    } else {
        steps.last().left
    }
}

/// Whether a step puts the waker of a task into a queue: the task has to register, and
/// there is room for it.
pub open spec fn joins(step: QueueStep) -> bool {
    match step.event {
        Event::Registered { noted, will_wake, slot, waker: _, registration: _ } => {
            &&& needs_to_register(step.found@, noted, will_wake)
            &&& has_room(step.found@, slot as int)
        },
        _ => false,
    }
}

/// The tasks that have joined since the last notification.
pub open spec fn waiting(steps: Seq<QueueStep>) -> Multiset<Waker>
    decreases steps.len(),
{
    if steps.len() == 0 {
        Multiset::empty()
    } else {
        let earlier = waiting(steps.drop_last());
        match steps.last().event {
            Event::Registered { noted: _, will_wake: _, slot: _, waker, registration: _ } => {
                if joins(steps.last()) {
                    earlier.insert(waker)
                } else {
                    earlier
                }
            },
            Event::Notified { this: _, woken: _ } => Multiset::empty(),
            Event::Assisted { slot: _, taken: _ } => earlier,
        }
    }
}

/// What the queues hold is what has joined since the last notification, and nothing is
/// left of that.
proof fn lemma_held(queues: Shared, steps: Seq<QueueStep>)
    requires
        series(queues, steps),
    ensures
        ({
            let all = state_after(queues, steps)@;
            &&& concat(queued(all), all.len() as int).to_multiset() == waiting(steps)
            &&& forall|i: int|
                0 <= i < all.len() ==> (#[trigger] all[i]).watermark <= all[i].queue.tail
        }),
    decreases steps.len(),
{
    broadcast use vstd::seq_lib::group_to_multiset_ensures;

    if steps.len() == 0 {
        let all = queues.initial()@;
        assert(concat(queued(all), 0).to_multiset() =~= Multiset::<Waker>::empty());
    } else {
        let n = steps.len() - 1;
        let fewer = steps.drop_last();
        assert forall|i: int| 0 <= i < fewer.len() implies #[trigger] step_at(fewer, i) by {
            assert(step_at(steps, i));
        }
        lemma_held(queues, fewer);
        assert(step_at(steps, n));
        let step = steps[n];
        let before = step.found@;
        let after = step.left@;
        assert(step.found == state_after(queues, fewer));
        match step.event {
            Event::Registered { noted, will_wake, slot, waker, registration } => {
                if needs_to_register(before, noted, will_wake) {
                    lemma_enrolled_adds(before, noted, slot, waker, after, registration);
                }
            },
            Event::Notified { this, woken } => {
                lemma_notified_empty(before, before.len() as int);
                assert(concat(queued(after), after.len() as int).to_multiset() =~= Multiset::<
                    Waker,
                >::empty());
            },
            Event::Assisted { slot, taken } => {
                lemma_nothing_to_assist(before, slot, after, taken);
            },
        }
    }
}

/// A notification wakes exactly the tasks that have registered since the one before,
/// or since the notifier was created: every one, as often as it was put into a queue,
/// and no other. It does not matter which thread notifies, or which threads the tasks
/// have registered on.
pub proof fn lemma_notification(queues: Shared, steps: Seq<QueueStep>, k: int)
    requires
        series(queues, steps),
        0 <= k < steps.len(),
        steps[k].event is Notified,
    ensures
        steps[k].event->woken.to_multiset() == waiting(steps.take(k)),
        forall|i: int|
            0 <= i < steps[k].left@.len() ==> (#[trigger] steps[k].left@[i]).queue.items.len()
                == 0,
{
    let earlier = steps.take(k);
    assert forall|i: int| 0 <= i < earlier.len() implies #[trigger] step_at(earlier, i) by {
        assert(step_at(steps, i));
    }
    lemma_held(queues, earlier);
    assert(step_at(steps, k));
    assert(steps[k].found == state_after(queues, earlier));
    steps[k].found.lemma_len();
    lemma_woken_once(steps[k].found@, steps[k].event->this);
}

/// Assisting the notifier wakes no task: a notification leaves none for it, and those
/// that register later wait for the next.
pub proof fn lemma_assisting(queues: Shared, steps: Seq<QueueStep>, k: int)
    requires
        series(queues, steps),
        0 <= k < steps.len(),
        steps[k].event is Assisted,
    ensures
        steps[k].event->taken.len() == 0,
{
    let earlier = steps.take(k);
    assert forall|i: int| 0 <= i < earlier.len() implies #[trigger] step_at(earlier, i) by {
        assert(step_at(steps, i));
    }
    lemma_held(queues, earlier);
    assert(step_at(steps, k));
    assert(steps[k].found == state_after(queues, earlier));
    lemma_nothing_to_assist(
        steps[k].found@,
        steps[k].event->Assisted_slot,
        steps[k].left@,
        steps[k].event->taken,
    );
}

/// Whether there is a notification after the first of the steps, up to number `n`.
pub open spec fn notified_by(steps: Seq<QueueStep>, n: int) -> bool {
    exists|i: int| 0 < i <= n && (#[trigger] steps[i]).event is Notified
}

/// Whether `waker` stands in the queue and at the index that have been noted.
spec fn stands(all: Seq<LocalView<Waker>>, noted: Registration, waker: Waker) -> bool {
    &&& noted.queue is Some
    &&& noted.watermark < u64::MAX
    &&& noted.queue->0 < all.len()
    &&& ({
        let local = all[noted.queue->0 as int];
        let index = noted.watermark as int;
        &&& local.watermark <= index
        &&& local.queue.tail <= index < local.queue.head()
        &&& local.queue.items[index - local.queue.tail] == waker
    })
}

/// Whether what has been noted is no longer good.
spec fn lapsed(all: Seq<LocalView<Waker>>, noted: Registration) -> bool {
    &&& noted.queue is Some
    &&& noted.queue->0 < all.len()
    &&& noted.watermark < all[noted.queue->0 as int].watermark
}

/// A waker stays where it has been put until the next notification.
proof fn lemma_stands(
    steps: Seq<QueueStep>,
    waker: Waker,
    registration: Registration,
    n: int,
)
    requires
        consecutive(steps),
        0 <= n < steps.len(),
        joins(steps[0]),
        steps[0].event->waker == waker,
        steps[0].event->registration == registration,
    ensures
        if notified_by(steps, n) {
            lapsed(steps[n].left@, registration)
        } else {
            stands(steps[n].left@, registration, waker)
        },
    decreases n,
{
    let step = steps[n];
    assert(step_at(steps, n));
    let before = step.found@;
    let after = step.left@;
    step.found.lemma_len();
    if n == 0 {
        let slot = step.event->Registered_slot;
        if slot < before.len() {
            step.found.lemma_indices(slot as int);
        }
    } else {
        lemma_stands(steps, waker, registration, n - 1);
        assert(notified_by(steps, n) == (notified_by(steps, n - 1) || step.event is Notified)) by {
            if notified_by(steps, n - 1) {
                let i = choose|i: int| 0 < i <= n - 1 && (#[trigger] steps[i]).event is Notified;
                assert(steps[i].event is Notified);
            }
        }
        let i = registration.queue->0 as int;
        step.found.lemma_indices(i);
        step.left.lemma_indices(i);
    }
}

/// A task that has registered is woken by the next notification, whichever threads the
/// two are on and whatever other tasks do in between.
pub proof fn lemma_registered_is_woken(steps: Seq<QueueStep>, waker: Waker, k: int)
    requires
        consecutive(steps),
        0 < k < steps.len(),
        joins(steps[0]),
        steps[0].event->waker == waker,
        !notified_by(steps, k - 1),
        steps[k].event is Notified,
    ensures
        steps[k].event->woken.contains(waker),
{
    let registration = steps[0].event->registration;
    lemma_stands(steps, waker, registration, k - 1);
    assert(step_at(steps, k));
    let all = steps[k].found@;
    let i = registration.queue->0 as int;
    let items = all[i].queue.items;
    assert(items[registration.watermark - all[i].queue.tail] == waker);
    steps[k].found.lemma_len();
    lemma_all_woken(all, steps[k].event->this, i, waker);
}

/// A task that has registered has to register again exactly when there has been a
/// notification since. So one that finds that it need not is still to be woken by the
/// next.
pub proof fn lemma_registers_anew_once_notified(steps: Seq<QueueStep>, n: int)
    requires
        consecutive(steps),
        0 <= n < steps.len(),
        joins(steps[0]),
    ensures
        needs_to_register(steps[n].left@, steps[0].event->registration, true) == notified_by(
            steps,
            n,
        ),
{
    let registration = steps[0].event->registration;
    lemma_stands(steps, steps[0].event->waker, registration, n);
}

/// The first call to register has the task woken by the next notification. It is this
/// that is noted.
pub proof fn lemma_first_register_is_woken(
    steps: Seq<QueueStep>,
    before: Interest,
    waker: Waker,
    after: Interest,
    k: int,
)
    requires
        consecutive(steps),
        !before.is_registered(),
        registers(before, waker, after),
        0 < k < steps.len(),
        steps[0] == after.steps().last(),
        forall|slot: usize| #[trigger] has_room(steps[0].found@, slot as int),
        !notified_by(steps, k - 1),
        steps[k].event is Notified,
    ensures
        steps[k].event->woken.contains(waker),
        joins(steps[0]),
        after.waker() == waker,
        after.registration() == steps[0].event->registration,
{
    let (will_wake, slot) = choose|will_wake: bool, slot: usize| #[trigger]
        registers_as(before, waker, after, will_wake, slot);
    assert(registers_as(before, waker, after, will_wake, slot));
    assert(has_room(steps[0].found@, slot as int));
    lemma_registered_is_woken(steps, waker, k);
}

/// Every further call to register has the task woken by the next notification too,
/// whether it puts the waker into a queue or finds that it need not. The first step is
/// the one that has done so the last time.
pub proof fn lemma_register_is_woken(
    steps: Seq<QueueStep>,
    before: Interest,
    waker: Waker,
    after: Interest,
    i: int,
    k: int,
)
    requires
        consecutive(steps),
        joins(steps[0]),
        steps[0].event->registration == before.registration(),
        steps[0].event->waker == before.waker(),
        registers(before, waker, after),
        0 < i < k < steps.len(),
        steps[i] == after.steps().last(),
        forall|slot: usize| #[trigger] has_room(steps[i].found@, slot as int),
        forall|j: int| i < j < k ==> !((#[trigger] steps[j]).event is Notified),
        steps[k].event is Notified,
    ensures
        steps[k].event->woken.contains(waker),
{
    let (will_wake, slot) = choose|will_wake: bool, slot: usize| #[trigger]
        registers_as(before, waker, after, will_wake, slot);
    assert(registers_as(before, waker, after, will_wake, slot));
    assert(has_room(steps[i].found@, slot as int));
    assert(step_at(steps, i));
    if needs_to_register(steps[i].found@, before.registration(), will_wake) {
        let later = steps.skip(i);
        assert forall|j: int| 0 <= j < later.len() implies #[trigger] step_at(later, j) by {
            assert(step_at(steps, i + j));
        }
        assert forall|j: int| 0 < j <= k - i - 1 implies !((
        #[trigger] later[j]).event is Notified) by {
            assert(later[j] == steps[i + j]);
        }
        assert(joins(later[0]));
        lemma_registered_is_woken(later, waker, k - i);
    } else {
        lemma_registers_anew_once_notified(steps, i - 1);
        assert forall|j: int| 0 < j <= k - 1 implies !((#[trigger] steps[j]).event is Notified) by {
            if steps[j].event is Notified {
                assert(j <= i - 1);
                assert(notified_by(steps, i - 1));
            }
        }
        lemma_registered_is_woken(steps, waker, k);
    }
}

/// Notifying wakes exactly the tasks that have registered since the last notification:
/// the tasks woken are those, whatever else has happened to the queues and in whatever
/// order.
pub proof fn lemma_notify_all(queues: Shared)
    requires
        notifies_some(queues),
    ensures
        exists|step: QueueStep, woken: Seq<Waker>|
            {
                &&& #[trigger] queues.made(step)
                &&& #[trigger] were_woken(woken)
                &&& step.event is Notified
                &&& forall|steps: Seq<QueueStep>, k: int|
                    series(queues, steps) && 0 <= k < steps.len() && #[trigger] steps[k] == step
                        ==> woken.to_multiset() == waiting(steps.take(k))
            },
{
    let woken = choose|woken: Seq<Waker>| #[trigger]
        takes_all(queues, woken) && were_woken(woken);
    let step = choose|step: QueueStep|
        {
            &&& #[trigger] queues.made(step)
            &&& queues.admits(step.found)
            &&& queues.admits(step.left)
            &&& happens(step.found, step.event, step.left)
            &&& notification(queues, step.found, step.event, woken)
        };
    assert forall|steps: Seq<QueueStep>, k: int|
        series(queues, steps) && 0 <= k < steps.len() && #[trigger] steps[k] == step implies woken
        .to_multiset() == waiting(steps.take(k)) by {
        lemma_notification(queues, steps, k);
    }
    assert(queues.made(step) && were_woken(woken));
}

} // verus!
