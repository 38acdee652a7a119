//! Waking many tasks.

use std::sync::atomic::{AtomicUsize, Ordering};
use std::sync::{Arc, Mutex};
use std::task::{Context, Wake, Waker};

use widecast::masswake::locals::{Locals, Registration};
use widecast::masswake::notify::left_queues;
use widecast::masswake::queue::{range_indices, LocalQueue};
use widecast::masswake::{Interest, MassNotify};

struct Count(AtomicUsize);

impl Wake for Count {
    fn wake(self: Arc<Self>) {
        self.0.fetch_add(1, Ordering::SeqCst);
    }
}

fn counting() -> (Arc<Count>, Waker) {
    let count = Arc::new(Count(AtomicUsize::new(0)));
    (count.clone(), Waker::from(count))
}

struct Named(u32, Arc<Mutex<Vec<u32>>>);

impl Wake for Named {
    fn wake(self: Arc<Self>) {
        self.1.lock().unwrap().push(self.0);
    }
}

#[test]
fn registered_task_is_woken() {
    let notify = MassNotify::new();
    let mut interest = Interest::new(&notify);
    let (count, waker) = counting();
    let mut cx = Context::from_waker(&waker);

    notify.notify_all();
    assert_eq!(count.0.load(Ordering::SeqCst), 0);
    interest.register(&mut cx);
    notify.notify_all();
    assert_eq!(count.0.load(Ordering::SeqCst), 1);
    notify.notify_all();
    assert_eq!(count.0.load(Ordering::SeqCst), 1);
    interest.register(&mut cx);
    interest.register(&mut cx);
    notify.notify_all();
    assert_eq!(count.0.load(Ordering::SeqCst), 2);
}

#[test]
fn changed_waker_is_registered_anew() {
    let notify = MassNotify::default();
    let mut interest = Interest::new(&notify);
    let (first, waker) = counting();
    interest.register_waker(&waker);
    let (second, waker) = counting();
    interest.register_waker(&waker);
    assert_eq!(notify.take_all().len(), 2);
    interest.register_waker(&waker);
    notify.notify_all();
    assert_eq!(first.0.load(Ordering::SeqCst), 0);
    assert_eq!(second.0.load(Ordering::SeqCst), 1);
}

#[test]
fn tasks_of_a_thread_are_woken_in_order() {
    let notify = MassNotify::new();
    let woken = Arc::new(Mutex::new(Vec::new()));
    let mut interests = Vec::new();
    for i in 0..2000 {
        let mut interest = Interest::new(&notify);
        interest.register_waker(&Waker::from(Arc::new(Named(i, woken.clone()))));
        interests.push(interest);
    }
    notify.notify_all();
    assert_eq!(*woken.lock().unwrap(), (0..2000).collect::<Vec<_>>());
}

#[test]
fn assisting_wakes_nothing_that_was_registered_later() {
    let notify = MassNotify::new();
    let mut interest = Interest::new(&notify);
    let (count, waker) = counting();
    interest.register_waker(&waker);
    interest.assist();
    assert_eq!(count.0.load(Ordering::SeqCst), 0);
    notify.notify_all();
    assert_eq!(count.0.load(Ordering::SeqCst), 1);
    interest.assist();
    assert_eq!(interest.take_local().len(), 0);
    assert_eq!(count.0.load(Ordering::SeqCst), 1);
}

#[test]
fn queue_of_this_thread_comes_last() {
    let mut locals = Locals::new();
    let mut registration = Registration::new();
    for i in 0..20u32 {
        assert!(locals.enroll(&mut registration, 0, i));
    }
    for i in 100..300u32 {
        assert!(locals.enroll(&mut registration, 1, i));
    }
    assert_eq!(locals.len(), 2);
    assert_eq!(registration, Registration { watermark: 199, queue: Some(1) });

    let woken = locals.take_all(Some(0));
    let mut expected: Vec<u32> = (0..16).collect();
    expected.extend(100..116);
    expected.extend(116..300);
    expected.extend(16..20);
    assert_eq!(woken, expected);
    assert!(locals.take_all(Some(0)).is_empty());
}

#[test]
fn all_queues_are_alike_to_a_thread_without_one() {
    let mut locals = Locals::new();
    let mut registration = Registration::new();
    for i in 0..20u32 {
        locals.enroll(&mut registration, 0, i);
    }
    locals.enroll(&mut registration, 7, 100);
    assert_eq!(registration.queue, Some(1));
    let mut expected: Vec<u32> = (0..16).collect();
    expected.push(100);
    expected.extend(16..20);
    assert_eq!(locals.take_all(None), expected);
}

#[test]
fn registration_lapses_with_the_notification() {
    let mut locals = Locals::new();
    let mut registration = Registration::new();
    assert!(locals.needs_to_register(&registration, true));
    locals.enroll(&mut registration, 0, 'a');
    assert!(!locals.needs_to_register(&registration, true));
    assert!(locals.needs_to_register(&registration, false));
    let mut other = Registration::new();
    locals.enroll(&mut other, 0, 'b');
    assert!(!locals.needs_to_register(&registration, true));
    assert!(locals.take_local(0).is_empty());
    assert!(!locals.needs_to_register(&registration, true));
    locals.take_all(None);
    assert!(locals.needs_to_register(&registration, true));
    assert!(locals.needs_to_register(&other, true));
}

#[test]
fn outdated_registrations_are_told() {
    let registration = Registration { watermark: 5, queue: Some(0) };
    assert!(!registration.is_outdated(Some(5), true));
    assert!(registration.is_outdated(Some(6), true));
    assert!(registration.is_outdated(Some(5), false));
    assert!(registration.is_outdated(None, true));
    assert!(Registration::new().is_outdated(Some(0), true));
}

#[test]
fn queue_grows_while_both_sides_take_from_it() {
    let mut queue = LocalQueue::with_capacity(4);
    for i in 0..3u32 {
        assert_eq!(queue.push_local(i), i as u64);
    }
    let mut out = Vec::new();
    let mut drain = queue.consume_remote(2, queue.watermark()).unwrap();
    // The slots are still taken, so the queue has to grow.
    for i in 3..12u32 {
        assert_eq!(queue.push_local(i), i as u64);
    }
    drain.append_to(&mut out);
    queue.finish(drain);
    let mut drain = queue.consume_local(3, 4).unwrap();
    assert_eq!(drain.next(), Some(2));
    drain.append_to(&mut out);
    queue.finish(drain);
    assert_eq!(out, vec![0, 1, 3]);
    assert!(queue.consume_local(3, 4).is_none());
    assert!(queue.consume_remote(0, 12).is_none());
    let mut rest = Vec::new();
    let mut drain = queue.consume_remote(u64::MAX, 100).unwrap();
    drain.append_to(&mut rest);
    queue.finish(drain);
    assert_eq!(rest, (4..12).collect::<Vec<_>>());
    assert_eq!(queue.watermark(), 12);
    assert!(queue.can_push());
}

#[test]
fn last_interest_gets_the_queues() {
    let notify = MassNotify::new();
    let mut interest = Interest::new(&notify);
    let (_, waker) = counting();
    interest.register_waker(&waker);
    assert!(left_queues(None).is_none());
    assert!(notify.into_queues().is_none());
    let mut locals = interest.into_queues().unwrap();
    assert_eq!(locals.take_all(None).len(), 1);
}

#[test]
fn range_indices_follow_the_ring() {
    assert_eq!(range_indices(3..3, 0), (0..0, 0..0));
    assert_eq!(range_indices(1..3, 4), (1..3, 0..0));
    assert_eq!(range_indices(6..9, 4), (2..4, 0..1));
    assert_eq!(range_indices(4..8, 4), (0..4, 0..0));
}

#[test]
fn push_leaves_live_drains_alone() {
    let mut queue = LocalQueue::<u32>::with_capacity(4);
    for i in 0..4 {
        queue.push_local(i);
    }
    let mut first = queue.consume_remote(2, 4).unwrap();
    let mut second = queue.consume_remote(2, 4).unwrap();
    queue.push_local(4);
    let mut out = Vec::new();
    first.append_to(&mut out);
    second.append_to(&mut out);
    assert_eq!(out, vec![0, 1, 2, 3]);
    queue.finish(first);
    queue.finish(second);
    assert_eq!(queue.consume_remote(9, 5).unwrap().next(), Some(4));
}

#[test]
fn repeated_registration_is_woken_once() {
    let notify = MassNotify::new();
    let mut interest = Interest::new(&notify);
    let mut other = Interest::new(&notify);
    let (count, waker) = counting();
    let (_, another) = counting();
    for _ in 0..5 {
        interest.register_waker(&waker);
        other.register_waker(&another);
    }
    assert_eq!(notify.take_all().len(), 2);
    interest.register_waker(&waker);
    notify.notify_all();
    assert_eq!(count.0.load(Ordering::SeqCst), 1);
}

#[test]
fn dropped_remote_drain_leaves_the_queue_in_order() {
    let mut queue = LocalQueue::<u32>::with_capacity(2);
    for round in 0..50 {
        queue.push_local(2 * round);
        queue.push_local(2 * round + 1);
        let mut drain = queue.consume_remote(1, queue.watermark()).unwrap();
        assert_eq!(drain.next(), Some(2 * round));
        drop(drain);
        queue.note_drains(1);
        let mut drain = queue.consume_local(1, queue.watermark()).unwrap();
        assert_eq!(drain.next(), Some(2 * round + 1));
        assert!(queue.consume_remote(9, queue.watermark()).is_none());
    }
}
