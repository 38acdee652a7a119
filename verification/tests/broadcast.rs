//! The broadcast channel.

use std::sync::atomic::{AtomicUsize, Ordering};
use std::sync::Arc;
use std::task::{Context, Wake, Waker};

use widecast::arcbuf::{ArcBuffer, IndexError};
use widecast::receiver::Poll;
use widecast::refcnt::ArcCache;
use widecast::shared::{closed_state, note_sender, Channel, GetError, Shared};
use widecast::{Guard, OwnedGuard, Receiver, RecvError, Sender, TryRecvError};

struct Count(AtomicUsize);

impl Wake for Count {
    fn wake(self: Arc<Self>) {
        self.0.fetch_add(1, Ordering::SeqCst);
    }
}

fn counting() -> (Arc<Count>, Waker) {
    let count = Arc::new(Count(AtomicUsize::new(0)));
    (count.clone(), Waker::from(count))
}

fn next(rx: &mut Receiver<u32>) -> Result<u32, TryRecvError> {
    rx.try_recv().map(|guard| *guard)
}

#[test]
fn test_send_one() {
    let mut tx = Sender::new(1);
    let mut rx = tx.subscribe();

    tx.send(());
    assert!(matches!(rx.try_recv().as_deref(), Ok(())));
}

#[test]
fn test_send_none() {
    let tx = Sender::<()>::new(1);
    let mut rx = tx.subscribe();

    assert!(matches!(rx.try_recv(), Err(TryRecvError::Empty)));
}

#[test]
fn test_send_multiple() {
    let mut tx = Sender::new(128);
    let mut rx = tx.subscribe();

    tx.send(());
    tx.send(());
    tx.send(());
    tx.send(());

    assert!(matches!(rx.try_recv().as_deref(), Ok(())));
}

#[test]
fn every_receiver_gets_every_value_in_order() {
    let mut tx = Sender::new(16);
    let mut rx1 = tx.subscribe();
    let mut rx2 = tx.subscribe();
    tx.send(10u32);
    tx.send(20);
    for rx in [&mut rx1, &mut rx2] {
        assert_eq!(next(rx), Ok(10));
        assert_eq!(next(rx), Ok(20));
        assert_eq!(next(rx), Err(TryRecvError::Empty));
    }
}

#[test]
fn subscriber_gets_only_later_values() {
    let mut tx = Sender::new(4);
    tx.send(1u32);
    let mut rx = tx.subscribe();
    tx.send(2);
    assert_eq!(next(&mut rx), Ok(2));
    assert_eq!(next(&mut rx), Err(TryRecvError::Empty));
}

#[test]
fn lagging_receiver_goes_on_with_the_oldest_value() {
    let mut tx = Sender::new(4);
    let mut rx = tx.subscribe();
    tx.send_bulk(0..7u32);
    assert_eq!(next(&mut rx), Err(TryRecvError::Lagged(3)));
    assert_eq!(next(&mut rx), Ok(3));
    tx.send(7);
    assert_eq!(next(&mut rx), Ok(4));
    tx.send_bulk(vec![8, 9].into_iter());
    assert_eq!(next(&mut rx), Err(TryRecvError::Lagged(1)));
    for i in 6..10 {
        assert_eq!(next(&mut rx), Ok(i));
    }
    assert_eq!(next(&mut rx), Err(TryRecvError::Empty));
}

#[test]
fn closed_channel_is_received_to_the_end() {
    let mut tx = Sender::new(4);
    let mut rx = tx.subscribe();
    tx.send(1u32);
    tx.close();
    assert_eq!(next(&mut rx), Ok(1));
    assert_eq!(next(&mut rx), Err(TryRecvError::Closed));
    assert_eq!(next(&mut rx), Err(TryRecvError::Closed));
}

#[test]
fn clone_keeps_the_position_and_resubscribing_does_not() {
    let mut tx = Sender::new(8);
    let mut rx = tx.subscribe();
    tx.send(1u32);
    tx.send(2);
    assert_eq!(next(&mut rx), Ok(1));
    let mut copy = rx.clone();
    let mut fresh = rx.resubscribe();
    assert_eq!(tx.receiver_count(), 3);
    assert_eq!(next(&mut copy), Ok(2));
    assert_eq!(next(&mut rx), Ok(2));
    assert_eq!(next(&mut fresh), Err(TryRecvError::Empty));
    tx.send(3);
    assert_eq!(next(&mut fresh), Ok(3));
    drop(copy);
    assert_eq!(tx.receiver_count(), 2);
}

#[test]
fn guard_gives_the_value_itself() {
    let mut tx = Sender::new(1);
    let mut rx = tx.subscribe();
    tx.send(String::from("kept"));
    let owned: OwnedGuard<String> = Guard::into_inner(rx.try_recv().unwrap());
    tx.send(String::from("other"));
    // Overwriting the slot leaves the value alone.
    assert_eq!(*owned, "kept");
    let other: OwnedGuard<String> = rx.try_recv().unwrap().into();
    assert_eq!(*other, "other");
}

#[test]
fn waiting_receiver_is_woken_once_per_notification() {
    let mut tx = Sender::new(4);
    let mut rx = tx.subscribe();
    let (count, waker) = counting();
    let mut cx = Context::from_waker(&waker);

    assert!(matches!(rx.poll_recv(&mut cx), Poll::Pending));
    // Still registered, so this does not register once more.
    assert!(matches!(rx.poll_recv(&mut cx), Poll::Pending));
    tx.send(7u32);
    assert_eq!(count.0.load(Ordering::SeqCst), 1);
    match rx.poll_recv(&mut cx) {
        Poll::Ready(Ok(value)) => assert_eq!(*value, 7),
        _ => panic!("no value"),
    }

    assert!(matches!(rx.poll_recv(&mut cx), Poll::Pending));
    tx.send_bulk(0..6);
    assert_eq!(count.0.load(Ordering::SeqCst), 2);
    assert!(matches!(rx.poll_recv(&mut cx), Poll::Ready(Err(RecvError::Lagged(2)))));
    for i in 2..6 {
        assert!(matches!(rx.poll_recv(&mut cx), Poll::Ready(Ok(value)) if *value == i));
    }

    assert!(matches!(rx.poll_recv(&mut cx), Poll::Pending));
    tx.close();
    assert_eq!(count.0.load(Ordering::SeqCst), 3);
    assert!(matches!(rx.poll_recv(&mut cx), Poll::Ready(Err(RecvError::Closed))));
}

#[test]
fn errors_convert_and_describe_themselves() {
    assert_eq!(TryRecvError::from(RecvError::Closed), TryRecvError::Closed);
    assert_eq!(TryRecvError::from(RecvError::Lagged(5)), TryRecvError::Lagged(5));
    assert_eq!(TryRecvError::Empty.to_string(), "channel empty");
    assert_eq!(TryRecvError::Closed.to_string(), "channel closed");
    assert_eq!(TryRecvError::Lagged(0).to_string(), "channel lagged by 0");
    assert_eq!(RecvError::Closed.to_string(), "channel closed");
    assert_eq!(RecvError::Lagged(1970).to_string(), "channel lagged by 1970");
    assert_eq!(
        RecvError::Lagged(u64::MAX).to_string(),
        format!("channel lagged by {}", u64::MAX)
    );
}

#[test]
fn state_of_a_channel_is_exact() {
    let mut cache = ArcCache::new();
    let mut shared = Shared::with_capacity(2);
    let mut watermark = 0;
    assert_eq!(shared.receive(&mut watermark), Err(GetError::Index(IndexError::Invalid)));
    shared.send_bulk(vec![1u32, 2, 3], &mut cache);
    assert_eq!(shared.head(), 3);
    assert_eq!(shared.get(0), Err(GetError::Index(IndexError::Outdated(1))));
    assert_eq!(
        shared.receive(&mut watermark),
        Err(GetError::Index(IndexError::Outdated(1)))
    );
    assert_eq!(watermark, 1);
    assert_eq!(*shared.receive(&mut watermark).unwrap(), 2);
    shared.send(4, &mut cache);
    assert_eq!(*shared.receive(&mut watermark).unwrap(), 3);
    shared.close();
    assert!(shared.is_closed());
    assert_eq!(*shared.receive(&mut watermark).unwrap(), 4);
    assert_eq!(shared.receive(&mut watermark), Err(GetError::Closed));
    assert_eq!(watermark, 4);
}

#[test]
fn bulk_push_is_the_same_as_single_pushes() {
    let mut cache = ArcCache::new();
    for capacity in 1..6usize {
        for len in 0..12u64 {
            let mut bulk = ArcBuffer::with_capacity(capacity);
            let mut single = ArcBuffer::with_capacity(capacity);
            // Whatever is expected of the iterator beforehand.
            let mut rough = ArcBuffer::with_capacity(capacity);
            bulk.push(100, &mut cache);
            single.push(100, &mut cache);
            rough.push(100, &mut cache);
            bulk.push_bulk(0..len, &mut cache);
            for i in 0..len {
                single.push(i, &mut cache);
            }
            rough.push_estimated(0..len, 5, &mut cache);
            assert_eq!(bulk.head(), len + 1);
            assert_eq!(bulk.capacity(), capacity);
            for index in 0..len + 3 {
                let expected = single.get(index).map(|value| *value);
                assert_eq!(bulk.get(index).map(|value| *value), expected);
                assert_eq!(rough.get(index).map(|value| *value), expected);
            }
        }
    }
}

#[test]
fn buffer_without_room_holds_nothing() {
    let buffer = ArcBuffer::<u8>::with_capacity(0);
    assert_eq!(buffer.head(), 0);
    assert_eq!(buffer.capacity(), 0);
    let tx = Sender::<u8>::new(0);
    assert_eq!(tx.receiver_count(), 0);
    let _rx = tx.subscribe();
    assert_eq!(tx.receiver_count(), 1);
}

#[test]
fn memory_is_reused_only_where_nothing_else_points_to_it() {
    let mut cache = ArcCache::new();
    let first = cache.refill(None, 1u32);
    let held = first.clone();
    let second = cache.refill(Some(first), 2);
    assert_eq!((*held, *second), (1, 2));
    let address = format!("{:p}", &*second);
    let third = cache.refill(Some(second), 3);
    assert_eq!(*third, 3);
    assert_eq!(format!("{:p}", &*third), address);
}

struct Dropped(Arc<AtomicUsize>);

impl Drop for Dropped {
    fn drop(&mut self) {
        self.0.fetch_add(1, Ordering::SeqCst);
    }
}

#[test]
fn values_are_dropped_when_they_are_overwritten() {
    let dropped = Arc::new(AtomicUsize::new(0));
    let mut tx = Sender::new(2);
    let mut rx = tx.subscribe();
    tx.send(Dropped(dropped.clone()));
    tx.send(Dropped(dropped.clone()));
    let guard = Guard::into_inner(rx.try_recv().unwrap());
    assert_eq!(dropped.load(Ordering::SeqCst), 0);
    tx.send(Dropped(dropped.clone()));
    // The value is overwritten, but still pointed to.
    assert_eq!(dropped.load(Ordering::SeqCst), 0);
    drop(guard);
    assert_eq!(dropped.load(Ordering::SeqCst), 1);
    tx.send_bulk(vec![Dropped(dropped.clone()), Dropped(dropped.clone())].into_iter());
    assert_eq!(dropped.load(Ordering::SeqCst), 3);
    tx.close();
    assert_eq!(dropped.load(Ordering::SeqCst), 3);
    assert!(rx.into_state().is_none());
    let state = tx.into_state().unwrap();
    assert_eq!(dropped.load(Ordering::SeqCst), 3);
    assert!(state.is_closed());
    drop(state);
    assert_eq!(dropped.load(Ordering::SeqCst), 5);
}

#[test]
fn what_is_left_of_a_channel_is_closed() {
    assert!(closed_state(None::<Shared<u8>>).is_none());
    let mut cache = ArcCache::new();
    let mut shared = Shared::with_capacity(2);
    shared.send(1u8, &mut cache);
    let left = closed_state(Some(shared)).unwrap();
    assert!(left.is_closed());
    assert_eq!(left.head(), 1);

    assert!(Channel::<u8>::left_state(None).is_none());
    let open = Channel::left_state(Some(Channel::<u8>::with_capacity(2))).unwrap();
    assert!(!open.is_closed());
}

#[test]
fn dropped_sender_closes_the_channel() {
    let mut tx = Sender::new(4);
    let mut rx = tx.subscribe();
    tx.send(1u32);
    tx.send(2);
    let mut late = rx.resubscribe();
    assert_eq!(next(&mut late), Err(TryRecvError::Empty));
    drop(tx);
    assert_eq!(next(&mut late), Err(TryRecvError::Closed));
    assert_eq!(next(&mut rx), Ok(1));
    assert_eq!(next(&mut rx), Ok(2));
    assert_eq!(next(&mut rx), Err(TryRecvError::Closed));
    let (_, waker) = counting();
    let mut cx = Context::from_waker(&waker);
    assert!(matches!(rx.poll_recv(&mut cx), Poll::Ready(Err(RecvError::Closed))));
}

#[test]
fn sender_that_is_gone_is_noted() {
    let empty = Err(GetError::Index(IndexError::Invalid));
    let lagged = Err(GetError::Index(IndexError::Outdated(3)));
    assert_eq!(note_sender::<u8>(empty.clone(), false), empty);
    assert_eq!(note_sender::<u8>(empty, true), Err(GetError::Closed));
    assert_eq!(note_sender::<u8>(lagged.clone(), true), lagged);
}

#[test]
fn guard_is_printed_as_the_value() {
    let mut tx = Sender::new(1);
    let mut rx = tx.subscribe();
    tx.send("text");
    assert_eq!(format!("{:?}", rx.try_recv().unwrap()), "\"text\"");
}
