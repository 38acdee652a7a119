//! The single-producer single-consumer queue and its channel.

use widecast::spsc::channel;
use widecast::spsc::channel::ChannelState;
use widecast::spsc::chunk::Chunk;
use widecast::spsc::shim::ArcSwap;
use widecast::spsc::{DrainError, RawChannel, RawQueue, RecvError, SendError};

#[test]
fn test_translate_range_on_border() {
    let chunk = Chunk::<()>::new(4);
    let (rng1, rng2) = chunk.translate_range(2..4);

    assert_eq!((rng1, rng2), (2..4, None));
}

#[test]
fn translate_range_wraps_without_overlap() {
    let chunk = Chunk::<()>::new(4);

    assert_eq!(chunk.translate_range(6..9), (2..4, Some(0..1)));
    assert_eq!(chunk.translate_range(0..4), (0..4, None));
    assert_eq!(chunk.translate_range(3..7), (3..4, Some(0..3)));
    assert_eq!(chunk.translate_range(5..5), (1..1, None));
}

#[test]
fn test_send_and_recv() {
    let (mut tx, mut rx) = channel(4);

    tx.send(5u32).unwrap();
    assert_eq!(rx.recv().unwrap(), 5);
}

#[test]
fn test_send_and_drain() {
    let (mut tx, mut rx) = channel::<u32>(4);

    tx.send(1).unwrap();
    tx.send(2).unwrap();
    tx.send(3).unwrap();
    tx.send(4).unwrap();

    let vals: Vec<_> = rx.drain().unwrap().collect();
    assert_eq!(vals, vec![1, 2, 3, 4]);
}

#[test]
fn concurrent_send_and_drain() {
    // The drain happens after any number of the sends.
    for sent in 0..33usize {
        let mut v = RawQueue::<usize>::with_capacity(8);
        for i in 0..sent {
            v.push(i);
        }

        let mut recvd = Vec::new();
        recvd.extend(v.drain().collect());
        for i in sent..32 {
            v.push(i);
        }

        // No extraneous values received.
        assert!(recvd.len() <= 32);
        assert_eq!(recvd.len(), sent);
        // Values received in-order.
        assert!(recvd.iter().enumerate().all(|(idx, &val)| idx == val));
    }
}

#[test]
fn concurrent_send_and_drain_multiple() {
    // The drains happen after any numbers of the sends.
    for first in 0..4usize {
        for second in first..4usize {
            let mut v = RawQueue::<usize>::with_capacity(1);
            let mut recvd = Vec::new();

            for i in 0..first {
                v.push(i);
            }
            recvd.extend(v.drain().collect());
            for i in first..second {
                v.push(i);
            }
            recvd.extend(v.drain().collect());
            for i in second..3 {
                v.push(i);
            }

            // No extraneous values received.
            assert!(recvd.len() <= 32);
            assert_eq!(recvd.len(), second);
            // Values received in-order.
            assert!(recvd.iter().enumerate().all(|(idx, &val)| idx == val), "{recvd:?}");
        }
    }
}

#[test]
fn concurrent_send_and_drain_drop() {
    // The drain happens after any number of the sends, and is dropped.
    for sent in 0..33usize {
        let mut v = RawQueue::<usize>::with_capacity(8);
        for i in 0..sent {
            v.push(i);
        }
        v.drain();
        for i in sent..32 {
            v.push(i);
        }

        let rest = v.drain().collect();
        assert_eq!(rest, (sent..32).collect::<Vec<_>>());
    }
}

#[test]
fn concurrent_send_and_recv() {
    const COUNT: usize = 3;

    // Each pop happens after any number of the sends.
    for first in 0..COUNT + 1 {
        for second in first..COUNT + 1 {
            for third in second..COUNT + 1 {
                let mut v = RawQueue::<usize>::with_capacity(2);
                let mut recvd = Vec::new();
                let mut sent = 0;

                for until in [first, second, third] {
                    while sent < until {
                        v.push(sent);
                        sent += 1;
                    }
                    if let Some(item) = v.pop() {
                        recvd.push(item);
                    }
                }

                // No extraneous values received.
                assert!(recvd.len() <= COUNT);
                // Values received in-order.
                assert!(recvd.iter().enumerate().all(|(idx, &val)| idx == val));
            }
        }
    }
}

#[test]
fn queue_grows_and_keeps_order_across_the_border() {
    let mut queue = RawChannel::with_capacity(4);
    for i in 0..3u32 {
        assert_eq!(queue.push(i), i as u64);
    }
    assert_eq!(queue.pop(), Some(0));
    assert_eq!(queue.pop(), Some(1));
    // Wraps around, then has to grow while wrapped.
    for i in 3..20u32 {
        assert_eq!(queue.push(i), i as u64);
    }
    assert_eq!(queue.head(), 20);
    assert_eq!(queue.tail(), 2);
    assert_eq!(queue.drain().collect(), (2..20).collect::<Vec<_>>());
    assert!(queue.is_empty());
    assert!(queue.can_push());
    assert_eq!(queue.pop(), None);
}

#[test]
fn drain_to_is_clamped_by_the_queue() {
    let mut queue = RawChannel::new();
    for i in 10..15u32 {
        queue.push(i);
    }
    assert_eq!(queue.drain_to(0).collect(), Vec::<u32>::new());
    assert_eq!(queue.drain_to(2).collect(), vec![10, 11]);
    assert_eq!(queue.drain_to(1).collect(), Vec::<u32>::new());
    assert_eq!(queue.drain_to(100).collect(), vec![12, 13, 14]);
    assert_eq!(queue.tail(), 5);
}

#[test]
fn drained_slots_can_be_returned() {
    let mut queue = RawChannel::with_capacity(2);
    queue.push(1u8);
    queue.push(2);
    let mut drain = queue.drain();
    assert_eq!(drain.next(), Some(1));
    queue.finish(drain);
    queue.push(3);
    queue.push(4);
    assert_eq!(queue.drain().collect(), vec![3, 4]);
    queue.release();
    assert!(queue.is_empty());
}

#[test]
fn drain_is_taken_from_both_ends() {
    let mut queue = RawChannel::default();
    for i in 0..8u32 {
        queue.push(i);
    }
    let mut drain = queue.drain();
    assert_eq!(drain.len(), 8);
    assert_eq!(drain.size_hint(), (8, Some(8)));
    assert_eq!(drain.next(), Some(0));
    assert_eq!(drain.next_back(), Some(7));
    assert_eq!(drain.nth(1), Some(2));
    assert_eq!(drain.nth_back(1), Some(5));
    assert_eq!(drain.len(), 2);
    assert_eq!(drain.last(), Some(4));

    for i in 0..3u32 {
        queue.push(i);
    }
    let mut drain = queue.drain();
    assert_eq!(drain.nth(3), None);
    assert_eq!(drain.len(), 0);
}

#[test]
fn open_channel_takes_every_send() {
    for capacity in 1..5 {
        let (mut tx, mut rx) = channel::<u64>(capacity);
        let mut recvd = Vec::new();
        for k in 0..100 {
            assert_eq!(tx.send(k), Ok(k));
            if k % 3 == 0 {
                recvd.push(rx.recv().unwrap());
            }
        }
        recvd.extend(rx.drain().unwrap().collect());
        assert_eq!(recvd, (0..100).collect::<Vec<_>>());
    }

    let (mut tx, mut rx) = channel::<u32>(4);
    for k in 0..4 {
        tx.send(k).unwrap();
    }
    for k in 0..3 {
        assert_eq!(rx.recv(), Ok(k));
    }
    tx.send(4).unwrap();
    assert_eq!(rx.drain().unwrap().collect(), vec![3, 4]);
}

#[test]
fn slots_are_got_one_by_one_or_in_ranges() {
    let mut chunk = Chunk::new(4);
    chunk.put_logical(5, 'a');
    assert_eq!(*chunk.get(1usize), Some('a'));
    assert_eq!(*chunk.get(0..3), [None, Some('a'), None]);
    chunk.get_mut(2..3)[0] = Some('b');
    assert_eq!(*chunk.get_logical(6), Some('b'));
}

#[test]
fn closed_channel_is_drained_first() {
    let (mut tx, mut rx) = channel::<u32>(2);
    assert_eq!(rx.recv(), Err(RecvError::Empty));
    assert_eq!(rx.drain().unwrap().len(), 0);
    assert_eq!(tx.send(1), Ok(0));
    assert_eq!(tx.send(2), Ok(1));
    assert!(!rx.is_closed());
    tx.close();
    assert!(tx.is_closed() && rx.is_closed());
    assert_eq!(tx.send(3), Err(SendError(3)));
    assert_eq!(rx.recv(), Ok(1));
    assert_eq!(rx.drain_to(5).unwrap().collect(), vec![2]);
    assert_eq!(rx.recv(), Err(RecvError::Disconnected));
    assert!(matches!(rx.drain(), Err(DrainError)));
    assert_eq!((rx.tail(), rx.head()), (2, 2));
}

#[test]
fn receiver_can_close_the_channel() {
    let (mut tx, mut rx) = channel::<u32>(2);
    tx.send(1).unwrap();
    rx.close();
    assert_eq!(tx.send(2), Err(SendError(2)));
    assert_eq!(rx.recv(), Ok(1));
    assert_eq!(rx.recv(), Err(RecvError::Disconnected));
}

#[test]
fn last_handle_gets_what_is_left() {
    let (mut tx, rx) = channel(2);
    tx.send("left").unwrap();
    assert!(rx.into_state().is_none());
    assert_eq!(tx.send("more"), Err(SendError("more")));
    let mut state = tx.into_state().unwrap();
    assert!(state.is_closed());
    assert_eq!(state.recv(), Ok("left"));
    assert_eq!(state.recv(), Err(RecvError::Disconnected));
}

#[test]
fn errors_describe_themselves() {
    assert_eq!(SendError(1u8).to_string(), "channel closed");
    assert_eq!(RecvError::Empty.to_string(), "receiving on an empty channel");
    assert_eq!(RecvError::Disconnected.to_string(), "receiving on a closed channel");
    assert_eq!(DrainError.to_string(), "receiving on a closed channel");
}

#[test]
fn swapped_pointer_is_loaded() {
    let mut cell = ArcSwap::new(std::sync::Arc::new(1u32));
    let before = cell.load_full();
    cell.store(std::sync::Arc::new(2));
    assert_eq!(*before, 1);
    assert_eq!(*cell.load(), 2);
}

struct Unprintable;

#[test]
fn error_is_printed_without_the_value() {
    assert_eq!(format!("{:?}", SendError(Unprintable)), "SendError { .. }");
    assert_eq!(format!("{:?}", SendError(7u8)), "SendError { .. }");
}

#[test]
fn dropped_handle_closes_the_channel() {
    let (mut tx, mut rx) = channel(2);
    tx.send(1u8).unwrap();
    tx.send(2).unwrap();
    assert!(!rx.is_closed());
    drop(tx);
    assert!(rx.is_closed());
    assert_eq!(rx.recv(), Ok(1));
    assert_eq!(rx.drain().unwrap().collect(), vec![2]);
    assert_eq!(rx.recv(), Err(RecvError::Disconnected));
    assert!(matches!(rx.drain(), Err(DrainError)));

    let (mut tx, rx) = channel(2);
    tx.send(1u8).unwrap();
    assert!(!tx.is_closed());
    drop(rx);
    assert!(tx.is_closed());
    assert_eq!(tx.send(2), Err(SendError(2)));
}

#[test]
fn lost_handle_is_noted() {
    let mut state = ChannelState::<u8>::new(1);
    state.note_handles(2);
    assert!(!state.is_closed());
    state.note_handles(1);
    assert!(state.is_closed());
    state.note_handles(2);
    assert!(state.is_closed());
}

#[test]
fn dropped_drain_leaves_the_queue_in_order() {
    let mut queue = RawQueue::<u32>::with_capacity(2);
    for round in 0..50 {
        queue.push(2 * round);
        queue.push(2 * round + 1);
        let mut drain = queue.drain();
        assert_eq!(drain.next(), Some(2 * round));
        if round % 2 == 0 {
            drop(drain);
        } else {
            // Still there while more is pushed.
            queue.push(1000);
            assert_eq!(drain.collect(), vec![2 * round + 1]);
            assert_eq!(queue.pop(), Some(1000));
        }
        queue.note_drains(2);
        queue.note_drains(1);
        assert!(queue.is_empty());
    }
}
