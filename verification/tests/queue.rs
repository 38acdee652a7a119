//! The queue of wakers in blocks.

use std::sync::atomic::{AtomicUsize, Ordering};
use std::sync::Arc;
use std::task::{Wake, Waker};

use widecast::queue::{Local, Shared, WakerQueue, BLOCK_LEN, CLEANUP_INTERVAL};

struct Count(AtomicUsize);

impl Wake for Count {
    fn wake(self: Arc<Self>) {
        self.0.fetch_add(1, Ordering::SeqCst);
    }
}

#[test]
fn tasks_below_the_watermark_are_woken() {
    let count = Arc::new(Count(AtomicUsize::new(0)));
    let mut queue = WakerQueue::new();
    for _ in 0..10 {
        queue.push(Waker::from(count.clone()));
    }
    queue.wake_remote(5);
    queue.wake_local(5);
    assert_eq!(count.0.load(Ordering::SeqCst), 0);
    queue.set_watermark();
    queue.push(Waker::from(count.clone()));
    queue.wake_remote(0);
    assert_eq!(count.0.load(Ordering::SeqCst), 0);
    queue.wake_remote(4);
    assert_eq!(count.0.load(Ordering::SeqCst), 4);
    queue.wake_local(100);
    assert_eq!(count.0.load(Ordering::SeqCst), 10);
    queue.set_watermark();
    queue.wake_local(u64::MAX);
    assert_eq!(count.0.load(Ordering::SeqCst), 11);
}

#[test]
fn values_come_out_in_order_across_blocks() {
    let len = 3 * BLOCK_LEN + 7;
    let mut local = Local::new();
    let mut shared = Shared::new();
    for i in 0..len {
        assert!(shared.can_push());
        local.push(&mut shared, i);
    }
    assert_eq!(shared.set_watermark(), len);
    let mut out = shared.take_remote(BLOCK_LEN - 1);
    out.extend(local.take_local(&mut shared, BLOCK_LEN + 2));
    // Goes on in the block that is left.
    local.push(&mut shared, len);
    out.extend(shared.take_remote(u64::MAX));
    assert_eq!(out, (0..len).collect::<Vec<_>>());
    shared.set_watermark();
    assert_eq!(local.take_local(&mut shared, u64::MAX), vec![len]);
}

#[test]
fn queue_starts_anew_when_its_last_block_is_given_back() {
    let mut local = Local::new();
    let mut shared = Shared::new();
    for round in 0..3u64 {
        for i in 0..BLOCK_LEN {
            local.push(&mut shared, (round, i));
        }
        shared.set_watermark();
        let out = local.take_local(&mut shared, u64::MAX);
        assert_eq!(out.len() as u64, BLOCK_LEN);
        assert_eq!(out[5], (round, 5));
    }
}

#[test]
fn blocks_are_given_back_once_in_a_while() {
    let mut local = Local::new();
    let mut shared = Shared::new();
    for i in 0..BLOCK_LEN + 1 {
        local.push(&mut shared, i);
    }
    shared.set_watermark();
    assert_eq!(shared.take_remote(BLOCK_LEN).len() as u64, BLOCK_LEN);
    for _ in 0..CLEANUP_INTERVAL + 1 {
        assert!(local.take_local(&mut shared, 0).is_empty());
    }
    assert_eq!(local.take_local(&mut shared, 1), vec![BLOCK_LEN]);
}
