//! What the benchmark decides and reports.

use widecast::bench::{
    after_receiving, make_histogram, total, write_report, Config, LocalHistogram, Percentiles,
    Schedule, State, Step, HIGHEST_NANOS,
};
use widecast::text::push_decimal;
use widecast::thread_id::thread_id;
use widecast::RecvError;

#[test]
fn defaults_are_small() {
    let config = Config::new(3, 10);
    assert_eq!(
        config,
        Config { readers: 3, messages: 10, capacity: 128, chunk: 1, delay: 1 }
    );
    assert_eq!(config.rounds(), 10);
}

#[test]
fn left_over_messages_are_not_sent() {
    let config = Config { readers: 1, messages: 10, capacity: 8, chunk: 4, delay: 5 };
    assert_eq!(config.rounds(), 2);
    let mut schedule = config.schedule();
    assert_eq!(schedule, Schedule { left: 2, period: 5, next: 5 });
    assert_eq!(schedule.begin_round(), Some(5));
    assert_eq!(schedule.begin_round(), Some(10));
    assert_eq!(schedule.begin_round(), None);
    assert_eq!(schedule.begin_round(), None);

    let none = Config { messages: 3, ..config };
    assert_eq!(none.rounds(), 0);
    let mut long = Schedule { left: 2, period: u64::MAX, next: 1 };
    assert_eq!(long.begin_round(), Some(1));
    assert_eq!(long.begin_round(), Some(u64::MAX));
}

#[test]
fn reader_stops_when_the_channel_is_closed() {
    assert_eq!(after_receiving(Ok(7)), Step::Record(7));
    assert_eq!(after_receiving(Ok((1 << 64) + 9)), Step::Record(9));
    assert_eq!(after_receiving(Err(RecvError::Lagged(2))), Step::Skip);
    assert_eq!(after_receiving(Err(RecvError::Closed)), Step::Stop);
}

#[test]
fn times_are_counted_and_added_up() {
    assert!(make_histogram().recorded().is_empty());
    let mut first = LocalHistogram::new();
    first.record(5);
    first.record(5);
    first.record(HIGHEST_NANOS);
    first.record(u64::MAX);
    let mut second = LocalHistogram::new();
    second.record(5);
    second.record(1_000_003);
    let sum = total(vec![first.into_inner(), second.into_inner()]);
    let ranges = sum.recorded();
    assert_eq!(ranges.len(), 3);
    assert_eq!(ranges[0], (5, 3));
    // Three digits are kept.
    assert!(ranges[1].0 >= 1_000_003 && ranges[1].0 < 1_001_003);
    assert_eq!(ranges[1].1, 1);
    assert!(ranges[2].0 >= HIGHEST_NANOS);
    assert_eq!(ranges[2].1, 1);
    assert!(total(Vec::new()).recorded().is_empty());
}

fn texts(p50: &str) -> Percentiles<String> {
    Percentiles {
        p50: p50.to_string(),
        p90: "b".to_string(),
        p95: "c".to_string(),
        p99: "d".to_string(),
        p999: "e".to_string(),
    }
}

#[test]
fn report_lists_both_kinds_of_times() {
    assert_eq!(
        write_report(&texts("x"), &texts("y")),
        "queue delay:\n  p50:  x\n  p90:  b\n  p95:  c\n  p99:  d\n  p999: e\n\
         \nsend duration:\n  p50:  y\n  p90:  b\n  p95:  c\n  p99:  d\n  p999: e\n"
    );
    let state = State {
        latencies: Percentiles {
            p50: 0,
            p90: 1,
            p95: 1_000,
            p99: 32_000_000,
            p999: 61_000_000_000,
        },
        send: Percentiles { p50: 2, p90: 3, p95: 4, p99: 5, p999: 6 },
    };
    assert_eq!(
        state.to_string(),
        "queue delay:\n  p50:  0s\n  p90:  1ns\n  p95:  1us\n  p99:  32ms\n  p999: 1m 1s\n\
         \nsend duration:\n  p50:  2ns\n  p90:  3ns\n  p95:  4ns\n  p99:  5ns\n  p999: 6ns\n"
    );
}

#[test]
fn numbers_are_written_in_decimal() {
    for n in [0, 7, 10, 99, 100, 1234567890, u64::MAX] {
        let mut text = String::from("n=");
        push_decimal(&mut text, n);
        assert_eq!(text, format!("n={n}"));
    }
}

#[test]
fn threads_are_told_apart() {
    assert_eq!(thread_id(0), 0);
    assert_eq!(thread_id(1), 1560772980);
    assert_eq!(thread_id(0x7f00_0000_1000), 1966740820);
    assert_ne!(thread_id(0x7f00_0000_1000), thread_id(0x7f00_0000_2000));
}
