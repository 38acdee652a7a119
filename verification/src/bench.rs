//! What the latency benchmark decides and reports.

use std::time::Duration;

use hdrhistogram::{AdditionError, CreationError, Histogram, RecordError};
use vstd::prelude::*;
use vstd::string::*;

use crate::error::RecvError;

verus! {

/// How many values the channel holds, unless told otherwise.
pub const DEFAULT_CAPACITY: usize = 128;

/// How many messages are sent at a time, unless told otherwise.
pub const DEFAULT_CHUNK: usize = 1;

/// How many milliseconds there are between sends, unless told otherwise.
pub const DEFAULT_DELAY: u64 = 1;

/// The longest time that is measured: an hour, in nanoseconds.
pub const HIGHEST_NANOS: u64 = 3_600_000_000_000;

/// How many digits of a measured time are kept.
pub const DIGITS: u8 = 3;

/// What to measure.
#[derive(Copy, Clone, Debug, PartialEq, Eq, Structural)]
pub struct Config {
    /// The number of receivers.
    pub readers: usize,
    /// The number of messages to send.
    pub messages: usize,
    /// How many values the channel holds.
    pub capacity: usize,
    /// How many messages are sent at a time.
    pub chunk: usize,
    /// The time between sends, in milliseconds.
    pub delay: u64,
}

impl Config {
    /// What to measure, with everything else as it is by default.
    pub fn new(readers: usize, messages: usize) -> (config: Self)
        ensures
            config == (Config {
                readers,
                messages,
                capacity: DEFAULT_CAPACITY,
                chunk: DEFAULT_CHUNK,
                delay: DEFAULT_DELAY,
            }),
    {
        Config {
            readers,
            messages,
            capacity: DEFAULT_CAPACITY,
            chunk: DEFAULT_CHUNK,
            delay: DEFAULT_DELAY,
        }
    }

    /// How often a chunk of messages is sent. What is left over when the
    /// messages are divided into chunks is not sent.
    pub fn rounds(&self) -> (rounds: usize)
        requires
            self.chunk != 0,
        ensures
            rounds * self.chunk <= self.messages < (rounds + 1) * self.chunk,
    {
        let rounds: usize = self.messages / self.chunk;
        proof {
            let (messages, chunk) = (self.messages as int, self.chunk as int);
            vstd::arithmetic::div_mod::lemma_fundamental_div_mod(messages, chunk);
            vstd::arithmetic::div_mod::lemma_mod_bound(messages, chunk);
            assert((messages / chunk) * chunk == chunk * (messages / chunk)) by (nonlinear_arith);
            assert((messages / chunk + 1) * chunk == chunk * (messages / chunk) + chunk)
                by (nonlinear_arith);
        }
        rounds
    }

    /// When the rounds end.
    pub fn schedule(&self) -> (schedule: Schedule)
        requires
            self.chunk != 0,
        ensures
            schedule.left * self.chunk <= self.messages < (schedule.left + 1) * self.chunk,
            schedule.next == schedule.period == self.delay,
    {
        Schedule { left: self.rounds(), period: self.delay, next: self.delay }
    }
}

/// The rounds that are left, and when they end.
#[derive(Copy, Clone, Debug, PartialEq, Eq, Structural)]
pub struct Schedule {
    /// The number of rounds left.
    pub left: usize,
    /// The length of a round, in milliseconds.
    pub period: u64,
    /// When the next round ends, in milliseconds from the start.
    pub next: u64,
}

impl Schedule {
    /// Begins the next round, if there is one left, and tells when it ends. Times
    /// too long to be told are cut off.
    pub fn begin_round(&mut self) -> (end: Option<u64>)
        ensures
            final(self).period == old(self).period,
            if old(self).left > 0 {
                &&& end == Some(old(self).next)
                &&& final(self).left == old(self).left - 1
                &&& final(self).next == if old(self).next + old(self).period <= u64::MAX {
                    old(self).next + old(self).period
                } else {
                    u64::MAX as int
                }
            } else {
                &&& end is None
                &&& *final(self) == *old(self)
            },
    {
        if self.left == 0 {
            return None;
        }
        let end: u64 = self.next;
        self.left = self.left - 1;
        self.next = self.next.saturating_add(self.period);
        Some(end)
    }
}

/// What a reader does next.
#[derive(Copy, Clone, Debug, PartialEq, Eq, Structural)]
pub enum Step {
    /// Records the latency, in nanoseconds.
    Record(u64),
    /// Goes on.
    Skip,
    /// Stops reading.
    Stop,
}

/// What a reader does with what it has received: the age of a message in
/// nanoseconds, or an error. Ages too long to be recorded wrap around.
pub fn after_receiving(received: Result<u128, RecvError>) -> (step: Step)
    ensures
        step == match received {
            Ok(nanos) => Step::Record(nanos as u64),
            Err(RecvError::Lagged(_)) => Step::Skip,
            Err(RecvError::Closed) => Step::Stop,
        },
{
    match received {
        Ok(nanos) => Step::Record(
            #[verifier::truncate]
            (nanos as u64),
        ),
        Err(RecvError::Lagged(_)) => Step::Skip,
        Err(RecvError::Closed) => Step::Stop,
    }
}

/// A `hdrhistogram::Histogram` of times, which counts how often values occur, the
/// large ones in ranges.
#[verifier::external_body]
pub struct Times {
    histogram: Histogram<u32>,
}

/// `hdrhistogram::CreationError`.
#[verifier::external_type_specification]
#[verifier::external_body]
pub struct ExCreationError(CreationError);

/// `hdrhistogram::RecordError`.
#[verifier::external_type_specification]
#[verifier::external_body]
pub struct ExRecordError(RecordError);

/// `hdrhistogram::AdditionError`.
#[verifier::external_type_specification]
#[verifier::external_body]
pub struct ExAdditionError(AdditionError);

/// What a histogram holds: for each value, how often a value in its range has
/// been recorded. This is what `Histogram::count_at` gives.
pub uninterp spec fn counts(times: Times) -> Map<u64, u32>;

/// What a histogram was made with: the lowest value told from 0, the highest
/// value that can be recorded, the number of digits kept, and whether the range
/// grows by itself.
pub uninterp spec fn settings(times: Times) -> (u64, u64, u8, bool);

/// `Histogram::new_with_bounds` makes an empty histogram for values from `low` to
/// `high`, of which `digits` digits are kept. It fails where the bounds do not
/// allow for two values, or where more than five digits are asked for. It is not
/// stated for which `low` above 1 it fails for lack of room.
#[verifier::external_body]
fn new_with_bounds(low: u64, high: u64, digits: u8) -> (r: Result<Times, CreationError>)
    ensures
        r matches Ok(times) ==> {
            &&& settings(times) == (low, high, digits, false)
            &&& forall|value: u64| #[trigger] counts(times)[value] == 0
        },
        low == 1 && high >= 2 && digits <= 5 ==> r is Ok,
        low < 1 || high < 2 * low || digits > 5 ==> r is Err,
{
    let histogram = Histogram::new_with_bounds(low, high, digits)?;
    Ok(Times { histogram })
}

/// `Histogram::record` counts a value once more, unless it has been counted as
/// often as can be. The values in its range share the count; no other count
/// changes. Where the range does not grow by itself, a value that is too large
/// may be refused, and then nothing changes. Which values share a count is not
/// stated.
#[verifier::external_body]
fn record(times: &mut Times, value: u64) -> (r: Result<(), RecordError>)
    requires
        !settings(*old(times)).3,
    ensures
        settings(*final(times)) == settings(*old(times)),
        value <= settings(*old(times)).1 ==> r is Ok,
        r is Ok ==> counted_once_more(counts(*old(times)), value, counts(*final(times))),
        r is Err ==> *final(times) == *old(times),
{
    times.histogram.record(value)
}

/// `Histogram::add` adds the counts of another histogram, where both are made for
/// the times that are measured here. None gets larger than can be.
#[verifier::external_body]
fn merge(times: &mut Times, other: &Times) -> (r: Result<(), AdditionError>)
    requires
        measures_times(*old(times)),
        measures_times(*other),
    ensures
        r is Ok,
        settings(*final(times)) == settings(*old(times)),
        forall|value: u64| #[trigger]
            counts(*final(times))[value] == capped(
                counts(*old(times))[value] + counts(*other)[value],
            ),
{
    times.histogram.add(&other.histogram)
}

/// `Histogram::iter_recorded` gives the ranges that have been counted, in
/// ascending order, each as its highest value and its count, of a histogram that
/// is made for the times that are measured here.
#[verifier::external_body]
fn iter_recorded(times: &Times) -> (ranges: Vec<(u64, u32)>)
    requires
        measures_times(*times),
    ensures
        lists(ranges@, counts(*times), HIGHEST_NANOS),
{
    let ranges = times.histogram.iter_recorded();
    ranges.map(|range| (range.value_iterated_to(), range.count_at_value())).collect()
}

/// Whether `ranges` lists what has been counted, as far as values up to `high` are
/// concerned: in ascending order and with the right counts, and leaving nothing
/// out.
pub open spec fn lists(ranges: Seq<(u64, u32)>, counts: Map<u64, u32>, high: u64) -> bool {
    &&& forall|i: int, j: int|
        0 <= i < j < ranges.len() ==> (#[trigger] ranges[i]).0 < (#[trigger] ranges[j]).0
    &&& forall|i: int|
        0 <= i < ranges.len() ==> (#[trigger] ranges[i]).1 > 0 && ranges[i].1
            == counts[ranges[i].0]
    &&& forall|value: u64|
        value <= high && #[trigger] counts[value] > 0 ==> exists|i: int|
            0 <= i < ranges.len() && (#[trigger] ranges[i]).0 >= value && ranges[i].1
                == counts[value]
}

/// A count, as far as it can be held.
pub open spec fn capped(count: int) -> int {
    if count <= u32::MAX {
        count
    } else {
        u32::MAX as int
    }
}

/// Whether `value`, and with it the values in its range, is counted once more.
pub open spec fn counted_once_more(
    before: Map<u64, u32>,
    value: u64,
    after: Map<u64, u32>,
) -> bool {
    &&& after[value] == capped(before[value] + 1)
    &&& forall|other: u64|
        #![trigger after[other]]
        after[other] == before[other] || (before[other] == before[value] && after[other]
            == after[value])
}

/// Whether a histogram is made for the times that are measured here.
pub open spec fn measures_times(times: Times) -> bool {
    settings(times) == (1u64, HIGHEST_NANOS, DIGITS, false)
}

/// Creates an empty histogram of times in nanoseconds, up to an hour.
pub fn make_histogram() -> (times: Times)
    ensures
        measures_times(times),
        forall|value: u64| #[trigger] counts(times)[value] == 0,
{
    new_with_bounds(1, HIGHEST_NANOS, DIGITS).unwrap()
}

/// How often `value` occurs in all of the given histograms.
pub open spec fn total_count(histograms: Seq<Times>, value: u64) -> int
    decreases histograms.len(),
{
    if histograms.len() == 0 {
        0
    } else {
        total_count(histograms.drop_last(), value) + counts(histograms.last())[value]
    }
}

/// Adds up the histograms of all threads.
pub fn total(histograms: Vec<Times>) -> (sum: Times)
    requires
        forall|i: int|
            0 <= i < histograms@.len() ==> measures_times(#[trigger] histograms@[i]),
    ensures
        measures_times(sum),
        forall|value: u64| #[trigger]
            counts(sum)[value] == capped(total_count(histograms@, value)),
{
    let mut sum = make_histogram();
    let mut at: usize = 0;
    while at < histograms.len()
        invariant
            at <= histograms@.len(),
            forall|i: int|
                0 <= i < histograms@.len() ==> measures_times(#[trigger] histograms@[i]),
            measures_times(sum),
            forall|value: u64| #[trigger]
                counts(sum)[value] == capped(total_count(histograms@.take(at as int), value)),
        decreases histograms@.len() - at,
    {
        let _ = merge(&mut sum, &histograms[at]);
        proof {
            let done = histograms@.take(at + 1);
            assert(done.drop_last() =~= histograms@.take(at as int));
            assert(done.last() == histograms@[at as int]);
        }
        at += 1;
    }
    assert(histograms@.take(at as int) =~= histograms@);
    sum
}

/// The times measured by one thread.
pub struct LocalHistogram {
    times: Times,
}

impl LocalHistogram {
    /// The times.
    pub closed spec fn times(self) -> Times {
        self.times
    }

    /// The histogram is made for times.
    pub closed spec fn wf(self) -> bool {
        measures_times(self.times)
    }

    /// Creates an empty histogram.
    pub fn new() -> (local: Self)
        ensures
            local.wf(),
            forall|value: u64| #[trigger] counts(local.times())[value] == 0,
    {
        Self { times: make_histogram() }
    }

    /// Records a time, in nanoseconds. One of more than an hour may be left out.
    pub fn record(&mut self, value: u64)
        requires
            old(self).wf(),
        ensures
            final(self).wf(),
            ({
                let recorded = counted_once_more(
                    counts(old(self).times()),
                    value,
                    counts(final(self).times()),
                );
                &&& value <= HIGHEST_NANOS ==> recorded
                &&& recorded || final(self).times() == old(self).times()
            }),
    {
        let _ = record(&mut self.times, value);
    }

    /// The times.
    pub fn into_inner(self) -> (times: Times)
        requires
            self.wf(),
        ensures
            times == self.times(),
            measures_times(times),
    {
        self.times
    }
}

impl Times {
    /// The times that have been recorded and how often, in ascending order. Times
    /// in the same range are given as the highest of them.
    pub fn recorded(&self) -> (ranges: Vec<(u64, u32)>)
        requires
            measures_times(*self),
        ensures
            lists(ranges@, counts(*self), HIGHEST_NANOS),
    {
        iter_recorded(self)
    }
}

/// Something for each percentile that is reported.
pub struct Percentiles<T> {
    pub p50: T,
    pub p90: T,
    pub p95: T,
    pub p99: T,
    pub p999: T,
}

/// What `humantime::format_duration` writes for a time in nanoseconds.
pub uninterp spec fn duration_text(nanos: u64) -> Seq<char>;

/// `humantime::format_duration` writes a time out. The text depends on nothing
/// but the time; which one it is, is not stated.
#[verifier::external_body]
fn format_duration(nanos: u64) -> (text: String)
    ensures
        text@ == duration_text(nanos),
{
    humantime::format_duration(Duration::from_nanos(nanos)).to_string()
}

/// One line per percentile.
pub open spec fn lines(texts: Percentiles<Seq<char>>) -> Seq<char> {
    "  p50:  "@ + texts.p50 + "\n"@ + "  p90:  "@ + texts.p90 + "\n"@ + "  p95:  "@ + texts.p95
        + "\n"@ + "  p99:  "@ + texts.p99 + "\n"@ + "  p999: "@ + texts.p999 + "\n"@
}

/// The texts of the given times.
pub open spec fn duration_texts(nanos: Percentiles<u64>) -> Percentiles<Seq<char>> {
    Percentiles {
        p50: duration_text(nanos.p50),
        p90: duration_text(nanos.p90),
        p95: duration_text(nanos.p95),
        p99: duration_text(nanos.p99),
        p999: duration_text(nanos.p999),
    }
}

impl Percentiles<u64> {
    /// Writes the times out.
    pub fn format(&self) -> (texts: Percentiles<String>)
        ensures
            texts.texts() == duration_texts(*self),
    {
        Percentiles {
            p50: format_duration(self.p50),
            p90: format_duration(self.p90),
            p95: format_duration(self.p95),
            p99: format_duration(self.p99),
            p999: format_duration(self.p999),
        }
    }
}

impl Percentiles<String> {
    /// The texts, as sequences of characters.
    pub open spec fn texts(self) -> Percentiles<Seq<char>> {
        Percentiles {
            p50: self.p50@,
            p90: self.p90@,
            p95: self.p95@,
            p99: self.p99@,
            p999: self.p999@,
        }
    }

    /// Appends one line per percentile to a report.
    pub fn push_lines(&self, report: &mut String)
        ensures
            final(report)@ == old(report)@ + lines(self.texts()),
    {
        report.append("  p50:  ");
        report.append(self.p50.as_str());
        report.append("\n");
        report.append("  p90:  ");
        report.append(self.p90.as_str());
        report.append("\n");
        report.append("  p95:  ");
        report.append(self.p95.as_str());
        report.append("\n");
        report.append("  p99:  ");
        report.append(self.p99.as_str());
        report.append("\n");
        report.append("  p999: ");
        report.append(self.p999.as_str());
        report.append("\n");
        assert(report@ =~= old(report)@ + lines(self.texts()));
    }
}

/// The report on the given times.
pub open spec fn report(
    latencies: Percentiles<Seq<char>>,
    send: Percentiles<Seq<char>>,
) -> Seq<char> {
    "queue delay:\n"@ + lines(latencies) + "\nsend duration:\n"@ + lines(send)
}

/// Writes the report on times that have been written out.
pub fn write_report(latencies: &Percentiles<String>, send: &Percentiles<String>) -> (text: String)
    ensures
        text@ == report(latencies.texts(), send.texts()),
{
    let mut text: String = "queue delay:\n".to_owned();
    latencies.push_lines(&mut text);
    text.append("\nsend duration:\n");
    send.push_lines(&mut text);
    text
}

/// The outcome of the benchmark, in nanoseconds.
pub struct State {
    /// How long messages were queued.
    pub latencies: Percentiles<u64>,
    /// How long sending took.
    pub send: Percentiles<u64>,
}

impl State {
    /// Writes the report.
    pub fn to_string(&self) -> (text: String)
        ensures
            text@ == report(duration_texts(self.latencies), duration_texts(self.send)),
    {
        write_report(&self.latencies.format(), &self.send.format())
    }
}

} // verus!
