//! The queue that the channel is made of: the shared part, and its reader and
//! its writer.
//!
//! Values carry consecutive indices, starting at 0. The queue holds those of
//! the range `tail..head`. The range `remote..tail` belongs to values that have
//! been handed to a [`Drain`] whose slots the writer may not use yet.

use std::collections::VecDeque;
use std::marker::PhantomData;
use std::ops::Range;

use triomphe::Arc;
use vstd::arithmetic::power2;
use vstd::prelude::*;

use crate::fifo;
use crate::ring;
use crate::spsc::chunk;
use crate::spsc::chunk::Chunk;

verus! {

/// `usize::checked_next_power_of_two` of std: the smallest power of two that is
/// not less than `n`, or `None` where that does not fit a `usize`.
pub assume_specification[ usize::checked_next_power_of_two ](n: usize) -> (r: Option<usize>)
    ensures
        match r {
            Some(p) => {
                &&& n <= p
                &&& power2::is_pow2(p as int)
                &&& forall|q: int| #[trigger] power2::is_pow2(q) && n <= q ==> p <= q
            },
            None => forall|q: int| #[trigger] power2::is_pow2(q) && n <= q ==> usize::MAX < q,
        },
;

/// Whether a queue asked for `requested` slots starts with `actual` of them:
/// the next power of two, where it fits a `usize`.
pub open spec fn initial_capacity(requested: int, actual: int) -> bool {
    if exists|q: int| #[trigger] power2::is_pow2(q) && requested <= q <= usize::MAX {
        &&& power2::is_pow2(actual)
        &&& requested <= actual
        &&& forall|q: int| #[trigger] power2::is_pow2(q) && requested <= q ==> actual <= q
    } else {
        actual == requested
    }
}

/// The part of the queue that reader and writer share.
pub struct Shared<T> {
    /// The buffer backing this queue.
    chunk: Chunk<T>,
    /// The index of the next value to be inserted.
    head: u64,
    /// The index of the first value that is contained in the queue.
    tail: u64,
    /// The index of the first value whose slot may still be in use.
    remote: u64,
}

impl<T> View for Shared<T> {
    type V = Seq<T>;

    /// The values in the queue, first in first.
    closed spec fn view(&self) -> Seq<T> {
        Seq::new((self.head - self.tail) as nat, |k: int| self.chunk.slot(self.tail + k)->0)
    }
}

impl<T> Shared<T> {
    /// The index of the next value to be inserted.
    pub closed spec fn head_index(self) -> int {
        self.head as int
    }

    /// The index of the first value in the queue.
    pub closed spec fn tail_index(self) -> int {
        self.tail as int
    }

    /// The index of the first value whose slot may still be in use.
    pub closed spec fn remote_index(self) -> int {
        self.remote as int
    }

    /// The number of slots.
    pub closed spec fn slots(self) -> int {
        self.chunk@.len() as int
    }

    /// The slots of `tail..head` hold values and no others do.
    pub closed spec fn wf(self) -> bool {
        &&& self.live(self.tail as int)
        &&& forall|i: int| self.remote <= i < self.tail ==> #[trigger] self.chunk.slot(i) is None
    }

    /// As [`Self::wf`], with the values from `start` on still in their slots.
    closed spec fn live(self, start: int) -> bool {
        &&& 0 < self.chunk@.len()
        &&& self.remote <= start <= self.tail <= self.head
        &&& self.head - self.remote <= self.chunk@.len()
        &&& forall|i: int| start <= i < self.head ==> #[trigger] self.chunk.slot(i) is Some
        &&& forall|i: int|
            self.head <= i < self.remote + self.chunk@.len() ==> #[trigger] self.chunk.slot(
                i,
            ) is None
    }

    /// What holds of the indices of every queue.
    pub proof fn lemma_indices(self)
        requires
            self.wf(),
        ensures
            0 <= self.remote_index() <= self.tail_index() <= self.head_index() <= u64::MAX,
            self.head_index() - self.remote_index() <= self.slots(),
            self.head_index() - self.tail_index() == self@.len(),
            0 < self.slots(),
    {
    }

    /// Creates an empty queue with room for at least `capacity` values.
    pub fn new(capacity: usize) -> (shared: Self)
        requires
            capacity != 0,
        ensures
            shared.wf(),
            shared@ == Seq::<T>::empty(),
            shared.head_index() == 0,
            shared.tail_index() == 0,
            shared.remote_index() == 0,
            initial_capacity(capacity as int, shared.slots()),
    {
        let len: usize = match capacity.checked_next_power_of_two() {
            Some(len) => len,
            None => capacity,
        };
        let chunk = Chunk::new(len);
        let shared = Self { chunk, head: 0, tail: 0, remote: 0 };
        proof {
            assert forall|i: int| 0 <= i < len implies #[trigger] chunk.slot(i) is None by {
                ring::lemma_step(i, 0, len as int);
            }
            assert(shared@ =~= Seq::<T>::empty());
        }
        shared
    }

    /// The index of the next value to be inserted.
    pub fn head(&self) -> (head: u64)
        ensures
            head == self.head_index(),
    {
        self.head
    }

    /// The index of the first value in the queue.
    pub fn tail(&self) -> (tail: u64)
        ensures
            tail == self.tail_index(),
    {
        self.tail
    }

    /// Whether the queue holds no value.
    pub fn is_empty(&self) -> (empty: bool)
        requires
            self.wf(),
        ensures
            empty == (self@.len() == 0),
    {
        self.head() == self.tail()
    }

    /// Whether one more value can be given an index and a slot.
    pub open spec fn has_room(self) -> bool {
        &&& self.head_index() < u64::MAX
        &&& self.head_index() - self.remote_index() < self.slots() || 2 * self.slots() <= usize::MAX
    }

    /// Whether one more value can be given an index and a slot. It can, until
    /// the indices or the sizes of buffers are used up.
    pub fn can_push(&self) -> (room: bool)
        requires
            self.wf(),
        ensures
            room == self.has_room(),
    {
        let cap: usize = self.chunk.capacity();
        self.head < u64::MAX && (self.head - self.remote < cap as u64 || cap <= usize::MAX / 2)
    }

    fn update_tail(&mut self, tail: u64)
        ensures
            *final(self) == (Shared { tail, ..*old(self) }),
    {
        self.tail = tail;
    }

    /// Drops the values that are still in the queue and hands back the buffer.
    pub fn dispose(self) -> (chunk: Chunk<T>)
        requires
            self.wf(),
        ensures
            chunk@.len() == self.slots(),
            forall|j: int| 0 <= j < chunk@.len() ==> #[trigger] chunk@[j] is None,
    {
        let Shared { chunk: mut data, head, tail, remote } = self;
        let (range1, range2) = data.translate_range(tail..head);
        let ghost len = data@.len() as int;
        data.drop_range(range1);
        if let Some(range2) = range2 {
            data.drop_range(range2);
        }
        proof {
            assert forall|j: int| 0 <= j < len implies #[trigger] data@[j] is None by {
                let i = ring::lemma_window(self.remote as int, len, j);
                if self.tail <= i < self.head {
                    chunk::lemma_translated_slots(tail as int, head as int, len, i - tail);
                } else {
                    assert(self.chunk.slot(i) is None);
                }
            }
        }
        data
    }
}

/// The reading side of a queue.
pub struct Reader<T> {
    tail: u64,
    _marker: PhantomData<T>,
}

impl<T> Reader<T> {
    /// The tail index that this reader keeps.
    pub closed spec fn tail_index(self) -> int {
        self.tail as int
    }

    /// Creates the reader of a queue.
    pub fn new(shared: &Shared<T>) -> (reader: Self)
        ensures
            reader.tail_index() == shared.tail_index(),
    {
        Self { tail: shared.tail, _marker: PhantomData }
    }

    /// The tail index that this reader keeps. It is always that of the queue.
    pub fn tail(&self) -> (tail: u64)
        ensures
            tail == self.tail_index(),
    {
        self.tail
    }

    /// Acquires the indices up to `watermark` in preparation for removing them
    /// from the queue.
    ///
    /// This moves the tail that the reader keeps, but not that of the queue.
    fn acquire_range(&mut self, shared: &Shared<T>, watermark: u64) -> (range: Range<u64>)
        requires
            shared.wf(),
            old(self).tail == shared.tail,
        ensures
            range.start == shared.tail,
            range.end == fifo::drained_to(
                shared.tail as int,
                shared.head as int,
                watermark as int,
            ),
            final(self).tail == range.end,
    {
        let head: u64 = shared.head;
        let watermark: u64 = if head < watermark { head } else { watermark };
        let start: u64 = self.tail;
        let target: u64 = if start < watermark { watermark } else { start };
        self.tail = target;
        start..target
    }

    /// Removes the first value of the queue.
    pub fn pop(&mut self, shared: &mut Shared<T>) -> (value: Option<T>)
        requires
            old(shared).wf(),
            old(self).tail_index() == old(shared).tail_index(),
        ensures
            final(shared).wf(),
            final(self).tail_index() == final(shared).tail_index(),
            final(shared).head_index() == old(shared).head_index(),
            final(shared).slots() == old(shared).slots(),
            match value {
                Some(value) => {
                    &&& old(shared)@.len() > 0
                    &&& value == old(shared)@[0]
                    &&& final(shared)@ == old(shared)@.drop_first()
                    &&& final(shared).tail_index() == old(shared).tail_index() + 1
                    &&& final(shared).remote_index() == final(shared).tail_index()
                },
                None => {
                    &&& old(shared)@.len() == 0
                    &&& *final(shared) == *old(shared)
                },
            },
    {
        let range = self.acquire_range(shared, self.tail.saturating_add(1));
        if range.start == range.end {
            return None;
        }
        shared.update_tail(range.end);
        let mut drain = Drain::new(shared, range);
        let value = drain.next();
        self.finish(shared, drain);
        proof {
            assert(shared@ =~= old(shared)@.drop_first());
        }
        value
    }

    /// Takes all values up to `watermark` out of the queue.
    ///
    /// Their slots stay out of use until the drain is [finished](Self::finish).
    pub fn consume(&mut self, shared: &mut Shared<T>, watermark: u64) -> (drain: Drain<T>)
        requires
            old(shared).wf(),
            old(self).tail_index() == old(shared).tail_index(),
        ensures
            final(shared).wf(),
            final(self).tail_index() == final(shared).tail_index(),
            final(shared).head_index() == old(shared).head_index(),
            final(shared).remote_index() == old(shared).remote_index(),
            final(shared).slots() == old(shared).slots(),
            final(shared).tail_index() == fifo::drained_to(
                old(shared).tail_index(),
                old(shared).head_index(),
                watermark as int,
            ),
            drain@ + final(shared)@ == old(shared)@,
            drain@.len() == final(shared).tail_index() - old(shared).tail_index(),
    {
        let range = self.acquire_range(shared, watermark);
        if range.start != range.end {
            shared.update_tail(range.end);
        }
        let drain = Drain::new(shared, range);
        proof {
            assert(drain@ + shared@ =~= old(shared)@);
        }
        drain
    }

    /// Drops the rest of a drain and returns its slots to the writer.
    pub fn finish(&mut self, shared: &mut Shared<T>, drain: Drain<T>)
        requires
            old(shared).wf(),
            old(self).tail_index() == old(shared).tail_index(),
        ensures
            final(shared).wf(),
            *final(self) == *old(self),
            final(shared)@ == old(shared)@,
            final(shared).head_index() == old(shared).head_index(),
            final(shared).tail_index() == old(shared).tail_index(),
            final(shared).remote_index() == old(shared).tail_index(),
            final(shared).slots() == old(shared).slots(),
    {
        self.release(shared);
    }

    /// Returns all slots that have been read to the writer.
    pub fn release(&mut self, shared: &mut Shared<T>)
        requires
            old(shared).wf(),
            old(self).tail_index() == old(shared).tail_index(),
        ensures
            final(shared).wf(),
            *final(self) == *old(self),
            final(shared)@ == old(shared)@,
            final(shared).head_index() == old(shared).head_index(),
            final(shared).tail_index() == old(shared).tail_index(),
            final(shared).remote_index() == old(shared).tail_index(),
            final(shared).slots() == old(shared).slots(),
    {
        shared.remote = self.tail;
        proof {
            let len = shared.chunk@.len() as int;
            assert forall|i: int|
                shared.head <= i < shared.remote + len implies #[trigger] shared.chunk.slot(
                i,
            ) is None by {
                if i >= old(shared).remote + len {
                    ring::lemma_step(i - len, len, len);
                    ring::lemma_step(i - len, 0, len);
                    assert(old(shared).chunk.slot(i - len) is None);
                }
            }
            assert(shared@ =~= old(shared)@);
        }
    }
}

/// The values taken out of a queue, from either end.
pub struct Drain<T> {
    items: VecDeque<T>,
    /// Shows that this is there, to a queue that looks. It goes when this is
    /// dropped.
    _alive: Option<Arc<()>>,
}

impl<T> View for Drain<T> {
    type V = Seq<T>;

    /// The values not yet handed out.
    closed spec fn view(&self) -> Seq<T> {
        self.items@
    }
}

impl<T> Drain<T> {
    /// The pointer by which this shows that it is there, if any queue looks.
    pub closed spec fn presence(self) -> Option<Arc<()>> {
        self._alive
    }

    /// Empties the slots of an acquired range.
    fn new(shared: &mut Shared<T>, range: Range<u64>) -> (drain: Self)
        requires
            old(shared).live(range.start as int),
            range.end == old(shared).tail,
            range.start <= range.end,
            forall|i: int|
                old(shared).remote <= i < range.start ==> #[trigger] old(shared).chunk.slot(
                    i,
                ) is None,
        ensures
            final(shared).wf(),
            final(shared).head == old(shared).head,
            final(shared).tail == old(shared).tail,
            final(shared).remote == old(shared).remote,
            final(shared).chunk@.len() == old(shared).chunk@.len(),
            drain@ == Seq::new(
                (range.end - range.start) as nat,
                |k: int| old(shared).chunk.slot(range.start + k)->0,
            ),
            final(shared)@ == Seq::new(
                (old(shared).head - range.end) as nat,
                |k: int| old(shared).chunk.slot(range.end + k)->0,
            ),
    {
        let ghost before = shared.chunk;
        let ghost len = shared.chunk@.len() as int;
        let ghost start = range.start as int;
        let ghost end = range.end as int;
        let (range1, range2) = shared.chunk.translate_range(range);
        let mut items: VecDeque<T> = VecDeque::new();
        proof {
            ring::lemma_step(start, end - start, len);
            assert forall|j: int| range1.start <= j < range1.end implies #[trigger] before@[j]
                is Some by {
                ring::lemma_step(start, j - range1.start, len);
                assert(before.slot(start + (j - range1.start)) is Some);
            }
            assert forall|j: int|
                range2 is Some && range2->0.start <= j < range2->0.end implies #[trigger] before@[j]
                is Some by {
                let k = range1.end - range1.start + j;
                ring::lemma_step(start, k, len);
                assert(before.slot(start + k) is Some);
            }
        }
        shared.chunk.drain_range(range1, &mut items);
        if let Some(range2) = range2 {
            shared.chunk.drain_range(range2, &mut items);
        }
        proof {
            assert forall|i: int|
                start <= i < start + len implies #[trigger] shared.chunk.slot(i) == (if i < end {
                None
            } else {
                before.slot(i)
            }) by {
                ring::lemma_step(start, i - start, len);
            }
            assert forall|i: int|
                shared.remote <= i < start implies #[trigger] shared.chunk.slot(i) is None by {
                ring::lemma_step(i, 0, len);
                assert(before.slot(i) is None);
            }
            assert(items@ =~= Seq::new((end - start) as nat, |k: int| before.slot(start + k)->0))
                by {
                assert forall|k: int| 0 <= k < end - start implies items@[k] == before.slot(
                    start + k,
                )->0 by {
                    ring::lemma_step(start, k, len);
                }
            }
            assert(shared@ =~= Seq::new(
                (shared.head - end) as nat,
                |k: int| before.slot(end + k)->0,
            ));
        }
        Self { items, _alive: None }
    }

    /// Lets a queue see that this is there, as long as it is.
    pub(crate) fn attach(self, alive: Arc<()>) -> (drain: Self)
        ensures
            drain@ == self@,
            drain.presence() == Some(alive),
    {
        Self { items: self.items, _alive: Some(alive) }
    }

    /// Hands out the first value.
    pub fn next(&mut self) -> (value: Option<T>)
        ensures
            final(self).presence() == old(self).presence(),
            match value {
                Some(value) => {
                    &&& old(self)@.len() > 0
                    &&& value == old(self)@[0]
                    &&& final(self)@ == old(self)@.drop_first()
                },
                None => old(self)@.len() == 0 && final(self)@ == old(self)@,
            },
    {
        let value = self.items.pop_front();
        assert(value is Some ==> self@ =~= old(self)@.drop_first());
        value
    }

    /// Hands out the last value.
    pub fn next_back(&mut self) -> (value: Option<T>)
        ensures
            final(self).presence() == old(self).presence(),
            match value {
                Some(value) => {
                    &&& old(self)@.len() > 0
                    &&& value == old(self)@.last()
                    &&& final(self)@ == old(self)@.drop_last()
                },
                None => old(self)@.len() == 0 && final(self)@ == old(self)@,
            },
    {
        let value = self.items.pop_back();
        assert(value is Some ==> self@ =~= old(self)@.drop_last());
        value
    }

    /// The number of values not yet handed out.
    pub fn len(&self) -> (len: usize)
        ensures
            len == self@.len(),
    {
        self.items.len()
    }

    /// The bounds on the number of values not yet handed out, which are equal.
    pub fn size_hint(&self) -> (hint: (usize, Option<usize>))
        ensures
            hint.0 == self@.len(),
            hint.1 == Some(hint.0),
    {
        (self.len(), Some(self.len()))
    }

    /// Drops the first `n` values and hands out the one after them.
    pub fn nth(&mut self, n: usize) -> (value: Option<T>)
        ensures
            match value {
                Some(value) => {
                    &&& n < old(self)@.len()
                    &&& value == old(self)@[n as int]
                    &&& final(self)@ == old(self)@.skip(n + 1)
                },
                None => old(self)@.len() <= n && final(self)@ == Seq::<T>::empty(),
            },
    {
        let mut skipped: usize = 0;
        while skipped < n
            invariant
                skipped <= n,
                skipped <= old(self)@.len(),
                self@ == old(self)@.skip(skipped as int),
            decreases n - skipped,
        {
            if self.next().is_none() {
                return None;
            }
            skipped += 1;
            assert(self@ =~= old(self)@.skip(skipped as int));
        }
        let value = self.next();
        assert(value is Some ==> self@ =~= old(self)@.skip(n + 1));
        value
    }

    /// Drops the last `n` values and hands out the one before them.
    pub fn nth_back(&mut self, n: usize) -> (value: Option<T>)
        ensures
            match value {
                Some(value) => {
                    &&& n < old(self)@.len()
                    &&& value == old(self)@[old(self)@.len() - 1 - n]
                    &&& final(self)@ == old(self)@.take(old(self)@.len() - 1 - n)
                },
                None => old(self)@.len() <= n && final(self)@ == Seq::<T>::empty(),
            },
    {
        let mut skipped: usize = 0;
        while skipped < n
            invariant
                skipped <= n,
                skipped <= old(self)@.len(),
                self@ == old(self)@.take(old(self)@.len() - skipped),
            decreases n - skipped,
        {
            if self.next_back().is_none() {
                return None;
            }
            skipped += 1;
            assert(self@ =~= old(self)@.take(old(self)@.len() - skipped));
        }
        let value = self.next_back();
        assert(value is Some ==> self@ =~= old(self)@.take(old(self)@.len() - 1 - n));
        value
    }

    /// Drops all values but the last and hands that out.
    pub fn last(self) -> (value: Option<T>)
        ensures
            value == if self@.len() > 0 {
                Some(self@.last())
            } else {
                None
            },
    {
        let mut drain = self;
        drain.next_back()
    }

    /// Hands out all values in order.
    pub fn collect(self) -> (values: Vec<T>)
        ensures
            values@ == self@,
    {
        let mut drain = self;
        let mut values: Vec<T> = Vec::with_capacity(drain.len());
        loop
            invariant_except_break
                values@ + drain@ == self@,
            ensures
                values@ == self@,
            decreases drain@.len(),
        {
            match drain.next() {
                Some(value) => {
                    values.push(value);
                    assert(values@ + drain@ =~= self@);
                },
                None => {
                    assert(values@ =~= self@);
                    break;
                },
            }
        }
        values
    }
}

/// The writing side of a queue.
pub struct Writer<T> {
    _marker: PhantomData<T>,
}

impl<T> Writer<T> {
    /// Creates the writer of a queue.
    pub fn new(shared: &Shared<T>) -> Self {
        Self { _marker: PhantomData }
    }

    /// Appends a value to the queue and returns its index.
    ///
    /// The buffer is replaced by one of twice its size when it is full.
    pub fn push(&mut self, shared: &mut Shared<T>, value: T) -> (index: u64)
        requires
            old(shared).wf(),
            old(shared).has_room(),
        ensures
            final(shared).wf(),
            index == old(shared).head_index(),
            final(shared)@ == old(shared)@.push(value),
            final(shared).head_index() == old(shared).head_index() + 1,
            final(shared).tail_index() == old(shared).tail_index(),
            final(shared).remote_index() == old(shared).remote_index(),
            final(shared).slots() == if old(shared).head_index() - old(shared).remote_index()
                == old(shared).slots() {
                2 * old(shared).slots()
            } else {
                old(shared).slots()
            },
    {
        let head: u64 = shared.head;
        if head - shared.remote == shared.chunk.capacity() as u64 {
            self.expand(shared);
        }
        let ghost full = *shared;
        shared.chunk.put_logical(head, value);
        shared.head = head + 1;
        proof {
            let len = shared.chunk@.len() as int;
            ring::lemma_step(head as int, 0, len);
            let remote = full.remote as int;
            assert forall|i: int|
                remote <= i < remote + len && i != head implies #[trigger] shared.chunk.slot(i)
                == full.chunk.slot(i) by {
                ring::lemma_step(i, 0, len);
                if i < head {
                    ring::lemma_distinct(i, head as int, len);
                } else {
                    ring::lemma_distinct(head as int, i, len);
                }
            }
            assert(shared@ =~= old(shared)@.push(value));
        }
        head
    }

    /// Moves the values to a buffer of twice the size.
    fn expand(&mut self, shared: &mut Shared<T>)
        requires
            old(shared).wf(),
            2 * old(shared).slots() <= usize::MAX,
        ensures
            final(shared).wf(),
            final(shared)@ == old(shared)@,
            final(shared).head == old(shared).head,
            final(shared).tail == old(shared).tail,
            final(shared).remote == old(shared).remote,
            final(shared).slots() == 2 * old(shared).slots(),
    {
        let cap: usize = shared.chunk.capacity();
        let mut chunk: Chunk<T> = Chunk::new(cap * 2);
        let ghost empty = chunk;
        chunk.copy_from(&mut shared.chunk, shared.tail..shared.head);
        shared.chunk = chunk;
        proof {
            let len = shared.chunk@.len() as int;
            let tail = shared.tail as int;
            let head = shared.head as int;
            assert forall|i: int|
                (shared.remote <= i < tail) || (head <= i < shared.remote
                    + len) implies #[trigger] shared.chunk.slot(i) is None by {
                ring::lemma_step(i, 0, len);
                assert forall|k: int| tail <= k < head implies #[trigger] (k % len) != i % len by {
                    if i < k {
                        ring::lemma_distinct(i, k, len);
                    } else {
                        ring::lemma_distinct(k, i, len);
                    }
                }
                assert(!ring::covers(tail, head, len, i % len));
            }
            assert(shared@ =~= old(shared)@);
        }
    }
}

} // verus!
