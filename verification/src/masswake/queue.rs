//! A variant of the single-producer single-consumer queue that lets the
//! producer remove entries too.

use std::collections::VecDeque;
use std::marker::PhantomData;
use std::ops::Range;

use triomphe::Arc;
use vstd::arithmetic::div_mod;
use vstd::prelude::*;

use crate::fifo::QueueState;
use crate::refcnt;
use crate::ring;
use crate::spsc::chunk::Chunk;

verus! {

/// The physical ranges of a logical range in a ring of `len` slots. The second
/// one follows on the first; it is empty where the range does not wrap around.
pub fn range_indices(range: Range<u64>, len: usize) -> (r: (Range<usize>, Range<usize>))
    requires
        range.start <= range.end,
        range.end - range.start <= len,
        range.start == range.end || len > 0,
    ensures
        ({
            let lo = range.start as int % len as int;
            let stop = lo + (range.end - range.start);
            if range.start == range.end {
                r == (Range { start: 0usize, end: 0usize }, Range { start: 0usize, end: 0usize })
            } else if stop < len {
                &&& r.0.start == lo && r.0.end == stop
                &&& r.1.start == 0 && r.1.end == 0
            } else {
                &&& r.0.start == lo && r.0.end == len
                &&& r.1.start == 0 && r.1.end == stop - len
            }
        }),
{
    if range.start == range.end {
        return (0..0, 0..0);
    }
    let start_idx: usize = (range.start % len as u64) as usize;
    let end_idx: usize = (range.end % len as u64) as usize;
    proof {
        ring::lemma_step(range.start as int, range.end - range.start, len as int);
    }
    if start_idx < end_idx {
        (start_idx..end_idx, 0..0)
    } else {
        (start_idx..len, 0..end_idx)
    }
}

/// The part of the queue that both sides use.
pub struct Shared<T> {
    /// The ring that holds the values.
    chunk: Chunk<T>,
    /// The index of the next value to be inserted.
    head: u64,
    /// The index of the first value in the queue.
    tail: u64,
    /// The first index that the remote side may still be reading, or
    /// `u64::MAX` where it reads none.
    remote: u64,
}

impl<T> View for Shared<T> {
    type V = QueueState<T>;

    closed spec fn view(&self) -> QueueState<T> {
        QueueState {
            items: Seq::new(
                (self.head - self.tail) as nat,
                |k: int| self.chunk.slot(self.tail + k)->0,
            ),
            tail: self.tail as int,
        }
    }
}

impl<T> Shared<T> {
    /// The first index whose slot may still be in use, where the values from
    /// `start` on are still in their slots.
    spec fn low(self, start: int) -> int {
        if start < self.remote {
            start
        } else {
            self.remote as int
        }
    }

    /// The number of slots.
    pub closed spec fn slots(self) -> int {
        self.chunk@.len() as int
    }

    /// The first index that the remote side may still be reading, if there is one.
    pub closed spec fn mark(self) -> Option<int> {
        if self.remote == u64::MAX {
            None
        } else {
            Some(self.remote as int)
        }
    }

    /// The first index whose slot may still be in use.
    pub open spec fn first_in_use(self) -> int {
        match self.mark() {
            Some(mark) if mark <= self@.tail => mark,
            _ => self@.tail,
        }
    }

    /// Whether the remote side is reading values that it has taken out.
    pub closed spec fn remote_active(self) -> bool {
        self.remote != u64::MAX
    }

    /// The slots of `tail..head` hold values and no others do.
    pub closed spec fn wf(self) -> bool {
        &&& self.live(self.tail as int)
        &&& forall|i: int|
            self.low(self.tail as int) <= i < self.tail ==> #[trigger] self.chunk.slot(i) is None
    }

    /// As [`Self::wf`], with the values from `start` on still in their slots.
    spec fn live(self, start: int) -> bool {
        &&& 0 < self.chunk@.len()
        &&& 0 <= start <= self.tail <= self.head
        &&& self.head - self.low(start) <= self.chunk@.len()
        &&& forall|i: int| start <= i < self.head ==> #[trigger] self.chunk.slot(i) is Some
        &&& forall|i: int|
            self.head <= i < self.low(start) + self.chunk@.len() ==> #[trigger] self.chunk.slot(
                i,
            ) is None
    }

    /// What holds of the indices of every queue.
    pub proof fn lemma_indices(self)
        requires
            self.wf(),
        ensures
            0 <= self@.tail <= self@.head() <= u64::MAX,
            0 < self.slots(),
    {
    }

    /// Whether one more value can be given an index and a slot.
    pub closed spec fn has_room(self) -> bool {
        &&& self.head < u64::MAX
        &&& self.head - self.low(self.tail as int) < self.slots() || 2 * self.slots() <= usize::MAX
    }

    /// Whether one more value can be given an index and a slot. It can, until
    /// the indices or the sizes of rings are used up.
    fn can_push(&self) -> (room: bool)
        requires
            self.wf(),
        ensures
            room == self.has_room(),
    {
        let len: usize = self.chunk.capacity();
        let low: u64 = if self.tail < self.remote { self.tail } else { self.remote };
        self.head < u64::MAX && (self.head - low < len as u64 || len <= usize::MAX / 2)
    }

    /// Marks the values from `remote` on as being read by the remote side, or
    /// none.
    fn set_remote(&mut self, remote: u64)
        requires
            old(self).wf(),
            remote == u64::MAX || remote == old(self).tail,
        ensures
            final(self).wf(),
            final(self)@ == old(self)@,
            *final(self) == (Shared { remote, ..*old(self) }),
    {
        self.remote = remote;
        proof {
            let len = self.chunk@.len() as int;
            let tail = self.tail as int;
            assert forall|i: int|
                self.head <= i < self.low(tail) + len implies #[trigger] self.chunk.slot(i)
                is None by {
                if i >= old(self).low(tail) + len {
                    ring::lemma_step(i - len, len, len);
                    ring::lemma_step(i - len, 0, len);
                    assert(old(self).chunk.slot(i - len) is None);
                }
            }
            assert(self@ =~= old(self)@);
        }
    }

    /// Acquires a range of at most `limit` indices below `watermark`, so that
    /// their values can be removed.
    fn acquire_range(&mut self, remote: bool, limit: u64, watermark: u64) -> (r: Option<Range<u64>>)
        requires
            old(self).wf(),
        ensures
            match r {
                None => {
                    &&& old(self)@.claimed(limit as int, watermark as int) == 0
                    &&& final(self).wf()
                    &&& final(self)@ == old(self)@
                    &&& final(self).remote == if remote && limit != 0 {
                        u64::MAX
                    } else {
                        old(self).remote
                    }
                },
                Some(range) => {
                    &&& old(self)@.claimed(limit as int, watermark as int) > 0
                    &&& range.start == old(self).tail
                    &&& range.end == old(self).tail + old(self)@.claimed(
                        limit as int,
                        watermark as int,
                    )
                    &&& final(self).live(range.start as int)
                    &&& forall|i: int|
                        final(self).low(range.start as int) <= i < range.start
                            ==> #[trigger] final(self).chunk.slot(i) is None
                    &&& final(self).tail == range.end
                    &&& final(self).remote == if remote {
                        range.start
                    } else {
                        old(self).remote
                    }
                },
            },
            final(self).head == old(self).head,
            final(self).chunk == old(self).chunk,
    {
        if limit == 0 {
            return None;
        }
        let head: u64 = self.head;
        let tail: u64 = self.tail;
        if remote {
            self.set_remote(tail);
        }
        let watermark: u64 = if head < watermark { head } else { watermark };
        if watermark <= tail {
            if remote {
                self.set_remote(u64::MAX);
            }
            return None;
        }
        let reach: u64 = tail.saturating_add(limit);
        let target: u64 = if reach < watermark { reach } else { watermark };
        self.tail = target;
        Some(tail..target)
    }

    /// As [`Self::acquire_range`], for the producer: the remote mark stays.
    fn acquire_local_range(&mut self, limit: u64, watermark: u64) -> (r: Option<Range<u64>>)
        requires
            old(self).wf(),
        ensures
            match r {
                None => {
                    &&& old(self)@.claimed(limit as int, watermark as int) == 0
                    &&& *final(self) == *old(self)
                },
                Some(range) => {
                    &&& old(self)@.claimed(limit as int, watermark as int) > 0
                    &&& range.start == old(self).tail
                    &&& range.end == old(self).tail + old(self)@.claimed(
                        limit as int,
                        watermark as int,
                    )
                    &&& final(self).live(range.start as int)
                    &&& forall|i: int|
                        final(self).low(range.start as int) <= i < range.start
                            ==> #[trigger] final(self).chunk.slot(i) is None
                    &&& *final(self) == (Shared { tail: range.end, ..*old(self) })
                },
            },
    {
        self.acquire_range(false, limit, watermark)
    }

    /// As [`Self::acquire_range`], for the remote side.
    fn acquire_remote_range(&mut self, limit: u64, watermark: u64) -> (r: Option<Range<u64>>)
        requires
            old(self).wf(),
        ensures
            match r {
                None => {
                    &&& old(self)@.claimed(limit as int, watermark as int) == 0
                    &&& final(self).wf()
                    &&& final(self)@ == old(self)@
                    &&& final(self).remote == if limit != 0 {
                        u64::MAX
                    } else {
                        old(self).remote
                    }
                },
                Some(range) => {
                    &&& old(self)@.claimed(limit as int, watermark as int) > 0
                    &&& range.start == old(self).tail
                    &&& range.end == old(self).tail + old(self)@.claimed(
                        limit as int,
                        watermark as int,
                    )
                    &&& final(self).live(range.start as int)
                    &&& forall|i: int|
                        final(self).low(range.start as int) <= i < range.start
                            ==> #[trigger] final(self).chunk.slot(i) is None
                    &&& final(self).tail == range.end
                    &&& final(self).remote == range.start
                },
            },
            final(self).head == old(self).head,
            final(self).chunk == old(self).chunk,
    {
        self.acquire_range(true, limit, watermark)
    }

    /// Removes at most `limit` values below `watermark` on behalf of the remote
    /// side. `None` where there are none.
    pub fn consume_remote(&mut self, limit: u64, watermark: u64) -> (r: Option<Drain<T>>)
        requires
            old(self).wf(),
        ensures
            final(self).wf(),
            final(self).slots() == old(self).slots(),
            consumed(old(self)@, limit as int, watermark as int, final(self)@, r),
            r matches Some(drain) ==> drain.is_remote() && final(self).remote_active(),
            r is None && limit != 0 ==> !final(self).remote_active(),
            final(self).mark() == match r {
                Some(_) => Some(old(self)@.tail),
                None if limit == 0 => old(self).mark(),
                None => None,
            },
    {
        match self.acquire_remote_range(limit, watermark) {
            Some(range) => {
                proof {
                    assert(range.start < range.end <= self.head);
                }
                Some(self.take_range(range, true, Ghost(old(self)@)))
            },
            None => {
                proof {
                    assert(self@.advance(0) =~= self@);
                }
                None
            },
        }
    }

    /// Empties the slots of an acquired range.
    fn take_range(
        &mut self,
        range: Range<u64>,
        remote: bool,
        Ghost(before): Ghost<QueueState<T>>,
    ) -> (drain: Drain<T>)
        requires
            old(self).live(range.start as int),
            range.end == old(self).tail,
            range.start <= range.end,
            forall|i: int|
                old(self).low(range.start as int) <= i < range.start ==> #[trigger] old(
                    self,
                ).chunk.slot(i) is None,
            before.tail == range.start,
            before.items == Seq::new(
                (old(self).head - range.start) as nat,
                |k: int| old(self).chunk.slot(range.start + k)->0,
            ),
        ensures
            final(self).wf(),
            final(self).head == old(self).head,
            final(self).tail == old(self).tail,
            final(self).remote == old(self).remote,
            final(self).slots() == old(self).slots(),
            drain.is_remote() == remote,
            drain@ == before.items.take(range.end - range.start),
            final(self)@ == before.advance(range.end - range.start),
    {
        let ghost old_chunk = self.chunk;
        let ghost len = self.chunk@.len() as int;
        let ghost start = range.start as int;
        let ghost end = range.end as int;
        let (range1, range2) = range_indices(range, self.chunk.capacity());
        let mut items: VecDeque<T> = VecDeque::new();
        proof {
            ring::lemma_step(start, end - start, len);
            assert forall|j: int| range1.start <= j < range1.end implies #[trigger] old_chunk@[j]
                is Some by {
                ring::lemma_step(start, j - range1.start, len);
                assert(old_chunk.slot(start + (j - range1.start)) is Some);
            }
            assert forall|j: int| range2.start <= j < range2.end implies #[trigger] old_chunk@[j]
                is Some by {
                let k = range1.end - range1.start + j;
                ring::lemma_step(start, k, len);
                assert(old_chunk.slot(start + k) is Some);
            }
        }
        self.chunk.drain_range(range1, &mut items);
        self.chunk.drain_range(range2, &mut items);
        proof {
            assert forall|i: int|
                start <= i < start + len implies #[trigger] self.chunk.slot(i) == (if i < end {
                None
            } else {
                old_chunk.slot(i)
            }) by {
                ring::lemma_step(start, i - start, len);
            }
            assert forall|i: int|
                self.low(start) <= i < start implies #[trigger] self.chunk.slot(i) is None by {
                ring::lemma_step(i, 0, len);
                assert(old_chunk.slot(i) is None);
            }
            assert forall|i: int|
                self.head <= i < self.low(end) + len implies #[trigger] self.chunk.slot(i)
                is None by {
                if i >= start + len {
                    ring::lemma_step(i - len, len, len);
                    ring::lemma_step(i - len, 0, len);
                    assert(self.chunk.slot(i - len) is None);
                } else if i < self.low(start) + len {
                    assert(old_chunk.slot(i) is None);
                } else {
                    ring::lemma_step(i - len, len, len);
                    ring::lemma_step(i - len, 0, len);
                    assert(self.chunk.slot(i - len) is None);
                }
            }
            assert(items@ =~= before.items.take(end - start)) by {
                assert forall|k: int| 0 <= k < end - start implies items@[k] == old_chunk.slot(
                    start + k,
                )->0 by {
                    ring::lemma_step(start, k, len);
                }
            }
            assert(self@ =~= before.advance(end - start));
        }
        Drain { items, remote, _alive: None }
    }

    /// Drops the rest of a drain and takes back the mark of the remote side.
    fn finish(&mut self, drain: Drain<T>)
        requires
            old(self).wf(),
        ensures
            final(self).wf(),
            final(self)@ == old(self)@,
            final(self).slots() == old(self).slots(),
            final(self).remote_active() == (old(self).remote_active() && !drain.is_remote()),
            final(self).mark() == if drain.is_remote() {
                None
            } else {
                old(self).mark()
            },
    {
        if drain.remote {
            self.set_remote(u64::MAX);
        }
    }
}

/// The producer's side of the queue.
pub struct Local<T> {
    _marker: PhantomData<T>,
}

impl<T> Local<T> {
    /// Appends a value and returns its index.
    ///
    /// The ring is replaced by one of twice its size when it is full.
    pub fn push(&mut self, shared: &mut Shared<T>, value: T) -> (index: u64)
        requires
            old(shared).wf(),
            old(shared).has_room(),
        ensures
            final(shared).wf(),
            index == old(shared)@.head(),
            final(shared)@ == old(shared)@.push(value),
            final(shared).remote_active() == old(shared).remote_active(),
            final(shared).mark() == old(shared).mark(),
            final(shared).slots() == if old(shared)@.head() - old(shared).first_in_use() == old(
                shared,
            ).slots() {
                2 * old(shared).slots()
            } else {
                old(shared).slots()
            },
    {
        let head: u64 = shared.head;
        let tail: u64 = shared.tail;
        let remote: u64 = shared.remote;
        let low: u64 = if tail < remote { tail } else { remote };
        if head - low == shared.chunk.capacity() as u64 {
            self.expand(shared);
        }
        let ghost full = *shared;
        shared.chunk.put_logical(head, value);
        shared.head = head + 1;
        proof {
            let len = shared.chunk@.len() as int;
            ring::lemma_step(head as int, 0, len);
            assert forall|i: int|
                low <= i < low + len && i != head implies #[trigger] shared.chunk.slot(i)
                == full.chunk.slot(i) by {
                ring::lemma_step(i, 0, len);
                if i < head {
                    ring::lemma_distinct(i, head as int, len);
                } else {
                    ring::lemma_distinct(head as int, i, len);
                }
            }
            assert(shared@ =~= old(shared)@.push(value));
        }
        head
    }

    /// Removes at most `limit` values below `watermark` on behalf of the
    /// producer. `None` where there are none.
    pub fn consume_local(
        &mut self,
        shared: &mut Shared<T>,
        limit: u64,
        watermark: u64,
    ) -> (r: Option<Drain<T>>)
        requires
            old(shared).wf(),
        ensures
            final(shared).wf(),
            final(shared).slots() == old(shared).slots(),
            final(shared).remote_active() == old(shared).remote_active(),
            final(shared).mark() == old(shared).mark(),
            consumed(old(shared)@, limit as int, watermark as int, final(shared)@, r),
            r matches Some(drain) ==> !drain.is_remote(),
    {
        match shared.acquire_local_range(limit, watermark) {
            Some(range) => Some(shared.take_range(range, false, Ghost(old(shared)@))),
            None => {
                proof {
                    assert(shared@.advance(0) =~= shared@);
                }
                None
            },
        }
    }

    /// Moves the values to a ring of twice the size.
    fn expand(&mut self, shared: &mut Shared<T>)
        requires
            old(shared).wf(),
            2 * old(shared).slots() <= usize::MAX,
        ensures
            final(shared).wf(),
            final(shared)@ == old(shared)@,
            final(shared).head == old(shared).head,
            final(shared).tail == old(shared).tail,
            final(shared).remote == old(shared).remote,
            final(shared).slots() == 2 * old(shared).slots(),
    {
        let len: usize = shared.chunk.capacity();
        let new_len: usize = len * 2;
        let mut chunk: Chunk<T> = Chunk::new(new_len);
        proof {
            div_mod::lemma_mod_multiples_basic(2, len as int);
        }
        self.copy_data(shared, &mut chunk);
        shared.chunk = chunk;
        proof {
            let ring_len = shared.chunk@.len() as int;
            let tail = shared.tail as int;
            let head = shared.head as int;
            assert forall|i: int|
                (shared.low(tail) <= i < tail) || (head <= i < shared.low(tail)
                    + ring_len) implies #[trigger] shared.chunk.slot(i) is None by {
                ring::lemma_step(i, 0, ring_len);
                assert forall|k: int| tail <= k < head implies #[trigger] (k % ring_len) != i
                    % ring_len by {
                    if i < k {
                        ring::lemma_distinct(i, k, ring_len);
                    } else {
                        ring::lemma_distinct(k, i, ring_len);
                    }
                }
                assert(!ring::covers(tail, head, ring_len, i % ring_len));
            }
            assert(shared@ =~= old(shared)@);
        }
    }

    /// Moves the values to a ring whose length is a multiple of that of the
    /// present one.
    fn copy_data(&mut self, shared: &mut Shared<T>, dest: &mut Chunk<T>)
        requires
            old(shared).wf(),
            old(dest)@.len() > 0,
            old(dest)@.len() % old(shared).chunk@.len() == 0,
        ensures
            final(dest).received(
                *old(dest),
                old(shared).chunk,
                old(shared).tail as int,
                old(shared).head as int,
            ),
            final(shared).chunk.vacated(
                old(shared).chunk,
                old(shared).tail as int,
                old(shared).head as int,
            ),
            final(shared).head == old(shared).head,
            final(shared).tail == old(shared).tail,
            final(shared).remote == old(shared).remote,
    {
        let src_len: usize = shared.chunk.capacity();
        let dst_len: usize = dest.capacity();
        let head: u64 = shared.head;
        let tail: u64 = shared.tail;
        if head == tail {
            return;
        }
        let head_src: usize = (head % src_len as u64) as usize;
        let tail_src: usize = (tail % src_len as u64) as usize;
        let head_dst: usize = (head % dst_len as u64) as usize;
        let tail_dst: usize = (tail % dst_len as u64) as usize;
        proof {
            ring::lemma_step(tail as int, head - tail, src_len as int);
            ring::lemma_multiple(tail as int, src_len as int, dst_len as int);
            ring::lemma_step(tail as int, head - tail, dst_len as int);
        }
        if tail_src < head_src {
            // The values are contiguous, so one run is enough.
            dest.move_run(
                &mut shared.chunk,
                Ghost(tail as int),
                tail_dst,
                tail_src,
                head_src - tail_src,
            );
        } else {
            let first: usize = src_len - tail_src;
            let ghost (d0, s0) = (*dest, shared.chunk);
            dest.move_run(&mut shared.chunk, Ghost(tail as int), tail_dst, tail_src, first);
            let ghost (d1, s1) = (*dest, shared.chunk);
            proof {
                ring::lemma_step(tail as int, first as int, src_len as int);
                ring::lemma_step(tail as int, first as int, dst_len as int);
            }
            // Not contiguous in the source, but perhaps in the destination.
            let rest: usize = if tail_dst < head_dst {
                tail_dst + first
            } else {
                0
            };
            dest.move_run(&mut shared.chunk, Ghost(tail + first), rest, 0, head_src);
            proof {
                Chunk::lemma_moves_join(
                    (d0, d1, *dest),
                    (s0, s1, shared.chunk),
                    tail as int,
                    tail + first,
                    head as int,
                );
            }
        }
    }
}

/// A queue with both its sides.
pub struct LocalQueue<T> {
    shared: Shared<T>,
    local: Local<T>,
    /// A pointer that is shared with the drains of the remote side that are still
    /// there.
    drains: Arc<()>,
}

impl<T> View for LocalQueue<T> {
    type V = QueueState<T>;

    closed spec fn view(&self) -> QueueState<T> {
        self.shared@
    }
}

impl<T> LocalQueue<T> {
    /// The queue is sound.
    pub closed spec fn wf(self) -> bool {
        self.shared.wf()
    }

    /// The number of slots.
    pub closed spec fn slots(self) -> int {
        self.shared.slots()
    }

    /// The first index that the remote side may still be reading, if there is one.
    pub closed spec fn mark(self) -> Option<int> {
        self.shared.mark()
    }

    /// The pointer that is shared with the drains of the remote side that are still
    /// there.
    pub closed spec fn drains(self) -> Arc<()> {
        self.drains
    }

    /// The first index whose slot may still be in use: a slot whose value the
    /// remote side is reading is not used again.
    pub open spec fn first_in_use(self) -> int {
        match self.mark() {
            Some(mark) if mark <= self@.tail => mark,
            _ => self@.tail,
        }
    }

    /// Whether all slots may still be in use.
    pub open spec fn is_full(self) -> bool {
        self@.head() - self.first_in_use() == self.slots()
    }

    /// Whether one more value can be given an index and a slot.
    pub open spec fn has_room(self) -> bool {
        &&& self@.head() < u64::MAX
        &&& self.is_full() ==> 2 * self.slots() <= usize::MAX
    }

    /// What holds of the indices of every queue.
    pub proof fn lemma_indices(self)
        requires
            self.wf(),
        ensures
            0 <= self@.tail <= self@.head() <= u64::MAX,
            0 <= self.first_in_use(),
            self@.head() - self.first_in_use() <= self.slots(),
    {
        self.shared.lemma_indices();
    }

    /// Creates an empty queue with `capacity` slots.
    pub fn with_capacity(capacity: usize) -> (queue: Self)
        requires
            capacity != 0,
        ensures
            queue.wf(),
            queue@ == QueueState::<T>::empty(),
            queue.slots() == capacity,
            queue.mark() is None,
            queue.has_room(),
    {
        let chunk: Chunk<T> = Chunk::new(capacity);
        let shared = Shared { chunk, head: 0, tail: 0, remote: u64::MAX };
        proof {
            assert forall|i: int| 0 <= i < capacity implies #[trigger] chunk.slot(i) is None by {
                ring::lemma_step(i, 0, capacity as int);
            }
            assert(shared@ =~= QueueState::<T>::empty());
        }
        Self { shared, local: Local { _marker: PhantomData }, drains: Arc::new(()) }
    }

    /// A watermark that all values now in the queue are below.
    pub fn watermark(&self) -> (watermark: u64)
        requires
            self.wf(),
        ensures
            watermark == self@.head(),
    {
        self.shared.head
    }

    /// Whether [`push_local`](Self::push_local) has an index and a slot left.
    pub fn can_push(&self) -> (room: bool)
        requires
            self.wf(),
        ensures
            room == self.has_room(),
    {
        self.shared.can_push()
    }

    /// Takes note of how many there are that share the pointer to drains of the
    /// remote side, this one included: where no such drain is left, that side reads
    /// nothing any more.
    pub fn note_drains(&mut self, sharers: usize)
        requires
            old(self).wf(),
        ensures
            final(self).wf(),
            final(self)@ == old(self)@,
            final(self).slots() == old(self).slots(),
            final(self).drains() == old(self).drains(),
            final(self).mark() == if sharers < 2 {
                None
            } else {
                old(self).mark()
            },
    {
        if sharers < 2 {
            self.shared.set_remote(u64::MAX);
        }
    }

    /// Appends a value and returns its index.
    ///
    /// The slots of remote drains that have been dropped are returned first. Whether
    /// there are others depends on the rest of the program. The number of slots is
    /// doubled when all are still taken.
    pub fn push_local(&mut self, value: T) -> (index: u64)
        requires
            old(self).wf(),
            old(self).has_room(),
        ensures
            final(self).wf(),
            index == old(self)@.head(),
            final(self)@ == old(self)@.push(value),
            final(self).drains() == old(self).drains(),
            final(self).mark() == old(self).mark() || final(self).mark() is None,
            exists|sharers: usize|
                {
                    &&& #[trigger] refcnt::counted(old(self).drains(), sharers)
                    &&& final(self).mark() == if sharers < 2 {
                        None
                    } else {
                        old(self).mark()
                    }
                },
            final(self).slots() == if old(self)@.head() - final(self).first_in_use() == old(
                self,
            ).slots() {
                2 * old(self).slots()
            } else {
                old(self).slots()
            },
    {
        let sharers: usize = refcnt::shares(&self.drains);
        self.note_drains(sharers);
        assert(refcnt::counted(old(self).drains(), sharers));
        self.local.push(&mut self.shared, value)
    }

    /// Removes at most `limit` values below `watermark`, for the producer.
    pub fn consume_local(&mut self, limit: u64, watermark: u64) -> (r: Option<Drain<T>>)
        requires
            old(self).wf(),
        ensures
            final(self).wf(),
            consumed(old(self)@, limit as int, watermark as int, final(self)@, r),
            r matches Some(drain) ==> !drain.is_remote(),
            final(self).slots() == old(self).slots(),
            final(self).drains() == old(self).drains(),
            final(self).mark() == old(self).mark(),
    {
        self.local.consume_local(&mut self.shared, limit, watermark)
    }

    /// Removes at most `limit` values below `watermark`, for the remote side.
    ///
    /// The slots of the values stay out of use until the drain is dropped or
    /// [finished](Self::finish).
    pub fn consume_remote(&mut self, limit: u64, watermark: u64) -> (r: Option<Drain<T>>)
        requires
            old(self).wf(),
        ensures
            final(self).wf(),
            consumed(old(self)@, limit as int, watermark as int, final(self)@, r),
            r matches Some(drain) ==> drain.is_remote(),
            r matches Some(drain) ==> drain.presence() == Some(old(self).drains()),
            final(self).slots() == old(self).slots(),
            final(self).drains() == old(self).drains(),
            final(self).mark() == match r {
                Some(_) => Some(old(self)@.tail),
                None if limit == 0 => old(self).mark(),
                None => None,
            },
    {
        match self.shared.consume_remote(limit, watermark) {
            Some(drain) => Some(drain.attach(self.drains.clone())),
            None => None,
        }
    }

    /// Drops the rest of a drain and returns its slots: where it was the remote
    /// side's, that side reads nothing any more.
    pub fn finish(&mut self, drain: Drain<T>)
        requires
            old(self).wf(),
        ensures
            final(self).wf(),
            final(self)@ == old(self)@,
            final(self).slots() == old(self).slots(),
            final(self).drains() == old(self).drains(),
            final(self).mark() == if drain.is_remote() {
                None
            } else {
                old(self).mark()
            },
    {
        self.shared.finish(drain)
    }
}

/// What removing at most `limit` values below `watermark` does.
pub open spec fn consumed<T>(
    before: QueueState<T>,
    limit: int,
    watermark: int,
    after: QueueState<T>,
    r: Option<Drain<T>>,
) -> bool {
    let n = before.claimed(limit, watermark);
    &&& after == before.advance(n)
    &&& match r {
        Some(drain) => n > 0 && drain@ == before.items.take(n),
        None => n == 0,
    }
}

/// Values that have been taken out of a queue.
pub struct Drain<T> {
    items: VecDeque<T>,
    remote: bool,
    /// Shows that this is there, to a queue that looks. It goes when this is
    /// dropped.
    _alive: Option<Arc<()>>,
}

impl<T> View for Drain<T> {
    type V = Seq<T>;

    /// The values not yet handed out.
    closed spec fn view(&self) -> Seq<T> {
        self.items@
    }
}

impl<T> Drain<T> {
    /// The pointer by which this shows that it is there, if any queue looks.
    pub closed spec fn presence(self) -> Option<Arc<()>> {
        self._alive
    }

    /// Whether the remote side has taken the values out.
    pub closed spec fn is_remote(self) -> bool {
        self.remote
    }

    /// Hands out the first value.
    pub fn next(&mut self) -> (value: Option<T>)
        ensures
            final(self).presence() == old(self).presence(),
            final(self).is_remote() == old(self).is_remote(),
            match value {
                Some(value) => {
                    &&& old(self)@.len() > 0
                    &&& value == old(self)@[0]
                    &&& final(self)@ == old(self)@.drop_first()
                },
                None => old(self)@.len() == 0 && final(self)@ == old(self)@,
            },
    {
        let value = self.items.pop_front();
        assert(value is Some ==> self@ =~= old(self)@.drop_first());
        value
    }

    /// Lets a queue see that this is there, as long as it is.
    fn attach(self, alive: Arc<()>) -> (drain: Self)
        ensures
            drain@ == self@,
            drain.is_remote() == self.is_remote(),
            drain.presence() == Some(alive),
    {
        Self { items: self.items, remote: self.remote, _alive: Some(alive) }
    }

    /// Moves all values left to the end of `out`.
    pub fn append_to(&mut self, out: &mut Vec<T>)
        ensures
            final(self).is_remote() == old(self).is_remote(),
            final(self)@ == Seq::<T>::empty(),
            final(out)@ == old(out)@ + old(self)@,
    {
        loop
            invariant_except_break
                self.is_remote() == old(self).is_remote(),
                out@ + self@ == old(out)@ + old(self)@,
            ensures
                self.is_remote() == old(self).is_remote(),
                self@ == Seq::<T>::empty(),
                out@ == old(out)@ + old(self)@,
            decreases self@.len(),
        {
            match self.next() {
                Some(value) => {
                    out.push(value);
                    assert(out@ + self@ =~= old(out)@ + old(self)@);
                },
                None => {
                    assert(out@ =~= old(out)@ + old(self)@);
                    break;
                },
            }
        }
    }
}

} // verus!
