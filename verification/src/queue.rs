//! A queue of wakers in linked blocks.
//!
//! It grows a block at a time and never moves what is in it. Blocks that have
//! been emptied are given back by the producer.

use std::ops::Range;
use std::task::Waker;

use vstd::prelude::*;

use crate::fifo::QueueState;
use crate::masswake::notify;
use crate::masswake::wakeups;

verus! {

/// The number of values in a block.
pub const BLOCK_LEN: u64 = 1024;

/// How often the producer finds nothing to wake before it gives blocks back
/// nevertheless.
pub const CLEANUP_INTERVAL: u32 = 1024;

/// What the queue is: its values, the index up to which they are to be woken,
/// and the index at which its first block starts (the head where there is no
/// block).
#[verifier::ext_equal]
pub struct BlocksView<T> {
    pub queue: QueueState<T>,
    pub watermark: int,
    pub oldest: int,
}

impl<T> BlocksView<T> {
    /// The queue that nothing has been put into yet.
    pub open spec fn empty() -> Self {
        BlocksView { queue: QueueState::empty(), watermark: 0, oldest: 0 }
    }

    /// The queue after `value` is put into it.
    pub open spec fn push(self, value: T) -> Self {
        BlocksView { queue: self.queue.push(value), ..self }
    }

    /// How many values are taken out to be woken, given that at most `limit`
    /// are asked for.
    pub open spec fn claimed(self, limit: int) -> int {
        self.queue.claimed(limit, self.watermark)
    }

    /// The values that are taken out to be woken.
    pub open spec fn taken(self, limit: int) -> Seq<T> {
        self.queue.items.take(self.claimed(limit))
    }

    /// The queue after they are taken out.
    pub open spec fn take(self, limit: int) -> Self {
        BlocksView { queue: self.queue.advance(self.claimed(limit)), ..self }
    }

    /// The queue after all emptied blocks are given back: the first block, if
    /// there is one, is that of the first value.
    pub open spec fn trim(self) -> Self {
        BlocksView { oldest: self.queue.tail - self.queue.tail % BLOCK_LEN as int, ..self }
    }
}

/// A run of slots, for the values with the indices from `base` on.
struct Block<T> {
    base: u64,
    data: Vec<Option<T>>,
}

impl<T> Block<T> {
    /// Creates a block of empty slots.
    fn new(base: u64) -> (block: Self)
        ensures
            block.base == base,
            block.data@.len() == BLOCK_LEN,
            forall|k: int| 0 <= k < BLOCK_LEN ==> #[trigger] block.data@[k] is None,
    {
        let mut data: Vec<Option<T>> = Vec::with_capacity(1024);
        let mut filled: u64 = 0;
        while filled < BLOCK_LEN
            invariant
                filled <= BLOCK_LEN,
                data@.len() == filled,
                forall|k: int| 0 <= k < filled ==> #[trigger] data@[k] is None,
            decreases BLOCK_LEN - filled,
        {
            data.push(None);
            filled += 1;
        }
        Self { base, data }
    }

    /// The slot of the value with the given index.
    fn slot_for_index(&self, index: u64) -> (slot: usize)
        requires
            self.base <= index,
            index - self.base < BLOCK_LEN,
        ensures
            slot == index - self.base,
    {
        (index - self.base) as usize
    }

    /// Puts a value into its slot.
    fn write(&mut self, index: u64, value: T)
        requires
            old(self).data@.len() == BLOCK_LEN,
            old(self).base <= index,
            index - old(self).base < BLOCK_LEN,
        ensures
            final(self).base == old(self).base,
            final(self).data@ == old(self).data@.update(index - old(self).base, Some(value)),
    {
        let slot: usize = self.slot_for_index(index);
        self.data[slot] = Some(value);
    }

    /// Takes a value out of its slot.
    fn read(&mut self, index: u64) -> (value: Option<T>)
        requires
            old(self).data@.len() == BLOCK_LEN,
            old(self).base <= index,
            index - old(self).base < BLOCK_LEN,
        ensures
            final(self).base == old(self).base,
            value == old(self).data@[index - old(self).base],
            final(self).data@ == old(self).data@.update(index - old(self).base, None),
    {
        let slot: usize = self.slot_for_index(index);
        let mut value: Option<T> = None;
        std::mem::swap(&mut self.data[slot], &mut value);
        value
    }
}

/// The slot of the value with the given index, in consecutive blocks.
spec fn cell<T>(blocks: Seq<Block<T>>, index: int) -> Option<T> {
    let offset = index - blocks[0].base;
    blocks[offset / BLOCK_LEN as int].data@[offset % BLOCK_LEN as int]
}

/// Consecutive blocks that start with that of `live` and cover all up to `head`,
/// of which `live..head` is filled.
spec fn sound<T>(blocks: Seq<Block<T>>, live: int, head: int) -> bool {
    &&& 0 <= live <= head <= u64::MAX
    &&& forall|k: int|
        0 <= k < blocks.len() ==> {
            &&& (#[trigger] blocks[k]).data@.len() == BLOCK_LEN
            &&& blocks[k].base == blocks[0].base + k * BLOCK_LEN
        }
    &&& if blocks.len() == 0 {
        live == head && head % BLOCK_LEN as int == 0
    } else {
        &&& blocks[0].base % BLOCK_LEN == 0
        &&& blocks[0].base <= live
        &&& blocks[0].base + (blocks.len() - 1) * BLOCK_LEN <= head <= blocks[0].base
            + blocks.len() * BLOCK_LEN
        &&& forall|i: int| live <= i < head ==> #[trigger] cell(blocks, i) is Some
    }
}

/// The part of the queue that both sides reach.
pub struct Shared<T> {
    blocks: Vec<Block<T>>,
    head: u64,
    tail: u64,
    watermark: u64,
}

impl<T> View for Shared<T> {
    type V = BlocksView<T>;

    closed spec fn view(&self) -> BlocksView<T> {
        BlocksView {
            queue: QueueState {
                items: Seq::new(
                    (self.head - self.tail) as nat,
                    |k: int| cell(self.blocks@, self.tail + k)->0,
                ),
                tail: self.tail as int,
            },
            watermark: self.watermark as int,
            oldest: if self.blocks@.len() == 0 {
                self.head as int
            } else {
                self.blocks@[0].base as int
            },
        }
    }
}

impl<T> Shared<T> {
    /// The blocks are sound, and the watermark has not run ahead of the queue.
    pub closed spec fn wf(self) -> bool {
        &&& sound(self.blocks@, self.tail as int, self.head as int)
        &&& self.watermark <= self.head
    }

    /// What holds of the indices of every queue.
    pub proof fn lemma_indices(self)
        requires
            self.wf(),
        ensures
            0 <= self@.oldest <= self@.queue.tail <= self@.queue.head() <= u64::MAX,
            0 <= self@.watermark <= self@.queue.head(),
    {
    }

    /// Creates an empty queue.
    pub fn new() -> (shared: Self)
        ensures
            shared.wf(),
            shared@ == BlocksView::<T>::empty(),
    {
        let shared = Self { blocks: Vec::new(), head: 0, tail: 0, watermark: 0 };
        assert(shared@ =~= BlocksView::<T>::empty());
        shared
    }

    /// Whether there is an index left for one more value.
    pub fn can_push(&self) -> (can: bool)
        requires
            self.wf(),
        ensures
            can == (self@.queue.head() < u64::MAX),
    {
        self.head < u64::MAX
    }

    /// Moves the watermark up to include everything now in the queue.
    pub fn set_watermark(&mut self) -> (watermark: u64)
        requires
            old(self).wf(),
        ensures
            final(self).wf(),
            watermark == old(self)@.queue.head(),
            final(self)@ == (BlocksView { watermark: watermark as int, ..old(self)@ }),
    {
        self.watermark = self.head;
        self.head
    }

    /// Acquires a range of values so that they can be removed from the queue.
    ///
    /// Gives the indices, or the current tail where there are none.
    fn acquire_range(&mut self, limit: u64) -> (r: Result<Range<u64>, u64>)
        requires
            old(self).wf(),
        ensures
            ({
                let n = old(self)@.claimed(limit as int);
                match r {
                    Ok(range) => {
                        &&& n > 0
                        &&& range.start == old(self).tail
                        &&& range.end == old(self).tail + n
                        &&& *final(self) == (Shared { tail: range.end, ..*old(self) })
                    },
                    Err(tail) => {
                        &&& n == 0
                        &&& tail == old(self).tail
                        &&& *final(self) == *old(self)
                    },
                }
            }),
    {
        let tail: u64 = self.tail;
        if limit == 0 || tail >= self.watermark {
            return Err(tail);
        }
        let available: u64 = self.watermark - tail;
        let end: u64 = if limit < available {
            tail + limit
        } else {
            self.watermark
        };
        self.tail = end;
        Ok(tail..end)
    }

    /// Takes the values of an acquired range out of their slots.
    fn drain(&mut self, range: Range<u64>) -> (out: Vec<T>)
        requires
            range.start < range.end,
            range.end == old(self).tail,
            sound(old(self).blocks@, range.start as int, old(self).head as int),
            old(self).tail <= old(self).head,
            old(self).watermark <= old(self).head,
        ensures
            final(self).wf(),
            final(self).head == old(self).head,
            final(self).tail == old(self).tail,
            final(self).watermark == old(self).watermark,
            final(self).blocks@.len() == old(self).blocks@.len(),
            final(self)@.oldest == old(self)@.oldest,
            final(self)@.queue == old(self)@.queue,
            out@ == Seq::new(
                (range.end - range.start) as nat,
                |k: int| cell(old(self).blocks@, range.start + k)->0,
            ),
    {
        let mut out: Vec<T> = Vec::new();
        let count: usize = self.blocks.len();
        let mut index: u64 = range.start;
        let mut at: usize = 0;
        while index < range.end
            invariant
                range.start <= index <= range.end,
                range.end == self.tail == old(self).tail,
                self.head == old(self).head,
                self.watermark == old(self).watermark,
                self.tail <= self.head,
                sound(self.blocks@, index as int, self.head as int),
                count == self.blocks@.len() == old(self).blocks@.len(),
                count > 0,
                self.blocks@[0].base == old(self).blocks@[0].base,
                at < self.blocks@.len(),
                self.blocks@[at as int].base <= index,
                forall|i: int|
                    index <= i < self.head ==> #[trigger] cell(self.blocks@, i) == cell(
                        old(self).blocks@,
                        i,
                    ),
                out@ == Seq::new(
                    (index - range.start) as nat,
                    |k: int| cell(old(self).blocks@, range.start + k)->0,
                ),
            decreases range.end - index,
        {
            while index - self.blocks[at].base >= BLOCK_LEN
                invariant
                    sound(self.blocks@, index as int, self.head as int),
                    index < self.head,
                    at < count == self.blocks@.len(),
                    self.blocks@[at as int].base <= index,
                decreases self.blocks@.len() - at,
            {
                at += 1;
            }
            let ghost before = self.blocks@;
            proof {
                assert(cell(before, index as int) is Some);
                let offset = index - before[0].base;
                assert(offset / BLOCK_LEN as int == at);
                assert(offset % BLOCK_LEN as int == index - before[at as int].base);
            }
            let value = self.blocks[at].read(index);
            if let Some(value) = value {
                out.push(value);
            }
            proof {
                assert forall|i: int| index < i < self.head implies #[trigger] cell(self.blocks@, i)
                    == cell(before, i) by {
                    let offset = i - before[0].base;
                    let block = offset / BLOCK_LEN as int;
                    assert(0 <= block < before.len());
                    assert(self.blocks@[block].base == before[block].base);
                }
            }
            index += 1;
        }
        proof {
            assert(self@.queue.items =~= old(self)@.queue.items);
        }
        out
    }

    /// Takes out at most `limit` values below the watermark.
    pub fn take_remote(&mut self, limit: u64) -> (out: Vec<T>)
        requires
            old(self).wf(),
        ensures
            final(self).wf(),
            out@ == old(self)@.taken(limit as int),
            final(self)@ == old(self)@.take(limit as int),
    {
        match self.acquire_range(limit) {
            Ok(range) => {
                let ghost claimed = *self;
                let out = self.drain(range);
                proof {
                    assert(out@ =~= old(self)@.taken(limit as int));
                    assert(claimed@.queue =~= old(self)@.take(limit as int).queue);
                    assert(self@ =~= old(self)@.take(limit as int));
                }
                out
            },
            Err(_) => {
                let out: Vec<T> = Vec::new();
                proof {
                    assert(out@ =~= old(self)@.taken(limit as int));
                    assert(self@ =~= old(self)@.take(limit as int));
                }
                out
            },
        }
    }
}

/// The part of the queue that the producer keeps to itself.
pub struct Local {
    next_cleanup: u32,
}

impl Local {
    /// How often nothing is found to wake before blocks are given back.
    pub closed spec fn next_cleanup(self) -> int {
        self.next_cleanup as int
    }

    /// The next cleanup is at most an interval ahead.
    pub closed spec fn wf(self) -> bool {
        0 < self.next_cleanup <= CLEANUP_INTERVAL
    }

    /// What holds of every producer.
    pub proof fn lemma_interval(self)
        requires
            self.wf(),
        ensures
            0 < self.next_cleanup() <= CLEANUP_INTERVAL,
    {
    }

    /// Creates the part of the producer.
    pub fn new() -> (local: Self)
        ensures
            local.wf(),
            local.next_cleanup() == CLEANUP_INTERVAL,
    {
        Self { next_cleanup: CLEANUP_INTERVAL }
    }

    /// Puts a value into the queue.
    pub fn push<T>(&mut self, shared: &mut Shared<T>, value: T)
        requires
            old(self).wf(),
            old(shared).wf(),
            old(shared)@.queue.head() < u64::MAX,
        ensures
            *final(self) == *old(self),
            final(shared).wf(),
            final(shared)@ == old(shared)@.push(value),
    {
        let head: u64 = shared.head;
        let block: usize = match self.block_for_index(shared, head) {
            Some(block) => block,
            None => {
                self.push_block(shared, head);
                shared.blocks.len() - 1
            },
        };
        let ghost before = shared.blocks@;
        let ghost mid = *shared;
        proof {
            assert(before[block as int].base == before[0].base + block * BLOCK_LEN);
        }
        shared.blocks[block].write(head, value);
        shared.head = head + 1;
        proof {
            let blocks = shared.blocks@;
            assert(blocks[0].base == before[0].base);
            assert forall|i: int| shared.tail <= i < head implies #[trigger] cell(blocks, i)
                == cell(before, i) by {
                let offset = i - before[0].base;
                let k = offset / BLOCK_LEN as int;
                assert(0 <= k <= block);
            }
            assert(cell(blocks, head as int) == Some(value)) by {
                let offset = head - before[0].base;
                assert(offset / BLOCK_LEN as int == block);
                assert(offset % BLOCK_LEN as int == head - before[block as int].base);
            }
            assert forall|i: int| shared.tail <= i < head + 1 implies #[trigger] cell(
                blocks,
                i,
            ) is Some by {
                if i < head {
                    assert(cell(before, i) is Some);
                }
            }
            assert(sound(blocks, shared.tail as int, head + 1));
            assert(shared@.queue.items =~= old(shared)@.queue.items.push(value));
            assert(shared@ =~= old(shared)@.push(value));
        }
    }

    /// Takes out at most `limit` values below the watermark, and gives emptied
    /// blocks back: always where there were any values, else once in a while.
    pub fn take_local<T>(&mut self, shared: &mut Shared<T>, limit: u64) -> (out: Vec<T>)
        requires
            old(self).wf(),
            old(shared).wf(),
        ensures
            final(self).wf(),
            final(shared).wf(),
            out@ == old(shared)@.taken(limit as int),
            ({
                let left = old(shared)@.take(limit as int);
                if old(shared)@.claimed(limit as int) > 0 || old(self).next_cleanup() == 1 {
                    &&& final(shared)@ == left.trim()
                    &&& final(self).next_cleanup() == CLEANUP_INTERVAL
                } else {
                    &&& final(shared)@ == left
                    &&& final(self).next_cleanup() == old(self).next_cleanup() - 1
                }
            }),
    {
        match shared.acquire_range(limit) {
            Ok(range) => {
                let ghost claimed = *shared;
                let out = shared.drain(range);
                proof {
                    assert(out@ =~= old(shared)@.taken(limit as int));
                    assert(claimed@.queue =~= old(shared)@.take(limit as int).queue);
                    assert(shared@ =~= old(shared)@.take(limit as int));
                }
                self.pop_blocks(shared);
                out
            },
            Err(_) => {
                let out: Vec<T> = Vec::new();
                proof {
                    assert(out@ =~= old(shared)@.taken(limit as int));
                    assert(shared@ =~= old(shared)@.take(limit as int));
                }
                self.next_cleanup = self.next_cleanup - 1;
                if self.next_cleanup == 0 {
                    self.pop_blocks(shared);
                }
                out
            },
        }
    }

    /// Gives all emptied blocks back.
    fn pop_blocks<T>(&mut self, shared: &mut Shared<T>)
        requires
            old(shared).wf(),
        ensures
            final(self).next_cleanup == CLEANUP_INTERVAL,
            final(shared).wf(),
            final(shared)@ == old(shared)@.trim(),
    {
        let tail: u64 = shared.tail;
        loop
            invariant
                shared.wf(),
                tail == shared.tail == old(shared).tail,
                shared.head == old(shared).head,
                shared.watermark == old(shared).watermark,
                shared@.queue == old(shared)@.queue,
            ensures
                shared.blocks@.len() > 0 ==> tail - shared.blocks@[0].base < BLOCK_LEN,
            decreases shared.blocks@.len(),
        {
            if shared.blocks.len() == 0 || tail - shared.blocks[0].base < BLOCK_LEN {
                break;
            }
            let ghost before = shared.blocks@;
            shared.blocks.remove(0);
            proof {
                let blocks = shared.blocks@;
                assert forall|k: int| 0 <= k < blocks.len() implies (#[trigger] blocks[k])
                    == before[k + 1] by {}
                if blocks.len() > 0 {
                    assert(before[1].base == before[0].base + BLOCK_LEN);
                    assert forall|k: int| 0 <= k < blocks.len() implies (
                    #[trigger] blocks[k]).base == blocks[0].base + k * BLOCK_LEN by {
                        assert(before[k + 1].base == before[0].base + (k + 1) * BLOCK_LEN);
                    }
                    assert forall|i: int| tail <= i < shared.head implies #[trigger] cell(blocks, i)
                        == cell(before, i) by {
                        let offset = i - blocks[0].base;
                        assert(blocks[offset / BLOCK_LEN as int] == before[offset / BLOCK_LEN as int
                            + 1]);
                    }
                    assert forall|i: int| tail <= i < shared.head implies #[trigger] cell(
                        blocks,
                        i,
                    ) is Some by {
                        assert(cell(before, i) is Some);
                    }
                }
                assert(shared@.queue.items =~= old(shared)@.queue.items);
            }
        }
        self.next_cleanup = CLEANUP_INTERVAL;
        assert(shared@ =~= old(shared)@.trim());
    }

    /// Appends a block for the values from `base` on.
    fn push_block<T>(&mut self, shared: &mut Shared<T>, base: u64)
        requires
            old(shared).wf(),
            base == old(shared).head,
            base % BLOCK_LEN == 0,
            old(shared).blocks@.len() > 0 ==> base == old(shared).blocks@[0].base
                + old(shared).blocks@.len() * BLOCK_LEN,
        ensures
            *final(self) == *old(self),
            final(shared).wf(),
            final(shared)@ == old(shared)@,
            final(shared).head == old(shared).head,
            final(shared).tail == old(shared).tail,
            final(shared).watermark == old(shared).watermark,
            final(shared).blocks@.len() == old(shared).blocks@.len() + 1,
            final(shared).blocks@.last().base == base,
    {
        let ghost before = shared.blocks@;
        shared.blocks.push(Block::new(base));
        proof {
            let blocks = shared.blocks@;
            assert forall|k: int| 0 <= k < before.len() implies #[trigger] blocks[k]
                == before[k] by {}
            assert forall|i: int| shared.tail <= i < shared.head implies #[trigger] cell(blocks, i)
                == cell(before, i) by {
                let k = (i - before[0].base) / BLOCK_LEN as int;
                assert(0 <= k < before.len());
            }
            assert forall|i: int| shared.tail <= i < shared.head implies #[trigger] cell(
                blocks,
                i,
            ) is Some by {
                assert(cell(before, i) is Some);
            }
            assert(shared@.queue.items =~= old(shared)@.queue.items);
        }
    }

    /// The last block, where it has a slot for the given index.
    fn block_for_index<T>(&self, shared: &Shared<T>, index: u64) -> (block: Option<usize>)
        requires
            shared.wf(),
            index == shared.head,
        ensures
            match block {
                Some(block) => {
                    &&& block == shared.blocks@.len() - 1
                    &&& index - shared.blocks@[block as int].base < BLOCK_LEN
                },
                None => {
                    &&& index % BLOCK_LEN == 0
                    &&& shared.blocks@.len() > 0 ==> index == shared.blocks@[0].base
                        + shared.blocks@.len() * BLOCK_LEN
                },
            },
    {
        if shared.blocks.len() == 0 {
            return None;
        }
        let last: usize = shared.blocks.len() - 1;
        proof {
            assert(shared.blocks@[last as int].base == shared.blocks@[0].base + last * BLOCK_LEN);
        }
        if index - shared.blocks[last].base < BLOCK_LEN {
            Some(last)
        } else {
            None
        }
    }
}

/// What is put into the queue after the watermark was set is not woken before it
/// is set again, however often tasks are woken meanwhile. So no task is starved by
/// later ones.
pub proof fn lemma_later_not_taken<T>(view: BlocksView<T>, later: Seq<T>, limit: int)
    requires
        0 <= limit,
        view.watermark <= view.queue.head(),
    ensures
        ({
            let queue = QueueState { items: view.queue.items + later, ..view.queue };
            BlocksView { queue, ..view }.taken(limit) == view.taken(limit)
        }),
{
    let queue = QueueState { items: view.queue.items + later, ..view.queue };
    assert(BlocksView { queue, ..view }.taken(limit) =~= view.taken(limit));
}

/// Waking tasks in two goes wakes the same ones, in the same order, as waking them
/// at once; whether blocks are given back in between makes no difference.
pub proof fn lemma_taken_in_two<T>(view: BlocksView<T>, first: int, second: int)
    requires
        0 <= first,
        0 <= second,
    ensures
        view.taken(first) + view.take(first).taken(second) == view.taken(first + second),
        view.take(first).take(second) == view.take(first + second),
        view.take(first).trim().taken(second) == view.take(first).taken(second),
{
    assert(view.taken(first) + view.take(first).taken(second) =~= view.taken(first + second));
    assert(view.take(first).take(second).queue =~= view.take(first + second).queue);
}

/// A queue of wakers, with a watermark up to which they are woken.
pub struct WakerQueue {
    local: Local,
    shared: Shared<Waker>,
}

impl View for WakerQueue {
    type V = BlocksView<Waker>;

    closed spec fn view(&self) -> BlocksView<Waker> {
        self.shared@
    }
}

impl Default for WakerQueue {
    fn default() -> (queue: Self)
        ensures
            queue.wf(),
            queue@ == BlocksView::<Waker>::empty(),
    {
        Self::new()
    }
}

impl WakerQueue {
    /// Both parts are sound.
    pub closed spec fn wf(self) -> bool {
        &&& self.local.wf()
        &&& self.shared.wf()
    }

    /// How often nothing is found to wake before blocks are given back.
    pub closed spec fn next_cleanup(self) -> int {
        self.local.next_cleanup()
    }

    /// Creates an empty queue.
    pub fn new() -> (queue: Self)
        ensures
            queue.wf(),
            queue@ == BlocksView::<Waker>::empty(),
            queue.next_cleanup() == CLEANUP_INTERVAL,
    {
        Self { local: Local::new(), shared: Shared::new() }
    }

    /// Puts a waker into the queue.
    pub fn push(&mut self, waker: Waker)
        requires
            old(self).wf(),
            old(self)@.queue.head() < u64::MAX,
        ensures
            final(self).wf(),
            final(self)@ == old(self)@.push(waker),
            final(self).next_cleanup() == old(self).next_cleanup(),
    {
        self.local.push(&mut self.shared, waker);
    }

    /// Moves the watermark up to include everything now in the queue.
    pub fn set_watermark(&mut self)
        requires
            old(self).wf(),
        ensures
            final(self).wf(),
            final(self)@ == (BlocksView { watermark: old(self)@.queue.head(), ..old(self)@ }),
            final(self).next_cleanup() == old(self).next_cleanup(),
    {
        self.shared.set_watermark();
    }

    /// Wakes at most `limit` tasks below the watermark, as the producer.
    pub fn wake_local(&mut self, limit: u64)
        requires
            old(self).wf(),
        ensures
            final(self).wf(),
            ({
                let left = old(self)@.take(limit as int);
                if old(self)@.claimed(limit as int) > 0 || old(self).next_cleanup() == 1 {
                    &&& final(self)@ == left.trim()
                    &&& final(self).next_cleanup() == CLEANUP_INTERVAL
                } else {
                    &&& final(self)@ == left
                    &&& final(self).next_cleanup() == old(self).next_cleanup() - 1
                }
            }),
            wakeups::were_woken(old(self)@.taken(limit as int)),
    {
        let wakers = self.local.take_local(&mut self.shared, limit);
        notify::wake_all(wakers);
    }

    /// Wakes at most `limit` tasks below the watermark, as another thread.
    pub fn wake_remote(&mut self, limit: u64)
        requires
            old(self).wf(),
        ensures
            final(self).wf(),
            final(self)@ == old(self)@.take(limit as int),
            final(self).next_cleanup() == old(self).next_cleanup(),
            wakeups::were_woken(old(self)@.taken(limit as int)),
    {
        let wakers = self.shared.take_remote(limit);
        notify::wake_all(wakers);
    }
}

} // verus!
