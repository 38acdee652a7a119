//! Direct access to a ring buffer queue, both ends at once.

use triomphe::Arc;
use vstd::prelude::*;

use crate::fifo::QueueState;
use crate::refcnt;
use crate::spsc::detail;
use crate::spsc::detail::{Drain, Reader, Shared, Writer};

verus! {

/// A queue with both its ends.
pub struct RawChannel<T> {
    shared: Shared<T>,
    reader: Reader<T>,
    writer: Writer<T>,
    /// A pointer that is shared with the drains that are still there.
    drains: Arc<()>,
}

/// The queue, by its other name.
pub type RawQueue<T> = RawChannel<T>;

impl<T> View for RawChannel<T> {
    type V = QueueState<T>;

    closed spec fn view(&self) -> QueueState<T> {
        QueueState { items: self.shared@, tail: self.shared.tail_index() }
    }
}

impl<T> Default for RawChannel<T> {
    fn default() -> (channel: Self)
        ensures
            channel.wf(),
            channel@ == QueueState::<T>::empty(),
            detail::initial_capacity(16, channel.slots()),
            channel.unreturned() == 0,
            channel.has_room(),
    {
        Self::new()
    }
}

impl<T> RawChannel<T> {
    /// The queue is sound and its reader knows where it starts.
    pub closed spec fn wf(self) -> bool {
        &&& self.shared.wf()
        &&& self.reader.tail_index() == self.shared.tail_index()
    }

    /// The number of slots.
    pub closed spec fn slots(self) -> int {
        self.shared.slots()
    }

    /// The number of slots that are out of use because the values in them have
    /// been drained and the slots have not been returned yet.
    pub closed spec fn unreturned(self) -> int {
        self.shared.tail_index() - self.shared.remote_index()
    }

    /// The pointer that is shared with the drains that are still there.
    pub closed spec fn drains(self) -> Arc<()> {
        self.drains
    }

    /// Whether all slots are taken, by values or by drains.
    pub open spec fn is_full(self) -> bool {
        self@.items.len() + self.unreturned() == self.slots()
    }

    /// Whether one more value can be given an index and a slot.
    pub open spec fn has_room(self) -> bool {
        &&& self@.head() < u64::MAX
        &&& self.is_full() ==> 2 * self.slots() <= usize::MAX
    }

    /// The indices of every queue fit a `u64`, and what is taken of its slots fits
    /// them.
    pub proof fn lemma_indices(self)
        requires
            self.wf(),
        ensures
            0 <= self@.tail <= self@.head() <= u64::MAX,
            0 <= self.unreturned(),
            self@.items.len() + self.unreturned() <= self.slots(),
    {
        self.shared.lemma_indices();
    }

    /// Creates a queue with a default capacity.
    pub fn new() -> (channel: Self)
        ensures
            channel.wf(),
            channel@ == QueueState::<T>::empty(),
            detail::initial_capacity(16, channel.slots()),
            channel.unreturned() == 0,
            channel.has_room(),
    {
        Self::with_capacity(16)
    }

    /// Creates a queue with the requested initial capacity, rounded up to a power
    /// of two where that fits a `usize`.
    pub fn with_capacity(capacity: usize) -> (channel: Self)
        requires
            capacity != 0,
        ensures
            channel.wf(),
            channel@ == QueueState::<T>::empty(),
            detail::initial_capacity(capacity as int, channel.slots()),
            channel.unreturned() == 0,
            channel.has_room(),
    {
        let shared = Shared::new(capacity);
        proof {
            shared.lemma_indices();
        }
        let reader = Reader::new(&shared);
        let writer = Writer::new(&shared);
        Self { shared, reader, writer, drains: Arc::new(()) }
    }

    /// The index at which the next value will be inserted.
    pub fn head(&self) -> (head: u64)
        requires
            self.wf(),
        ensures
            head == self@.head(),
    {
        proof {
            self.shared.lemma_indices();
        }
        self.shared.head()
    }

    /// The index of the next value to be removed.
    pub fn tail(&self) -> (tail: u64)
        requires
            self.wf(),
        ensures
            tail == self@.tail,
    {
        self.reader.tail()
    }

    /// Whether the queue holds no value.
    pub fn is_empty(&self) -> (empty: bool)
        requires
            self.wf(),
        ensures
            empty == (self@.items.len() == 0),
    {
        self.shared.is_empty()
    }

    /// Whether [`push`](Self::push) has an index and a slot for one more value.
    pub fn can_push(&self) -> (room: bool)
        requires
            self.wf(),
        ensures
            room == self.has_room(),
    {
        proof {
            self.shared.lemma_indices();
        }
        self.shared.can_push()
    }

    /// Takes note of how many there are that share the pointer to drains, this one
    /// included: where no drain is left, its slots are returned.
    pub fn note_drains(&mut self, sharers: usize)
        requires
            old(self).wf(),
        ensures
            final(self).wf(),
            final(self)@ == old(self)@,
            final(self).slots() == old(self).slots(),
            final(self).drains() == old(self).drains(),
            final(self).unreturned() == if sharers < 2 {
                0
            } else {
                old(self).unreturned()
            },
    {
        if sharers < 2 {
            self.release();
        }
    }

    /// Appends a value and returns its index.
    ///
    /// The slots of drains that have been dropped are returned first. Whether there
    /// are others depends on the rest of the program. The number of slots is doubled
    /// when all are still taken.
    pub fn push(&mut self, value: T) -> (index: u64)
        requires
            old(self).wf(),
            old(self).has_room(),
        ensures
            final(self).wf(),
            index == old(self)@.head(),
            final(self)@ == old(self)@.push(value),
            final(self).drains() == old(self).drains(),
            final(self).unreturned() == old(self).unreturned() || final(self).unreturned() == 0,
            exists|sharers: usize|
                {
                    &&& #[trigger] refcnt::counted(old(self).drains(), sharers)
                    &&& final(self).unreturned() == if sharers < 2 {
                        0
                    } else {
                        old(self).unreturned()
                    }
                },
            final(self).slots() == if old(self)@.items.len() + final(self).unreturned() == old(
                self,
            ).slots() {
                2 * old(self).slots()
            } else {
                old(self).slots()
            },
    {
        proof {
            self.shared.lemma_indices();
        }
        let sharers: usize = refcnt::shares(&self.drains);
        self.note_drains(sharers);
        assert(refcnt::counted(old(self).drains(), sharers));
        proof {
            self.shared.lemma_indices();
        }
        self.writer.push(&mut self.shared, value)
    }

    /// Removes the first value. This returns its slot and all others that have been
    /// drained.
    pub fn pop(&mut self) -> (value: Option<T>)
        requires
            old(self).wf(),
        ensures
            final(self).wf(),
            value == old(self)@.popped(),
            final(self)@ == old(self)@.pop(),
            final(self).slots() == old(self).slots(),
            final(self).drains() == old(self).drains(),
            final(self).unreturned() == if value is Some {
                0
            } else {
                old(self).unreturned()
            },
    {
        self.reader.pop(&mut self.shared)
    }

    /// Takes out all values.
    pub fn drain(&mut self) -> (drain: Drain<T>)
        requires
            old(self).wf(),
        ensures
            final(self).wf(),
            drain@ == old(self)@.items,
            drain.presence() == Some(old(self).drains()),
            final(self)@ == (QueueState { items: Seq::<T>::empty(), tail: old(self)@.head() }),
            final(self).slots() == old(self).slots(),
            final(self).drains() == old(self).drains(),
            final(self).unreturned() == old(self).unreturned() + drain@.len(),
    {
        proof {
            self.shared.lemma_indices();
        }
        let drain = self.drain_to(u64::MAX);
        assert(drain@ =~= old(self)@.items);
        assert(self@.items =~= Seq::<T>::empty());
        drain
    }

    /// Takes out all values with an index below `watermark`.
    ///
    /// The slots that the values were in stay out of use until the drain is dropped or
    /// [finished](Self::finish), or until the next removal.
    pub fn drain_to(&mut self, watermark: u64) -> (drain: Drain<T>)
        requires
            old(self).wf(),
        ensures
            final(self).wf(),
            drain@ == old(self)@.drained(watermark as int),
            drain.presence() == Some(old(self).drains()),
            final(self)@ == old(self)@.drain_to(watermark as int),
            final(self).slots() == old(self).slots(),
            final(self).drains() == old(self).drains(),
            final(self).unreturned() == old(self).unreturned() + drain@.len(),
    {
        proof {
            self.shared.lemma_indices();
        }
        let drain = self.reader.consume(&mut self.shared, watermark);
        proof {
            self.shared.lemma_indices();
            assert(drain@ =~= old(self)@.items.take(drain@.len() as int));
            assert(self.shared@ =~= old(self)@.items.skip(drain@.len() as int));
        }
        drain.attach(self.drains.clone())
    }

    /// Drops the rest of a drain and returns its slots.
    pub fn finish(&mut self, drain: Drain<T>)
        requires
            old(self).wf(),
        ensures
            final(self).wf(),
            final(self)@ == old(self)@,
            final(self).slots() == old(self).slots(),
            final(self).drains() == old(self).drains(),
            final(self).unreturned() == 0,
    {
        self.reader.finish(&mut self.shared, drain)
    }

    /// Returns the slots of all values that have been taken out.
    pub fn release(&mut self)
        requires
            old(self).wf(),
        ensures
            final(self).wf(),
            final(self)@ == old(self)@,
            final(self).slots() == old(self).slots(),
            final(self).drains() == old(self).drains(),
            final(self).unreturned() == 0,
    {
        self.reader.release(&mut self.shared)
    }
}

} // verus!
