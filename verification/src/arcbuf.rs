//! The ring buffer of a broadcast channel.

use triomphe::Arc;
use vstd::prelude::*;
use vstd::std_specs::iter::IteratorSpec;

use crate::refcnt;
use crate::refcnt::ArcCache;
use crate::ring;

verus! {

/// What a broadcast buffer is: the number of values pushed so far, the values
/// that it still holds, oldest first, and how many it can hold.
///
/// Value number `i`, counting from 0, is held for `tail() <= i < head`.
#[verifier::ext_equal]
pub struct BufferView<T> {
    pub head: int,
    pub retained: Seq<T>,
    pub capacity: int,
}

/// The last `n` elements of a sequence, or all where there are fewer.
pub open spec fn keep_last<T>(s: Seq<T>, n: int) -> Seq<T> {
    if s.len() <= n {
        s
    } else {
        s.skip(s.len() - n)
    }
}

impl<T> BufferView<T> {
    /// The buffer that nothing has been pushed into yet.
    pub open spec fn empty(capacity: int) -> Self {
        BufferView { head: 0, retained: Seq::empty(), capacity }
    }

    /// The number of the oldest value held.
    pub open spec fn tail(self) -> int {
        self.head - self.retained.len()
    }

    /// The buffer after `values` are pushed.
    pub open spec fn push_all(self, values: Seq<T>) -> Self {
        BufferView {
            head: self.head + values.len(),
            retained: keep_last(self.retained + values, self.capacity),
            capacity: self.capacity,
        }
    }

    /// The values that pushing `values` overwrites, oldest first.
    pub open spec fn overwritten(self, values: Seq<T>) -> Seq<T> {
        let all = self.retained + values;
        all.take(all.len() - self.push_all(values).retained.len())
    }

    /// The buffer after `value` is pushed.
    pub open spec fn push(self, value: T) -> Self {
        self.push_all(seq![value])
    }

    /// Pushing in two goes is the same as pushing all at once. In particular a
    /// bulk push leaves the buffer as pushing its values one by one does.
    pub proof fn lemma_push_all_join(self, first: Seq<T>, second: Seq<T>)
        requires
            self.capacity >= 0,
        ensures
            self.push_all(first).push_all(second) == self.push_all(first + second),
            self.overwritten(first) + self.push_all(first).overwritten(second)
                == self.overwritten(first + second),
    {
        assert(self.retained + (first + second) =~= (self.retained + first) + second);
        assert(self.push_all(first).push_all(second).retained =~= self.push_all(
            first + second,
        ).retained);
        assert(self.overwritten(first) + self.push_all(first).overwritten(second)
            =~= self.overwritten(first + second));
    }

    /// A value is held until it is overwritten: what a push overwrites, followed
    /// by what the buffer then holds, is what it held, followed by what was
    /// pushed.
    pub proof fn lemma_overwritten(self, values: Seq<T>)
        requires
            self.capacity >= 0,
        ensures
            self.overwritten(values) + self.push_all(values).retained == self.retained + values,
    {
        assert(self.overwritten(values) + self.push_all(values).retained =~= self.retained
            + values);
    }

    /// What is to be had for value number `index`.
    pub open spec fn get(self, index: int) -> Result<T, IndexError> {
        if index >= self.head {
            Err(IndexError::Invalid)
        } else if index < self.tail() {
            Err(IndexError::Outdated(self.tail() as u64))
        } else {
            Ok(self.retained[index - self.tail()])
        }
    }
}

/// Why there is no value at an index.
#[derive(Copy, Clone, Debug, PartialEq, Eq, Hash, Structural)]
pub enum IndexError {
    /// The index is less than the current tail index, which is given.
    Outdated(u64),
    /// The index is not less than the current head index.
    Invalid,
}

/// The content of the slot of value number `i`.
spec fn slot<T>(values: Seq<Option<Arc<T>>>, i: int) -> Option<Arc<T>> {
    values[i % values.len() as int]
}

/// The slots hold the values with the numbers up to `end`, as far as there is
/// room; those from `start` on are listed in `all`.
spec fn written<T>(values: Seq<Option<Arc<T>>>, start: int, end: int, all: Seq<T>) -> bool {
    forall|i: int|
        oldest(start, end, values.len() as int) <= i < end ==> (#[trigger] slot(values, i) is Some
            && refcnt::held(slot(values, i)->0) == all[i - start])
}

/// The slots that come into use with the values from number `end` on are empty.
spec fn fresh<T>(values: Seq<Option<Arc<T>>>, end: int) -> bool {
    forall|j: int| end <= j < values.len() ==> #[trigger] values[j] is None
}

/// The values numbered from `start` on, listed in `all`, that are overwritten by
/// the time that those up to `end` are written.
spec fn lost<T>(start: int, end: int, len: int, all: Seq<T>) -> Seq<T> {
    all.take(oldest(start, end, len) - start)
}

/// Writing value number `end` extends what is written by it, and overwrites the
/// oldest value where all slots are in use.
proof fn lemma_written<T>(
    before: Seq<Option<Arc<T>>>,
    after: Seq<Option<Arc<T>>>,
    start: int,
    end: int,
    all: Seq<T>,
    index: int,
)
    requires
        before.len() > 0,
        0 <= start <= end,
        end - start < all.len(),
        start <= oldest(0, end, before.len() as int),
        written(before, start, end, all),
        fresh(before, end),
        after.len() == before.len(),
        index == end % before.len() as int,
        after[index] is Some,
        refcnt::held(after[index]->0) == all[end - start],
        forall|j: int|
            0 <= j < before.len() && j != index ==> #[trigger] after[j] == before[j],
    ensures
        written(after, start, end + 1, all),
        fresh(after, end + 1),
        lost(start, end + 1, before.len() as int, all) == match before[index] {
            Some(prev) => lost(start, end, before.len() as int, all).push(refcnt::held(prev)),
            None => lost(start, end, before.len() as int, all),
        },
{
    let len = before.len() as int;
    if end < len {
        vstd::arithmetic::div_mod::lemma_small_mod(end as nat, len as nat);
    }
    assert(lost(start, end + 1, len, all) =~= match before[index] {
        Some(prev) => lost(start, end, len, all).push(refcnt::held(prev)),
        None => lost(start, end, len, all),
    }) by {
        if end < len {
            assert(before[end] is None);
        } else {
            ring::lemma_step(end - len, len, len);
            assert(slot(before, end - len) is Some);
        }
    }
    assert forall|i: int| oldest(start, end + 1, len) <= i < end + 1 implies #[trigger] slot(
        after,
        i,
    ) is Some && refcnt::held(slot(after, i)->0) == all[i - start] by {
        ring::lemma_step(i, 0, len);
        if i < end {
            ring::lemma_distinct(i, end, len);
            assert(slot(before, i) is Some);
        }
    }
}

/// A ring of shared values, the oldest of which is overwritten when it is full.
#[verifier::reject_recursive_types(T)]
pub struct ArcBuffer<T> {
    values: Vec<Option<Arc<T>>>,
    head: u64,
    tail: u64,
}

impl<T> View for ArcBuffer<T> {
    type V = BufferView<T>;

    closed spec fn view(&self) -> BufferView<T> {
        BufferView {
            head: self.head as int,
            retained: Seq::new(
                (self.head - self.tail) as nat,
                |k: int| refcnt::held(slot(self.values@, self.tail + k)->0),
            ),
            capacity: self.values@.len() as int,
        }
    }
}

impl<T> ArcBuffer<T> {
    /// As many values are held as fit, in the slots of `tail..head`. Slots that
    /// have not been used yet are empty.
    pub closed spec fn wf(self) -> bool {
        &&& self.tail == oldest(0, self.head as int, self.values@.len() as int)
        &&& forall|i: int| self.tail <= i < self.head ==> #[trigger] slot(self.values@, i) is Some
        &&& fresh(self.values@, self.head as int)
    }

    /// What holds of every buffer.
    pub proof fn lemma_view(self)
        requires
            self.wf(),
        ensures
            0 <= self@.tail() <= self@.head <= u64::MAX,
            self@.retained.len() == if self@.head <= self@.capacity {
                self@.head
            } else {
                self@.capacity
            },
    {
    }

    /// A buffer whose indices enclose what is written holds just that.
    proof fn lemma_complete(self, start: int, all: Seq<T>)
        requires
            self.values@.len() > 0,
            0 <= start <= self.head,
            start <= oldest(0, self.head as int, self.values@.len() as int),
            self.head - start == all.len(),
            written(self.values@, start, self.head as int, all),
            fresh(self.values@, self.head as int),
            self.tail == oldest(start, self.head as int, self.values@.len() as int),
        ensures
            self.wf(),
            self@.retained == keep_last(all, self.values@.len() as int),
    {
        let kept = keep_last(all, self.values@.len() as int);
        assert(self@.retained =~= kept) by {
            assert forall|k: int| 0 <= k < self.head - self.tail implies self@.retained[k]
                == kept[k] by {
                assert(slot(self.values@, self.tail + k) is Some);
            }
        }
    }

    /// Creates an empty buffer for `capacity` values.
    pub fn with_capacity(capacity: usize) -> (buffer: Self)
        ensures
            buffer.wf(),
            buffer@ == BufferView::<T>::empty(capacity as int),
    {
        let mut values: Vec<Option<Arc<T>>> = Vec::with_capacity(capacity);
        let mut filled: usize = 0;
        while filled < capacity
            invariant
                filled <= capacity,
                values@.len() == filled,
                fresh(values@, 0),
            decreases capacity - filled,
        {
            values.push(None);
            filled += 1;
        }
        let buffer = Self { values, head: 0, tail: 0 };
        assert(buffer@ =~= BufferView::<T>::empty(capacity as int));
        buffer
    }

    /// The number of values pushed so far.
    pub fn head(&self) -> (head: u64)
        ensures
            head == self@.head,
    {
        self.head
    }

    /// The number of values that the buffer can hold.
    pub fn capacity(&self) -> (capacity: usize)
        ensures
            capacity == self@.capacity,
    {
        self.values.len()
    }

    fn index(&self, index: u64) -> (slot: usize)
        requires
            self.values@.len() > 0,
        ensures
            slot == index as int % self.values@.len() as int,
            slot < self.values@.len(),
    {
        (index % self.values.len() as u64) as usize
    }

    /// The value with the given number.
    pub fn get(&self, index: u64) -> (r: Result<Arc<T>, IndexError>)
        requires
            self.wf(),
            self@.capacity > 0,
        ensures
            match r {
                Ok(value) => self@.get(index as int) == Ok::<T, IndexError>(refcnt::held(value)),
                Err(e) => self@.get(index as int) == Err::<T, IndexError>(e),
            },
    {
        if index >= self.head {
            return Err(IndexError::Invalid);
        }
        if index < self.tail {
            return Err(IndexError::Outdated(self.tail));
        }
        let idx: usize = self.index(index);
        assert(slot(self.values@, index as int) is Some);
        match &self.values[idx] {
            Some(value) => Ok(value.clone()),
            None => Err(IndexError::Invalid),
        }
    }
}

/// `Iterator::size_hint` of std, the lower bound. It is meant to be at most the
/// number of items left, but an iterator may get it wrong, so nothing is
/// claimed of it.
#[verifier::external_body]
fn size_hint<I: Iterator>(iter: &I) -> (low: usize) {
    iter.size_hint().0
}

impl<T> ArcBuffer<T> {
    /// Pushes a value at the end of the ring, over the oldest one if need be. The
    /// value overwritten goes to `cache`.
    pub fn push(&mut self, value: T, cache: &mut ArcCache<T>)
        requires
            old(self).wf(),
            old(self)@.capacity > 0,
            old(self)@.head < u64::MAX,
        ensures
            final(self).wf(),
            final(self)@ == old(self)@.push(value),
            final(cache)@ == old(cache)@ + old(self)@.overwritten(seq![value]),
    {
        let mut state = BufferState::new(self);
        state.push(value, cache);
    }

    /// Pushes the values of an iterator at the end of the ring. The values
    /// overwritten go to `cache`.
    pub fn push_bulk<I: Iterator<Item = T>>(&mut self, iter: I, cache: &mut ArcCache<T>)
        requires
            old(self).wf(),
            old(self)@.capacity > 0,
            iter.obeys_prophetic_iter_laws(),
            iter.decrease() is Some,
            old(self)@.head + iter.remaining().len() <= u64::MAX,
        ensures
            final(self).wf(),
            final(self)@ == old(self)@.push_all(iter.remaining()),
            final(cache)@ == old(cache)@ + old(self)@.overwritten(iter.remaining()),
    {
        let estimate: usize = size_hint(&iter);
        self.push_estimated(iter, estimate as u64, cache);
    }

    /// Pushes the values of an iterator, which is expected to give at least
    /// `estimate` of them. The result is the same where it gives fewer.
    pub fn push_estimated<I: Iterator<Item = T>>(
        &mut self,
        iter: I,
        estimate: u64,
        cache: &mut ArcCache<T>,
    )
        requires
            old(self).wf(),
            old(self)@.capacity > 0,
            iter.obeys_prophetic_iter_laws(),
            iter.decrease() is Some,
            old(self)@.head + iter.remaining().len() <= u64::MAX,
        ensures
            final(self).wf(),
            final(self)@ == old(self)@.push_all(iter.remaining()),
            final(cache)@ == old(cache)@ + old(self)@.overwritten(iter.remaining()),
    {
        let mut state = BufferState::new(self);
        state.push_bulk(iter, estimate, cache);
    }
}

/// A buffer in the course of a push.
#[verifier::reject_recursive_types(T)]
struct BufferState<'b, T> {
    buffer: &'b mut ArcBuffer<T>,
    head: u64,
    tail: u64,
}

/// The oldest index held when values up to `end` have been written to a ring of
/// `len` slots that held those from `start` on.
spec fn oldest(start: int, end: int, len: int) -> int {
    if end - len > start {
        end - len
    } else {
        start
    }
}

impl<'b, T> BufferState<'b, T> {
    spec fn slots(self) -> int {
        self.buffer.values@.len() as int
    }

    /// The indices here are those of the buffer.
    spec fn in_step(self) -> bool {
        &&& self.buffer.wf()
        &&& self.head == self.buffer.head
        &&& self.tail == self.buffer.tail
        &&& self.slots() > 0
    }

    /// Takes up the state of a buffer.
    fn new(buffer: &'b mut ArcBuffer<T>) -> (state: Self)
        ensures
            *state.buffer == *old(buffer),
            *final(state.buffer) == *final(buffer),
            state.head == old(buffer).head,
            state.tail == old(buffer).tail,
    {
        let head: u64 = buffer.head;
        let tail: u64 = buffer.tail;
        Self { buffer, head, tail }
    }

    /// Advances the tail to reserve space for `count` additional elements.
    fn reserve(&mut self, count: u64)
        requires
            old(self).tail <= old(self).head,
            old(self).head - old(self).tail <= old(self).slots(),
            old(self).head + count <= u64::MAX,
        ensures
            *final(final(self).buffer) == *final(old(self).buffer),
            final(self).head == old(self).head,
            final(self).tail == oldest(
                old(self).tail as int,
                old(self).head + count,
                old(self).slots(),
            ),
            *final(self).buffer == (ArcBuffer { tail: final(self).tail, ..*old(self).buffer }),
    {
        let spare: u64 = self.buffer.capacity() as u64 - (self.head - self.tail);
        if let Some(advance) = count.checked_sub(spare) {
            self.tail = self.tail + advance;
        }
        self.buffer.tail = self.tail;
    }

    /// Advances the head to make `count` new elements visible to readers.
    fn advance(&mut self, count: u64)
        requires
            old(self).head + count <= u64::MAX,
        ensures
            *final(final(self).buffer) == *final(old(self).buffer),
            final(self).head == old(self).head + count,
            final(self).tail == old(self).tail,
            *final(self).buffer == (ArcBuffer { head: final(self).head, ..*old(self).buffer }),
    {
        self.head = self.head + count;
        self.buffer.head = self.head;
    }

    fn index(&self, index: u64) -> (slot: usize)
        requires
            self.slots() > 0,
        ensures
            slot == index as int % self.slots(),
            slot < self.slots(),
    {
        self.buffer.index(index)
    }

    /// Replaces the content of a slot.
    fn swap_raw(&mut self, index: usize, value: Option<Arc<T>>) -> (prev: Option<Arc<T>>)
        requires
            index < old(self).slots(),
        ensures
            *final(final(self).buffer) == *final(old(self).buffer),
            final(self).head == old(self).head,
            final(self).tail == old(self).tail,
            final(self).buffer.head == old(self).buffer.head,
            final(self).buffer.tail == old(self).buffer.tail,
            final(self).buffer.values@ == old(self).buffer.values@.update(index as int, value),
            prev == old(self).buffer.values@[index as int],
    {
        let mut slot = value;
        std::mem::swap(&mut self.buffer.values[index], &mut slot);
        slot
    }

    /// Writes a value into a slot, reusing the memory of the value there, which
    /// goes to `cache`.
    fn write(&mut self, index: usize, value: T, cache: &mut ArcCache<T>)
        requires
            index < old(self).slots(),
        ensures
            *final(final(self).buffer) == *final(old(self).buffer),
            final(self).head == old(self).head,
            final(self).tail == old(self).tail,
            final(self).buffer.head == old(self).buffer.head,
            final(self).buffer.tail == old(self).buffer.tail,
            final(self).slots() == old(self).slots(),
            final(self).buffer.values@[index as int] is Some,
            refcnt::held(final(self).buffer.values@[index as int]->0) == value,
            forall|j: int|
                0 <= j < old(self).slots() && j != index
                    ==> #[trigger] final(self).buffer.values@[j] == old(self).buffer.values@[j],
            final(cache)@ == match old(self).buffer.values@[index as int] {
                Some(prev) => old(cache)@.push(refcnt::held(prev)),
                None => old(cache)@,
            },
    {
        let prev = self.swap_raw(index, None);
        let value = cache.refill(prev, value);
        self.swap_raw(index, Some(value));
    }

    /// Pushes one value.
    fn push(&mut self, value: T, cache: &mut ArcCache<T>)
        requires
            old(self).in_step(),
            old(self).head < u64::MAX,
        ensures
            *final(final(self).buffer) == *final(old(self).buffer),
            final(self).in_step(),
            final(self).buffer@ == old(self).buffer@.push(value),
            final(cache)@ == old(cache)@ + old(self).buffer@.overwritten(seq![value]),
    {
        let ghost all = self.buffer@.retained.push(value);
        let ghost start = self.tail as int;
        let ghost head = self.head as int;
        self.reserve(1);
        let index: usize = self.index(self.head);
        let ghost before = self.buffer.values@;
        self.write(index, value, cache);
        proof {
            lemma_written(before, self.buffer.values@, start, head, all, index as int);
        }
        self.advance(1);
        proof {
            self.buffer.lemma_complete(start, all);
            assert(all =~= old(self).buffer@.retained + seq![value]);
            assert(cache@ =~= old(cache)@ + lost(start, head + 1, self.slots(), all));
        }
    }

    /// Pushes the values of an iterator. Space for `estimate` of them is
    /// reserved at once; where fewer come, the tail is moved back.
    fn push_bulk<I: Iterator<Item = T>>(
        &mut self,
        iter: I,
        estimate: u64,
        cache: &mut ArcCache<T>,
    )
        requires
            old(self).in_step(),
            iter.obeys_prophetic_iter_laws(),
            iter.decrease() is Some,
            old(self).head + iter.remaining().len() <= u64::MAX,
        ensures
            *final(final(self).buffer) == *final(old(self).buffer),
            final(self).in_step(),
            final(self).buffer@ == old(self).buffer@.push_all(iter.remaining()),
            final(cache)@ == old(cache)@ + old(self).buffer@.overwritten(iter.remaining()),
    {
        let ghost items = iter.remaining();
        let mut rest = iter;
        let ghost all = self.buffer@.retained + items;
        let ghost start = self.tail as int;
        let ghost head = self.head as int;
        let ghost len = self.slots();
        let left: u64 = u64::MAX - self.head;
        let estimate: u64 = if estimate < left { estimate } else { left };
        let saved_tail: u64 = self.tail;
        let mut index: usize = self.index(self.head);
        self.reserve(estimate);

        let mut offset: u64 = 0;
        while offset < estimate
            invariant
                *final(self.buffer) == *final(old(self).buffer),
                old(self).in_step(),
                start == old(self).tail == saved_tail,
                head == old(self).head == self.head == self.buffer.head,
                head + estimate <= u64::MAX,
                len == self.slots() == old(self).slots(),
                len > 0,
                start == oldest(0, head, len),
                self.tail == self.buffer.tail == oldest(start, head + estimate, len),
                all == old(self).buffer@.retained + items,
                items == iter.remaining(),
                offset <= items.len(),
                offset <= estimate,
                rest.obeys_prophetic_iter_laws(),
                rest.decrease() is Some,
                rest.remaining() == items.skip(offset as int),
                index == (head + offset) % len,
                index < len,
                written(self.buffer.values@, start, head + offset, all),
                fresh(self.buffer.values@, head + offset),
                cache@ == old(cache)@ + lost(start, head + offset, len, all),
            decreases estimate - offset,
        {
            let value = match rest.next() {
                Some(value) => value,
                None => {
                    self.tail = saved_tail;
                    self.reserve(offset);
                    self.advance(offset);
                    proof {
                        assert(items.len() == offset);
                        self.buffer.lemma_complete(start, all);
                    }
                    return;
                },
            };
            assert(rest.remaining() =~= items.skip(offset + 1));
            let ghost before = self.buffer.values@;
            self.write(index, value, cache);
            proof {
                lemma_written(before, self.buffer.values@, start, head + offset, all, index as int);
                assert(cache@ =~= old(cache)@ + lost(start, head + offset + 1, len, all));
                ring::lemma_step(head + offset, 1, len);
            }
            let capacity: usize = self.buffer.capacity();
            index = if index + 1 < capacity {
                index + 1
            } else {
                0
            };
            offset += 1;
        }
        self.advance(estimate);
        let ghost done = items.take(estimate as int);
        proof {
            let part = old(self).buffer@.retained + done;
            assert(written(self.buffer.values@, start, head + estimate, part)) by {
                assert forall|i: int|
                    oldest(start, head + estimate, len) <= i < head
                        + estimate implies #[trigger] slot(self.buffer.values@, i) is Some
                    && refcnt::held(slot(self.buffer.values@, i)->0) == part[i - start] by {}
            }
            self.buffer.lemma_complete(start, part);
            assert(lost(start, head + estimate, len, all) =~= old(self).buffer@.overwritten(done));
        }

        let ghost mut sent = done;
        loop
            invariant_except_break
                *final(self.buffer) == *final(old(self).buffer),
                self.in_step(),
                self.head == old(self).head + sent.len(),
                old(self).head + items.len() <= u64::MAX,
                rest.obeys_prophetic_iter_laws(),
                rest.decrease() is Some,
                sent + rest.remaining() == items,
                old(self).buffer@.capacity >= 0,
                self.buffer@ == old(self).buffer@.push_all(sent),
                cache@ == old(cache)@ + old(self).buffer@.overwritten(sent),
            ensures
                *final(self.buffer) == *final(old(self).buffer),
                self.in_step(),
                self.buffer@ == old(self).buffer@.push_all(items),
                cache@ == old(cache)@ + old(self).buffer@.overwritten(items),
            decreases rest.decrease()->0,
        {
            match rest.next() {
                Some(value) => {
                    assert(self.head < u64::MAX);
                    self.push(value, cache);
                    proof {
                        old(self).buffer@.lemma_push_all_join(sent, seq![value]);
                        assert(cache@ =~= old(cache)@ + old(self).buffer@.overwritten(
                            sent + seq![value],
                        ));
                        sent = sent + seq![value];
                        assert(sent + rest.remaining() =~= items);
                    }
                },
                None => {
                    assert(sent =~= items);
                    break;
                },
            }
        }
    }
}

} // verus!
