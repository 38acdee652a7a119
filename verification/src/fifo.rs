//! What a first-in first-out queue is, and what it promises.
//!
//! The values of a queue carry consecutive indices, so that a range of them can
//! be named by a watermark: everything below it.

use vstd::prelude::*;

verus! {

/// The tail after draining a queue of `tail..head` up to `watermark`.
pub open spec fn drained_to(tail: int, head: int, watermark: int) -> int {
    if watermark <= tail {
        tail
    } else if watermark <= head {
        watermark
    } else {
        head
    }
}

/// What a queue holds: its values, first in first, and the index of the first.
#[verifier::ext_equal]
pub struct QueueState<T> {
    pub items: Seq<T>,
    pub tail: int,
}

impl<T> QueueState<T> {
    /// The empty queue that nothing has been inserted into yet.
    pub open spec fn empty() -> Self {
        QueueState { items: Seq::empty(), tail: 0 }
    }

    /// The index of the next value to be inserted.
    pub open spec fn head(self) -> int {
        self.tail + self.items.len()
    }

    /// The queue after `value` is inserted.
    pub open spec fn push(self, value: T) -> Self {
        QueueState { items: self.items.push(value), tail: self.tail }
    }

    /// The number of values below `watermark`.
    pub open spec fn below(self, watermark: int) -> int {
        drained_to(self.tail, self.head(), watermark) - self.tail
    }

    /// The values that draining up to `watermark` removes.
    pub open spec fn drained(self, watermark: int) -> Seq<T> {
        self.items.take(self.below(watermark))
    }

    /// The queue after draining up to `watermark`.
    pub open spec fn drain_to(self, watermark: int) -> Self {
        QueueState {
            items: self.items.skip(self.below(watermark)),
            tail: self.tail + self.below(watermark),
        }
    }

    /// The number of values below `watermark`, but at most `limit`.
    pub open spec fn claimed(self, limit: int, watermark: int) -> int {
        if limit < self.below(watermark) {
            limit
        } else {
            self.below(watermark)
        }
    }

    /// The queue without its first `n` values.
    pub open spec fn advance(self, n: int) -> Self {
        QueueState { items: self.items.skip(n), tail: self.tail + n }
    }

    /// The value that popping removes.
    pub open spec fn popped(self) -> Option<T> {
        if self.items.len() > 0 {
            Some(self.items[0])
        } else {
            None
        }
    }

    /// The queue after popping.
    pub open spec fn pop(self) -> Self {
        if self.items.len() > 0 {
            QueueState { items: self.items.drop_first(), tail: self.tail + 1 }
        } else {
            self
        }
    }
}

/// One operation on a queue.
pub enum QueueOp<T> {
    Push(T),
    Pop,
    DrainTo(u64),
}

/// The queue after a series of operations.
pub open spec fn run<T>(state: QueueState<T>, ops: Seq<QueueOp<T>>) -> QueueState<T>
    decreases ops.len(),
{
    if ops.len() == 0 {
        state
    } else {
        let before = run(state, ops.drop_last());
        match ops.last() {
            QueueOp::Push(value) => before.push(value),
            QueueOp::Pop => before.pop(),
            QueueOp::DrainTo(watermark) => before.drain_to(watermark as int),
        }
    }
}

/// The values that a series of operations inserts.
pub open spec fn inserted<T>(ops: Seq<QueueOp<T>>) -> Seq<T>
    decreases ops.len(),
{
    if ops.len() == 0 {
        Seq::empty()
    } else {
        match ops.last() {
            QueueOp::Push(value) => inserted(ops.drop_last()).push(value),
            _ => inserted(ops.drop_last()),
        }
    }
}

/// The values that a series of operations removes, in the order of removal.
pub open spec fn removed<T>(state: QueueState<T>, ops: Seq<QueueOp<T>>) -> Seq<T>
    decreases ops.len(),
{
    if ops.len() == 0 {
        Seq::empty()
    } else {
        let before = run(state, ops.drop_last());
        let earlier = removed(state, ops.drop_last());
        match ops.last() {
            QueueOp::Push(_) => earlier,
            QueueOp::Pop => match before.popped() {
                Some(value) => earlier.push(value),
                None => earlier,
            },
            QueueOp::DrainTo(watermark) => earlier + before.drained(watermark as int),
        }
    }
}

/// First in, first out: whatever the order of insertions and removals, the
/// values removed so far, followed by those still in the queue, are those that
/// were in it at the start, followed by those inserted. None is lost, repeated
/// or reordered. The index of the first value counts the values removed.
pub proof fn lemma_fifo<T>(state: QueueState<T>, ops: Seq<QueueOp<T>>)
    ensures
        removed(state, ops) + run(state, ops).items == state.items + inserted(ops),
        run(state, ops).tail == state.tail + removed(state, ops).len(),
    decreases ops.len(),
{
    if ops.len() > 0 {
        lemma_fifo(state, ops.drop_last());
        let before = run(state, ops.drop_last());
        let earlier = removed(state, ops.drop_last());
        let supplied = state.items + inserted(ops.drop_last());
        match ops.last() {
            QueueOp::Push(value) => {
                assert(earlier + before.items.push(value) =~= supplied.push(value));
                assert(supplied.push(value) =~= state.items + inserted(ops));
            },
            QueueOp::Pop => {
                if before.items.len() > 0 {
                    assert(earlier.push(before.items[0]) + before.items.drop_first() =~= earlier
                        + before.items);
                }
            },
            QueueOp::DrainTo(watermark) => {
                let n = before.below(watermark as int);
                assert((earlier + before.items.take(n)) + before.items.skip(n) =~= earlier
                    + before.items);
            },
        }
    } else {
        assert(removed(state, ops) + run(state, ops).items =~= state.items + inserted(ops));
    }
}

/// What is removed from a queue that starts empty is a prefix of what is inserted:
/// in order, without gaps or duplicates, and nothing that was not inserted. This
/// holds of any order in which a producer and a consumer take turns.
pub proof fn lemma_removed_is_prefix<T>(ops: Seq<QueueOp<T>>)
    ensures
        removed(QueueState::empty(), ops).len() <= inserted(ops).len(),
        removed(QueueState::empty(), ops) == inserted(ops).take(
            removed(QueueState::<T>::empty(), ops).len() as int,
        ),
{
    let empty = QueueState::<T>::empty();
    lemma_fifo(empty, ops);
    assert(empty.items + inserted(ops) =~= inserted(ops));
    assert(removed(empty, ops) =~= (removed(empty, ops) + run(empty, ops).items).take(
        removed(empty, ops).len() as int,
    ));
}

/// Any watermark may be given: one at or below the tail drains nothing, one at
/// or above the head drains everything.
pub proof fn lemma_watermark_clamped<T>(state: QueueState<T>, watermark: int)
    ensures
        watermark <= state.tail ==> state.drained(watermark) == Seq::<T>::empty()
            && state.drain_to(watermark) == state,
        watermark >= state.head() ==> state.drained(watermark) == state.items
            && state.drain_to(watermark).items == Seq::<T>::empty(),
{
    let n = state.below(watermark);
    if watermark <= state.tail {
        assert(state.items.take(n) =~= Seq::<T>::empty());
        assert(state.drain_to(watermark) =~= state);
    }
    if watermark >= state.head() {
        assert(state.items.take(n) =~= state.items);
        assert(state.items.skip(n) =~= Seq::<T>::empty());
    }
}

/// Draining up to the index that an insertion returned removes everything that
/// was inserted before that value, and neither it nor anything after it.
pub proof fn lemma_drain_to_index<T>(state: QueueState<T>, value: T)
    ensures
        state.push(value).drained(state.head()) == state.items,
        state.push(value).drain_to(state.head()).items == seq![value],
{
    let n = state.items.len() as int;
    assert(state.push(value).items.take(n) =~= state.items);
    assert(state.push(value).items.skip(n) =~= seq![value]);
}

} // verus!
