//! The queues of all threads, and who is woken in what order.

use vstd::prelude::*;

use crate::fifo::QueueState;
use crate::masswake::queue::LocalQueue;

verus! {

/// How many slots a queue starts with.
pub const FIRST_SLOTS: usize = 1024;

/// How many values are taken from each queue in the first round.
pub const FIRST_BATCH: u64 = 16;

/// How many values are taken from a queue at a time in the second round.
pub const BATCH: u64 = 128;

/// What the queue of a thread is: its values, the index up to which they were to
/// be woken the last time, and how many slots it has.
#[verifier::ext_equal]
pub struct LocalView<T> {
    pub queue: QueueState<T>,
    pub watermark: int,
    pub slots: int,
}

impl<T> LocalView<T> {
    /// The queue of a thread that has not registered anything yet.
    pub open spec fn empty() -> Self {
        LocalView { queue: QueueState::empty(), watermark: 0, slots: FIRST_SLOTS as int }
    }

    /// Whether there is a value in every slot.
    pub open spec fn is_full(self) -> bool {
        self.queue.items.len() == self.slots
    }

    /// Whether one more value can be given an index and a slot. The number of slots
    /// is doubled when all are taken.
    pub open spec fn has_room(self) -> bool {
        &&& self.queue.head() < u64::MAX
        &&& self.is_full() ==> 2 * self.slots <= usize::MAX
    }

    /// The queue after `value` is put into it.
    pub open spec fn push(self, value: T) -> Self {
        LocalView {
            queue: self.queue.push(value),
            slots: if self.is_full() {
                2 * self.slots
            } else {
                self.slots
            },
            ..self
        }
    }

    /// The queue after everything in it has been taken out to be woken.
    pub open spec fn notified(self) -> Self {
        LocalView {
            queue: QueueState { items: Seq::empty(), tail: self.queue.head() },
            watermark: self.queue.head(),
            ..self
        }
    }
}

/// The queue of one thread.
pub struct Local<T> {
    queue: LocalQueue<T>,
    watermark: u64,
}

impl<T> View for Local<T> {
    type V = LocalView<T>;

    closed spec fn view(&self) -> LocalView<T> {
        LocalView {
            queue: self.queue@,
            watermark: self.watermark as int,
            slots: self.queue.slots(),
        }
    }
}

impl<T> Local<T> {
    /// The queue is sound, all slots without a value can be used, and the watermark
    /// has not run ahead.
    pub closed spec fn wf(self) -> bool {
        &&& self.queue.wf()
        &&& self.queue.mark() is None
        &&& self.watermark <= self.queue@.head()
    }

    /// What holds of the indices of every queue.
    pub proof fn lemma_indices(self)
        requires
            self.wf(),
        ensures
            0 <= self@.queue.tail <= self@.queue.head() <= u64::MAX,
            0 <= self@.watermark <= self@.queue.head(),
            self@.queue.items.len() <= self@.slots,
    {
        self.queue.lemma_indices();
    }

    /// Creates an empty queue.
    pub fn new() -> (local: Self)
        ensures
            local.wf(),
            local@ == LocalView::<T>::empty(),
    {
        Self { queue: LocalQueue::with_capacity(FIRST_SLOTS), watermark: 0 }
    }

    /// Moves the watermark up to include everything now in the queue.
    pub fn update_watermark(&mut self) -> (watermark: u64)
        requires
            old(self).wf(),
        ensures
            final(self).wf(),
            watermark == old(self)@.queue.head(),
            final(self)@ == (LocalView { watermark: watermark as int, ..old(self)@ }),
    {
        let watermark: u64 = self.queue.watermark();
        self.watermark = watermark;
        watermark
    }

    /// Takes out at most `limit` values below `watermark`, for the notifier.
    /// Tells whether there were any.
    fn take_remote(&mut self, limit: u64, watermark: u64, out: &mut Vec<T>) -> (any: bool)
        requires
            old(self).wf(),
        ensures
            final(self).wf(),
            ({
                let n = old(self)@.queue.claimed(limit as int, watermark as int);
                &&& any == (n > 0)
                &&& final(out)@ == old(out)@ + old(self)@.queue.items.take(n)
                &&& final(self)@ == (LocalView { queue: old(self)@.queue.advance(n), ..old(self)@ })
            }),
    {
        match self.queue.consume_remote(limit, watermark) {
            Some(drain) => {
                let mut drain = drain;
                drain.append_to(out);
                self.queue.finish(drain);
                true
            },
            None => {
                assert(out@ =~= old(out)@ + old(self)@.queue.items.take(0));
                false
            },
        }
    }

    /// Takes out all values below the watermark, for the producer.
    fn take_own(&mut self, out: &mut Vec<T>)
        requires
            old(self).wf(),
        ensures
            final(self).wf(),
            final(out)@ == old(out)@ + old(self)@.queue.drained(old(self)@.watermark),
            final(self)@ == (LocalView {
                queue: old(self)@.queue.drain_to(old(self)@.watermark),
                ..old(self)@
            }),
    {
        let watermark: u64 = self.watermark;
        proof {
            self.queue.lemma_indices();
        }
        match self.queue.consume_local(u64::MAX, watermark) {
            Some(drain) => {
                let mut drain = drain;
                drain.append_to(out);
                self.queue.finish(drain);
            },
            None => {
                assert(out@ =~= old(out)@ + old(self)@.queue.drained(old(self)@.watermark));
            },
        }
    }

    /// Takes out all values below `watermark`, in batches.
    fn take_batches(&mut self, watermark: u64, out: &mut Vec<T>)
        requires
            old(self).wf(),
        ensures
            final(self).wf(),
            ({
                let n = old(self)@.queue.below(watermark as int);
                &&& final(out)@ == old(out)@ + old(self)@.queue.items.take(n)
                &&& final(self)@ == (LocalView { queue: old(self)@.queue.advance(n), ..old(self)@ })
            }),
    {
        let ghost before = self@.queue;
        let ghost n = before.below(watermark as int);
        let ghost mut taken: int = 0;
        proof {
            assert(before.advance(0) =~= before);
            assert(out@ + before.items.take(0) =~= out@);
        }
        loop
            invariant_except_break
                self.wf(),
                before == old(self)@.queue,
                n == before.below(watermark as int),
                0 <= taken <= n <= before.items.len(),
                self@ == (LocalView { queue: before.advance(taken), ..old(self)@ }),
                out@ == old(out)@ + before.items.take(taken),
            ensures
                self.wf(),
                self@ == (LocalView { queue: before.advance(n), ..old(self)@ }),
                out@ == old(out)@ + before.items.take(n),
            decreases n - taken,
        {
            let ghost step = self@.queue.claimed(BATCH as int, watermark as int);
            let ghost items = self@.queue.items;
            let any = self.take_remote(BATCH, watermark, out);
            proof {
                assert(before.advance(taken).advance(step) =~= before.advance(taken + step));
                assert(old(out)@ + before.items.take(taken) + items.take(step) =~= old(out)@
                    + before.items.take(taken + step));
                taken = taken + step;
            }
            if !any {
                break;
            }
        }
    }
}

/// What an interested task remembers of its last registration: the index of
/// its value and the queue that it is in.
#[derive(Copy, Clone, Debug, PartialEq, Eq, Structural)]
pub struct Registration {
    /// The index of the value, or `u64::MAX` where there is none.
    pub watermark: u64,
    /// The queue that the value was put into.
    pub queue: Option<usize>,
}

impl Registration {
    /// No registration yet.
    pub fn new() -> (registration: Self)
        ensures
            registration == (Registration { watermark: u64::MAX, queue: None }),
    {
        Registration { watermark: u64::MAX, queue: None }
    }

    /// Whether a task has to register anew, where `watermark` is that of the
    /// queue it last registered in and `will_wake` tells whether the waker put
    /// there still wakes it.
    ///
    /// Not doing so where it is not needed keeps a task that registers over and
    /// over from filling the queue.
    pub fn is_outdated(&self, watermark: Option<u64>, will_wake: bool) -> (outdated: bool)
        ensures
            outdated == (self.watermark == u64::MAX || match watermark {
                Some(watermark) => self.watermark < watermark || !will_wake,
                None => true,
            }),
    {
        if self.watermark == u64::MAX {
            return true;
        }
        let watermark: u64 = match watermark {
            Some(watermark) => watermark,
            None => return true,
        };
        // The last registration was before the last notification.
        if self.watermark < watermark {
            return true;
        }
        !will_wake
    }
}

/// Whether a task with the given registration has to register anew.
pub open spec fn needs_to_register<T>(
    all: Seq<LocalView<T>>,
    registration: Registration,
    will_wake: bool,
) -> bool {
    ||| registration.watermark == u64::MAX
    ||| !will_wake
    ||| match registration.queue {
        Some(i) => i >= all.len() || registration.watermark < all[i as int].watermark,
        None => true,
    }
}

/// The queues once the one in place `slot` is there: a new one is appended
/// where there is none yet.
pub open spec fn settled<T>(all: Seq<LocalView<T>>, slot: int) -> Seq<LocalView<T>> {
    if slot < all.len() {
        all
    } else {
        all.push(LocalView::empty())
    }
}

/// The place of that queue.
pub open spec fn settled_index<T>(all: Seq<LocalView<T>>, slot: int) -> int {
    if slot < all.len() {
        slot
    } else {
        all.len() as int
    }
}

/// Whether the queue in place `slot` has an index and a slot left.
pub open spec fn has_room<T>(all: Seq<LocalView<T>>, slot: int) -> bool {
    settled(all, slot)[settled_index(all, slot)].has_room()
}

/// The elements of `f(0)`, `f(1)`, up to `f(n - 1)`, one after the other.
pub open spec fn concat<T>(f: spec_fn(int) -> Seq<T>, n: int) -> Seq<T>
    decreases n,
{
    if n <= 0 {
        Seq::empty()
    } else {
        concat(f, n - 1) + f(n - 1)
    }
}

/// How much of a queue of `len` values is taken in the first round.
pub open spec fn first_len(len: int) -> int {
    if len < FIRST_BATCH {
        len
    } else {
        FIRST_BATCH as int
    }
}

/// The values of queue `i` that are woken in the first round.
pub open spec fn opening<T>(all: Seq<LocalView<T>>) -> spec_fn(int) -> Seq<T> {
    |i: int| all[i].queue.items.take(first_len(all[i].queue.items.len() as int))
}

/// The values of queue `i` that are woken in the second round: the rest, but
/// for the queue of the thread that notifies.
pub open spec fn remainder<T>(all: Seq<LocalView<T>>, this: Option<usize>) -> spec_fn(int) -> Seq<
    T,
> {
    |i: int|
        if this == Some(i as usize) {
            Seq::empty()
        } else {
            all[i].queue.items.skip(first_len(all[i].queue.items.len() as int))
        }
}

/// The values of the queue of the thread that notifies that are woken last.
pub open spec fn closing<T>(all: Seq<LocalView<T>>, this: Option<usize>) -> Seq<T> {
    match this {
        Some(i) => all[i as int].queue.items.skip(
            first_len(all[i as int].queue.items.len() as int),
        ),
        None => Seq::empty(),
    }
}

/// The values of all queues in the order in which they are woken: some of each
/// queue, then the rest of the queues of other threads, then that of this one.
pub open spec fn wake_order<T>(all: Seq<LocalView<T>>, this: Option<usize>) -> Seq<T> {
    concat(opening(all), all.len() as int) + concat(remainder(all, this), all.len() as int)
        + closing(all, this)
}

/// The queues after everything has been taken out of them to be woken.
pub open spec fn notified<T>(all: Seq<LocalView<T>>) -> Seq<LocalView<T>> {
    all.map_values(|local: LocalView<T>| local.notified())
}

/// The queues of all threads.
pub struct Locals<T> {
    locals: Vec<Local<T>>,
}

impl<T> View for Locals<T> {
    type V = Seq<LocalView<T>>;

    closed spec fn view(&self) -> Seq<LocalView<T>> {
        Seq::new(self.locals@.len(), |i: int| self.locals@[i]@)
    }
}

impl<T> Locals<T> {
    /// All queues are sound.
    pub closed spec fn wf(self) -> bool {
        forall|i: int| 0 <= i < self.locals@.len() ==> #[trigger] self.locals@[i].wf()
    }

    /// Creates the state in which no thread has a queue yet.
    pub fn new() -> (locals: Self)
        ensures
            locals.wf(),
            locals@ == Seq::<LocalView<T>>::empty(),
    {
        let locals = Self { locals: Vec::new() };
        assert(locals@ =~= Seq::<LocalView<T>>::empty());
        locals
    }

    /// The number of queues.
    pub fn len(&self) -> (len: usize)
        ensures
            len == self@.len(),
    {
        self.locals.len()
    }

    /// There are no more queues than can be counted.
    pub proof fn lemma_len(self)
        ensures
            self@.len() <= usize::MAX,
    {
        assert(self.locals.len() == self@.len());
    }

    /// What holds of the indices of every queue.
    pub proof fn lemma_indices(self, i: int)
        requires
            self.wf(),
            0 <= i < self@.len(),
        ensures
            0 <= self@[i].queue.tail <= self@[i].queue.head() <= u64::MAX,
            0 <= self@[i].watermark <= self@[i].queue.head(),
            self@[i].queue.items.len() <= self@[i].slots,
    {
        self.locals@[i].lemma_indices();
    }

    /// The queue in place `slot`, which is created where it is not there yet.
    pub fn thread_local(&mut self, slot: usize) -> (index: usize)
        requires
            old(self).wf(),
        ensures
            final(self).wf(),
            final(self)@ == settled(old(self)@, slot as int),
            index == settled_index(old(self)@, slot as int),
            index < final(self)@.len(),
    {
        if slot < self.locals.len() {
            slot
        } else {
            let index: usize = self.locals.len();
            self.locals.push(Local::new());
            assert(self@ =~= old(self)@.push(LocalView::empty()));
            index
        }
    }

    /// Whether a task with the given registration has to register anew.
    pub fn needs_to_register(&self, registration: &Registration, will_wake: bool) -> (needs: bool)
        requires
            self.wf(),
        ensures
            needs == needs_to_register(self@, *registration, will_wake),
    {
        let watermark: Option<u64> = match registration.queue {
            Some(i) => if i < self.locals.len() {
                Some(self.locals[i].watermark)
            } else {
                None
            },
            None => None,
        };
        registration.is_outdated(watermark, will_wake)
    }

    /// Puts a value into the queue in place `slot` and notes the registration.
    /// Tells whether there was room for it.
    pub fn enroll(&mut self, registration: &mut Registration, slot: usize, value: T) -> (done: bool)
        requires
            old(self).wf(),
        ensures
            final(self).wf(),
            done == has_room(old(self)@, slot as int),
            enrolled(
                old(self)@,
                *old(registration),
                slot,
                value,
                final(self)@,
                *final(registration),
            ),
    {
        let index: usize = self.thread_local(slot);
        let ghost all = self@;
        proof {
            assert(self.locals@[index as int].wf());
            assert(self.locals@[index as int]@ == all[index as int]);
        }
        if !self.locals[index].queue.can_push() {
            return false;
        }
        let watermark: u64 = self.locals[index].queue.push_local(value);
        proof {
            self.locals@[index as int].queue.lemma_indices();
            assert(self@ =~= all.update(index as int, all[index as int].push(value)));
        }
        registration.watermark = watermark;
        registration.queue = Some(index);
        true
    }

    /// Takes out what the last notification of the queue in place `slot` has
    /// left in it. Nothing that was put in later is taken, so that no task is
    /// starved by later ones.
    pub fn take_local(&mut self, slot: usize) -> (out: Vec<T>)
        requires
            old(self).wf(),
        ensures
            final(self).wf(),
            assisted(old(self)@, slot, final(self)@, out@),
    {
        let index: usize = self.thread_local(slot);
        let ghost all = self@;
        let mut out: Vec<T> = Vec::new();
        proof {
            assert(self.locals@[index as int].wf());
            assert(self.locals@[index as int]@ == all[index as int]);
        }
        self.locals[index].take_own(&mut out);
        proof {
            let local = all[index as int];
            assert(self@ =~= all.update(
                index as int,
                LocalView { queue: local.queue.drain_to(local.watermark), ..local },
            ));
        }
        out
    }

    /// Takes everything out of all queues, in the order in which it is to be
    /// woken. `this_thread` is the queue of the calling thread, if it has one.
    pub fn take_all(&mut self, this_thread: Option<usize>) -> (out: Vec<T>)
        requires
            old(self).wf(),
            this_thread matches Some(i) ==> i < old(self)@.len(),
        ensures
            final(self).wf(),
            notifies(old(self)@, this_thread, final(self)@, out@),
    {
        let ghost all = self@;
        let len: usize = self.locals.len();
        let mut out: Vec<T> = Vec::new();
        let mut queues: Vec<(u64, usize)> = Vec::with_capacity(16);
        proof {
            assert forall|i: int| 0 <= i < len implies #[trigger] all[i] == self.locals@[i]@ by {}
        }

        // Some of every queue first.
        let mut at: usize = 0;
        while at < len
            invariant
                at <= len == self.locals@.len() == all.len() == queues@.len() + (len - at),
                all == old(self)@,
                old(self).wf(),
                self.wf(),
                out@ == concat(opening(all), at as int),
                forall|i: int|
                    0 <= i < at ==> (#[trigger] queues@[i]).0 == all[i].queue.head()
                        && queues@[i].1 == i,
                forall|i: int| 0 <= i < at ==> #[trigger] self.locals@[i]@ == begun(all[i]),
                forall|i: int| at <= i < len ==> #[trigger] self.locals@[i]@ == all[i],
            decreases len - at,
        {
            let ghost local = self.locals@[at as int]@;
            let watermark: u64 = self.locals[at].update_watermark();
            self.locals[at].take_remote(FIRST_BATCH, watermark, &mut out);
            queues.push((watermark, at));
            at += 1;
        }

        // Then the rest of the queues of other threads.
        let ghost first = out@;
        let mut next: usize = 0;
        while next < len
            invariant
                next <= len == self.locals@.len() == all.len() == queues@.len(),
                self.wf(),
                out@ == first + concat(remainder(all, this_thread), next as int),
                forall|i: int|
                    0 <= i < len ==> (#[trigger] queues@[i]).0 == all[i].queue.head()
                        && queues@[i].1 == i,
                forall|i: int|
                    0 <= i < next && this_thread != Some(i as usize)
                        ==> #[trigger] self.locals@[i]@ == all[i].notified(),
                forall|i: int|
                    0 <= i < len && (next <= i || this_thread == Some(i as usize))
                        ==> #[trigger] self.locals@[i]@ == begun(all[i]),
            decreases len - next,
        {
            let (watermark, index) = queues[next];
            let other: bool = match this_thread {
                Some(this) => this != index,
                None => true,
            };
            proof {
                assert(queues@[next as int].1 == next);
                assert(self.locals@[next as int]@ == begun(all[next as int]));
                lemma_begun(all[next as int]);
            }
            if other {
                self.locals[index].take_batches(watermark, &mut out);
            }
            assert(out@ =~= first + concat(remainder(all, this_thread), next + 1));
            next += 1;
        }

        // The queue of this thread comes last.
        if let Some(this) = this_thread {
            let (watermark, index) = queues[this];
            proof {
                assert(queues@[this as int].1 == this);
                assert(self.locals@[this as int]@ == begun(all[this as int]));
                lemma_begun(all[this as int]);
                assert(self.locals@[this as int].wf());
                self.locals@[this as int].queue.lemma_indices();
            }
            self.locals[index].take_remote(u64::MAX, watermark, &mut out);
        }
        proof {
            assert(out@ =~= wake_order(all, this_thread));
            assert forall|i: int| 0 <= i < len implies self@[i] == #[trigger] all[i].notified() by {
                lemma_begun(all[i]);
            }
            assert(self@ =~= notified(all));
        }
        out
    }
}

/// What putting `value` into the queue in place `slot` does: it goes to the end
/// of the queue, and its index and the queue are noted.
pub open spec fn enrolled<T>(
    before: Seq<LocalView<T>>,
    noted: Registration,
    slot: usize,
    value: T,
    after: Seq<LocalView<T>>,
    registration: Registration,
) -> bool {
    let all = settled(before, slot as int);
    let index = settled_index(before, slot as int);
    let local = all[index];
    if local.has_room() {
        &&& after == all.update(index, local.push(value))
        &&& registration.watermark == local.queue.head()
        &&& registration.queue == Some(index as usize)
    } else {
        &&& after == all
        &&& registration == noted
    }
}

/// What notifying does: everything is taken out of the queues, to be woken in
/// order. `this` is the queue of the thread that notifies.
pub open spec fn notifies<T>(
    before: Seq<LocalView<T>>,
    this: Option<usize>,
    after: Seq<LocalView<T>>,
    out: Seq<T>,
) -> bool {
    &&& out == wake_order(before, this)
    &&& after == notified(before)
}

/// What assisting the notifier does: what the last notification has left of the
/// queue in place `slot` is taken out.
pub open spec fn assisted<T>(
    before: Seq<LocalView<T>>,
    slot: usize,
    after: Seq<LocalView<T>>,
    out: Seq<T>,
) -> bool {
    let all = settled(before, slot as int);
    let index = settled_index(before, slot as int);
    let local = all[index];
    &&& out == local.queue.drained(local.watermark)
    &&& after == all.update(
        index,
        LocalView { queue: local.queue.drain_to(local.watermark), ..local },
    )
}

/// What registering does: where it is needed, `value` is put into the queue in
/// place `slot`; otherwise nothing changes.
pub open spec fn registered<T>(
    before: Seq<LocalView<T>>,
    noted: Registration,
    will_wake: bool,
    slot: usize,
    value: T,
    after: Seq<LocalView<T>>,
    registration: Registration,
) -> bool {
    if needs_to_register(before, noted, will_wake) {
        enrolled(before, noted, slot, value, after, registration)
    } else {
        &&& after == before
        &&& registration == noted
    }
}

/// A queue after the first round.
spec fn begun<T>(local: LocalView<T>) -> LocalView<T> {
    LocalView {
        queue: local.queue.advance(first_len(local.queue.items.len() as int)),
        watermark: local.queue.head(),
        ..local
    }
}

/// Taking what the first round leaves of a queue completes its notification.
proof fn lemma_begun<T>(local: LocalView<T>)
    ensures
        ({
            let begun = begun(local);
            let n = begun.queue.items.len() as int;
            &&& begun.queue.items == local.queue.items.skip(
                first_len(local.queue.items.len() as int),
            )
            &&& begun.queue.below(local.queue.head()) == n
            &&& begun.queue.items.take(n) == begun.queue.items
            &&& (LocalView { queue: begun.queue.advance(n), ..begun }) == local.notified()
        }),
{
    let begun = begun(local);
    let n = begun.queue.items.len() as int;
    assert(begun.queue.items.take(n) =~= begun.queue.items);
    assert(begun.queue.items.skip(n) =~= Seq::<T>::empty());
    assert((LocalView { queue: begun.queue.advance(n), ..begun }) =~= local.notified());
}

/// Everything that is in the queues.
pub open spec fn queued<T>(all: Seq<LocalView<T>>) -> spec_fn(int) -> Seq<T> {
    |i: int| all[i].queue.items
}

/// What the first round leaves of queue `i`.
spec fn rest<T>(all: Seq<LocalView<T>>) -> spec_fn(int) -> Seq<T> {
    |i: int| all[i].queue.items.skip(first_len(all[i].queue.items.len() as int))
}

/// Waking all loses nothing and wakes nothing twice: what is woken is exactly
/// what was in the queues.
pub proof fn lemma_woken_once<T>(all: Seq<LocalView<T>>, this: Option<usize>)
    requires
        all.len() <= usize::MAX,
        this matches Some(i) ==> i < all.len(),
    ensures
        wake_order(all, this).to_multiset() == concat(
            queued(all),
            all.len() as int,
        ).to_multiset(),
{
    broadcast use vstd::seq_lib::group_to_multiset_ensures;

    let n = all.len() as int;
    vstd::seq_lib::lemma_multiset_commutative(
        concat(opening(all), n),
        concat(remainder(all, this), n),
    );
    vstd::seq_lib::lemma_multiset_commutative(
        concat(opening(all), n) + concat(remainder(all, this), n),
        closing(all, this),
    );
    lemma_rounds(all, n);
    lemma_remainder(all, this, n);
}

/// The two rounds together take everything out of the first `n` queues.
proof fn lemma_rounds<T>(all: Seq<LocalView<T>>, n: int)
    requires
        0 <= n <= all.len(),
    ensures
        concat(opening(all), n).to_multiset().add(concat(rest(all), n).to_multiset()) == concat(
            queued(all),
            n,
        ).to_multiset(),
    decreases n,
{
    if n > 0 {
        lemma_rounds(all, n - 1);
        let items = all[n - 1].queue.items;
        let k = first_len(items.len() as int);
        assert(items =~= items.take(k) + items.skip(k));
        vstd::seq_lib::lemma_multiset_commutative(items.take(k), items.skip(k));
        vstd::seq_lib::lemma_multiset_commutative(concat(opening(all), n - 1), items.take(k));
        vstd::seq_lib::lemma_multiset_commutative(concat(rest(all), n - 1), items.skip(k));
        vstd::seq_lib::lemma_multiset_commutative(concat(queued(all), n - 1), items);
        assert(concat(opening(all), n).to_multiset().add(concat(rest(all), n).to_multiset())
            =~= concat(queued(all), n).to_multiset());
    } else {
        broadcast use vstd::seq_lib::group_to_multiset_ensures;

        assert(concat(opening(all), n).to_multiset().add(concat(rest(all), n).to_multiset())
            =~= concat(queued(all), n).to_multiset());
    }
}

/// Taking the queue of the notifying thread last changes the order only.
proof fn lemma_remainder<T>(all: Seq<LocalView<T>>, this: Option<usize>, n: int)
    requires
        0 <= n <= all.len() <= usize::MAX,
        this matches Some(i) ==> i < all.len(),
    ensures
        ({
            let last = match this {
                Some(i) => if i < n {
                    closing(all, this)
                } else {
                    Seq::empty()
                },
                None => Seq::empty(),
            };
            concat(remainder(all, this), n).to_multiset().add(last.to_multiset()) == concat(
                rest(all),
                n,
            ).to_multiset()
        }),
    decreases n,
{
    broadcast use vstd::seq_lib::group_to_multiset_ensures;

    if n > 0 {
        lemma_remainder(all, this, n - 1);
        let one = remainder(all, this)(n - 1);
        let whole = rest(all)(n - 1);
        vstd::seq_lib::lemma_multiset_commutative(concat(remainder(all, this), n - 1), one);
        vstd::seq_lib::lemma_multiset_commutative(concat(rest(all), n - 1), whole);
    }
    let last = match this {
        Some(i) => if i < n {
            closing(all, this)
        } else {
            Seq::empty()
        },
        None => Seq::empty(),
    };
    assert(concat(remainder(all, this), n).to_multiset().add(last.to_multiset()) =~= concat(
        rest(all),
        n,
    ).to_multiset());
}

/// Whatever is in some queue is woken.
pub proof fn lemma_all_woken<T>(all: Seq<LocalView<T>>, this: Option<usize>, i: int, value: T)
    requires
        all.len() <= usize::MAX,
        this matches Some(i) ==> i < all.len(),
        0 <= i < all.len(),
        all[i].queue.items.contains(value),
    ensures
        wake_order(all, this).contains(value),
{
    broadcast use vstd::seq_lib::group_to_multiset_ensures;

    lemma_woken_once(all, this);
    lemma_in_concat(queued(all), all.len() as int, i, value);
    assert(concat(queued(all), all.len() as int).to_multiset().count(value) > 0);
    assert(wake_order(all, this).to_multiset().count(value) > 0);
}

proof fn lemma_in_concat<T>(f: spec_fn(int) -> Seq<T>, n: int, i: int, value: T)
    requires
        0 <= i < n,
        f(i).contains(value),
    ensures
        concat(f, n).contains(value),
    decreases n,
{
    if i < n - 1 {
        lemma_in_concat(f, n - 1, i, value);
        let first = concat(f, n - 1);
        let at = choose|at: int| 0 <= at < first.len() && first[at] == value;
        assert(concat(f, n)[at] == value);
    } else {
        let last = f(i);
        let at = choose|at: int| 0 <= at < last.len() && last[at] == value;
        assert(concat(f, n)[concat(f, n - 1).len() + at] == value);
    }
}

/// Where the elements of `f(i)` are.
proof fn lemma_concat_at<T>(f: spec_fn(int) -> Seq<T>, n: int, i: int, k: int)
    requires
        0 <= i < n,
        0 <= k < f(i).len(),
    ensures
        concat(f, i).len() + k < concat(f, n).len(),
        concat(f, n)[concat(f, i).len() + k] == f(i)[k],
    decreases n,
{
    if i < n - 1 {
        lemma_concat_at(f, n - 1, i, k);
    }
}

/// When value number `k` of queue `i` is woken.
spec fn turn<T>(all: Seq<LocalView<T>>, this: Option<usize>, i: int, k: int) -> int {
    let n = all.len() as int;
    let first = first_len(all[i].queue.items.len() as int);
    let opened = concat(opening(all), n).len();
    if k < first {
        concat(opening(all), i).len() + k
    } else if this == Some(i as usize) {
        opened + concat(remainder(all, this), n).len() + (k - first)
    } else {
        opened + concat(remainder(all, this), i).len() + (k - first)
    }
}

proof fn lemma_turn<T>(all: Seq<LocalView<T>>, this: Option<usize>, i: int, k: int)
    requires
        all.len() <= usize::MAX,
        this matches Some(i) ==> i < all.len(),
        0 <= i < all.len(),
        0 <= k < all[i].queue.items.len(),
    ensures
        0 <= turn(all, this, i, k) < wake_order(all, this).len(),
        wake_order(all, this)[turn(all, this, i, k)] == all[i].queue.items[k],
        k < first_len(all[i].queue.items.len() as int) ==> turn(all, this, i, k) < concat(
            opening(all),
            all.len() as int,
        ).len(),
{
    let n = all.len() as int;
    let first = first_len(all[i].queue.items.len() as int);
    if k < first {
        lemma_concat_at(opening(all), n, i, k);
    } else if this != Some(i as usize) {
        lemma_concat_at(remainder(all, this), n, i, k - first);
    }
}

/// The tasks of a queue are woken in the order in which they were put into it.
pub proof fn lemma_order_kept<T>(
    all: Seq<LocalView<T>>,
    this: Option<usize>,
    i: int,
    earlier: int,
    later: int,
)
    requires
        all.len() <= usize::MAX,
        this matches Some(i) ==> i < all.len(),
        0 <= i < all.len(),
        0 <= earlier < later < all[i].queue.items.len(),
    ensures
        exists|p: int, q: int|
            {
                &&& 0 <= p < q < wake_order(all, this).len()
                &&& #[trigger] wake_order(all, this)[p] == all[i].queue.items[earlier]
                &&& #[trigger] wake_order(all, this)[q] == all[i].queue.items[later]
            },
{
    lemma_turn(all, this, i, earlier);
    lemma_turn(all, this, i, later);
    let p = turn(all, this, i, earlier);
    let q = turn(all, this, i, later);
    assert(p < q);
    assert(wake_order(all, this)[p] == all[i].queue.items[earlier]);
    assert(wake_order(all, this)[q] == all[i].queue.items[later]);
}

/// The thread that notifies wakes the first tasks of every queue before any others, and
/// what is left of its own queue last of all.
pub proof fn lemma_own_queue_last<T>(all: Seq<LocalView<T>>, this: usize, i: int, k: int)
    requires
        all.len() <= usize::MAX,
        this < all.len(),
        0 <= i < all.len(),
        0 <= k < all[i].queue.items.len(),
    ensures
        ({
            let woken = wake_order(all, Some(this));
            let own = all[this as int].queue.items.skip(FIRST_BATCH as int);
            let last = if all[this as int].queue.items.len() > FIRST_BATCH {
                own.len() as int
            } else {
                0
            };
            &&& last <= woken.len()
            &&& last > 0 ==> woken.skip(woken.len() - last) == own
            &&& i != this || k < FIRST_BATCH ==> exists|p: int|
                0 <= p < woken.len() - last && #[trigger] woken[p] == all[i].queue.items[k]
        }),
{
    let woken = wake_order(all, Some(this));
    let own = closing(all, Some(this));
    assert(woken.skip(woken.len() - own.len()) =~= own);
    lemma_turn(all, Some(this), i, k);
    let p = turn(all, Some(this), i, k);
    if i != this || k < FIRST_BATCH {
        let n = all.len() as int;
        let first = first_len(all[i].queue.items.len() as int);
        if k >= first {
            lemma_concat_at(remainder(all, Some(this)), n, i, k - first);
        }
        assert(0 <= p < woken.len() - own.len());
        assert(woken[p] == all[i].queue.items[k]);
    }
}

/// Queues that agree make the same sequence.
proof fn lemma_concat_same<T>(f: spec_fn(int) -> Seq<T>, g: spec_fn(int) -> Seq<T>, n: int)
    requires
        forall|i: int| 0 <= i < n ==> #[trigger] f(i) == g(i),
    ensures
        concat(f, n) == concat(g, n),
    decreases n,
{
    if n > 0 {
        lemma_concat_same(f, g, n - 1);
        assert(f(n - 1) == g(n - 1));
    }
}

/// Putting `value` into queue `index` adds it, once, to what the first `n` queues
/// hold, where that is one of them.
proof fn lemma_one_more<T>(all: Seq<LocalView<T>>, index: int, value: T, n: int)
    requires
        0 <= index < all.len(),
        0 <= n <= all.len(),
    ensures
        ({
            let more = all.update(index, all[index].push(value));
            concat(queued(more), n).to_multiset() == if index < n {
                concat(queued(all), n).to_multiset().insert(value)
            } else {
                concat(queued(all), n).to_multiset()
            }
        }),
    decreases n,
{
    broadcast use vstd::seq_lib::group_to_multiset_ensures;

    let more = all.update(index, all[index].push(value));
    if n > 0 {
        lemma_one_more(all, index, value, n - 1);
        let items = all[n - 1].queue.items;
        vstd::seq_lib::lemma_multiset_commutative(concat(queued(all), n - 1), items);
        vstd::seq_lib::lemma_multiset_commutative(
            concat(queued(more), n - 1),
            more[n - 1].queue.items,
        );
        assert(concat(queued(more), n).to_multiset() =~= if index < n {
            concat(queued(all), n).to_multiset().insert(value)
        } else {
            concat(queued(all), n).to_multiset()
        });
    }
}

/// Putting a value into a queue adds it, once, to what all queues hold. Where there is
/// no room, they hold what they held.
pub proof fn lemma_enrolled_adds<T>(
    before: Seq<LocalView<T>>,
    noted: Registration,
    slot: usize,
    value: T,
    after: Seq<LocalView<T>>,
    registration: Registration,
)
    requires
        enrolled(before, noted, slot, value, after, registration),
    ensures
        concat(queued(after), after.len() as int).to_multiset() == if has_room(
            before,
            slot as int,
        ) {
            concat(queued(before), before.len() as int).to_multiset().insert(value)
        } else {
            concat(queued(before), before.len() as int).to_multiset()
        },
{
    let all = settled(before, slot as int);
    let index = settled_index(before, slot as int);
    let n = before.len() as int;
    lemma_one_more(all, index, value, all.len() as int);
    lemma_concat_same(queued(all), queued(before), n);
    if slot >= n {
        assert(concat(queued(all), n + 1) =~= concat(queued(all), n));
    }
}

/// Assisting where nothing is left of the last notification takes nothing.
pub proof fn lemma_nothing_to_assist<T>(
    before: Seq<LocalView<T>>,
    slot: usize,
    after: Seq<LocalView<T>>,
    out: Seq<T>,
)
    requires
        assisted(before, slot, after, out),
        forall|i: int|
            0 <= i < before.len() ==> (#[trigger] before[i]).watermark <= before[i].queue.tail,
    ensures
        out.len() == 0,
        concat(queued(after), after.len() as int) == concat(queued(before), before.len() as int),
        forall|i: int|
            0 <= i < after.len() ==> (#[trigger] after[i]).watermark <= after[i].queue.tail,
{
    let all = settled(before, slot as int);
    let index = settled_index(before, slot as int);
    let n = before.len() as int;
    assert(all[index].queue.items.skip(0) =~= all[index].queue.items);
    assert(all[index].queue.drain_to(all[index].watermark) == all[index].queue);
    assert(after =~= all);
    lemma_concat_same(queued(all), queued(before), n);
    if slot >= n {
        assert(concat(queued(all), n + 1) =~= concat(queued(all), n));
    }
}

/// Queues from which all has been taken hold nothing.
pub proof fn lemma_notified_empty<T>(all: Seq<LocalView<T>>, n: int)
    requires
        0 <= n <= all.len(),
    ensures
        concat(queued(notified(all)), n) == Seq::<T>::empty(),
    decreases n,
{
    if n > 0 {
        lemma_notified_empty(all, n - 1);
        assert(concat(queued(notified(all)), n) =~= Seq::<T>::empty());
    }
}

/// A task that has registered is woken exactly once more by the next notification,
/// whichever threads notify. It need not register again before that, but has to
/// after it.
pub proof fn lemma_registered_until_notified<T>(
    before: Locals<T>,
    noted: Registration,
    slot: usize,
    value: T,
    after: Seq<LocalView<T>>,
    registration: Registration,
    this: Option<usize>,
    that: Option<usize>,
    will_wake: bool,
)
    requires
        before.wf(),
        before@.len() < usize::MAX,
        has_room(before@, slot as int),
        enrolled(before@, noted, slot, value, after, registration),
        this matches Some(i) ==> i < after.len(),
        that matches Some(i) ==> i < before@.len(),
    ensures
        wake_order(after, this).to_multiset() == wake_order(before@, that).to_multiset().insert(
            value,
        ),
        !needs_to_register(after, registration, true),
        needs_to_register(notified(after), registration, will_wake),
{
    let all = settled(before@, slot as int);
    let index = settled_index(before@, slot as int);
    let n = before@.len() as int;
    if slot < n {
        before.lemma_indices(slot as int);
    }
    lemma_woken_once(after, this);
    lemma_woken_once(before@, that);
    lemma_one_more(all, index, value, all.len() as int);
    lemma_concat_same(queued(all), queued(before@), n);
    if slot >= n {
        assert(concat(queued(all), n + 1) =~= concat(queued(all), n));
    }
}

/// Whether a task registers again while its waker is still good.
pub open spec fn registers_again<T>(
    before: Seq<LocalView<T>>,
    noted: Registration,
    after: Seq<LocalView<T>>,
    registration: Registration,
) -> bool {
    exists|slot: usize, value: T| #[trigger]
        registered(before, noted, true, slot, value, after, registration)
}

/// Whether another task registers.
pub open spec fn another_registers<T>(
    before: Seq<LocalView<T>>,
    after: Seq<LocalView<T>>,
) -> bool {
    exists|noted: Registration, slot: usize, value: T, registration: Registration| #[trigger]
        enrolled(before, noted, slot, value, after, registration)
}

/// Whether some task assists the notifier.
pub open spec fn another_assists<T>(before: Seq<LocalView<T>>, after: Seq<LocalView<T>>) -> bool {
    exists|slot: usize, out: Seq<T>| #[trigger] assisted(before, slot, after, out)
}

/// Whether step number `i` is one of a task registering again, or of others doing
/// anything but notify.
pub open spec fn repeats_at<T>(
    states: Seq<Seq<LocalView<T>>>,
    notes: Seq<Registration>,
    i: int,
) -> bool {
    ||| registers_again(states[i], notes[i], states[i + 1], notes[i + 1])
    ||| {
        &&& another_registers(states[i], states[i + 1]) || another_assists(
            states[i],
            states[i + 1],
        )
        &&& notes[i + 1] == notes[i]
    }
}

/// However often a task that is registered registers again before the next
/// notification, and whatever others do meanwhile, it puts nothing into any queue:
/// it will be woken once.
pub proof fn lemma_registers_once<T>(states: Seq<Seq<LocalView<T>>>, notes: Seq<Registration>)
    requires
        states.len() == notes.len(),
        states.len() > 0,
        !needs_to_register(states[0], notes[0], true),
        forall|i: int| 0 <= i < states.len() - 1 ==> #[trigger] repeats_at(states, notes, i),
    ensures
        notes.last() == notes[0],
        !needs_to_register(states.last(), notes.last(), true),
        forall|i: int|
            0 <= i < states.len() - 1 && #[trigger] registers_again(
                states[i],
                notes[i],
                states[i + 1],
                notes[i + 1],
            ) ==> states[i + 1] == states[i],
    decreases states.len(),
{
    if states.len() > 1 {
        let n = states.len() - 1;
        let earlier = states.drop_last();
        let noted = notes.drop_last();
        assert forall|i: int| 0 <= i < n - 1 implies #[trigger] repeats_at(earlier, noted, i) by {
            assert(repeats_at(states, notes, i));
        }
        lemma_registers_once(earlier, noted);
        assert(repeats_at(states, notes, n - 1));
        let before = states[n - 1];
        let after = states[n];
        let kept = notes[n - 1];
        if !registers_again(before, kept, after, notes[n]) {
            if another_registers(before, after) {
                let (other, slot, value, registration) = choose|
                    other: Registration,
                    slot: usize,
                    value: T,
                    registration: Registration,
                | #[trigger]
                    enrolled(before, other, slot, value, after, registration);
                lemma_registration_kept(
                    before,
                    other,
                    slot,
                    value,
                    after,
                    registration,
                    Seq::empty(),
                    kept,
                    true,
                );
            } else {
                let (slot, out) = choose|slot: usize, out: Seq<T>| #[trigger]
                    assisted(before, slot, after, out);
                assert(needs_to_register(after, kept, true) == needs_to_register(
                    before,
                    kept,
                    true,
                ));
            }
        }
        assert forall|i: int|
            0 <= i < n && #[trigger] registers_again(
                states[i],
                notes[i],
                states[i + 1],
                notes[i + 1],
            ) implies states[i + 1] == states[i] by {
            if i < n - 1 {
                assert(registers_again(earlier[i], noted[i], earlier[i + 1], noted[i + 1]));
            }
        }
    }
}

/// A task that assists the notifier wakes only tasks that the last notification
/// was for: one that registers later is not woken before the next.
pub proof fn lemma_later_not_assisted<T>(local: LocalView<T>, value: T)
    requires
        local.watermark <= local.queue.head(),
    ensures
        local.queue.push(value).drained(local.watermark) == local.queue.drained(local.watermark),
{
    assert(local.queue.push(value).drained(local.watermark) =~= local.queue.drained(
        local.watermark,
    ));
}

/// Neither the registration of another task nor assisting the notifier changes
/// whether a task has to register.
pub proof fn lemma_registration_kept<T>(
    before: Seq<LocalView<T>>,
    noted: Registration,
    slot: usize,
    value: T,
    after: Seq<LocalView<T>>,
    registration: Registration,
    out: Seq<T>,
    kept: Registration,
    will_wake: bool,
)
    requires
        enrolled(before, noted, slot, value, after, registration) || assisted(
            before,
            slot,
            after,
            out,
        ),
        kept.queue matches Some(i) ==> i < before.len(),
    ensures
        needs_to_register(after, kept, will_wake) == needs_to_register(before, kept, will_wake),
{
}

} // verus!
