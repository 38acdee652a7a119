//! The place of a thread among the queues.

use thread_local::ThreadLocal;
use vstd::prelude::*;

use crate::masswake::notify;

verus! {

/// What has been found to be the place of a thread, at the time. It can only be had
/// by looking it up.
pub struct Place {
    slots: Ghost<ThreadLocal<usize>>,
    slot: Option<usize>,
    offered: Ghost<Option<usize>>,
}

impl Place {
    /// The places that it was looked up in.
    pub closed spec fn slots(self) -> ThreadLocal<usize> {
        self.slots@
    }

    /// The place, if the thread had one.
    pub closed spec fn slot(self) -> Option<usize> {
        self.slot
    }

    /// The place that the thread was to have if it had none.
    pub closed spec fn offered(self) -> Option<usize> {
        self.offered@
    }

    /// Looks up the place of the current thread.
    pub(crate) fn of(slots: &ThreadLocal<usize>) -> (place: Self)
        ensures
            place.slots() == *slots,
            place.offered() is None,
    {
        Place { slots: Ghost(*slots), slot: notify::current_slot(slots), offered: Ghost(None) }
    }

    /// Looks up the place of the current thread, which becomes `slot` where it had
    /// none.
    pub(crate) fn settle(slots: &ThreadLocal<usize>, slot: usize) -> (place: Self)
        ensures
            place.slots() == *slots,
            place.slot() is Some,
            place.offered() == Some(slot),
    {
        let found: usize = notify::slot_or(slots, slot);
        Place { slots: Ghost(*slots), slot: Some(found), offered: Ghost(Some(slot)) }
    }

    /// The place, if the thread had one.
    pub(crate) fn get(&self) -> (slot: Option<usize>)
        ensures
            slot == self.slot(),
    {
        self.slot
    }

    /// The place of a thread that has one.
    pub(crate) fn settled(&self) -> (slot: usize)
        requires
            self.slot() is Some,
        ensures
            self.slot() == Some(slot),
    {
        match self.slot {
            Some(slot) => slot,
            None => 0,
        }
    }
}

} // verus!
