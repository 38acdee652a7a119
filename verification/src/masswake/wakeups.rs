//! An account of the tasks that are woken.

use std::task::Waker;

use vstd::prelude::*;

verus! {

/// The wake-ups that have been made, in order. An account of a wake-up can only be
/// had by making it.
pub struct Wakes {
    made: Ghost<Seq<Waker>>,
}

impl View for Wakes {
    type V = Seq<Waker>;

    closed spec fn view(&self) -> Seq<Waker> {
        self.made@
    }
}

impl Wakes {
    /// No task has been woken yet.
    pub(crate) fn new() -> (wakes: Self)
        ensures
            wakes@ == Seq::<Waker>::empty(),
    {
        Wakes { made: Ghost(Seq::empty()) }
    }

    /// Wakes a task.
    pub(crate) fn make(&mut self, waker: Waker)
        ensures
            final(self)@ == old(self)@.push(waker),
    {
        let ghost woken = waker;
        waker.wake();
        self.made = Ghost(self.made@.push(woken));
    }
}

/// Whether `same` is what came of comparing the tasks that two wakers wake.
pub closed spec fn compared(waker: Waker, other: Waker, same: bool) -> bool {
    same ==> waker == other
}

/// Compares the tasks that two wakers wake.
pub(crate) fn compare(waker: &Waker, other: &Waker) -> (same: bool)
    ensures
        same ==> *waker == *other,
        compared(*waker, *other, same),
{
    waker.will_wake(other)
}

/// Whether these tasks have been woken, in this order and without any other in
/// between.
pub open spec fn were_woken(wakers: Seq<Waker>) -> bool {
    exists|wakes: Wakes| #[trigger] wakes@ == wakers
}

} // verus!
