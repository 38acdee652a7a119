//! A cell that holds a shared pointer and can be given another one.

use std::ops::Deref;
use std::sync::Arc;

use vstd::prelude::*;

verus! {

/// A replaceable [`Arc`].
pub struct ArcSwap<T> {
    cell: Arc<T>,
}

impl<T> View for ArcSwap<T> {
    type V = Arc<T>;

    closed spec fn view(&self) -> Arc<T> {
        self.cell
    }
}

impl<T> ArcSwap<T> {
    /// Creates a cell that holds `value`.
    pub fn new(value: Arc<T>) -> (cell: Self)
        ensures
            cell@ == value,
    {
        Self { cell: value }
    }

    /// The pointer held, for a short time.
    pub fn load(&self) -> (guard: Guard<Arc<T>>)
        ensures
            guard@ == self@,
    {
        Guard(self.load_full())
    }

    /// A copy of the pointer held.
    pub fn load_full(&self) -> (value: Arc<T>)
        ensures
            value == self@,
    {
        self.cell.clone()
    }

    /// Replaces the pointer held.
    pub fn store(&mut self, value: Arc<T>)
        ensures
            final(self)@ == value,
    {
        self.cell = value;
    }
}

/// A pointer read from an [`ArcSwap`].
pub struct Guard<T>(T);

impl<T> View for Guard<T> {
    type V = T;

    closed spec fn view(&self) -> T {
        self.0
    }
}

impl<T> Deref for Guard<Arc<T>> {
    type Target = T;

    fn deref(&self) -> (value: &T)
        ensures
            *value == *self@,
    {
        &self.0
    }
}

/// A cell holds the pointer that was last stored in it, or the one that it was made
/// with: `states` are those of a cell in which the pointers in `stores` are stored
/// one after the other.
pub proof fn lemma_last_stored<T>(states: Seq<ArcSwap<T>>, stores: Seq<Arc<T>>)
    requires
        states.len() == stores.len() + 1,
        forall|i: int| 0 <= i < stores.len() ==> states[i + 1]@ == #[trigger] stores[i],
    ensures
        states.last()@ == if stores.len() == 0 {
            states[0]@
        } else {
            stores.last()
        },
{
    if stores.len() > 0 {
        assert(states[stores.len() - 1 + 1]@ == stores[stores.len() - 1]);
    }
}

} // verus!
