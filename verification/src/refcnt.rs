//! Shared pointers, those of the triomphe crate above all, and what is relied on of
//! them.

use triomphe::{Arc, UniqueArc};
use vstd::prelude::*;
use vstd::std_specs::convert::FromSpec;

verus! {

/// `triomphe::Arc`, a pointer to a value that is shared by counting references.
#[verifier::external_type_specification]
#[verifier::external_body]
#[verifier::reject_recursive_types(T)]
pub struct ExArc<T: ?Sized>(Arc<T>);

/// The value that `arc` points to: the one that `Arc::from` makes it of.
pub open spec fn held<T>(arc: Arc<T>) -> T {
    choose|value: T| arc == <Arc<T> as FromSpec<T>>::from_spec(value)
}

/// `triomphe::Arc::new` makes a pointer to the value that it is given.
pub assume_specification<T>[ Arc::<T>::new ](data: T) -> (arc: Arc<T>)
    ensures
        held(arc) == data,
;

/// `triomphe::Arc::clone` makes another pointer to the same value.
pub assume_specification<T: ?Sized>[ <Arc<T> as Clone>::clone ](arc: &Arc<T>) -> (copy: Arc<T>)
    ensures
        copy == *arc,
;

/// `triomphe::Arc::count` tells how many pointers to the value there are. How
/// many others there are depends on what the rest of the program holds; the one
/// asked is counted too.
pub assume_specification<T: ?Sized>[ Arc::<T>::count ](this: &Arc<T>) -> (count: usize)
    ensures
        count >= 1,
;

/// `triomphe::Arc::deref` gives access to the value.
#[verifier::external_body]
pub(crate) fn value<T>(arc: &Arc<T>) -> (value: &T)
    ensures
        *value == held(*arc),
{
    arc
}

/// `triomphe::Arc::get_mut` gives exclusive access to the value, where there is
/// no other pointer to it. Whether there is one depends on what the rest of the
/// program holds.
#[verifier::external_body]
pub(crate) fn get_mut<T>(arc: &mut Arc<T>) -> (value: Option<&mut T>)
    ensures
        match value {
            Some(value) => *value == held(*old(arc)) && held(*final(arc)) == *final(value),
            None => *final(arc) == *old(arc),
        },
{
    Arc::get_mut(arc)
}

/// `triomphe::Arc::into_unique` and `UniqueArc::into_inner` give the value, where
/// this is the last pointer to it. Where there are others, the pointer is dropped;
/// whether there are depends on what the rest of the program holds.
#[verifier::external_body]
pub(crate) fn into_inner<T>(arc: Arc<T>) -> (value: Option<T>)
    ensures
        value matches Some(value) ==> value == held(arc),
{
    Arc::into_unique(arc).map(UniqueArc::into_inner)
}

/// `std::sync::Arc::into_inner` gives the value, where this is the last pointer to
/// it. Where there are others, the pointer is dropped; whether there are depends
/// on what the rest of the program holds.
#[verifier::external_body]
pub(crate) fn std_into_inner<T>(arc: std::sync::Arc<T>) -> (value: Option<T>)
    ensures
        value matches Some(value) ==> value == *arc,
{
    std::sync::Arc::into_inner(arc)
}

/// `std::sync::Arc::strong_count` tells how many pointers to the value there are.
/// How many others there are depends on what the rest of the program holds; the one
/// asked is counted too.
#[verifier::external_body]
pub(crate) fn std_count<T>(arc: &std::sync::Arc<T>) -> (count: usize)
    ensures
        count >= 1,
{
    std::sync::Arc::strong_count(arc)
}

/// Whether there were `count` pointers to the value that `arc` points to when they
/// were counted.
pub closed spec fn counted<T>(arc: Arc<T>, count: usize) -> bool {
    count >= 1
}

/// Counts the pointers to a value.
pub(crate) fn shares<T>(arc: &Arc<T>) -> (count: usize)
    ensures
        count >= 1,
        counted(*arc, count),
{
    Arc::count(arc)
}

/// Whether `arc` has been given up, as the last pointer to its value or not.
pub closed spec fn released<T>(arc: Arc<T>, value: Option<T>) -> bool {
    value matches Some(value) ==> value == held(arc)
}

/// Gives a pointer up. The value comes out where it was the last.
pub(crate) fn release<T>(arc: Arc<T>) -> (value: Option<T>)
    ensures
        value matches Some(value) ==> value == held(arc),
        released(arc, value),
{
    into_inner(arc)
}

/// Whether a pointer to `held` has been given up, as the last one or not.
pub closed spec fn std_released<T>(held: T, value: Option<T>) -> bool {
    value matches Some(value) ==> value == held
}

/// Gives a pointer up. The value comes out where it was the last.
pub(crate) fn std_release<T>(arc: std::sync::Arc<T>) -> (value: Option<T>)
    ensures
        value matches Some(value) ==> value == *arc,
        std_released(*arc, value),
{
    std_into_inner(arc)
}

/// Whether there were `count` pointers to `value` when they were counted.
pub closed spec fn std_counted<T>(value: T, count: usize) -> bool {
    count >= 1
}

/// Counts the pointers to a value.
pub(crate) fn std_shares<T>(arc: &std::sync::Arc<T>) -> (count: usize)
    ensures
        count >= 1,
        std_counted(**arc, count),
{
    std_count(arc)
}

/// A value that has been replaced: the value itself, or the pointer to it where
/// there are others.
#[verifier::reject_recursive_types(T)]
enum Replaced<T> {
    Value(T),
    Shared(Arc<T>),
}

impl<T> Replaced<T> {
    spec fn value(self) -> T {
        match self {
            Replaced::Value(value) => value,
            Replaced::Shared(arc) => held(arc),
        }
    }
}

/// Makes pointers to new values out of those to old ones, and keeps the values
/// that have been replaced until they are dropped.
#[verifier::reject_recursive_types(T)]
pub struct ArcCache<T> {
    replaced: Vec<Replaced<T>>,
}

impl<T> View for ArcCache<T> {
    type V = Seq<T>;

    /// The values that have been replaced and not been dropped yet, in order.
    closed spec fn view(&self) -> Seq<T> {
        Seq::new(self.replaced@.len(), |i: int| self.replaced@[i].value())
    }
}

impl<T> ArcCache<T> {
    /// Creates one that keeps no value.
    pub fn new() -> (cache: Self)
        ensures
            cache@ == Seq::<T>::empty(),
    {
        let cache = Self { replaced: Vec::new() };
        assert(cache@ =~= Seq::<T>::empty());
        cache
    }

    /// Moves `value` into an `Arc`, reusing the memory of `prev` where nothing
    /// else points to it. The value that `prev` held is kept.
    pub fn refill(&mut self, prev: Option<Arc<T>>, value: T) -> (arc: Arc<T>)
        ensures
            held(arc) == value,
            final(self)@ == match prev {
                Some(prev) => old(self)@.push(held(prev)),
                None => old(self)@,
            },
    {
        let mut arc = match prev {
            Some(arc) => arc,
            None => {
                return Arc::new(value);
            },
        };
        let ghost before = held(arc);
        let mut value = value;
        match get_mut(&mut arc) {
            Some(slot) => {
                std::mem::swap(slot, &mut value);
            },
            None => {
                self.replaced.push(Replaced::Shared(arc));
                assert(self@ =~= old(self)@.push(before));
                return Arc::new(value);
            },
        }
        self.replaced.push(Replaced::Value(value));
        assert(self@ =~= old(self)@.push(before));
        arc
    }

    /// Drops the values that have been replaced.
    pub fn clear(&mut self)
        ensures
            final(self)@ == Seq::<T>::empty(),
    {
        self.replaced = Vec::new();
        assert(self@ =~= Seq::<T>::empty());
    }
}

} // verus!
