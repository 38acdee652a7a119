//! The receiving half of a broadcast channel.

use std::fmt::{Debug, Formatter};
use std::marker::PhantomData;
use std::ops::Deref;
use std::task::Context;

use triomphe::Arc;
use vstd::prelude::*;

use crate::arcbuf::IndexError;
use crate::error::{RecvError, TryRecvError};
use crate::masswake::notify;
use crate::masswake::notify::Interest;
use crate::refcnt;
use crate::shared;
use crate::shared::{Channel, GetError, Shared, SharedView};
use crate::text;

verus! {

/// An owned version of [`Guard`].
///
/// This is a type alias of `triomphe::Arc`, so that users can refer to it
/// without having to depend on triomphe directly.
pub type OwnedGuard<T> = Arc<T>;

/// A reference to a value stored within a broadcast channel.
///
/// To store it for a longer period of time, convert it into its
/// [`OwnedGuard`] by calling [`Guard::into_inner`].
#[verifier::reject_recursive_types(T)]
pub struct Guard<'a, T> {
    guard: Arc<T>,
    _marker: PhantomData<&'a ()>,
}

impl<'a, T> View for Guard<'a, T> {
    type V = T;

    /// The value referred to.
    open spec fn view(&self) -> T {
        refcnt::held(self.owned())
    }
}

impl<'a, T> Guard<'a, T> {
    /// The pointer to the value.
    pub closed spec fn owned(self) -> OwnedGuard<T> {
        self.guard
    }

    pub(crate) fn new(guard: Arc<T>) -> (this: Self)
        ensures
            this.owned() == guard,
    {
        Self { guard, _marker: PhantomData }
    }

    /// Converts this `Guard` into its inner `OwnedGuard`.
    pub fn into_inner(this: Self) -> (guard: OwnedGuard<T>)
        ensures
            guard == this.owned(),
            refcnt::held(guard) == this@,
    {
        this.guard
    }
}

impl<'a, T> From<Guard<'a, T>> for Arc<T> {
    fn from(value: Guard<'a, T>) -> (guard: Self) {
        Guard::into_inner(value)
    }
}

impl<'a, T> vstd::std_specs::convert::FromSpecImpl<Guard<'a, T>> for Arc<T> {
    open spec fn obeys_from_spec() -> bool {
        true
    }

    open spec fn from_spec(value: Guard<'a, T>) -> Self {
        value.owned()
    }
}

impl<'a, T> Deref for Guard<'a, T> {
    type Target = T;

    fn deref(&self) -> (value: &T)
        ensures
            *value == self@,
    {
        refcnt::value(&self.guard)
    }
}

impl<'a, T: Debug> Debug for Guard<'a, T> {
    /// Writes the value out.
    fn fmt(&self, f: &mut Formatter<'_>) -> (r: Result<(), std::fmt::Error>) {
        text::debug(refcnt::value(&self.guard), f)
    }
}

/// What polling gives: a result, or nothing yet.
#[derive(Debug, PartialEq, Eq)]
pub enum Poll<T> {
    /// The result is there.
    Ready(T),
    /// The result is not there yet.
    Pending,
}

/// What a receiver at position `watermark` gets without waiting.
pub open spec fn tried<T>(channel: SharedView<T>, watermark: int) -> Result<T, TryRecvError> {
    match channel.received(watermark) {
        Ok(value) => Ok(value),
        Err(GetError::Closed) => Err(TryRecvError::Closed),
        Err(GetError::Index(IndexError::Outdated(skipped))) => Err(TryRecvError::Lagged(skipped)),
        Err(GetError::Index(IndexError::Invalid)) => Err(TryRecvError::Empty),
    }
}

/// What a receiver at position `watermark` gets when it is polled.
pub open spec fn polled<T>(channel: SharedView<T>, watermark: int) -> Poll<Result<T, RecvError>> {
    match channel.received(watermark) {
        Ok(value) => Poll::Ready(Ok(value)),
        Err(GetError::Closed) => Poll::Ready(Err(RecvError::Closed)),
        Err(GetError::Index(IndexError::Outdated(skipped))) => Poll::Ready(
            Err(RecvError::Lagged(skipped)),
        ),
        Err(GetError::Index(IndexError::Invalid)) => Poll::Pending,
    }
}

/// Whether the results are the same, but that one holds the shared value.
pub open spec fn same_poll<T>(
    shared: Poll<Result<Arc<T>, RecvError>>,
    plain: Poll<Result<T, RecvError>>,
) -> bool {
    match shared {
        Poll::Ready(Ok(value)) => plain == Poll::<Result<T, RecvError>>::Ready(
            Ok(refcnt::held(value)),
        ),
        Poll::Ready(Err(e)) => plain == Poll::<Result<T, RecvError>>::Ready(Err(e)),
        Poll::Pending => plain == Poll::<Result<T, RecvError>>::Pending,
    }
}

/// The result of trying to receive, given what the channel holds.
pub fn try_result<T>(received: Result<Arc<T>, GetError>) -> (r: Result<Arc<T>, TryRecvError>)
    ensures
        r == match received {
            Ok(guard) => Ok(guard),
            Err(GetError::Closed) => Err(TryRecvError::Closed),
            Err(GetError::Index(IndexError::Outdated(skipped))) => Err(
                TryRecvError::Lagged(skipped),
            ),
            Err(GetError::Index(IndexError::Invalid)) => Err(TryRecvError::Empty),
        },
{
    match received {
        Ok(guard) => Ok(guard),
        Err(GetError::Closed) => Err(TryRecvError::Closed),
        Err(GetError::Index(IndexError::Outdated(skipped))) => Err(TryRecvError::Lagged(skipped)),
        Err(GetError::Index(IndexError::Invalid)) => Err(TryRecvError::Empty),
    }
}

/// The result of polling, given what the channel holds.
pub fn poll_result<T>(received: Result<Arc<T>, GetError>) -> (r: Poll<Result<Arc<T>, RecvError>>)
    ensures
        r == match received {
            Ok(guard) => Poll::Ready(Ok(guard)),
            Err(GetError::Closed) => Poll::Ready(Err(RecvError::Closed)),
            Err(GetError::Index(IndexError::Outdated(skipped))) => Poll::Ready(
                Err(RecvError::Lagged(skipped)),
            ),
            Err(GetError::Index(IndexError::Invalid)) => Poll::Pending,
        },
{
    Poll::Ready(
        match received {
            Ok(guard) => Ok(guard),
            Err(GetError::Closed) => Err(RecvError::Closed),
            Err(GetError::Index(IndexError::Outdated(skipped))) => Err(RecvError::Lagged(skipped)),
            Err(GetError::Index(IndexError::Invalid)) => return Poll::Pending,
        },
    )
}

/// The receiving half of a broadcast channel.
#[verifier::reject_recursive_types(T)]
pub struct Receiver<T> {
    channel: Arc<Channel<T>>,
    interest: Interest,
    watermark: u64,
}

impl<T> Receiver<T> {
    /// The channel that this receives from.
    pub open spec fn channel(self) -> Channel<T> {
        refcnt::held(self.pointer())
    }

    /// The pointer to that channel.
    pub closed spec fn pointer(self) -> Arc<Channel<T>> {
        self.channel
    }

    /// The interest in being woken when something is sent.
    pub closed spec fn interest(self) -> Interest {
        self.interest
    }

    /// Whether the interest is in what this very channel sends.
    pub open spec fn listens(self) -> bool {
        self.interest().queues() == self.channel().queues()
    }

    /// The number of the next value to be received.
    pub closed spec fn watermark(self) -> int {
        self.watermark as int
    }

    /// Creates a receiver of the values that are sent from now on.
    pub(crate) fn new(channel: Arc<Channel<T>>) -> (receiver: Self)
        ensures
            receiver.channel() == refcnt::held(channel),
            receiver.listens(),
            !receiver.interest().is_registered(),
            exists|shared: Shared<T>|
                {
                    &&& receiver.channel().admits(shared)
                    &&& receiver.channel().seen(shared, ())
                    &&& receiver.watermark() == #[trigger] shared@.newcomer()
                },
    {
        let watermark: u64 = refcnt::value(&channel).head();
        let interest = refcnt::value(&channel).interest();
        Self { channel, interest, watermark }
    }

    /// Receives the next value, if the channel holds it.
    fn receive(&mut self) -> (r: Result<Arc<T>, GetError>)
        requires
            old(self).channel().capacity() > 0,
        ensures
            final(self).channel() == old(self).channel(),
            final(self).interest() == old(self).interest(),
            exists|shared: Shared<T>|
                {
                    &&& old(self).channel().admits(shared)
                    &&& shared::same(r, shared@.received(old(self).watermark()))
                    &&& final(self).watermark() == #[trigger] shared@.position(
                        old(self).watermark(),
                    )
                },
            exists|shared: Shared<T>, gone: bool|
                {
                    let channel = shared::closed_if(shared@, gone);
                    &&& old(self).channel().admits(shared)
                    &&& #[trigger] old(self).channel().seen(shared, old(self).interest())
                    &&& #[trigger] old(self).channel().lost_sender(gone)
                    &&& shared::same(r, channel.received(old(self).watermark()))
                    &&& final(self).watermark() == channel.position(old(self).watermark())
                },
    {
        let r = refcnt::value(&self.channel).receive(&mut self.watermark, &self.interest);
        proof {
            let state = choose|shared: Shared<T>|
                {
                    &&& self.channel().admits(shared)
                    &&& shared::same(r, shared@.received(old(self).watermark as int))
                    &&& self.watermark == #[trigger] shared@.position(old(self).watermark as int)
                };
            assert(self.watermark() == state@.position(old(self).watermark()));
        }
        r
    }

    /// Polls once, without registering the task.
    fn poll_once(&mut self) -> (r: Poll<Result<Arc<T>, RecvError>>)
        requires
            old(self).channel().capacity() > 0,
        ensures
            final(self).channel() == old(self).channel(),
            final(self).interest() == old(self).interest(),
            polls(
                old(self).channel(),
                old(self).interest(),
                old(self).watermark(),
                r,
                final(self).watermark(),
            ),
    {
        poll_result(self.receive())
    }

    /// Attempts to receive a value without waiting.
    ///
    /// Where the receiver has fallen behind the oldest value in the channel, it
    /// is told so, and then goes on with that value.
    pub fn try_recv(&mut self) -> (r: Result<Guard<'_, T>, TryRecvError>)
        requires
            old(self).channel().capacity() > 0,
        ensures
            final(self).channel() == old(self).channel(),
            final(self).interest() == old(self).interest(),
            exists|shared: Shared<T>|
                {
                    &&& old(self).channel().admits(shared)
                    &&& match r {
                        Ok(guard) => tried(shared@, old(self).watermark()) == Ok::<T, TryRecvError>(
                            guard@,
                        ),
                        Err(e) => tried(shared@, old(self).watermark()) == Err::<T, TryRecvError>(
                            e,
                        ),
                    }
                    &&& final(self).watermark() == #[trigger] shared@.position(
                        old(self).watermark(),
                    )
                },
            exists|shared: Shared<T>, gone: bool|
                {
                    let channel = shared::closed_if(shared@, gone);
                    &&& old(self).channel().admits(shared)
                    &&& #[trigger] old(self).channel().seen(shared, old(self).interest())
                    &&& #[trigger] old(self).channel().lost_sender(gone)
                    &&& tried(channel, old(self).watermark()) == match r {
                        Ok(guard) => Ok::<T, TryRecvError>(guard@),
                        Err(e) => Err::<T, TryRecvError>(e),
                    }
                    &&& final(self).watermark() == channel.position(old(self).watermark())
                },
    {
        match try_result(self.receive()) {
            Ok(guard) => Ok(Guard::new(guard)),
            Err(e) => Err(e),
        }
    }

    /// Polls for the next value. Where there is none yet, the task is registered
    /// to be woken by the next send.
    ///
    /// After that a second attempt is made, so that no value sent meanwhile is
    /// missed.
    pub fn poll_recv(&mut self, cx: &mut Context<'_>) -> (r: Poll<Result<Arc<T>, RecvError>>)
        requires
            old(self).channel().capacity() > 0,
        ensures
            final(self).channel() == old(self).channel(),
            r is Pending ==> final(self).watermark() == old(self).watermark(),
            r is Pending ==> notify::registers(
                old(self).interest(),
                notify::task_waker(*old(cx)),
                final(self).interest(),
            ),
            final(self).interest() == old(self).interest() || notify::registers(
                old(self).interest(),
                notify::task_waker(*old(cx)),
                final(self).interest(),
            ),
            old(self).listens() ==> final(self).listens(),
            *final(cx) == *old(cx),
            polls_twice(
                old(self).channel(),
                old(self).interest(),
                old(self).watermark(),
                r,
                final(self).interest(),
                final(self).watermark(),
            ),
    {
        let r = self.poll_once();
        if let Poll::Ready(ready) = r {
            return Poll::Ready(ready);
        }
        self.interest.register(cx);
        self.poll_once()
    }

    /// Creates a receiver of the values that are sent from now on. It does not
    /// get those that wait for this one.
    ///
    /// For a new receiver at the same position, clone this one instead.
    pub fn resubscribe(&self) -> (receiver: Self)
        ensures
            receiver.channel() == self.channel(),
            receiver.listens(),
            !receiver.interest().is_registered(),
            exists|shared: Shared<T>|
                {
                    &&& self.channel().admits(shared)
                    &&& self.channel().seen(shared, ())
                    &&& receiver.watermark() == #[trigger] shared@.newcomer()
                },
    {
        Self::new(self.channel.clone())
    }

    /// Gives the receiver up. The last handle to be given up gets what is left of
    /// the channel.
    pub fn into_state(self) -> (state: Option<Shared<T>>)
        ensures
            state matches Some(state) ==> self.channel().admits(state) && state@.closed,
            shared::gives_up(self.pointer(), (), state),
    {
        let _ = self.interest.into_queues();
        Channel::into_state(self.channel, ())
    }
}

impl<T> Clone for Receiver<T> {
    /// Creates a receiver of the same channel at the same position.
    fn clone(&self) -> (receiver: Self)
        ensures
            receiver.channel() == self.channel(),
            receiver.listens(),
            !receiver.interest().is_registered(),
            receiver.watermark() == self.watermark(),
    {
        Self {
            channel: self.channel.clone(),
            interest: refcnt::value(&self.channel).interest(),
            watermark: self.watermark,
        }
    }
}

/// A receiver is told to wait exactly when the channel is open and it has received
/// everything. That leaves its position as it was, so nothing is lost by giving
/// up waiting.
pub proof fn lemma_pending<T>(channel: SharedView<T>, watermark: int)
    ensures
        polled(channel, watermark) is Pending <==> !channel.closed && watermark
            >= channel.buffer.head,
        polled(channel, watermark) is Pending ==> channel.position(watermark) == watermark,
{
}

/// What polling a channel does, in a state in which it was met while the interest was
/// as given.
pub open spec fn polls<T>(
    channel: Channel<T>,
    interest: Interest,
    watermark: int,
    r: Poll<Result<Arc<T>, RecvError>>,
    after: int,
) -> bool {
    exists|shared: Shared<T>, gone: bool|
        {
            let met = shared::closed_if(shared@, gone);
            &&& channel.admits(shared)
            &&& #[trigger] channel.seen(shared, interest)
            &&& #[trigger] channel.lost_sender(gone)
            &&& same_poll(r, polled(met, watermark))
            &&& after == met.position(watermark)
        }
}

/// What polling a channel does, and once more where there was nothing yet. By the
/// second time the task is registered.
pub open spec fn polls_twice<T>(
    channel: Channel<T>,
    before: Interest,
    watermark: int,
    r: Poll<Result<Arc<T>, RecvError>>,
    registered: Interest,
    after: int,
) -> bool {
    ||| r is Ready && registered == before && polls(channel, before, watermark, r, after)
    ||| exists|between: int|
        {
            &&& #[trigger] polls(channel, before, watermark, Poll::Pending, between)
            &&& polls(channel, registered, between, r, after)
        }
}

} // verus!
