//! Widecast is a single-writer multiple-reader broadcast channel that is meant for
//! large numbers of subscribers, verified with Verus.
//!
//! # Overview
//! A [`Sender`] is used to broadcast values to all connected [`Receiver`]s. When a
//! value is sent, all receivers are notified and will receive it. Values are kept
//! in a ring buffer until they are overwritten.
//!
//! A channel is created by calling [`Sender::new`] with the number of messages
//! that it can hold. Receivers are created by [`Sender::subscribe`] or by cloning
//! one. Those created by subscribing get the values that are sent **after** the
//! call; a clone has the position of the receiver that it was cloned from.
//!
//! # Lagging
//! The channel retains a limited number of messages, so a receiver may fail to
//! read one before it is overwritten. It is then told how many it has missed, and
//! goes on with the oldest message that the channel holds.
//!
//! # Closing
//! Once the sender has closed the channel, or has been dropped, nothing more can be
//! sent. A receiver is told so when it has received everything that is in the
//! channel. Tasks that already wait are woken by closing, but not by dropping.
//!
//! # What is proved
//! Each part has a type with its exact behaviour, whose operations take `&mut
//! self` and state the whole outcome over a mathematical view:
//! - [`arcbuf`], the ring buffer, and [`shared`], the state of a channel;
//! - [`spsc`], a growing single-producer single-consumer queue, and its channel;
//! - [`masswake`], which keeps the wakers of waiting tasks in a queue per thread;
//! - [`queue`], a queue of wakers in blocks;
//! - [`bench`](mod@bench), what the benchmark decides and reports.
//!
//! The handles reach these types through a lock, which keeps account of what happens
//! to the value behind it ([`ledger`]). What another handle does between two
//! operations is not known to either. So their contracts tell which step each
//! operation makes, from the state that it finds, and that it makes no other.
//!
//! What follows for any series of such steps is stated and proved in [`series`],
//! [`spsc::series`] and [`masswake::series`].

pub mod arcbuf;
pub mod bench;
pub mod error;
pub mod fifo;
pub mod ledger;
pub mod masswake;
pub mod queue;
pub mod receiver;
pub mod refcnt;
pub mod ring;
pub mod sender;
pub mod series;
pub mod shared;
pub mod spsc;
pub mod text;
pub mod thread_id;

pub use crate::error::{RecvError, TryRecvError};
pub use crate::receiver::{Guard, OwnedGuard, Receiver};
pub use crate::sender::Sender;
