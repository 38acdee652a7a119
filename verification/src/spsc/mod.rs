//! A single-producer single-consumer queue on a growing ring buffer.
//!
//! [`raw`] is the queue itself, for one owner. [`channel`] shares it between a
//! sending and a receiving handle.

pub mod channel;
pub mod chunk;
pub mod detail;
pub mod raw;
pub mod series;
pub mod shim;

pub use crate::spsc::channel::{channel, DrainError, Receiver, RecvError, SendError, Sender};
pub use crate::spsc::detail::Drain;
pub use crate::spsc::raw::{RawChannel, RawQueue};
