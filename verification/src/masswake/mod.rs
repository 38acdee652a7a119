//! Waking a large number of tasks at once.

pub mod locals;
pub mod notify;
pub mod place;
pub mod queue;
pub mod series;
pub mod wakeups;

pub use crate::masswake::notify::{Interest, MassNotify};
