//! Why nothing was received from a broadcast channel.

use vstd::prelude::*;

use crate::text;

verus! {

/// Why receiving gave no value.
#[derive(Copy, Clone, Debug, PartialEq, Eq, Structural)]
pub enum RecvError {
    /// The single sender has closed. No further messages will be sent.
    Closed,
    /// The receiver lagged too far behind and some messages have been skipped
    /// as a result. Attempting to receive again will return the oldest message
    /// still retained by the channel.
    ///
    /// Holds the number of skipped messages.
    Lagged(u64),
}

impl RecvError {
    /// Describes the error.
    pub fn to_string(&self) -> (text: String)
        ensures
            text@ == TryRecvError::from_recv(*self).described(),
    {
        TryRecvError::from(*self).to_string()
    }
}

/// Why there was no value to be had without waiting.
#[derive(Copy, Clone, Debug, PartialEq, Eq, Structural)]
pub enum TryRecvError {
    /// The channel is currently empty. There is still an active sender, so data
    /// may become available at a later time.
    Empty,
    /// The single sender has closed. No further messages will be sent.
    Closed,
    /// The receiver lagged too far behind and some messages have been skipped
    /// as a result. Attempting to receive again will return the oldest message
    /// still retained by the channel.
    ///
    /// Holds the number of skipped messages.
    Lagged(u64),
}

impl TryRecvError {
    /// The same error as one of trying to receive.
    pub open spec fn from_recv(error: RecvError) -> Self {
        match error {
            RecvError::Closed => TryRecvError::Closed,
            RecvError::Lagged(skipped) => TryRecvError::Lagged(skipped),
        }
    }

    /// The description of the error.
    pub open spec fn described(self) -> Seq<char> {
        match self {
            TryRecvError::Empty => "channel empty"@,
            TryRecvError::Closed => "channel closed"@,
            TryRecvError::Lagged(amount) => "channel lagged by "@ + text::decimal(amount as int),
        }
    }

    /// Describes the error.
    pub fn to_string(&self) -> (text: String)
        ensures
            text@ == self.described(),
    {
        match self {
            TryRecvError::Empty => "channel empty".to_owned(),
            TryRecvError::Closed => "channel closed".to_owned(),
            TryRecvError::Lagged(amount) => {
                let mut text: String = "channel lagged by ".to_owned();
                text::push_decimal(&mut text, *amount);
                text
            },
        }
    }
}

impl From<RecvError> for TryRecvError {
    fn from(error: RecvError) -> (converted: Self) {
        match error {
            RecvError::Closed => Self::Closed,
            RecvError::Lagged(skipped) => Self::Lagged(skipped),
        }
    }
}

impl vstd::std_specs::convert::FromSpecImpl<RecvError> for TryRecvError {
    open spec fn obeys_from_spec() -> bool {
        true
    }

    open spec fn from_spec(error: RecvError) -> Self {
        TryRecvError::from_recv(error)
    }
}

} // verus!
