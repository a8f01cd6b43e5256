//! The two ways a queue operation can fail.

use vstd::prelude::*;

verus! {

/// Why a pop returned nothing.
#[derive(Clone, Copy, PartialEq, Eq, Debug)]
pub enum PopError {
    /// The queue holds no items and is still open.
    Empty,
    /// The queue holds no items and is closed: no item will ever arrive.
    Closed,
}

/// Why a push was rejected. The rejected item is handed back, so ownership is never lost.
#[derive(Clone, Copy, PartialEq, Eq, Debug)]
pub enum PushError<T> {
    /// The queue is bounded, holds as many items as its capacity, and is still open.
    Full(T),
    /// The queue is closed.
    Closed(T),
}

impl PopError {
    /// The text shown for this error.
    pub open spec fn message_spec(self) -> Seq<char> {
        match self {
            PopError::Empty => "Empty"@,
            PopError::Closed => "Closed"@,
        }
    }

    /// Returns `"Empty"` or `"Closed"`.
    pub fn message(&self) -> (text: String)
        ensures
            text@ == self.message_spec(),
    {
        match self {
            PopError::Empty => "Empty".to_string(),
            PopError::Closed => "Closed".to_string(),
        }
    }
}

impl<T> PushError<T> {
    /// The text shown for this error; the item itself is not part of it.
    pub open spec fn message_spec(self) -> Seq<char> {
        match self {
            PushError::Full(_) => "Full"@,
            PushError::Closed(_) => "Closed"@,
        }
    }

    /// Returns `"Full"` or `"Closed"`.
    pub fn message(&self) -> (text: String)
        ensures
            text@ == self.message_spec(),
    {
        match self {
            PushError::Full(_) => "Full".to_string(),
            PushError::Closed(_) => "Closed".to_string(),
        }
    }
}

} // verus!
