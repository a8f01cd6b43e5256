//! The abstract state of a queue and the effect of each operation on it.

use vstd::prelude::*;
use crate::error::{PopError, PushError};

verus! {

/// What a queue is, seen from outside: the items it holds, oldest first, whether it has been
/// closed, and how many items it may hold at most (`None` for an unbounded queue).
pub struct QueueState<T> {
    pub items: Seq<T>,
    pub closed: bool,
    pub capacity: Option<nat>,
}

impl<T> QueueState<T> {
    /// A bounded queue never holds more than its capacity, and its capacity is at least one.
    pub open spec fn wf(self) -> bool {
        match self.capacity {
            Some(cap) => 1 <= cap && self.items.len() <= cap,
            None => true,
        }
    }

    /// A fresh bounded queue: empty and open.
    pub open spec fn bounded(cap: nat) -> Self {
        QueueState { items: Seq::empty(), closed: false, capacity: Some(cap) }
    }

    /// A fresh unbounded queue: empty and open.
    pub open spec fn unbounded() -> Self {
        QueueState { items: Seq::empty(), closed: false, capacity: None }
    }

    pub open spec fn len(self) -> nat {
        self.items.len()
    }

    pub open spec fn is_empty(self) -> bool {
        self.items.len() == 0
    }

    /// Only a bounded queue can be full: when it holds exactly `capacity` items.
    pub open spec fn is_full(self) -> bool {
        self.capacity == Some(self.items.len())
    }

    /// What `push(value)` returns in this state. A closed queue answers `Closed` even when it is
    /// also full.
    pub open spec fn push_result(self, value: T) -> Result<(), PushError<T>> {
        if self.closed {
            Err(PushError::Closed(value))
        } else if self.is_full() {
            Err(PushError::Full(value))
        } else {
            Ok(())
        }
    }

    /// The state after `push(value)`: the item is appended exactly when the push succeeds.
    pub open spec fn after_push(self, value: T) -> Self {
        if self.push_result(value) is Ok {
            QueueState { items: self.items.push(value), ..self }
        } else {
            self
        }
    }

    /// What `pop()` returns in this state: the oldest item if there is one.
    pub open spec fn pop_result(self) -> Result<T, PopError> {
        if self.items.len() > 0 {
            Ok(self.items.first())
        } else if self.closed {
            Err(PopError::Closed)
        } else {
            Err(PopError::Empty)
        }
    }

    /// The state after `pop()`: the oldest item, if any, is gone.
    pub open spec fn after_pop(self) -> Self {
        if self.items.len() > 0 {
            QueueState { items: self.items.drop_first(), ..self }
        } else {
            self
        }
    }

    /// What `close()` returns in this state: whether this very call closes the queue.
    pub open spec fn close_result(self) -> bool {
        !self.closed
    }

    /// The state after `close()`: closed, with every item still in place.
    pub open spec fn after_close(self) -> Self {
        QueueState { closed: true, ..self }
    }
}

} // verus!
