//! A multi-producer multi-consumer first-in-first-out queue, bounded or unbounded, that can be
//! closed: a closed queue accepts no more items, while the items it still holds can be popped.
//!
//! A queue changes through `&mut self`, so no two operations on one queue overlap: producers and
//! consumers that share a queue take turns, and whatever they do to it is one sequence of
//! operations. What an operation returns and how it changes the queue is stated over
//! [`model::QueueState`]; what holds of every sequence of operations, however the operations of
//! several producers and consumers are interleaved, is proved in [`history`].
//!
//! The two engines keep their state the way a lock-free queue does: [`bounded`] is a ring of
//! stamped slots whose `head` and `tail` count laps, [`unbounded`] is a chain of blocks of
//! slots, and both fold the closed marker into the lowest bit of a counter ([`mark`]).

pub mod bounded;
pub mod error;
pub mod history;
pub mod mark;
pub mod model;
pub mod unbounded;

pub use crate::bounded::MAX_CAPACITY;
pub use crate::error::{PopError, PushError};
pub use crate::unbounded::MAX_LEN;

use vstd::prelude::*;
use crate::bounded::Bounded;
use crate::model::QueueState;
use crate::unbounded::Unbounded;

verus! {

/// A queue that is either bounded or unbounded.
pub struct ConcurrentQueue<T>(Inner<T>);

enum Inner<T> {
    Bounded(Bounded<T>),
    Unbounded(Unbounded<T>),
}

impl<T> View for ConcurrentQueue<T> {
    type V = QueueState<T>;

    /// The state of whichever engine the queue runs on.
    closed spec fn view(&self) -> QueueState<T> {
        match self.0 {
            Inner::Bounded(q) => q@,
            Inner::Unbounded(q) => q@,
        }
    }
}

impl<T> ConcurrentQueue<T> {
    /// The invariant of whichever engine the queue runs on.
    pub closed spec fn wf(&self) -> bool {
        match self.0 {
            Inner::Bounded(q) => q.wf(),
            Inner::Unbounded(q) => q.wf(),
        }
    }

    /// A well-formed queue holds at most `capacity` items if it is bounded, and at most
    /// `MAX_LEN` items if it is not.
    pub proof fn lemma_view_wf(&self)
        requires
            self.wf(),
        ensures
            self@.wf(),
            self@.capacity is None ==> self@.len() <= MAX_LEN,
    {
        match self.0 {
            Inner::Bounded(q) => q.lemma_view_wf(),
            Inner::Unbounded(q) => q.lemma_view_wf(),
        }
    }

    /// The bounded engine has a capacity and the unbounded engine has none.
    proof fn lemma_engine(&self)
        requires
            self.wf(),
        ensures
            self.0 is Bounded <==> self@.capacity is Some,
    {
        match self.0 {
            Inner::Bounded(q) => q.lemma_view_wf(),
            Inner::Unbounded(q) => q.lemma_view_wf(),
        }
    }

    /// Creates an empty, open queue that holds at most `cap` items.
    pub fn bounded(cap: usize) -> (q: ConcurrentQueue<T>)
        requires
            1 <= cap <= MAX_CAPACITY,
        ensures
            q.wf(),
            q@ == QueueState::<T>::bounded(cap as nat),
    {
        ConcurrentQueue(Inner::Bounded(Bounded::new(cap)))
    }

    /// Creates an empty, open queue without a capacity.
    pub fn unbounded() -> (q: ConcurrentQueue<T>)
        ensures
            q.wf(),
            q@ == QueueState::<T>::unbounded(),
    {
        ConcurrentQueue(Inner::Unbounded(Unbounded::new()))
    }

    /// Attempts to push an item. A closed queue answers `Closed` and a full one `Full`, both
    /// with the item; otherwise the item becomes the newest of the queue. An open unbounded
    /// queue that holds `MAX_LEN` items cannot count another one.
    pub fn push(&mut self, value: T) -> (r: Result<(), PushError<T>>)
        requires
            old(self).wf(),
            old(self)@.capacity is None && !old(self)@.closed ==> old(self)@.len() < MAX_LEN,
        ensures
            final(self).wf(),
            r == old(self)@.push_result(value),
            final(self)@ == old(self)@.after_push(value),
    {
        proof {
            self.lemma_engine();
        }
        match &mut self.0 {
            Inner::Bounded(q) => q.push(value),
            Inner::Unbounded(q) => q.push(value),
        }
    }

    /// Attempts to pop the oldest item. An empty queue answers `Closed` if it is closed and
    /// `Empty` if it is not.
    pub fn pop(&mut self) -> (r: Result<T, PopError>)
        requires
            old(self).wf(),
        ensures
            final(self).wf(),
            r == old(self)@.pop_result(),
            final(self)@ == old(self)@.after_pop(),
    {
        match &mut self.0 {
            Inner::Bounded(q) => q.pop(),
            Inner::Unbounded(q) => q.pop(),
        }
    }

    /// Returns `true` if the queue holds no items.
    pub fn is_empty(&self) -> (r: bool)
        requires
            self.wf(),
        ensures
            r == self@.is_empty(),
    {
        match &self.0 {
            Inner::Bounded(q) => q.is_empty(),
            Inner::Unbounded(q) => q.is_empty(),
        }
    }

    /// Returns `true` if the queue is bounded and holds as many items as its capacity.
    pub fn is_full(&self) -> (r: bool)
        requires
            self.wf(),
        ensures
            r == self@.is_full(),
            self@.capacity is None ==> !r,
    {
        match &self.0 {
            Inner::Bounded(q) => q.is_full(),
            Inner::Unbounded(q) => q.is_full(),
        }
    }

    /// Returns the number of items in the queue, which never exceeds the capacity.
    pub fn len(&self) -> (n: usize)
        requires
            self.wf(),
        ensures
            n == self@.len(),
            self@.capacity matches Some(cap) ==> n <= cap,
    {
        proof {
            self.lemma_view_wf();
        }
        match &self.0 {
            Inner::Bounded(q) => q.len(),
            Inner::Unbounded(q) => q.len(),
        }
    }

    /// Returns the capacity of a bounded queue, and `None` for an unbounded one.
    pub fn capacity(&self) -> (r: Option<usize>)
        requires
            self.wf(),
        ensures
            match r {
                Some(cap) => self@.capacity == Some(cap as nat),
                None => self@.capacity is None,
            },
    {
        match &self.0 {
            Inner::Bounded(q) => Some(q.capacity()),
            Inner::Unbounded(_) => {
                proof {
                    self.lemma_engine();
                }
                None
            },
        }
    }

    /// Closes the queue: no item can be pushed from now on, and the items it holds can still be
    /// popped. Returns `true` if this call closed the queue, `false` if it was closed before.
    pub fn close(&mut self) -> (r: bool)
        requires
            old(self).wf(),
        ensures
            final(self).wf(),
            r == old(self)@.close_result(),
            final(self)@ == old(self)@.after_close(),
    {
        match &mut self.0 {
            Inner::Bounded(q) => q.close(),
            Inner::Unbounded(q) => q.close(),
        }
    }

    /// Takes every item out of the queue, oldest first, and leaves the queue empty; whether it
    /// is closed does not change. This is what becomes of the items of a queue that is given
    /// up: each of them is handed over exactly once, in the order it was pushed.
    pub fn drain(&mut self) -> (items: Vec<T>)
        requires
            old(self).wf(),
        ensures
            final(self).wf(),
            items@ == old(self)@.items,
            final(self)@ == (QueueState { items: Seq::empty(), ..old(self)@ }),
    {
        let mut items: Vec<T> = Vec::new();
        while !self.is_empty()
            invariant
                self.wf(),
                items@ + self@.items == old(self)@.items,
                self@.closed == old(self)@.closed,
                self@.capacity == old(self)@.capacity,
            decreases self@.len(),
        {
            let ghost before = self@;
            let item = self.pop().unwrap();
            items.push(item);
            assert(items@ + self@.items =~= (items@.drop_last() + before.items));
        }
        assert(items@ =~= items@ + self@.items);
        assert(self@.items =~= Seq::empty());
        items
    }

    /// Returns `true` if the queue is closed.
    pub fn is_closed(&self) -> (r: bool)
        requires
            self.wf(),
        ensures
            r == self@.closed,
    {
        match &self.0 {
            Inner::Bounded(q) => q.is_closed(),
            Inner::Unbounded(q) => q.is_closed(),
        }
    }
}

} // verus!
