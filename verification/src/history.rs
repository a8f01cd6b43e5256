//! What holds of every sequence of operations on a queue.
//!
//! Each operation is one indivisible step, so whatever several producers and consumers do to a
//! queue, in whatever interleaving, is one sequence of operations: a history. The functions
//! here run a history on a [`QueueState`] with the very step functions that the contracts of
//! `push`, `pop` and `close` are stated with, and the proofs below hold for every history.

use vstd::prelude::*;
use crate::error::{PopError, PushError};
use crate::model::QueueState;

verus! {

/// One operation on a queue.
pub enum Op<T> {
    Push(T),
    Pop,
    Close,
}

impl<T> QueueState<T> {
    /// The state after one operation.
    pub open spec fn step(self, op: Op<T>) -> Self {
        match op {
            Op::Push(value) => self.after_push(value),
            Op::Pop => self.after_pop(),
            Op::Close => self.after_close(),
        }
    }

    /// The state after the operations of `ops`, first to last.
    pub open spec fn run(self, ops: Seq<Op<T>>) -> Self
        decreases ops.len(),
    {
        if ops.len() == 0 {
            self
        } else {
            self.run(ops.drop_last()).step(ops.last())
        }
    }

    /// The items of the pushes of `ops` that succeeded, in the order of those pushes.
    pub open spec fn accepted(self, ops: Seq<Op<T>>) -> Seq<T>
        decreases ops.len(),
    {
        if ops.len() == 0 {
            Seq::empty()
        } else {
            let before = self.run(ops.drop_last());
            let earlier = self.accepted(ops.drop_last());
            match ops.last() {
                Op::Push(value) => if before.push_result(value) is Ok {
                    earlier.push(value)
                } else {
                    earlier
                },
                _ => earlier,
            }
        }
    }

    /// The items that the pops of `ops` returned, in the order of those pops.
    pub open spec fn delivered(self, ops: Seq<Op<T>>) -> Seq<T>
        decreases ops.len(),
    {
        if ops.len() == 0 {
            Seq::empty()
        } else {
            let before = self.run(ops.drop_last());
            let earlier = self.delivered(ops.drop_last());
            match ops.last() {
                Op::Pop => match before.pop_result() {
                    Ok(value) => earlier.push(value),
                    Err(_) => earlier,
                },
                _ => earlier,
            }
        }
    }

    /// No operation makes a valid state invalid, changes the capacity, or opens a closed queue.
    pub proof fn lemma_step_keeps_shape(self, op: Op<T>)
        requires
            self.wf(),
        ensures
            self.step(op).wf(),
            self.step(op).capacity == self.capacity,
            self.closed ==> self.step(op).closed,
    {
    }

    /// No history makes a valid state invalid, changes the capacity, or opens a closed queue.
    /// In particular a bounded queue never holds more items than its capacity.
    pub proof fn lemma_run_keeps_shape(self, ops: Seq<Op<T>>)
        requires
            self.wf(),
        ensures
            self.run(ops).wf(),
            self.run(ops).capacity == self.capacity,
            self.closed ==> self.run(ops).closed,
            self.capacity matches Some(cap) ==> self.run(ops).len() <= cap,
        decreases ops.len(),
    {
        if ops.len() > 0 {
            self.lemma_run_keeps_shape(ops.drop_last());
            self.run(ops.drop_last()).lemma_step_keeps_shape(ops.last());
        }
    }

    /// Nothing is lost, nothing is delivered twice, and nothing overtakes: the items that were
    /// in the queue at the start followed by the items accepted since are, in this order, the
    /// items delivered since followed by the items still in the queue. So every accepted item
    /// has exactly one place: one pop returned it, or it is still in the queue.
    pub proof fn lemma_every_item_once(self, ops: Seq<Op<T>>)
        ensures
            self.items + self.accepted(ops) == self.delivered(ops) + self.run(ops).items,
            self.len() + self.accepted(ops).len() == self.delivered(ops).len() + self.run(
                ops,
            ).len(),
            forall|k: int|
                0 <= k < self.delivered(ops).len() ==> self.delivered(ops)[k] == (self.items
                    + self.accepted(ops))[k],
            forall|k: int|
                0 <= k < self.run(ops).len() ==> self.run(ops).items[k] == (self.items
                    + self.accepted(ops))[self.delivered(ops).len() + k],
        decreases ops.len(),
    {
        let all = self.items + self.accepted(ops);
        let split = self.delivered(ops) + self.run(ops).items;
        if ops.len() == 0 {
            assert(all =~= split);
        } else {
            let front = ops.drop_last();
            self.lemma_every_item_once(front);
            let before = self.run(front);
            assert(self.items + self.accepted(front) == self.delivered(front) + before.items);
            match ops.last() {
                Op::Push(value) => {
                    if before.push_result(value) is Ok {
                        assert(all =~= (self.items + self.accepted(front)).push(value));
                        assert(split =~= (self.delivered(front) + before.items).push(value));
                    }
                },
                Op::Pop => {
                    if before.items.len() > 0 {
                        assert(split =~= self.delivered(front) + before.items);
                    }
                },
                Op::Close => {},
            }
            assert(all == split);
        }
        assert(all.len() == split.len());
    }

    /// The number of items in the queue is the number it started with, plus the pushes that
    /// succeeded, minus the pops that succeeded.
    pub proof fn lemma_len_is_balance(self, ops: Seq<Op<T>>)
        ensures
            self.run(ops).len() == self.len() + self.accepted(ops).len() - self.delivered(
                ops,
            ).len(),
    {
        self.lemma_every_item_once(ops);
    }

    /// When a queue that started empty has been drained, the items that were popped are the
    /// items that were pushed: the same sequence, and so the same multiset.
    pub proof fn lemma_drained_queue_delivered_all(self, ops: Seq<Op<T>>)
        requires
            self.is_empty(),
            self.run(ops).is_empty(),
        ensures
            self.delivered(ops) == self.accepted(ops),
            self.delivered(ops).to_multiset() == self.accepted(ops).to_multiset(),
    {
        self.lemma_every_item_once(ops);
        assert(self.delivered(ops) =~= self.delivered(ops) + self.run(ops).items);
        assert(self.accepted(ops) =~= self.items + self.accepted(ops));
    }

    /// The items of one producer are delivered in the order that producer pushed them.
    /// `from_producer` tells which items are the producer's. Of the items that were in the queue
    /// at the start or were accepted since, those of the producer, in order, begin with the
    /// delivered items of the producer, in order; once a queue that started empty is drained,
    /// the two are the same sequence.
    pub proof fn lemma_producer_order(self, ops: Seq<Op<T>>, from_producer: spec_fn(T) -> bool)
        ensures
            self.delivered(ops).filter(from_producer).is_prefix_of(
                (self.items + self.accepted(ops)).filter(from_producer),
            ),
            self.is_empty() && self.run(ops).is_empty() ==> self.delivered(ops).filter(
                from_producer,
            ) == self.accepted(ops).filter(from_producer),
    {
        self.lemma_every_item_once(ops);
        Seq::filter_distributes_over_add(self.delivered(ops), self.run(ops).items, from_producer);
        if self.is_empty() && self.run(ops).is_empty() {
            self.lemma_drained_queue_delivered_all(ops);
        }
    }

    /// A queue is closed after a history exactly if it was closed before or the history holds
    /// a close.
    pub proof fn lemma_closed_by_close(self, ops: Seq<Op<T>>)
        ensures
            self.run(ops).closed <==> self.closed || exists|i: int|
                0 <= i < ops.len() && #[trigger] ops[i] is Close,
        decreases ops.len(),
    {
        if ops.len() > 0 {
            let front = ops.drop_last();
            self.lemma_closed_by_close(front);
            if self.run(ops).closed {
                if ops.last() is Close {
                    assert(ops[ops.len() - 1] is Close);
                } else if !self.closed {
                    let i = choose|i: int| 0 <= i < front.len() && #[trigger] front[i] is Close;
                    assert(ops[i] is Close);
                }
            }
            if exists|i: int| 0 <= i < ops.len() && #[trigger] ops[i] is Close {
                let i = choose|i: int| 0 <= i < ops.len() && #[trigger] ops[i] is Close;
                if i < front.len() {
                    assert(front[i] is Close);
                }
            }
        }
    }

    /// After a close, no push succeeds: a push that comes later in the history than a close
    /// is answered `Closed` with its item, and leaves the queue as it was.
    pub proof fn lemma_no_push_after_close(self, ops: Seq<Op<T>>, i: int, j: int)
        requires
            0 <= i < j < ops.len(),
            ops[i] is Close,
            ops[j] is Push,
        ensures
            self.run(ops.take(j)).push_result(ops[j]->Push_0) == Err::<(), PushError<T>>(
                PushError::Closed(ops[j]->Push_0),
            ),
            self.run(ops.take(j + 1)) == self.run(ops.take(j)),
    {
        self.lemma_closed_by_close(ops.take(j));
        assert(ops.take(j)[i] is Close);
        assert(ops.take(j + 1).drop_last() =~= ops.take(j));
    }

    /// Only the first close closes: a close returns `true` exactly if the queue was open at the
    /// start and no close comes before it in the history.
    pub proof fn lemma_first_close_wins(self, ops: Seq<Op<T>>, j: int)
        requires
            0 <= j < ops.len(),
            ops[j] is Close,
        ensures
            self.run(ops.take(j)).close_result() <==> !self.closed && forall|i: int|
                0 <= i < j ==> !(#[trigger] ops[i] is Close),
            self.run(ops.take(j + 1)).closed,
    {
        let front = ops.take(j);
        self.lemma_closed_by_close(front);
        if exists|i: int| 0 <= i < front.len() && #[trigger] front[i] is Close {
            let i = choose|i: int| 0 <= i < front.len() && #[trigger] front[i] is Close;
            assert(ops[i] is Close);
        }
        if exists|i: int| 0 <= i < j && #[trigger] ops[i] is Close {
            let i = choose|i: int| 0 <= i < j && #[trigger] ops[i] is Close;
            assert(front[i] is Close);
        }
        assert(ops.take(j + 1).drop_last() =~= front);
    }
}

} // verus!
