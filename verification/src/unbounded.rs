//! The unbounded engine: a chain of fixed-size blocks of slots.
//!
//! `head` and `tail` are counter words. A word is `2 * position + mark`; a position is a block
//! number times `BLOCK_CAP` plus an offset into that block. The lowest bit of `head` is the
//! closed marker (the lowest bit of `tail` is never set). Positions go round: after the last
//! one that fits in a word comes position zero again, which is the start of a block.
//!
//! The chain holds the blocks from the one `head` points into to the one `tail` points into.
//! The producer that writes the last slot of a block appends the next block; the consumer that
//! reads the last slot of a block unlinks it. Each slot goes from `Empty` through `Writing` to
//! `Ready`, and from there through `Reading` to `Destroy`.

use std::collections::VecDeque;
use vstd::prelude::*;
use crate::error::{PopError, PushError};
use crate::mark::{clear_mark, is_marked, marked, set_mark};
use crate::model::QueueState;

verus! {

/// The number of slots in a block.
pub const BLOCK_CAP: usize = 32;

/// The largest number of items an unbounded queue can hold: one less than the number of
/// positions a counter word can tell apart.
pub const MAX_LEN: usize = usize::MAX / 2;

// The next three functions write `BLOCK_CAP` out as a number: with a literal the solver sees
// linear arithmetic.

/// The place of slot `s` of block `b`, counted from the first slot of the chain.
spec fn place(b: int, s: int) -> int {
    32 * b + s
}

/// The block of the chain that place `at` lies in.
spec fn block_of(at: int) -> int {
    at / 32
}

/// The slot of its block that place `at` is.
spec fn slot_of(at: int) -> int {
    at % 32
}

/// The position that `word` counts.
spec fn position(word: usize) -> int {
    word as int / 2
}

/// How many positions there are before the count starts again at zero.
spec fn positions() -> int {
    MAX_LEN + 1
}

/// The offset of `word`'s position within its block.
spec fn offset_of(word: usize) -> int {
    slot_of(position(word))
}

/// The position after `p`.
spec fn following(p: int) -> int {
    if p + 1 < positions() {
        p + 1
    } else {
        0
    }
}

/// How many steps lead from position `from` to position `to`.
spec fn gap(from: int, to: int) -> int {
    if from <= to {
        to - from
    } else {
        to + positions() - from
    }
}

/// Moves a counter word to the next position and keeps its marker bit. The last position is
/// the last slot of a block, so the offset goes up by one or from the last slot to the first.
fn advance(word: usize) -> (next: usize)
    ensures
        position(next) == following(position(word)),
        marked(next) == marked(word),
        offset_of(next) == (if offset_of(word) + 1 < BLOCK_CAP {
            offset_of(word) + 1
        } else {
            0
        }),
{
    word.wrapping_add(2)
}

/// Where a slot stands between being written and being reclaimed.
enum SlotState {
    /// Nothing has been written yet.
    Empty,
    /// A producer has claimed the slot and is writing.
    Writing,
    /// The item is in place.
    Ready,
    /// A consumer has claimed the slot and is reading.
    Reading,
    /// The item has been taken; the slot waits for its block to be reclaimed.
    Destroy,
}

/// One place of a block: a state and room for one item.
struct Slot<T> {
    state: SlotState,
    value: Option<T>,
}

impl<T> Slot<T> {
    /// What a slot at place `at` looks like between operations, when the items lie at the
    /// places from `from` up to `to`: drained before them, ready among them, empty behind them.
    spec fn at_rest(self, at: int, from: int, to: int) -> bool {
        if at < from {
            self.state is Destroy && self.value is None
        } else if at < to {
            self.state is Ready && self.value is Some
        } else {
            self.state is Empty && self.value is None
        }
    }
}

/// `BLOCK_CAP` slots and the number of them that have been drained. The link to the next block
/// is its place in the chain.
struct Block<T> {
    slots: Vec<Slot<T>>,
    destroy_count: usize,
}

impl<T> Block<T> {
    /// A block of empty slots.
    fn new() -> (block: Self)
        ensures
            block.slots.len() == BLOCK_CAP,
            block.destroy_count == 0,
            forall|s: int|
                0 <= s < BLOCK_CAP ==> (#[trigger] block.slots[s]).state is Empty
                    && block.slots[s].value is None,
    {
        let mut slots: Vec<Slot<T>> = Vec::with_capacity(BLOCK_CAP);
        let mut s: usize = 0;
        while s < BLOCK_CAP
            invariant
                s <= BLOCK_CAP,
                slots.len() == s,
                forall|j: int|
                    0 <= j < s ==> (#[trigger] slots[j]).state is Empty && slots[j].value is None,
            decreases BLOCK_CAP - s,
        {
            slots.push(Slot { state: SlotState::Empty, value: None });
            s = s + 1;
        }
        Block { slots, destroy_count: 0 }
    }

    /// Writes `value` into the slot at `offset` and marks the slot ready.
    fn write(&mut self, offset: usize, value: T)
        requires
            old(self).slots.len() == BLOCK_CAP,
            offset < BLOCK_CAP,
        ensures
            final(self).slots.len() == BLOCK_CAP,
            final(self).destroy_count == old(self).destroy_count,
            final(self).slots[offset as int].state is Ready,
            final(self).slots[offset as int].value == Some(value),
            forall|s: int|
                0 <= s < BLOCK_CAP && s != offset ==> #[trigger] final(self).slots[s] == old(
                    self,
                ).slots[s],
    {
        self.slots[offset].state = SlotState::Writing;
        self.slots[offset].value = Some(value);
        self.slots[offset].state = SlotState::Ready;
    }

    /// Takes the item out of the slot at `offset`, marks the slot for reclaiming, and counts
    /// it among the drained slots of the block.
    fn read(&mut self, offset: usize) -> (value: T)
        requires
            old(self).slots.len() == BLOCK_CAP,
            offset < BLOCK_CAP,
            old(self).destroy_count < BLOCK_CAP,
            old(self).slots[offset as int].value is Some,
        ensures
            Some(value) == old(self).slots[offset as int].value,
            final(self).slots.len() == BLOCK_CAP,
            final(self).destroy_count == old(self).destroy_count + 1,
            final(self).slots[offset as int].state is Destroy,
            final(self).slots[offset as int].value is None,
            forall|s: int|
                0 <= s < BLOCK_CAP && s != offset ==> #[trigger] final(self).slots[s] == old(
                    self,
                ).slots[s],
    {
        self.slots[offset].state = SlotState::Reading;
        let taken = self.slots[offset].value.take();
        self.slots[offset].state = SlotState::Destroy;
        self.destroy_count = self.destroy_count + 1;
        taken.unwrap()
    }
}

/// A queue without a capacity.
pub struct Unbounded<T> {
    head: usize,
    tail: usize,
    blocks: VecDeque<Block<T>>,
}

impl<T> Unbounded<T> {
    spec fn head_offset(&self) -> int {
        offset_of(self.head)
    }

    spec fn tail_offset(&self) -> int {
        offset_of(self.tail)
    }

    /// How many items the chain holds: the places from the offset of `head` in the first block
    /// up to the offset of `tail` in the last.
    spec fn count(&self) -> int {
        place(self.blocks@.len() - 1, self.tail_offset()) - self.head_offset()
    }

    /// The slots of the chain are at rest.
    spec fn slots_at_rest(&self) -> bool {
        forall|b: int, s: int|
            0 <= b < self.blocks@.len() && 0 <= s < BLOCK_CAP ==> (
            #[trigger] self.blocks@[b].slots[s]).at_rest(
                place(b, s),
                self.head_offset(),
                self.head_offset() + self.count(),
            )
    }

    /// Every block has `BLOCK_CAP` slots, and only the first has drained slots: as many as
    /// the offset of `head`.
    spec fn blocks_whole(&self) -> bool {
        forall|b: int|
            0 <= b < self.blocks@.len() ==> {
                &&& (#[trigger] self.blocks@[b]).slots.len() == BLOCK_CAP
                &&& self.blocks@[b].destroy_count == (if b == 0 {
                    self.head_offset()
                } else {
                    0
                })
            }
    }

    /// The invariant of the chain between operations.
    pub closed spec fn wf(&self) -> bool {
        &&& !marked(self.tail)
        &&& self.blocks@.len() >= 1
        &&& 0 <= self.count() <= MAX_LEN
        &&& gap(position(self.head), position(self.tail)) == self.count()
        &&& self.blocks_whole()
        &&& self.slots_at_rest()
    }

    /// The item `i` places behind the oldest one.
    spec fn item(&self, i: int) -> T {
        let at = self.head_offset() + i;
        self.blocks@[block_of(at)].slots[slot_of(at)].value->0
    }

    /// A well-formed chain is a well-formed queue without a capacity, and holds at most
    /// `MAX_LEN` items.
    pub proof fn lemma_view_wf(&self)
        requires
            self.wf(),
        ensures
            self@.wf(),
            self@.capacity is None,
            self@.len() <= MAX_LEN,
    {
    }

    /// Makes an empty, open queue of one empty block.
    pub fn new() -> (q: Self)
        ensures
            q.wf(),
            q@ == QueueState::<T>::unbounded(),
    {
        let mut blocks: VecDeque<Block<T>> = VecDeque::new();
        blocks.push_back(Block::new());
        let q = Unbounded { head: 0, tail: 0, blocks };
        proof {
            assert(q@.items =~= Seq::<T>::empty());
        }
        q
    }

    /// Pushes `value` unless the queue is closed; a rejected item comes back in the error.
    /// An open queue that already holds `MAX_LEN` items has no position left for another.
    pub fn push(&mut self, value: T) -> (r: Result<(), PushError<T>>)
        requires
            old(self).wf(),
            !old(self)@.closed ==> old(self)@.len() < MAX_LEN,
        ensures
            final(self).wf(),
            r == old(self)@.push_result(value),
            final(self)@ == old(self)@.after_push(value),
    {
        if is_marked(self.head) {
            return Err(PushError::Closed(value));
        }
        let tail = self.tail;
        let offset = (tail / 2) % BLOCK_CAP;
        let ghost last = self.blocks@.len() - 1;
        let ghost written = place(last, offset as int);
        proof {
            assert(old(self).blocks@[last].slots.len() == BLOCK_CAP);
        }
        // Claim the slot by moving the tail on, then write it.
        self.tail = advance(tail);
        let mut block = self.blocks.pop_back().unwrap();
        block.write(offset, value);
        self.blocks.push_back(block);
        if offset + 1 == BLOCK_CAP {
            // That was the last slot of the block: the next block goes in behind it.
            self.blocks.push_back(Block::new());
        }
        proof {
            assert(self.head_offset() == old(self).head_offset());
            assert(self.count() == old(self).count() + 1);
            assert(written == self.head_offset() + old(self).count());
            assert forall|b: int| 0 <= b < last implies self.blocks@[b] == old(self).blocks@[b] by {}
            assert(self.blocks@[last] == block);
            assert(self.blocks_whole());
            assert forall|b: int, s: int|
                0 <= b < self.blocks@.len() && 0 <= s < BLOCK_CAP implies (
            #[trigger] self.blocks@[b].slots[s]).at_rest(
                place(b, s),
                self.head_offset(),
                self.head_offset() + self.count(),
            ) by {
                if b < last {
                    assert(old(self).blocks@[b].slots[s].at_rest(
                        place(b, s),
                        self.head_offset(),
                        self.head_offset() + old(self).count(),
                    ));
                } else if b == last && s != offset {
                    assert(block.slots[s] == old(self).blocks@[last].slots[s]);
                    assert(old(self).blocks@[b].slots[s].at_rest(
                        place(b, s),
                        self.head_offset(),
                        self.head_offset() + old(self).count(),
                    ));
                }
            }
            assert(self.wf());
            assert forall|i: int| 0 <= i < old(self).count() implies self.item(i) == old(
                self,
            ).item(i) by {
                let at = self.head_offset() + i;
                if block_of(at) == last {
                    assert(slot_of(at) != offset);
                    assert(block.slots[slot_of(at)] == old(self).blocks@[last].slots[slot_of(at)]);
                } else {
                    assert(self.blocks@[block_of(at)] == old(self).blocks@[block_of(at)]);
                }
            }
            assert(block_of(written) == last && slot_of(written) == offset);
            assert(self.item(old(self).count()) == value);
            assert(self@.items =~= old(self)@.items.push(value));
        }
        Ok(())
    }

    /// Pops the oldest item; with none left, says whether the queue is merely empty or closed
    /// for good.
    pub fn pop(&mut self) -> (r: Result<T, PopError>)
        requires
            old(self).wf(),
        ensures
            final(self).wf(),
            r == old(self)@.pop_result(),
            final(self)@ == old(self)@.after_pop(),
    {
        let head = self.head;
        if clear_mark(head) == self.tail {
            return if is_marked(head) {
                Err(PopError::Closed)
            } else {
                Err(PopError::Empty)
            };
        }
        let offset = (head / 2) % BLOCK_CAP;
        proof {
            assert(old(self).count() > 0);
            assert(old(self).blocks@[0].slots.len() == BLOCK_CAP);
            assert(old(self).blocks@[0].slots[offset as int].at_rest(
                place(0, offset as int),
                old(self).head_offset(),
                old(self).head_offset() + old(self).count(),
            ));
            assert(block_of(offset as int) == 0 && slot_of(offset as int) == offset);
        }
        // Claim the slot by moving the head on, then read it.
        self.head = advance(head);
        let mut block = self.blocks.pop_front().unwrap();
        let value = block.read(offset);
        if block.destroy_count < BLOCK_CAP {
            self.blocks.push_front(block);
        }
        // Otherwise every slot of the block has been drained: the block is unlinked and
        // reclaimed here, and `head` points into the block behind it.

        proof {
            assert(value == old(self).item(0));
            assert(self.tail_offset() == old(self).tail_offset());
            assert(self.count() == old(self).count() - 1);
            let ghost from = old(self).head_offset();
            let ghost to = from + old(self).count();
            if offset + 1 < BLOCK_CAP {
                assert(self.blocks@[0] == block);
                assert forall|b: int| 1 <= b < self.blocks@.len() implies self.blocks@[b] == old(
                    self,
                ).blocks@[b] by {}
                assert(self.blocks_whole());
                assert forall|b: int, s: int|
                    0 <= b < self.blocks@.len() && 0 <= s < BLOCK_CAP implies (
                #[trigger] self.blocks@[b].slots[s]).at_rest(place(b, s), from + 1, to) by {
                    if b > 0 {
                        assert(old(self).blocks@[b].slots[s].at_rest(place(b, s), from, to));
                    } else if s != offset {
                        assert(block.slots[s] == old(self).blocks@[0].slots[s]);
                        assert(old(self).blocks@[0].slots[s].at_rest(place(0, s), from, to));
                    }
                }
                assert(self.wf());
                assert forall|i: int| 0 <= i < self.count() implies self.item(i) == old(
                    self,
                ).item(i + 1) by {
                    let at = from + 1 + i;
                    if block_of(at) == 0 {
                        assert(slot_of(at) != offset);
                        assert(block.slots[slot_of(at)] == old(self).blocks@[0].slots[slot_of(at)]);
                    } else {
                        assert(self.blocks@[block_of(at)] == old(self).blocks@[block_of(at)]);
                    }
                }
            } else {
                assert forall|b: int| 0 <= b < self.blocks@.len() implies self.blocks@[b] == old(
                    self,
                ).blocks@[b + 1] by {}
                assert(self.blocks_whole());
                assert forall|b: int, s: int|
                    0 <= b < self.blocks@.len() && 0 <= s < BLOCK_CAP implies (
                #[trigger] self.blocks@[b].slots[s]).at_rest(place(b, s), 0, to - BLOCK_CAP) by {
                    assert(old(self).blocks@[b + 1].slots[s].at_rest(place(b + 1, s), from, to));
                }
                assert(self.wf());
                assert forall|i: int| 0 <= i < self.count() implies self.item(i) == old(
                    self,
                ).item(i + 1) by {
                    assert(block_of(i) + 1 == block_of(from + 1 + i));
                    assert(slot_of(i) == slot_of(from + 1 + i));
                    assert(self.blocks@[block_of(i)] == old(self).blocks@[block_of(i) + 1]);
                }
            }
            assert(self@.items =~= old(self)@.items.drop_first());
        }
        Ok(value)
    }

    /// Closes the queue by setting the marker bit of `head`; the items stay where they are.
    /// Returns `true` if the queue was open until now.
    pub fn close(&mut self) -> (r: bool)
        requires
            old(self).wf(),
        ensures
            final(self).wf(),
            r == old(self)@.close_result(),
            final(self)@ == old(self)@.after_close(),
    {
        let head = self.head;
        self.head = set_mark(head);
        proof {
            assert(position(self.head) == position(head));
            assert(self.head_offset() == old(self).head_offset());
            assert(self.count() == old(self).count());
            assert(self.blocks_whole());
            assert forall|b: int, s: int|
                0 <= b < self.blocks@.len() && 0 <= s < BLOCK_CAP implies (
            #[trigger] self.blocks@[b].slots[s]).at_rest(
                place(b, s),
                self.head_offset(),
                self.head_offset() + self.count(),
            ) by {
                assert(old(self).blocks@[b].slots[s].at_rest(
                    place(b, s),
                    self.head_offset(),
                    self.head_offset() + self.count(),
                ));
            }
            assert forall|i: int| 0 <= i < self.count() implies self.item(i) == old(self).item(
                i,
            ) by {}
            assert(self@.items =~= old(self)@.items);
        }
        !is_marked(head)
    }

    /// Whether the queue has been closed.
    pub fn is_closed(&self) -> (r: bool)
        requires
            self.wf(),
        ensures
            r == self@.closed,
    {
        is_marked(self.head)
    }

    /// The number of items in the queue: the steps from the position of `head` to that of
    /// `tail`, which is the number of blocks between them times `BLOCK_CAP`, plus the offset of
    /// `tail`, minus the offset of `head`.
    pub fn len(&self) -> (n: usize)
        requires
            self.wf(),
        ensures
            n == self@.len(),
            n <= MAX_LEN,
    {
        let head = clear_mark(self.head);
        self.tail.wrapping_sub(head) / 2
    }

    /// Whether the queue holds no items: `head` has caught up with `tail`.
    pub fn is_empty(&self) -> (r: bool)
        requires
            self.wf(),
        ensures
            r == self@.is_empty(),
    {
        clear_mark(self.head) == self.tail
    }

    /// An unbounded queue is never full.
    pub fn is_full(&self) -> (r: bool)
        requires
            self.wf(),
        ensures
            r == self@.is_full(),
            !r,
    {
        false
    }
}

impl<T> View for Unbounded<T> {
    type V = QueueState<T>;

    /// The items from oldest to newest, the closed marker of `head`, and no capacity.
    closed spec fn view(&self) -> QueueState<T> {
        QueueState {
            items: Seq::new(self.count() as nat, |i: int| self.item(i)),
            closed: marked(self.head),
            capacity: None,
        }
    }
}

} // verus!
