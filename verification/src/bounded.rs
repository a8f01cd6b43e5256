//! The bounded engine: a ring of stamped slots.
//!
//! `head` and `tail` are counter words. A word is `lap + 2 * index + mark`: `index` is a slot of
//! the ring, `lap` is a multiple of the stride `2 * one_lap`, and the lowest bit of `tail` is the
//! closed marker (the lowest bit of `head` is never set). Each slot carries a stamp that is
//! itself such a word: an even stamp names the position at which the slot will next be written,
//! an odd stamp is the position at which it was written, plus one. A producer may write a slot
//! whose stamp equals `tail`; a consumer may read a slot whose stamp equals `head + 1`.
//!
//! Laps go round: after the last lap that fits in a word comes lap zero again. The ring never
//! holds more than one lap of items, so `head` and `tail` are always in the same lap or in two
//! consecutive ones, and that is all the stamps need to tell apart.

use vstd::prelude::*;
use vstd::arithmetic::div_mod::{
    lemma_fundamental_div_mod,
    lemma_fundamental_div_mod_converse,
    lemma_mod_multiples_basic,
    lemma_mod_pos_bound,
};
use vstd::arithmetic::power::pow;
use vstd::arithmetic::power2::{
    is_pow2,
    is_pow2_equiv,
    lemma2_to64,
    lemma_pow2_pos,
    lemma_pow2_strictly_increases,
    lemma_pow2_unfold,
    pow2,
};
use vstd::bits::{lemma_usize_low_bits_mask_is_mod, low_bits_mask};
use crate::error::{PopError, PushError};
use crate::mark::{clear_mark, is_marked, marked, set_mark};
use crate::model::QueueState;

verus! {

/// The largest capacity a bounded queue can be made with: two full laps must fit in a word.
pub const MAX_CAPACITY: usize = usize::MAX / 8;

/// The first word of the lap that `word` lies in.
#[verifier::opaque]
spec fn lap_of(word: usize, one_lap: usize) -> int {
    word - (word as int) % (2 * one_lap)
}

/// The slot that `word` points at.
#[verifier::opaque]
spec fn index_of(word: usize, one_lap: usize) -> int {
    ((word as int) % (2 * one_lap)) / 2
}

/// Whether `lap` is the first word of a lap: a multiple of the stride.
#[verifier::opaque]
spec fn starts_lap(lap: int, one_lap: usize) -> bool {
    lap % (2 * one_lap) == 0
}

/// Whether a whole lap starting at `lap` fits in a word.
spec fn lap_fits(lap: int, one_lap: usize) -> bool {
    0 <= lap && lap % 2 == 0 && lap + 2 * one_lap - 1 <= usize::MAX
}

/// The lap after `lap`: the next multiple of the stride, or zero when that lap would not fit.
spec fn next_lap(lap: int, one_lap: usize) -> int {
    if lap + 4 * one_lap - 1 <= usize::MAX {
        lap + 2 * one_lap
    } else {
        0
    }
}

/// A word splits into its lap, twice its index, and its marker bit; the remainder of the word
/// by the stride is where it stands within its lap.
proof fn lemma_word_parts(word: usize, one_lap: usize)
    requires
        one_lap > 0,
    ensures
        lap_of(word, one_lap) == word - (word as int) % (2 * one_lap),
        index_of(word, one_lap) == ((word as int) % (2 * one_lap)) / 2,
        0 <= lap_of(word, one_lap),
        starts_lap(lap_of(word, one_lap), one_lap),
        lap_of(word, one_lap) % 2 == 0,
        0 <= index_of(word, one_lap) < one_lap,
        word == lap_of(word, one_lap) + 2 * index_of(word, one_lap) + word % 2,
{
    reveal(lap_of);
    reveal(index_of);
    reveal(starts_lap);
    let stride = 2 * one_lap;
    let q = word as int / stride;
    let r = word as int % stride;
    lemma_fundamental_div_mod(word as int, stride);
    lemma_mod_pos_bound(word as int, stride);
    lemma_mod_multiples_basic(q, stride);
    assert(stride * q == q * stride) by (nonlinear_arith);
    assert(stride * q == 2 * (one_lap * q)) by (nonlinear_arith)
        requires
            stride == 2 * one_lap,
    ;
    assert(word == (one_lap * q + r / 2) * 2 + r % 2);
    lemma_fundamental_div_mod_converse(word as int, 2, one_lap * q + r / 2, r % 2);
}

/// A lap, an index within it and a marker bit make a word that splits into the same parts.
proof fn lemma_word_from_parts(word: usize, lap: int, index: int, bit: int, one_lap: usize)
    requires
        one_lap > 0,
        0 <= lap,
        starts_lap(lap, one_lap),
        0 <= index < one_lap,
        0 <= bit <= 1,
        word == lap + 2 * index + bit,
    ensures
        lap_of(word, one_lap) == lap,
        index_of(word, one_lap) == index,
        word % 2 == bit,
{
    reveal(lap_of);
    reveal(index_of);
    reveal(starts_lap);
    let stride = 2 * one_lap;
    let q = lap / stride;
    lemma_fundamental_div_mod(lap, stride);
    assert(stride * q == q * stride) by (nonlinear_arith);
    lemma_fundamental_div_mod_converse(word as int, stride, q, 2 * index + bit);
    lemma_word_parts(word, one_lap);
}

/// Zero is the first word of a lap.
proof fn lemma_lap_zero(one_lap: usize)
    requires
        one_lap > 0,
    ensures
        starts_lap(0, one_lap),
{
    reveal(starts_lap);
    lemma_mod_multiples_basic(0, 2 * one_lap);
}

/// The lap after a lap that fits is a lap that fits too, and is another lap whenever two laps
/// fit in a word.
proof fn lemma_next_lap(lap: int, one_lap: usize)
    requires
        one_lap > 0,
        lap_fits(lap, one_lap),
        starts_lap(lap, one_lap),
    ensures
        lap_fits(next_lap(lap, one_lap), one_lap),
        starts_lap(next_lap(lap, one_lap), one_lap),
        4 * one_lap - 1 <= usize::MAX ==> next_lap(lap, one_lap) != lap,
{
    reveal(starts_lap);
    let stride = 2 * one_lap;
    let q = lap / stride;
    lemma_fundamental_div_mod(lap, stride);
    assert(lap + stride == (q + 1) * stride) by (nonlinear_arith)
        requires
            lap == stride * q,
    ;
    lemma_mod_multiples_basic(q + 1, stride);
    lemma_mod_multiples_basic(0, stride);
}

/// The stride less one is a mask: since `one_lap` is a power of two, the bits of a word under
/// the mask are its remainder by the stride.
proof fn lemma_mask_is_mod(word: usize, one_lap: usize)
    requires
        is_pow2(one_lap as int),
        2 * one_lap <= usize::MAX,
    ensures
        one_lap > 0,
        word & ((2 * one_lap - 1) as usize) == (word as int) % (2 * one_lap),
{
    is_pow2_equiv(one_lap as int);
    let e = choose|e: nat| pow(2, e) == one_lap as int;
    assert(pow2(e) == one_lap);
    lemma_pow2_pos(e);
    lemma_pow2_unfold(e + 1);
    if e + 1 >= usize::BITS {
        lemma2_to64();
        if e + 1 > usize::BITS {
            lemma_pow2_strictly_increases(usize::BITS as nat, e + 1);
        }
        assert(false);
    }
    lemma_usize_low_bits_mask_is_mod(word, e + 1);
    assert(low_bits_mask(e + 1) as usize == (2 * one_lap - 1) as usize);
    assert(pow2(e + 1) as usize == (2 * one_lap) as usize);
}

/// Splits a word into the first word of its lap and its index; the marker bit is dropped.
fn split(word: usize, one_lap: usize) -> (parts: (usize, usize))
    requires
        is_pow2(one_lap as int),
        2 * one_lap <= usize::MAX,
    ensures
        parts.0 == lap_of(word, one_lap),
        parts.1 == index_of(word, one_lap),
        starts_lap(parts.0 as int, one_lap),
        parts.0 % 2 == 0,
        parts.1 < one_lap,
        word == parts.0 + 2 * parts.1 + word % 2,
{
    proof {
        lemma_mask_is_mod(word, one_lap);
        lemma_word_parts(word, one_lap);
    }
    // The bits of the index and of the marker.
    let mask = 2 * one_lap - 1;
    let within = word & mask;
    assert(word & !mask == word - (word & mask)) by (bit_vector);
    assert(within >> 1 == within / 2) by (bit_vector);
    (word & !mask, within >> 1)
}

/// Where `head` and `tail` stand: the lap and the index of each.
struct Marks {
    head_lap: int,
    head_index: int,
    tail_lap: int,
    tail_index: int,
}

impl Marks {
    /// `head` and `tail` are in the same lap with `head` not behind `tail`, or `tail` is one
    /// lap ahead and has not passed `head`.
    spec fn in_step(self, one_lap: usize, cap: int) -> bool {
        &&& 0 <= self.head_index < cap
        &&& 0 <= self.tail_index < cap
        &&& lap_fits(self.head_lap, one_lap)
        &&& lap_fits(self.tail_lap, one_lap)
        &&& starts_lap(self.head_lap, one_lap)
        &&& starts_lap(self.tail_lap, one_lap)
        &&& {
            ||| self.tail_lap == self.head_lap && self.head_index <= self.tail_index
            ||| self.tail_lap != self.head_lap && self.tail_lap == next_lap(
                self.head_lap,
                one_lap,
            ) && self.tail_index <= self.head_index
        }
    }

    /// How many items lie between `head` and `tail`.
    spec fn count(self, cap: int) -> int {
        if self.tail_lap == self.head_lap {
            self.tail_index - self.head_index
        } else {
            cap - self.head_index + self.tail_index
        }
    }

    /// Whether slot `j` lies between `head` and `tail`.
    spec fn occupied(self, j: int) -> bool {
        if self.tail_lap == self.head_lap {
            self.head_index <= j < self.tail_index
        } else {
            self.head_index <= j || j < self.tail_index
        }
    }

    /// The stamp that slot `j` carries between operations: odd, and of the lap it was written
    /// in, if it is occupied; even, and of the lap it will next be written in, if it is free.
    spec fn stamp(self, j: int, one_lap: usize) -> int {
        if self.occupied(j) {
            (if j < self.tail_index {
                self.tail_lap
            } else {
                self.head_lap
            }) + 2 * j + 1
        } else {
            (if j < self.tail_index {
                next_lap(self.tail_lap, one_lap)
            } else {
                self.tail_lap
            }) + 2 * j
        }
    }

    /// The slot that holds the item `k` places behind the oldest one.
    spec fn slot_of(self, k: int, cap: int) -> int {
        if self.head_index + k < cap {
            self.head_index + k
        } else {
            self.head_index + k - cap
        }
    }
}

/// One place of the ring: a stamp and room for one item.
struct Slot<T> {
    stamp: usize,
    value: Option<T>,
}

impl<T> Slot<T> {
    /// What a slot looks like between operations.
    spec fn at_rest(self, j: int, marks: Marks, one_lap: usize) -> bool {
        &&& self.stamp == marks.stamp(j, one_lap)
        &&& self.value is Some <==> marks.occupied(j)
    }
}

/// A queue of fixed capacity.
pub struct Bounded<T> {
    head: usize,
    tail: usize,
    buffer: Vec<Slot<T>>,
    one_lap: usize,
}

impl<T> Bounded<T> {
    spec fn cap(&self) -> int {
        self.buffer.len() as int
    }

    spec fn marks(&self) -> Marks {
        Marks {
            head_lap: lap_of(self.head, self.one_lap),
            head_index: index_of(self.head, self.one_lap),
            tail_lap: lap_of(self.tail, self.one_lap),
            tail_index: index_of(self.tail, self.one_lap),
        }
    }

    /// Every slot of the ring is at rest for the marks `marks`.
    spec fn slots_at_rest(&self, marks: Marks) -> bool {
        forall|j: int|
            0 <= j < self.cap() ==> (#[trigger] self.buffer[j]).at_rest(j, marks, self.one_lap)
    }

    /// The invariant of the ring between operations.
    pub closed spec fn wf(&self) -> bool {
        &&& 1 <= self.cap() <= self.one_lap < 2 * self.cap()
        &&& is_pow2(self.one_lap as int)
        &&& 4 * self.one_lap <= usize::MAX
        &&& !marked(self.head)
        &&& self.marks().in_step(self.one_lap, self.cap())
        &&& self.slots_at_rest(self.marks())
    }

    /// The item `k` places behind the oldest one.
    spec fn item(&self, k: int) -> T {
        self.buffer[self.marks().slot_of(k, self.cap())].value->0
    }

    /// A well-formed ring is a well-formed queue: it holds at most `capacity` items.
    pub proof fn lemma_view_wf(&self)
        requires
            self.wf(),
        ensures
            self@.wf(),
            self@.capacity is Some,
    {
    }

    /// The smallest power of two that is at least `cap`.
    fn lap_for(cap: usize) -> (one_lap: usize)
        requires
            1 <= cap <= MAX_CAPACITY,
        ensures
            is_pow2(one_lap as int),
            cap <= one_lap < 2 * cap,
    {
        let mut one_lap: usize = 1;
        assert(is_pow2(1)) by {
            reveal_with_fuel(is_pow2, 2);
        }
        while one_lap < cap
            invariant
                1 <= cap <= MAX_CAPACITY,
                is_pow2(one_lap as int),
                1 <= one_lap < 2 * cap,
            decreases 2 * cap - one_lap,
        {
            assert(is_pow2(2 * one_lap)) by {
                reveal_with_fuel(is_pow2, 2);
            }
            one_lap = 2 * one_lap;
        }
        one_lap
    }

    /// Makes an empty, open ring of `cap` slots; slot `i` starts with the stamp of position `i`
    /// in lap zero.
    pub fn new(cap: usize) -> (q: Self)
        requires
            1 <= cap <= MAX_CAPACITY,
        ensures
            q.wf(),
            q@ == QueueState::<T>::bounded(cap as nat),
    {
        let one_lap = Self::lap_for(cap);
        let mut buffer: Vec<Slot<T>> = Vec::with_capacity(cap);
        let mut i: usize = 0;
        while i < cap
            invariant
                i <= cap <= MAX_CAPACITY,
                buffer.len() == i,
                forall|j: int|
                    0 <= j < i ==> (#[trigger] buffer[j]).stamp == 2 * j && buffer[j].value is None,
            decreases cap - i,
        {
            buffer.push(Slot { stamp: 2 * i, value: None });
            i = i + 1;
        }
        let q = Bounded { head: 0, tail: 0, buffer, one_lap };
        proof {
            lemma_lap_zero(one_lap);
            lemma_word_from_parts(0, 0, 0, 0, one_lap);
            assert(q.marks() == Marks { head_lap: 0, head_index: 0, tail_lap: 0, tail_index: 0 });
            assert(q@.items =~= Seq::<T>::empty());
        }
        q
    }

    /// The lap that follows `lap`.
    fn following_lap(&self, lap: usize) -> (next: usize)
        requires
            self.one_lap > 0,
            4 * self.one_lap <= usize::MAX,
            lap_fits(lap as int, self.one_lap),
        ensures
            next == next_lap(lap as int, self.one_lap),
    {
        let stride = 2 * self.one_lap;
        if lap <= usize::MAX - stride - (stride - 1) {
            lap + stride
        } else {
            0
        }
    }

    /// Pushes `value` unless the queue is closed or full; a rejected item comes back in the
    /// error.
    pub fn push(&mut self, value: T) -> (r: Result<(), PushError<T>>)
        requires
            old(self).wf(),
        ensures
            final(self).wf(),
            r == old(self)@.push_result(value),
            final(self)@ == old(self)@.after_push(value),
    {
        let tail = self.tail;
        if is_marked(tail) {
            return Err(PushError::Closed(value));
        }
        let (lap, index) = split(tail, self.one_lap);
        let ghost before = self.marks();
        let ghost cap = self.cap();
        proof {
            lemma_next_lap(before.tail_lap, self.one_lap);
            assert(self.buffer[index as int].at_rest(index as int, before, self.one_lap));
        }
        let stamp = self.buffer[index].stamp;
        if stamp == tail {
            // The slot is free in this lap: claim it by moving the tail on, then write it.
            let new_tail = if index + 1 < self.buffer.len() {
                tail + 2
            } else {
                self.following_lap(lap)
            };
            self.tail = new_tail;
            self.buffer[index].value = Some(value);
            self.buffer[index].stamp = tail + 1;
            proof {
                let after = self.marks();
                if index + 1 < cap {
                    lemma_word_from_parts(new_tail, lap as int, index + 1, 0, self.one_lap);
                    assert(after == Marks { tail_index: index + 1, ..before });
                } else {
                    lemma_word_from_parts(new_tail, new_tail as int, 0, 0, self.one_lap);
                    assert(after == Marks { tail_lap: new_tail as int, tail_index: 0, ..before });
                }
                assert(!before.occupied(index as int));
                assert(after.in_step(self.one_lap, cap));
                assert forall|j: int| 0 <= j < cap implies (#[trigger] self.buffer[j]).at_rest(
                    j,
                    after,
                    self.one_lap,
                ) by {
                    if j != index {
                        assert(self.buffer[j] == old(self).buffer[j]);
                        assert(old(self).buffer[j].at_rest(j, before, self.one_lap));
                    }
                }
                assert(self.wf());
                assert(after.count(cap) == before.count(cap) + 1);
                assert forall|k: int| 0 <= k < before.count(cap) implies self.item(k) == old(
                    self,
                ).item(k) by {
                    let j = before.slot_of(k, cap);
                    assert(after.slot_of(k, cap) == j);
                    assert(before.occupied(j));
                    assert(self.buffer[j] == old(self).buffer[j]);
                }
                assert(after.slot_of(before.count(cap), cap) == index);
                assert(self.item(before.count(cap)) == value);
                assert(self@.items =~= old(self)@.items.push(value));
            }
            Ok(())
        } else {
            // The slot still holds the item written one lap ago: the ring is full.
            assert(before.occupied(index as int));
            assert(before.count(cap) == cap);
            Err(PushError::Full(value))
        }
    }

    /// Pops the oldest item; with none left, says whether the queue is merely empty or closed
    /// for good.
    pub fn pop(&mut self) -> (r: Result<T, PopError>)
        requires
            old(self).wf(),
        ensures
            final(self).wf(),
            r == old(self)@.pop_result(),
            final(self)@ == old(self)@.after_pop(),
    {
        let head = self.head;
        let (lap, index) = split(head, self.one_lap);
        let ghost before = self.marks();
        let ghost cap = self.cap();
        proof {
            lemma_next_lap(before.head_lap, self.one_lap);
            assert(self.buffer[index as int].at_rest(index as int, before, self.one_lap));
        }
        let stamp = self.buffer[index].stamp;
        if stamp == head + 1 {
            // The slot was written in this lap: claim it by moving the head on, then read it.
            let next = self.following_lap(lap);
            let new_head = if index + 1 < self.buffer.len() {
                head + 2
            } else {
                next
            };
            self.head = new_head;
            let taken = self.buffer[index].value.take();
            self.buffer[index].stamp = next + 2 * index;
            proof {
                let after = self.marks();
                if index + 1 < cap {
                    lemma_word_from_parts(new_head, lap as int, index + 1, 0, self.one_lap);
                    assert(after == Marks { head_index: index + 1, ..before });
                } else {
                    lemma_word_from_parts(new_head, new_head as int, 0, 0, self.one_lap);
                    assert(after == Marks { head_lap: new_head as int, head_index: 0, ..before });
                }
                assert(before.occupied(index as int));
                assert(after.in_step(self.one_lap, cap));
                assert forall|j: int| 0 <= j < cap implies (#[trigger] self.buffer[j]).at_rest(
                    j,
                    after,
                    self.one_lap,
                ) by {
                    if j != index {
                        assert(self.buffer[j] == old(self).buffer[j]);
                        assert(old(self).buffer[j].at_rest(j, before, self.one_lap));
                    }
                }
                assert(self.wf());
                assert(after.count(cap) == before.count(cap) - 1);
                assert(before.slot_of(0, cap) == index);
                assert forall|k: int| 0 <= k < after.count(cap) implies self.item(k) == old(
                    self,
                ).item(k + 1) by {
                    let j = after.slot_of(k, cap);
                    assert(before.slot_of(k + 1, cap) == j);
                    assert(j != index);
                    assert(self.buffer[j] == old(self).buffer[j]);
                }
                assert(self@.items =~= old(self)@.items.drop_first());
            }
            Ok(taken.unwrap())
        } else {
            // The slot is free in this lap: nothing has been written since the last pop.
            assert(!before.occupied(index as int));
            assert(before.count(cap) == 0);
            if is_marked(self.tail) {
                Err(PopError::Closed)
            } else {
                Err(PopError::Empty)
            }
        }
    }

    /// Closes the queue by setting the marker bit of `tail`; the items stay where they are.
    /// Returns `true` if the queue was open until now.
    pub fn close(&mut self) -> (r: bool)
        requires
            old(self).wf(),
        ensures
            final(self).wf(),
            r == old(self)@.close_result(),
            final(self)@ == old(self)@.after_close(),
    {
        let tail = self.tail;
        let new_tail = set_mark(tail);
        self.tail = new_tail;
        proof {
            let before = old(self).marks();
            lemma_word_parts(tail, self.one_lap);
            lemma_word_from_parts(new_tail, before.tail_lap, before.tail_index, 1, self.one_lap);
            assert(self.marks() == before);
            assert forall|k: int| 0 <= k < before.count(self.cap()) implies self.item(k) == old(
                self,
            ).item(k) by {}
            assert(self@.items =~= old(self)@.items);
        }
        !is_marked(tail)
    }

    /// Whether the queue has been closed.
    pub fn is_closed(&self) -> (r: bool)
        requires
            self.wf(),
        ensures
            r == self@.closed,
    {
        is_marked(self.tail)
    }

    /// The number of slots in the ring.
    pub fn capacity(&self) -> (cap: usize)
        requires
            self.wf(),
        ensures
            self@.capacity == Some(cap as nat),
    {
        self.buffer.len()
    }

    /// The number of items in the queue, from the indices of `head` and `tail`; where the two
    /// indices agree, the laps tell an empty ring from a full one.
    pub fn len(&self) -> (n: usize)
        requires
            self.wf(),
        ensures
            n == self@.len(),
            self@.capacity matches Some(cap) && n <= cap,
    {
        let head = self.head;
        let tail = clear_mark(self.tail);
        proof {
            let marks = self.marks();
            lemma_word_parts(self.tail, self.one_lap);
            lemma_word_parts(self.head, self.one_lap);
            lemma_word_from_parts(tail, marks.tail_lap, marks.tail_index, 0, self.one_lap);
        }
        let (_, head_index) = split(head, self.one_lap);
        let (_, tail_index) = split(tail, self.one_lap);
        if head_index < tail_index {
            tail_index - head_index
        } else if head_index > tail_index {
            self.buffer.len() - head_index + tail_index
        } else if tail == head {
            0
        } else {
            self.buffer.len()
        }
    }

    /// Whether the queue holds no items: `head` has caught up with `tail`.
    pub fn is_empty(&self) -> (r: bool)
        requires
            self.wf(),
        ensures
            r == self@.is_empty(),
    {
        proof {
            lemma_word_parts(self.tail, self.one_lap);
            lemma_word_parts(self.head, self.one_lap);
        }
        clear_mark(self.tail) == self.head
    }

    /// Whether the queue holds `capacity` items: `tail` is exactly one lap ahead of `head`.
    pub fn is_full(&self) -> (r: bool)
        requires
            self.wf(),
        ensures
            r == self@.is_full(),
    {
        let head = self.head;
        let (lap, index) = split(head, self.one_lap);
        proof {
            lemma_word_parts(self.tail, self.one_lap);
            lemma_next_lap(self.marks().head_lap, self.one_lap);
        }
        let one_lap_on = self.following_lap(lap) + 2 * index;
        clear_mark(self.tail) == one_lap_on
    }
}

impl<T> View for Bounded<T> {
    type V = QueueState<T>;

    /// The items from oldest to newest, the closed marker of `tail`, and the capacity.
    closed spec fn view(&self) -> QueueState<T> {
        QueueState {
            items: Seq::new(self.marks().count(self.cap()) as nat, |k: int| self.item(k)),
            closed: marked(self.tail),
            capacity: Some(self.cap() as nat),
        }
    }
}

} // verus!
