//! The one-bit closed marker that both engines fold into a counter word.
//!
//! A counter word is an even number that counts in steps of two; its lowest bit is free to
//! carry the marker, so that the counter and the marker are read and written as one value.

use vstd::prelude::*;

verus! {

/// Whether the lowest bit of `word` is set.
pub open spec fn marked(word: usize) -> bool {
    word % 2 == 1
}

/// `word` with its lowest bit cleared.
pub open spec fn without_mark(word: usize) -> int {
    word - word % 2
}

/// Tests the marker bit.
pub fn is_marked(word: usize) -> (set: bool)
    ensures
        set == marked(word),
{
    assert((word & 1 != 0) == (word % 2 == 1)) by (bit_vector);
    word & 1 != 0
}

/// Sets the marker bit and leaves the counter as it is.
pub fn set_mark(word: usize) -> (out: usize)
    ensures
        marked(out),
        without_mark(out) == without_mark(word),
{
    assert((word | 1) % 2 == 1 && (word | 1) - 1 == word - word % 2) by (bit_vector);
    word | 1
}

/// Clears the marker bit and leaves the counter as it is.
pub fn clear_mark(word: usize) -> (out: usize)
    ensures
        out == without_mark(word),
{
    assert(word & !1usize == word - word % 2) by (bit_vector);
    word & !1
}

} // verus!
