//! Basic units of the arena's address arithmetic.
//!
//! Every size, offset and allocation in the arena is expressed in whole
//! words of a fixed 8-byte width; an address is a word index into the
//! flat address space that one message's segments are carved out of.

use vstd::prelude::*;

verus! {

/// A count of whole words.
pub type WordCount = usize;

/// A word-granular address: the index of a word in the address space
/// that the segments of one message live in.
pub type WordAddress = usize;

/// Identifies one segment within a message; dense, starting at 0.
pub type SegmentId = u32;

/// The fixed width of a word in bytes.
pub const BYTES_PER_WORD: usize = 8;

/// An address range fits the machine when even its end, scaled to bytes,
/// stays representable. Every segment the arena hands out satisfies this,
/// so address and byte computations inside the bound never overflow.
pub open spec fn address_range_fits(base: int, length: int) -> bool {
    0 <= base && 0 <= length && (base + length) * (BYTES_PER_WORD as int) <= usize::MAX as int
}

} // verus!
