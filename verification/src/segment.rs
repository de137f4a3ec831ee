//! Segments: the bounds-checked views over one contiguous run of words.
//!
//! A [`SegmentReader`] is the immutable half: it knows where its words
//! begin and end, and answers the one bounds query that makes traversal of
//! untrusted input memory-safe. A [`SegmentBuilder`] adds a bump-allocation
//! cursor on top of the same view for messages under construction.

use vstd::prelude::*;
use crate::common::{address_range_fits, SegmentId, WordAddress, WordCount, BYTES_PER_WORD};

verus! {

/// An immutable, bounds-checked view of a segment: the words at addresses
/// `[base, base + length)`.
pub struct SegmentReader {
    /// Address of the segment's first word.
    pub base: WordAddress,
    /// Number of words the segment spans.
    pub length: WordCount,
}

impl SegmentReader {
    /// The view is well formed when its address range fits the machine.
    pub open spec fn wf(self) -> bool {
        address_range_fits(self.base as int, self.length as int)
    }

    /// Address one past the segment's last word.
    pub open spec fn spec_end(self) -> int {
        self.base + self.length
    }

    /// A new view of the words at `[base, base + length)`.
    pub fn new(base: WordAddress, length: WordCount) -> (s: SegmentReader)
        requires
            address_range_fits(base as int, length as int),
        ensures
            s.wf(),
            s.base == base,
            s.length == length,
    {
        SegmentReader { base, length }
    }

    /// The address of the segment's first word, the origin that relative
    /// offsets encoded in pointers are measured from.
    pub fn get_start_ptr(&self) -> (r: WordAddress)
        ensures
            r == self.base,
    {
        self.base
    }

    /// Whether the half-open interval `[from, to)` lies entirely within
    /// this segment's words. Every dereference of a decoded pointer must
    /// pass this gate before the memory behind it is interpreted as
    /// structured data.
    pub fn contains_interval(&self, from: WordAddress, to: WordAddress) -> (r: bool)
        requires
            self.wf(),
        ensures
            r == (self.base <= from && to <= self.spec_end()),
    {
        proof {
            lemma_word_range_unscaled(self.base as int, self.length as int);
        }
        from >= self.base && to <= self.base + self.length
    }
}

/// The mutable view of a segment under construction: the immutable view
/// plus the segment's identity and a bump-allocation cursor.
pub struct SegmentBuilder {
    /// The words this segment spans, as an immutable view.
    pub reader: SegmentReader,
    /// The identifier the owning arena assigned at construction.
    pub id: SegmentId,
    /// The cursor: the address of the first word not yet allocated. It
    /// starts at `reader.base`, advances monotonically, and never passes
    /// the segment's end.
    pub pos: WordAddress,
}

impl SegmentBuilder {
    /// The central allocation invariant: the view is well formed and the
    /// cursor stays inside `[base, base + length]`.
    pub open spec fn wf(self) -> bool {
        &&& self.reader.wf()
        &&& self.reader.base <= self.pos <= self.reader.spec_end()
    }

    /// Words already committed: the distance from the base to the cursor.
    pub open spec fn spec_current_size(self) -> int {
        self.pos - self.reader.base
    }

    /// Words still free: the distance from the cursor to the end.
    pub open spec fn spec_available(self) -> int {
        self.reader.spec_end() - self.pos
    }

    /// Whether a request for `amount` words fits in the free space.
    pub open spec fn can_allocate(self, amount: int) -> bool {
        amount <= self.spec_available()
    }

    /// The segment after a fitting allocation of `amount` words: the same
    /// view and identity, the cursor advanced by `amount`.
    pub open spec fn after_allocate(self, amount: int) -> SegmentBuilder {
        SegmentBuilder { pos: (self.pos + amount) as WordAddress, ..self }
    }

    /// A fresh build segment over the words at `[base, base + length)`,
    /// with identity `id` and nothing allocated yet.
    pub fn new(id: SegmentId, base: WordAddress, length: WordCount) -> (s: SegmentBuilder)
        requires
            address_range_fits(base as int, length as int),
        ensures
            s.wf(),
            s.reader.base == base,
            s.reader.length == length,
            s.id == id,
            s.pos == base,
            s.spec_current_size() == 0,
    {
        SegmentBuilder { reader: SegmentReader::new(base, length), id, pos: base }
    }

    /// The distance, in whole words, from the segment's base to `ptr`;
    /// the offset encoded in an intra-segment pointer. An address before
    /// the base can only mean the caller mis-tracked which segment it
    /// belongs to, so such an address is ruled out.
    pub fn get_word_offset_to(&self, ptr: WordAddress) -> (r: WordCount)
        requires
            ptr >= self.reader.base,
        ensures
            r == ptr - self.reader.base,
    {
        ptr - self.reader.base
    }

    /// Words already committed to allocations.
    pub fn current_size(&self) -> (r: WordCount)
        requires
            self.wf(),
        ensures
            r == self.spec_current_size(),
    {
        self.pos - self.reader.base
    }

    /// Words still free for allocation.
    pub fn available(&self) -> (r: WordCount)
        requires
            self.wf(),
        ensures
            r == self.spec_available(),
    {
        proof {
            lemma_word_range_unscaled(self.reader.base as int, self.reader.length as int);
        }
        self.reader.length - (self.pos - self.reader.base)
    }

    /// Bump-allocates `amount` words. When they fit, the cursor advances
    /// by `amount` and the address of the freshly allocated words — the
    /// cursor as it stood before the call — is returned. When they do not
    /// fit, the segment is left untouched and `None` says so: that is the
    /// owning arena's cue to fall back to another segment, not a fault.
    pub fn allocate(&mut self, amount: WordCount) -> (r: Option<WordAddress>)
        requires
            old(self).wf(),
        ensures
            final(self).wf(),
            old(self).can_allocate(amount as int) ==> {
                &&& r == Some(old(self).pos)
                &&& *final(self) == old(self).after_allocate(amount as int)
                &&& final(self).spec_current_size() == old(self).spec_current_size() + amount
            },
            !old(self).can_allocate(amount as int) ==> {
                &&& r is None
                &&& *final(self) == *old(self)
            },
    {
        proof {
            lemma_word_range_unscaled(self.reader.base as int, self.reader.length as int);
        }
        if amount > self.reader.length - (self.pos - self.reader.base) {
            None
        } else {
            let result = self.pos;
            self.pos = self.pos + amount;
            Some(result)
        }
    }

    /// The address of the word at `offset` from the segment's base. The
    /// offset must stay within the segment's span; nothing is said about
    /// whether the word has been allocated yet.
    pub fn get_ptr_unchecked(&self, offset: WordCount) -> (r: WordAddress)
        requires
            self.wf(),
            offset <= self.reader.length,
        ensures
            r == self.reader.base + offset,
    {
        proof {
            lemma_word_range_unscaled(self.reader.base as int, self.reader.length as int);
        }
        self.reader.base + offset
    }

    /// The identifier the owning arena assigned at construction.
    pub fn get_segment_id(&self) -> (r: SegmentId)
        ensures
            r == self.id,
    {
        self.id
    }
}

/// The total of a sequence of allocation sizes, in words.
pub open spec fn size_sum(sizes: Seq<WordCount>) -> int
    decreases sizes.len(),
{
    if sizes.len() == 0 {
        0
    } else {
        sizes[0] + size_sum(sizes.drop_first())
    }
}

/// Whether every allocation in `sizes`, made in order against `s`, fits.
pub open spec fn all_allocations_fit(s: SegmentBuilder, sizes: Seq<WordCount>) -> bool
    decreases sizes.len(),
{
    if sizes.len() == 0 {
        true
    } else {
        s.can_allocate(sizes[0] as int) && all_allocations_fit(
            s.after_allocate(sizes[0] as int),
            sizes.drop_first(),
        )
    }
}

/// The segment after the allocations in `sizes`, made in order.
pub open spec fn after_allocations(s: SegmentBuilder, sizes: Seq<WordCount>) -> SegmentBuilder
    decreases sizes.len(),
{
    if sizes.len() == 0 {
        s
    } else {
        after_allocations(s.after_allocate(sizes[0] as int), sizes.drop_first())
    }
}

/// A sum of word counts is never negative.
pub proof fn lemma_size_sum_nonneg(sizes: Seq<WordCount>)
    ensures
        size_sum(sizes) >= 0,
    decreases sizes.len(),
{
    if sizes.len() > 0 {
        lemma_size_sum_nonneg(sizes.drop_first());
    }
}

/// Exact fill: a sequence of allocations whose sizes total exactly the
/// segment's free space all fit, in order, and leave no word free — so a
/// further allocation of even a single word no longer fits.
pub proof fn lemma_exact_fill(s: SegmentBuilder, sizes: Seq<WordCount>)
    requires
        s.wf(),
        size_sum(sizes) == s.spec_available(),
    ensures
        all_allocations_fit(s, sizes),
        after_allocations(s, sizes).spec_available() == 0,
        !after_allocations(s, sizes).can_allocate(1),
    decreases sizes.len(),
{
    if sizes.len() > 0 {
        lemma_size_sum_nonneg(sizes.drop_first());
        let next = s.after_allocate(sizes[0] as int);
        assert(next.wf());
        lemma_exact_fill(next, sizes.drop_first());
    }
}

/// A word range that fits the machine scaled to bytes also fits unscaled.
pub proof fn lemma_word_range_unscaled(base: int, length: int)
    requires
        address_range_fits(base, length),
    ensures
        base + length <= usize::MAX,
{
    assert((base + length) * (BYTES_PER_WORD as int) >= base + length);
}

} // verus!
