//! Arenas: the owning containers of one message's segments.
//!
//! A [`ReaderArena`] holds the immutable segments of a received message
//! and resolves segment ids for traversal. A [`BuilderArena`] holds the
//! build segments of a message under construction, services allocation
//! requests, and grows by appending fresh segments — never by resizing or
//! moving one, so every address it has handed out stays valid. An
//! [`ArenaPtr`] lets resolution code work on either kind alike.

use vstd::prelude::*;
use vstd::pervasive::unreached;
use crate::common::{address_range_fits, SegmentId, WordAddress, WordCount, BYTES_PER_WORD};
use crate::segment::{lemma_word_range_unscaled, SegmentBuilder, SegmentReader};

verus! {

/// The ordered, immutable collection of segments of one received message.
pub struct ReaderArena {
    /// The message's first segment, the target of segment id 0.
    pub segment0: SegmentReader,
    /// The additional segments; segment id `k > 0` targets entry `k - 1`.
    pub more_segments: Vec<SegmentReader>,
}

impl ReaderArena {
    /// Every segment view is well formed.
    pub open spec fn wf(self) -> bool {
        &&& self.segment0.wf()
        &&& forall|i: int|
            0 <= i < self.more_segments.len() ==> (#[trigger] self.more_segments[i]).wf()
    }

    /// Whether `id` names a segment of this arena.
    pub open spec fn valid_id(self, id: int) -> bool {
        id == 0 || 1 <= id <= self.more_segments.len()
    }

    /// The segment `id` names: `segment0` for id 0, else the additional
    /// segment at `id - 1`.
    pub open spec fn spec_segment(self, id: int) -> SegmentReader {
        if id == 0 {
            self.segment0
        } else {
            self.more_segments[id - 1]
        }
    }

    /// A read arena over the segments the message-receipt collaborator
    /// describes, one `(base, length)` descriptor per segment, in segment
    /// id order starting with segment 0.
    pub fn new(descriptors: &Vec<(WordAddress, WordCount)>) -> (a: ReaderArena)
        requires
            descriptors@.len() >= 1,
            forall|i: int|
                0 <= i < descriptors@.len() ==> address_range_fits(
                    (#[trigger] descriptors@[i]).0 as int,
                    descriptors@[i].1 as int,
                ),
        ensures
            a.wf(),
            a.more_segments@.len() == descriptors@.len() - 1,
            forall|id: int|
                0 <= id < descriptors@.len() ==> (#[trigger] a.spec_segment(id)).base
                    == descriptors@[id].0 && a.spec_segment(id).length == descriptors@[id].1,
    {
        let first = descriptors[0];
        let segment0 = SegmentReader::new(first.0, first.1);
        let mut more_segments: Vec<SegmentReader> = Vec::new();
        let mut i: usize = 1;
        while i < descriptors.len()
            invariant
                1 <= i <= descriptors@.len(),
                forall|k: int|
                    0 <= k < descriptors@.len() ==> address_range_fits(
                        (#[trigger] descriptors@[k]).0 as int,
                        descriptors@[k].1 as int,
                    ),
                more_segments@.len() == i - 1,
                forall|k: int|
                    0 <= k < i - 1 ==> {
                        &&& (#[trigger] more_segments@[k]).wf()
                        &&& more_segments@[k].base == descriptors@[k + 1].0
                        &&& more_segments@[k].length == descriptors@[k + 1].1
                    },
            decreases descriptors@.len() - i,
        {
            let d = descriptors[i];
            more_segments.push(SegmentReader::new(d.0, d.1));
            i += 1;
        }
        ReaderArena { segment0, more_segments }
    }
}

/// The arena's back-reference to the in-progress message whose memory it
/// carves segments out of. All the arena asks of the message is fresh
/// blocks of address space: each block begins at the current frontier and
/// the frontier only ever moves forward, so no two blocks overlap and no
/// block is ever moved or reclaimed while the message lives.
pub struct MessageMemory {
    /// The lowest address of the message's memory not yet given out.
    pub next_block: WordAddress,
}

impl MessageMemory {
    /// A fresh message with nothing given out yet.
    pub fn new() -> (m: MessageMemory)
        ensures
            m.next_block == 0,
    {
        MessageMemory { next_block: 0 }
    }

    /// A fresh block of `words` words. Its base is the frontier as it
    /// stood, and the frontier moves past the block, so every block
    /// handed out earlier lies entirely below this one.
    pub fn allocate_block(&mut self, words: WordCount) -> (base: WordAddress)
        requires
            address_range_fits(old(self).next_block as int, words as int),
        ensures
            base == old(self).next_block,
            final(self).next_block == old(self).next_block + words,
    {
        proof {
            lemma_word_range_unscaled(self.next_block as int, words as int);
        }
        let base = self.next_block;
        self.next_block = self.next_block + words;
        base
    }
}

/// The ordered, growable collection of build segments of one message
/// under construction.
pub struct BuilderArena {
    /// The in-progress message whose memory the segments are carved from.
    pub message: MessageMemory,
    /// The message's first segment, the target of segment id 0.
    pub segment0: SegmentBuilder,
    /// The additional segments; segment id `k > 0` targets entry `k - 1`.
    pub more_segments: Vec<SegmentBuilder>,
}

impl BuilderArena {
    /// All segments in id order: `segment0` followed by the additional ones.
    pub open spec fn segments(self) -> Seq<SegmentBuilder> {
        seq![self.segment0] + self.more_segments@
    }

    /// Well-formedness: every segment keeps its allocation invariant,
    /// segment ids equal positions, and the segments occupy disjoint,
    /// ascending address ranges that all lie below the message's frontier
    /// — so an address belongs to at most one segment, and growth at the
    /// frontier can never touch one already placed.
    pub open spec fn wf(self) -> bool {
        let segs = self.segments();
        &&& forall|i: int| 0 <= i < segs.len() ==> (#[trigger] segs[i]).wf()
        &&& forall|i: int| 0 <= i < segs.len() ==> (#[trigger] segs[i]).id as int == i
        &&& forall|i: int|
            0 <= i < segs.len() - 1 ==> (#[trigger] segs[i]).reader.spec_end()
                <= segs[i + 1].reader.base
        &&& segs.last().reader.spec_end() <= self.message.next_block
    }

    /// Whether `id` names a segment of this arena.
    pub open spec fn valid_id(self, id: int) -> bool {
        0 <= id < self.segments().len()
    }

    /// The build segment `id` names.
    pub open spec fn spec_segment(self, id: int) -> SegmentBuilder {
        self.segments()[id]
    }

    /// A fresh build arena for a new message, with one initial segment of
    /// `first_segment_words` words and nothing allocated yet.
    pub fn new(first_segment_words: WordCount) -> (a: BuilderArena)
        requires
            address_range_fits(0, first_segment_words as int),
        ensures
            a.wf(),
            a.segments().len() == 1,
            a.segment0.reader.base == 0,
            a.segment0.reader.length == first_segment_words,
            a.segment0.spec_current_size() == 0,
            a.more_segments@.len() == 0,
            a.message.next_block == first_segment_words,
    {
        let mut message = MessageMemory::new();
        let base = message.allocate_block(first_segment_words);
        let segment0 = SegmentBuilder::new(0, base, first_segment_words);
        let arena = BuilderArena { message, segment0, more_segments: Vec::new() };
        proof {
            assert(arena.segments() =~= seq![arena.segment0]);
        }
        arena
    }

    /// Whether some already-existing segment could satisfy a request for
    /// `amount` words.
    pub open spec fn some_segment_fits(self, amount: int) -> bool {
        exists|j: int|
            0 <= j < self.segments().len() && (#[trigger] self.segments()[j]).can_allocate(amount)
    }

    /// The size of the segment the arena would create for a request of
    /// `amount` words that no existing segment can hold: at least
    /// `amount`, rounded up to the size of the current last segment so
    /// that capacity keeps pace with the message.
    pub open spec fn spec_growth_words(self, amount: int) -> int {
        if amount > self.segments().last().reader.length {
            amount
        } else {
            self.segments().last().reader.length as int
        }
    }

    /// The segment the arena would create for such a request: placed at
    /// the message's frontier, carrying the next sequential id, with the
    /// request already allocated at its start.
    pub open spec fn grown_segment(self, amount: int) -> SegmentBuilder {
        SegmentBuilder {
            reader: SegmentReader {
                base: self.message.next_block,
                length: self.spec_growth_words(amount) as WordCount,
            },
            id: self.segments().len() as SegmentId,
            pos: (self.message.next_block + amount) as WordAddress,
        }
    }

    /// Allocates `amount` words somewhere in the arena and returns the id
    /// of the segment that took them together with their address — the
    /// taking segment's cursor as it stood.
    ///
    /// Existing segments are tried first, in id order, and the first with
    /// room wins. Only when none has room does the arena grow: exactly
    /// one fresh segment of at least `amount` words is appended at the
    /// message's frontier, under the next sequential id, and the request
    /// is taken from its start. Either way no existing segment's address
    /// range moves or shrinks, so every address handed out earlier stays
    /// exactly as it was, and still dereferenceable within its segment.
    pub fn allocate(&mut self, amount: WordCount) -> (r: (SegmentId, WordAddress))
        requires
            old(self).wf(),
            !old(self).some_segment_fits(amount as int) ==> {
                &&& address_range_fits(
                    old(self).message.next_block as int,
                    old(self).spec_growth_words(amount as int),
                )
                &&& old(self).segments().len() <= u32::MAX
            },
        ensures
            final(self).wf(),
            final(self).valid_id(r.0 as int),
            old(self).segment0.can_allocate(amount as int) ==> {
                &&& r.0 == 0
                &&& r.1 == old(self).segment0.pos
                &&& final(self).segment0 == old(self).segment0.after_allocate(amount as int)
                &&& final(self).more_segments@ == old(self).more_segments@
                &&& final(self).message == old(self).message
            },
            old(self).some_segment_fits(amount as int) ==> {
                &&& old(self).spec_segment(r.0 as int).can_allocate(amount as int)
                &&& forall|j: int|
                    0 <= j < r.0 as int ==> !(#[trigger] old(self).spec_segment(j)).can_allocate(
                        amount as int,
                    )
                &&& r.1 == old(self).spec_segment(r.0 as int).pos
                &&& final(self).segments() == old(self).segments().update(
                    r.0 as int,
                    old(self).spec_segment(r.0 as int).after_allocate(amount as int),
                )
                &&& final(self).message == old(self).message
            },
            !old(self).some_segment_fits(amount as int) ==> {
                &&& r.0 as int == old(self).segments().len()
                &&& r.1 == old(self).message.next_block
                &&& final(self).segments() == old(self).segments().push(
                    old(self).grown_segment(amount as int),
                )
                &&& final(self).segments().len() == old(self).segments().len() + 1
                &&& final(self).message.next_block == old(self).message.next_block + old(
                    self,
                ).spec_growth_words(amount as int)
            },
            forall|j: int|
                0 <= j < old(self).segments().len() && j != r.0 as int ==> final(self).segments()[j]
                    == (#[trigger] old(self).segments()[j]),
    {
        let ghost pre = *self;
        let r0 = self.segment0.allocate(amount);
        match r0 {
            Some(addr) => {
                proof {
                    assert(pre.segments()[0] == pre.segment0);
                    assert(self.segments() =~= pre.segments().update(
                        0,
                        pre.segment0.after_allocate(amount as int),
                    ));
                    lemma_update_keeps_wf(pre, *self, 0, amount as int);
                }
                return (0u32, addr);
            },
            None => {},
        }
        let n = self.more_segments.len();
        let mut j: usize = 0;
        while j < n
            invariant
                pre == *old(self),
                self.segment0 == pre.segment0,
                self.more_segments@ == pre.more_segments@,
                self.message == pre.message,
                pre.wf(),
                n == pre.more_segments@.len(),
                j <= n,
                !pre.segment0.can_allocate(amount as int),
                !pre.some_segment_fits(amount as int) ==> {
                    &&& address_range_fits(
                        pre.message.next_block as int,
                        pre.spec_growth_words(amount as int),
                    )
                    &&& pre.segments().len() <= u32::MAX
                },
                forall|k: int|
                    0 <= k <= j ==> !(#[trigger] pre.segments()[k]).can_allocate(amount as int),
            decreases n - j,
        {
            proof {
                assert(pre.segments()[j + 1] == pre.more_segments@[j as int]);
            }
            let seg = &mut self.more_segments[j];
            let rj = seg.allocate(amount);
            match rj {
                Some(addr) => {
                    proof {
                        let len = pre.segments().len();
                        assert(pre.segments()[len - 1].id as int == len - 1);
                        assert(j + 1 <= u32::MAX);
                        assert(pre.segments()[j + 1].can_allocate(amount as int));
                        assert(self.segments() =~= pre.segments().update(
                            j + 1,
                            pre.segments()[j + 1].after_allocate(amount as int),
                        ));
                        lemma_update_keeps_wf(pre, *self, j + 1, amount as int);
                    }
                    let id = (j + 1) as u32;
                    return (id, addr);
                },
                None => {},
            }
            proof {
                assert(self.more_segments@ =~= pre.more_segments@);
            }
            j += 1;
        }
        // No existing segment has room: grow at the message's frontier.
        proof {
            assert(!pre.some_segment_fits(amount as int));
        }
        let last_length = if n == 0 {
            proof {
                assert(pre.segments().last() == pre.segment0);
            }
            self.segment0.reader.length
        } else {
            proof {
                assert(pre.segments().last() == pre.more_segments@[n - 1]);
            }
            self.more_segments[n - 1].reader.length
        };
        let growth = if amount > last_length {
            amount
        } else {
            last_length
        };
        let id_usize = n + 1;
        let id = id_usize as u32;
        let base = self.message.allocate_block(growth);
        let mut seg = SegmentBuilder::new(id, base, growth);
        let addr = match seg.allocate(amount) {
            Some(a) => a,
            None => unreached(),
        };
        self.more_segments.push(seg);
        proof {
            assert(self.segments() =~= pre.segments().push(pre.grown_segment(amount as int)));
            lemma_grow_keeps_wf(pre, *self, amount as int);
        }
        (id, addr)
    }

    /// The byte ranges to emit when the message is serialized: for each
    /// segment, in id order, the half-open byte interval from its base
    /// to its cursor. Only committed words are covered — a segment's
    /// unused trailing capacity never appears in the output.
    pub fn get_segments_for_output(&self) -> (r: Vec<(usize, usize)>)
        requires
            self.wf(),
        ensures
            r@.len() == self.segments().len(),
            forall|i: int|
                0 <= i < r@.len() ==> {
                    let seg = self.segments()[i];
                    &&& (#[trigger] r@[i]).0 == seg.reader.base * BYTES_PER_WORD
                    &&& r@[i].1 == (seg.reader.base + seg.spec_current_size()) * BYTES_PER_WORD
                    &&& r@[i].1 - r@[i].0 == seg.spec_current_size() * BYTES_PER_WORD
                    &&& r@[i].1 <= seg.reader.spec_end() * BYTES_PER_WORD
                },
    {
        let mut out: Vec<(usize, usize)> = Vec::new();
        proof {
            assert(self.segments()[0] == self.segment0);
        }
        out.push((self.segment0.reader.base * BYTES_PER_WORD, self.segment0.pos * BYTES_PER_WORD));
        let n = self.more_segments.len();
        let mut j: usize = 0;
        while j < n
            invariant
                self.wf(),
                n == self.more_segments@.len(),
                j <= n,
                out@.len() == j + 1,
                forall|i: int|
                    0 <= i < out@.len() ==> {
                        let seg = self.segments()[i];
                        &&& (#[trigger] out@[i]).0 == seg.reader.base * BYTES_PER_WORD
                        &&& out@[i].1 == (seg.reader.base + seg.spec_current_size())
                            * BYTES_PER_WORD
                    },
            decreases n - j,
        {
            proof {
                assert(self.segments()[j + 1] == self.more_segments@[j as int]);
            }
            let seg = &self.more_segments[j];
            out.push((seg.reader.base * BYTES_PER_WORD, seg.pos * BYTES_PER_WORD));
            j += 1;
        }
        out
    }

    /// Resolves `id` to its build segment — not just the read view, so
    /// the caller can keep allocating into it. The arena afterwards holds
    /// whatever the caller left behind the returned reference; everything
    /// else is untouched.
    pub fn get_segment(&mut self, id: SegmentId) -> (r: &mut SegmentBuilder)
        requires
            old(self).valid_id(id as int),
        ensures
            *r == old(self).spec_segment(id as int),
            final(self).message == old(self).message,
            id == 0 ==> final(self).segment0 == *final(r) && final(self).more_segments@ == old(
                self,
            ).more_segments@,
            id != 0 ==> final(self).segment0 == old(self).segment0 && final(self).more_segments@
                == old(self).more_segments@.update(id as int - 1, *final(r)),
    {
        if id == 0 {
            &mut self.segment0
        } else {
            proof {
                assert(self.segments()[id as int] == self.more_segments@[id as int - 1]);
            }
            &mut self.more_segments[id as usize - 1]
        }
    }
}

/// An allocation into one existing segment leaves the arena well formed:
/// the segment's span and identity are untouched, only its cursor moved.
proof fn lemma_update_keeps_wf(pre: BuilderArena, post: BuilderArena, i: int, amount: int)
    requires
        pre.wf(),
        0 <= i < pre.segments().len(),
        0 <= amount,
        pre.segments()[i].can_allocate(amount),
        post.message == pre.message,
        post.segments() == pre.segments().update(i, pre.segments()[i].after_allocate(amount)),
    ensures
        post.wf(),
{
    let a = pre.segments();
    let b = post.segments();
    assert forall|k: int| 0 <= k < b.len() implies (#[trigger] b[k]).wf() by {
        if k != i {
            assert(b[k] == a[k]);
        }
    }
    assert forall|k: int| 0 <= k < b.len() implies (#[trigger] b[k]).id as int == k by {
        if k != i {
            assert(b[k] == a[k]);
        }
    }
    assert forall|k: int| 0 <= k < b.len() - 1 implies (#[trigger] b[k]).reader.spec_end()
        <= b[k + 1].reader.base by {
        assert(b[k].reader == a[k].reader);
        assert(b[k + 1].reader == a[k + 1].reader);
    }
    assert(b.last().reader == a.last().reader);
}

/// Growth leaves the arena well formed: the fresh segment sits at the
/// old frontier, past every existing segment, and the frontier moves
/// past it in turn.
proof fn lemma_grow_keeps_wf(pre: BuilderArena, post: BuilderArena, amount: int)
    requires
        pre.wf(),
        0 <= amount,
        address_range_fits(pre.message.next_block as int, pre.spec_growth_words(amount)),
        pre.segments().len() <= u32::MAX,
        post.segments() == pre.segments().push(pre.grown_segment(amount)),
        post.message.next_block == pre.message.next_block + pre.spec_growth_words(amount),
    ensures
        post.wf(),
{
    let a = pre.segments();
    let b = post.segments();
    let fresh = pre.grown_segment(amount);
    assert(amount <= pre.spec_growth_words(amount));
    lemma_word_range_unscaled(pre.message.next_block as int, pre.spec_growth_words(amount));
    assert(fresh.wf());
    assert forall|k: int| 0 <= k < b.len() implies (#[trigger] b[k]).wf() by {
        if k < a.len() {
            assert(b[k] == a[k]);
        }
    }
    assert forall|k: int| 0 <= k < b.len() implies (#[trigger] b[k]).id as int == k by {
        if k < a.len() {
            assert(b[k] == a[k]);
        }
    }
    assert forall|k: int| 0 <= k < b.len() - 1 implies (#[trigger] b[k]).reader.spec_end()
        <= b[k + 1].reader.base by {
        if k < a.len() - 1 {
            assert(b[k] == a[k]);
            assert(b[k + 1] == a[k + 1]);
        } else {
            assert(b[k] == a.last());
            assert(b[k + 1] == fresh);
        }
    }
    assert(b.last() == fresh);
}

/// A segment's non-owning handle to the arena behind it: either kind of
/// arena, or nothing. It exists so that code following a cross-segment
/// reference can ask for "segment `id`" without caring whether the
/// message is being read or built.
pub enum ArenaPtr<'a> {
    /// Points into the arena of a received, immutable message.
    ReaderArenaPtr(&'a ReaderArena),
    /// Points into the arena of a message under construction.
    BuilderArenaPtr(&'a BuilderArena),
    /// No arena: a placeholder that must never be dereferenced.
    Null,
}

impl<'a> ArenaPtr<'a> {
    /// Whether `id` names a segment of the arena behind this handle.
    /// Nothing resolves through the empty handle.
    pub open spec fn resolvable(self, id: int) -> bool {
        match self {
            ArenaPtr::ReaderArenaPtr(arena) => arena.valid_id(id),
            ArenaPtr::BuilderArenaPtr(arena) => arena.valid_id(id),
            ArenaPtr::Null => false,
        }
    }

    /// The read view of the segment `id` names behind this handle.
    pub open spec fn spec_resolved(self, id: int) -> SegmentReader
        recommends
            self.resolvable(id),
    {
        match self {
            ArenaPtr::ReaderArenaPtr(arena) => arena.spec_segment(id),
            ArenaPtr::BuilderArenaPtr(arena) => arena.spec_segment(id).reader,
            ArenaPtr::Null => arbitrary(),
        }
    }

    /// Resolves a segment id to the read view of its segment, whichever
    /// kind of arena stands behind this handle. Asking the empty handle,
    /// or asking for an id the arena does not have, is a caller bug, not
    /// a recoverable condition, and is ruled out up front.
    pub fn try_get_segment(&self, id: SegmentId) -> (r: &'a SegmentReader)
        requires
            self.resolvable(id as int),
        ensures
            *r == self.spec_resolved(id as int),
            id == 0 ==> (match self {
                ArenaPtr::ReaderArenaPtr(arena) => *r == arena.segment0,
                ArenaPtr::BuilderArenaPtr(arena) => *r == arena.segment0.reader,
                ArenaPtr::Null => false,
            }),
    {
        match *self {
            ArenaPtr::ReaderArenaPtr(arena) => {
                if id == 0 {
                    &arena.segment0
                } else {
                    &arena.more_segments[id as usize - 1]
                }
            },
            ArenaPtr::BuilderArenaPtr(arena) => {
                if id == 0 {
                    proof {
                        assert(arena.segments()[0] == arena.segment0);
                    }
                    &arena.segment0.reader
                } else {
                    proof {
                        assert(arena.segments()[id as int] == arena.more_segments@[id as int - 1]);
                    }
                    &arena.more_segments[id as usize - 1].reader
                }
            },
            ArenaPtr::Null => unreached(),
        }
    }

    /// The build arena behind this handle, for routing an allocation
    /// overflow back to the owner. A handle to anything but a build arena
    /// here can only mean mis-tracked ownership, a caller bug, and is
    /// ruled out.
    pub fn get_arena(&self) -> (r: &'a BuilderArena)
        requires
            self is BuilderArenaPtr,
        ensures
            self matches ArenaPtr::BuilderArenaPtr(arena) && r == arena,
    {
        match *self {
            ArenaPtr::BuilderArenaPtr(arena) => arena,
            _ => unreached(),
        }
    }
}

/// The resolution law: through either kind of arena, segment id 0 always
/// resolves to the arena's first segment; any id beyond the additional
/// segments resolves to nothing; and nothing at all resolves through the
/// empty handle.
pub proof fn lemma_resolution<'a>(p: ArenaPtr<'a>, id: int)
    ensures
        p matches ArenaPtr::ReaderArenaPtr(arena) ==> p.spec_resolved(0) == arena.segment0 && (id
            > arena.more_segments@.len() ==> !p.resolvable(id)),
        p matches ArenaPtr::BuilderArenaPtr(arena) ==> p.spec_resolved(0) == arena.segment0.reader
            && (id > arena.more_segments@.len() ==> !p.resolvable(id)),
        p is Null ==> !p.resolvable(id),
{
    match p {
        ArenaPtr::ReaderArenaPtr(arena) => {
            assert(arena.spec_segment(0) == arena.segment0);
        },
        ArenaPtr::BuilderArenaPtr(arena) => {
            assert(arena.segments()[0] == arena.segment0);
            assert(arena.segments().len() == 1 + arena.more_segments@.len());
        },
        ArenaPtr::Null => {},
    }
}

} // verus!
