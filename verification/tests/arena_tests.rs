use capnp_arena::arena::{ArenaPtr, BuilderArena, MessageMemory, ReaderArena};
use capnp_arena::common::BYTES_PER_WORD;
use capnp_arena::segment::{SegmentBuilder, SegmentReader};

#[test]
fn contains_interval_accepts_everything_inside() {
    let seg = SegmentReader::new(10, 5);
    assert!(seg.contains_interval(10, 15));
    assert!(seg.contains_interval(10, 10));
    assert!(seg.contains_interval(15, 15));
    assert!(seg.contains_interval(12, 13));
}

#[test]
fn contains_interval_rejects_overruns() {
    let seg = SegmentReader::new(10, 5);
    assert!(!seg.contains_interval(9, 15));
    assert!(!seg.contains_interval(10, 16));
    assert!(!seg.contains_interval(9, 16));
    assert!(!seg.contains_interval(0, 1));
}

#[test]
fn get_start_ptr_is_the_base() {
    let seg = SegmentReader::new(42, 3);
    assert_eq!(seg.get_start_ptr(), 42);
}

#[test]
fn exact_fill_leaves_nothing_available() {
    let mut seg = SegmentBuilder::new(0, 0, 8);
    assert_eq!(seg.allocate(3), Some(0));
    assert_eq!(seg.allocate(5), Some(3));
    assert_eq!(seg.available(), 0);
    assert_eq!(seg.allocate(1), None);
}

#[test]
fn allocate_returns_old_cursor_and_advances() {
    let mut seg = SegmentBuilder::new(0, 100, 10);
    assert_eq!(seg.current_size(), 0);
    assert_eq!(seg.allocate(4), Some(100));
    assert_eq!(seg.current_size(), 4);
    assert_eq!(seg.allocate(2), Some(104));
    assert_eq!(seg.current_size(), 6);
    assert_eq!(seg.available(), 4);
}

#[test]
fn allocate_without_room_fails_and_changes_nothing() {
    let mut seg = SegmentBuilder::new(0, 0, 10);
    assert_eq!(seg.allocate(11), None);
    assert_eq!(seg.current_size(), 0);
    assert_eq!(seg.allocate(10), Some(0));
    assert_eq!(seg.allocate(1), None);
}

#[test]
fn word_offset_is_distance_from_base() {
    let seg = SegmentBuilder::new(0, 100, 10);
    assert_eq!(seg.get_word_offset_to(107), 7);
    assert_eq!(seg.get_word_offset_to(100), 0);
}

#[test]
fn ptr_lookup_and_identity() {
    let seg = SegmentBuilder::new(7, 20, 10);
    assert_eq!(seg.get_ptr_unchecked(0), 20);
    assert_eq!(seg.get_ptr_unchecked(9), 29);
    assert_eq!(seg.get_segment_id(), 7);
}

#[test]
fn message_memory_hands_out_disjoint_blocks() {
    let mut memory = MessageMemory::new();
    assert_eq!(memory.allocate_block(4), 0);
    assert_eq!(memory.allocate_block(2), 4);
    assert_eq!(memory.allocate_block(1), 6);
}

#[test]
fn reader_arena_resolves_ids_in_order() {
    let descriptors = vec![(0, 4), (10, 2), (20, 7)];
    let arena = ReaderArena::new(&descriptors);
    let handle = ArenaPtr::ReaderArenaPtr(&arena);
    let seg0 = handle.try_get_segment(0);
    assert_eq!(seg0.get_start_ptr(), 0);
    let seg1 = handle.try_get_segment(1);
    assert_eq!(seg1.get_start_ptr(), 10);
    assert!(seg1.contains_interval(10, 12));
    assert!(!seg1.contains_interval(10, 13));
    let seg2 = handle.try_get_segment(2);
    assert_eq!(seg2.get_start_ptr(), 20);
}

#[test]
fn builder_arena_allocates_from_its_first_segment() {
    let mut arena = BuilderArena::new(6);
    assert_eq!(arena.allocate(4), (0, 0));
    assert_eq!(arena.allocate(2), (0, 4));
}

#[test]
fn growth_appends_exactly_one_segment_and_moves_nothing() {
    let mut arena = BuilderArena::new(3);
    let (first_id, first_addr) = arena.allocate(2);
    assert_eq!((first_id, first_addr), (0, 0));
    // One word left in segment 0: five more words force growth.
    let (grown_id, grown_addr) = arena.allocate(5);
    assert_eq!(grown_id, 1);
    assert_eq!(grown_addr, 3);
    assert_eq!(arena.more_segments.len(), 1);
    // The earlier allocation's segment is exactly as it was.
    assert_eq!(arena.segment0.reader.base, 0);
    assert_eq!(arena.segment0.reader.length, 3);
    assert_eq!(arena.segment0.current_size(), 2);
    assert!(arena.segment0.reader.contains_interval(first_addr, first_addr + 2));
}

#[test]
fn allocation_prefers_the_first_segment_with_room() {
    let mut arena = BuilderArena::new(4);
    assert_eq!(arena.allocate(3), (0, 0));
    // Six words do not fit anywhere: a segment of six words appears.
    assert_eq!(arena.allocate(6), (1, 4));
    // One word fits in segment 0 again, ahead of the newer segment.
    assert_eq!(arena.allocate(1), (0, 3));
}

#[test]
fn grown_segment_size_keeps_pace_with_the_last() {
    let mut arena = BuilderArena::new(3);
    arena.allocate(3);
    // A small request still gets a segment as large as the last one.
    assert_eq!(arena.allocate(1), (1, 3));
    let seg1 = arena.get_segment(1);
    assert_eq!(seg1.reader.length, 3);
    assert_eq!(seg1.available(), 2);
}

#[test]
fn get_segment_returns_the_segment_itself() {
    let mut arena = BuilderArena::new(2);
    arena.allocate(2);
    arena.allocate(4);
    assert_eq!(arena.get_segment(0).get_segment_id(), 0);
    let seg1 = arena.get_segment(1);
    assert_eq!(seg1.get_segment_id(), 1);
    // The caller can keep allocating into the resolved segment.
    assert_eq!(seg1.allocate(1), None);
}

#[test]
fn builder_arena_resolves_read_views_too() {
    let mut arena = BuilderArena::new(2);
    arena.allocate(2);
    arena.allocate(3);
    let handle = ArenaPtr::BuilderArenaPtr(&arena);
    assert_eq!(handle.try_get_segment(0).get_start_ptr(), 0);
    assert_eq!(handle.try_get_segment(1).get_start_ptr(), 2);
}

#[test]
fn handle_gives_back_the_build_arena() {
    let mut arena = BuilderArena::new(5);
    arena.allocate(1);
    let handle = ArenaPtr::BuilderArenaPtr(&arena);
    let owner = handle.get_arena();
    assert_eq!(owner.segment0.get_segment_id(), 0);
    assert_eq!(owner.segment0.current_size(), 1);
}

#[test]
fn output_covers_committed_words_only() {
    let mut arena = BuilderArena::new(4);
    arena.allocate(2);
    let ranges = arena.get_segments_for_output();
    // Two of four words are committed: the range ends at the cursor, not
    // at the segment's capacity.
    assert_eq!(ranges, vec![(0, 2 * BYTES_PER_WORD)]);
}

#[test]
fn round_trip_two_full_segments() {
    let mut arena = BuilderArena::new(3);
    assert_eq!(arena.allocate(3), (0, 0));
    assert_eq!(arena.allocate(5), (1, 3));
    let ranges = arena.get_segments_for_output();
    assert_eq!(ranges.len(), 2);
    assert_eq!(ranges[0], (0, 3 * BYTES_PER_WORD));
    assert_eq!(ranges[1], (3 * BYTES_PER_WORD, 8 * BYTES_PER_WORD));
    assert_eq!((ranges[0].1 - ranges[0].0) / BYTES_PER_WORD, 3);
    assert_eq!((ranges[1].1 - ranges[1].0) / BYTES_PER_WORD, 5);
}
