use comet::immix::{
    line_align, is_line_aligned, BlockList, BlockState, Chunk, ImmixBlock, LineMarkTable, CHUNK_SIZE,
    IMMIX_BLOCK_SIZE, IMMIX_LINE_SIZE,
};
use comet::immix_alloc::ImmixAllocator;
use comet::immix_space::ImmixSpace;

const BASE: usize = 64 * CHUNK_SIZE;

#[test]
fn line_alignment() {
    assert_eq!(line_align(1000), 768);
    assert_eq!(line_align(768), 768);
    assert!(is_line_aligned(512));
    assert!(!is_line_aligned(513));
}

#[test]
fn block_header_accessors() {
    let mut b = ImmixBlock::new(BASE + 3 * IMMIX_BLOCK_SIZE);
    assert_eq!(b.state(), BlockState::Unallocated);
    assert_eq!(b.start(), BASE + 3 * IMMIX_BLOCK_SIZE);
    assert_eq!(b.end(), BASE + 4 * IMMIX_BLOCK_SIZE);
    assert_eq!(b.start_address(), BASE + 3 * IMMIX_BLOCK_SIZE + IMMIX_LINE_SIZE);
    assert_eq!(b.end_address(), b.end());
    assert_eq!(b.line(5), BASE + 3 * IMMIX_BLOCK_SIZE + 5 * IMMIX_LINE_SIZE);
    assert_eq!(b.chunk(), BASE);
    b.init(true);
    assert_eq!(b.state(), BlockState::Marked);
    assert_eq!(b.holes(), 0);
    b.reset();
    assert_eq!(b.holes(), 1);
    assert!(!b.is_fragmented());
    b.set_next(BASE);
    assert_eq!(b.next(), BASE);
    b.deinit();
    assert_eq!(b.state(), BlockState::Unallocated);
    b.init(false);
    assert_eq!(b.state(), BlockState::Unmarked);
    assert_eq!(b.next(), 0);
    b.set_state(BlockState::Reusable { unavailable_lines: 3 });
    assert_eq!(b.state(), BlockState::Reusable { unavailable_lines: 3 });
    assert_eq!(ImmixBlock::align(BASE + IMMIX_BLOCK_SIZE + 17), BASE + IMMIX_BLOCK_SIZE);
    assert_eq!(ImmixBlock::from_object(BASE + 2 * IMMIX_BLOCK_SIZE + 300), BASE + 2 * IMMIX_BLOCK_SIZE);
}

#[test]
fn chunk_layout() {
    let c = Chunk::new(BASE);
    assert_eq!(c.start(), BASE);
    assert_eq!(c.end(), BASE + CHUNK_SIZE);
    assert_eq!(c.blocks_start(), BASE);
    assert_eq!(c.block(2), BASE + 2 * IMMIX_BLOCK_SIZE);
    assert_eq!(Chunk::align(BASE + 12345), BASE);
    assert!(!c.line_mark_table().test(BASE + 40));
}

#[test]
fn find_hole_skips_marked_lines() {
    let mut t = LineMarkTable::create(BASE);
    let block = BASE + IMMIX_BLOCK_SIZE;
    // lines 1 and 2 of the block are marked, line 5 too
    t.set(block + IMMIX_LINE_SIZE);
    t.set(block + 2 * IMMIX_LINE_SIZE);
    t.set(block + 5 * IMMIX_LINE_SIZE);
    let (start, end) = ImmixBlock::find_hole(&t, block + IMMIX_LINE_SIZE);
    assert_eq!(start, block + 3 * IMMIX_LINE_SIZE);
    assert_eq!(end, block + 5 * IMMIX_LINE_SIZE);
    let (start, end) = ImmixBlock::find_hole(&t, block + 5 * IMMIX_LINE_SIZE);
    assert_eq!(start, block + 6 * IMMIX_LINE_SIZE);
    assert_eq!(end, block + IMMIX_BLOCK_SIZE);
    assert_eq!(ImmixBlock::count_marked_lines(&t, block), 3);
}

#[test]
fn find_hole_in_full_block_is_null() {
    let mut t = LineMarkTable::create(BASE);
    let block = BASE + 7 * IMMIX_BLOCK_SIZE;
    for i in 0..128 {
        t.set(block + i * IMMIX_LINE_SIZE);
    }
    assert_eq!(ImmixBlock::find_hole(&t, block + IMMIX_LINE_SIZE), (0, 0));
    t.clear(block + 100 * IMMIX_LINE_SIZE);
    assert_eq!(
        ImmixBlock::find_hole(&t, block + IMMIX_LINE_SIZE),
        (block + 100 * IMMIX_LINE_SIZE, block + 101 * IMMIX_LINE_SIZE)
    );
    t.clear_all();
    assert_eq!(ImmixBlock::count_marked_lines(&t, block), 0);
}

#[test]
fn block_list_is_last_in_first_out() {
    let mut l = BlockList::new();
    assert!(l.is_empty());
    assert_eq!(l.pop(), 0);
    l.push(10);
    l.push(20);
    l.push(30);
    assert_eq!(l.len(), 3);
    let mut it = l.iter();
    assert_eq!(it.next(), Some(30));
    assert_eq!(it.next(), Some(20));
    assert_eq!(it.next(), Some(10));
    assert_eq!(it.next(), None);
    assert_eq!(l.pop(), 30);
    l.reset();
    assert_eq!(l.len(), 0);
}

#[test]
fn new_space_puts_every_object_block_on_the_free_list() {
    let space = ImmixSpace::new(BASE, CHUNK_SIZE + 1, 0, 100, 1000);
    assert_eq!(space.n_chunks(), 2);
    assert_eq!(space.free_blocks().len(), 2 * 127);
    assert_eq!(space.reusable_blocks().len(), 0);
    assert_eq!(space.growth_limit(), 2 * CHUNK_SIZE);
    assert_eq!(space.target_footprint(), 100);
    assert_eq!(space.num_bytes_allocated(), 0);
    assert!(space.has_address(BASE));
    assert!(!space.has_address(BASE + 2 * CHUNK_SIZE));
    assert_eq!(space.reserved_pages(), 2 * 127 * 4096);
    assert_eq!(ImmixSpace::object_to_line_num(BASE + IMMIX_BLOCK_SIZE + 700), 2);
}

#[test]
fn clean_blocks_come_from_the_free_list_head() {
    let mut space = ImmixSpace::new(BASE, CHUNK_SIZE, 0, 0, 0);
    let b = space.get_clean_block();
    // the last block pushed is the last block of the chunk
    assert_eq!(b, BASE + 127 * IMMIX_BLOCK_SIZE);
    assert_eq!(space.block_state(b), BlockState::Unmarked);
    assert_eq!(space.free_blocks().len(), 126);
    assert_eq!(space.get_reusable_block(), 0);
}

#[test]
fn sweeping_sorts_blocks_by_marked_lines() {
    let mut space = ImmixSpace::new(BASE, CHUNK_SIZE, 0, 0, 0);
    let full = space.get_clean_block();
    let partial = space.get_clean_block();
    let empty = space.get_clean_block();
    // mark every object line of `full`, two lines of `partial`
    space.mark_lines(full + IMMIX_LINE_SIZE, IMMIX_BLOCK_SIZE - IMMIX_LINE_SIZE);
    space.mark_lines(partial + IMMIX_LINE_SIZE, 10);
    space.mark_lines(partial + 3 * IMMIX_LINE_SIZE + 8, IMMIX_LINE_SIZE);
    space.release();
    assert_eq!(space.block_state(full), BlockState::Unmarked);
    assert_eq!(space.block_state(partial), BlockState::Reusable { unavailable_lines: 3 });
    assert_eq!(space.block_state(empty), BlockState::Unallocated);
    assert_eq!(space.reusable_blocks().len(), 1);
    assert_eq!(space.num_bytes_allocated(), (127 + 3) * IMMIX_LINE_SIZE);
    // a fresh space has no other allocated block: the free list holds only `empty`
    assert_eq!(space.free_blocks().len(), 1);
    space.prepare(true);
    assert_eq!(space.block_state(partial), BlockState::Unmarked);
    space.release();
    assert_eq!(space.block_state(full), BlockState::Unallocated);
    assert_eq!(space.block_state(partial), BlockState::Unallocated);
    // the rebuilt free list holds the two blocks this sweep released
    assert_eq!(space.free_blocks().len(), 2);
}

#[test]
fn allocator_bumps_then_takes_clean_blocks() {
    let mut space = ImmixSpace::new(BASE, CHUNK_SIZE, CHUNK_SIZE, 0, 0);
    let mut a = ImmixAllocator::create();
    assert!(a.can_thread_local_allocate(IMMIX_BLOCK_SIZE / 2));
    assert!(!a.can_thread_local_allocate(IMMIX_BLOCK_SIZE / 2 + 1));
    let first = a.allocate(&mut space, 16);
    assert_eq!(first, BASE + 127 * IMMIX_BLOCK_SIZE + IMMIX_LINE_SIZE);
    let second = a.allocate(&mut space, 32);
    assert_eq!(second, first + 16);
    assert_eq!(space.num_bytes_allocated(), IMMIX_BLOCK_SIZE);
    // an object spanning lines is bumped in place while it fits
    let big = a.allocate(&mut space, 20000);
    assert_eq!(big, first + 48);
    // once it does not, it goes to the large region, in a clean block of its own
    let bigger = a.allocate(&mut space, 20000);
    assert_eq!(bigger, BASE + 126 * IMMIX_BLOCK_SIZE + IMMIX_LINE_SIZE);
    assert_eq!(space.free_blocks().len(), 125);
}

#[test]
fn allocator_runs_out_of_memory_at_the_growth_limit() {
    let mut space = ImmixSpace::new(BASE, CHUNK_SIZE, 0, 0, 0);
    let mut a = ImmixAllocator::create();
    // the target footprint is zero and the allocator is not growing it
    assert!(a.is_out_of_memory_on_allocation(&mut space, IMMIX_BLOCK_SIZE, false));
    assert!(!a.is_out_of_memory_on_allocation(&mut space, IMMIX_BLOCK_SIZE, true));
    assert_eq!(space.target_footprint(), IMMIX_BLOCK_SIZE);
    assert!(a.is_out_of_memory_on_allocation(&mut space, 2 * CHUNK_SIZE, true));
    assert_eq!(a.allocate(&mut space, 8), BASE + 127 * IMMIX_BLOCK_SIZE + IMMIX_LINE_SIZE);
    a.reset();
    // the next clean block would pass the target footprint
    assert_eq!(a.allocate(&mut space, 8), 0);
}

#[test]
fn allocator_reuses_holes_of_recycled_blocks() {
    let mut space = ImmixSpace::new(BASE, CHUNK_SIZE, CHUNK_SIZE, 0, 0);
    let b = space.get_clean_block();
    space.mark_lines(b + IMMIX_LINE_SIZE, 8);
    space.release();
    assert_eq!(space.block_state(b), BlockState::Reusable { unavailable_lines: 1 });
    let mut a = ImmixAllocator::create();
    assert!(a.acquire_recyclable_lines(&mut space));
    let x = a.allocate(&mut space, 64);
    assert_eq!(x, b + 2 * IMMIX_LINE_SIZE);
}

#[test]
fn allocator_finds_no_hole_without_reusable_blocks() {
    let mut space = ImmixSpace::new(BASE, CHUNK_SIZE, CHUNK_SIZE, 0, 0);
    let mut a = ImmixAllocator::create();
    assert!(!a.acquire_recyclable_lines(&mut space));
}
