//! The thread-local Immix allocator: a bump pointer over holes of reusable
//! blocks for small objects, and a second bump pointer over clean blocks for
//! objects that span lines.
use vstd::prelude::*;
use vstd::arithmetic::div_mod::{lemma_fundamental_div_mod, lemma_fundamental_div_mod_converse};
use crate::immix::{IMMIX_BLOCK_SIZE, IMMIX_LINE_SIZE, IMMIX_LINES_PER_BLOCK, CHUNK_SIZE, BlockState, ImmixBlock};
use crate::immix_space::{ImmixSpace, wrapping_add, valid_block, block_index};
use crate::align::spec_align_down;

verus! {

/// Whether an allocation of `size` more bytes runs out of memory, and the
/// target footprint after the check: a request within the target is granted;
/// one past the growth limit is refused; one in between is granted by
/// raising the target only when `grow` is set.
pub open spec fn out_of_memory(bytes: usize, target: usize, growth_limit: usize, size: usize, grow: bool) -> (bool, usize) {
    let new_footprint = wrapping_add(bytes, size as int);
    if new_footprint <= target {
        (false, target)
    } else if new_footprint > growth_limit {
        (true, target)
    } else if grow {
        (false, new_footprint)
    } else {
        (true, target)
    }
}

/// No block may be taken for an object of `size` bytes: taking a block
/// runs out of memory, or the free list is empty and, for an object that
/// fits in a line, so is the list of reusable blocks.
pub open spec fn no_room(space: &ImmixSpace, emergency: bool, size: int) -> bool {
    let oom = out_of_memory(space.spec_bytes_allocated(), space.spec_target_footprint(),
        space.spec_growth_limit(), IMMIX_BLOCK_SIZE, emergency).0;
    &&& space.spec_free().len() == 0 || oom
    &&& size <= IMMIX_LINE_SIZE ==> space.spec_reusable().len() == 0 || oom
}

/// The thread-local allocator.
pub struct ImmixAllocator {
    cursor: usize,
    limit: usize,
    large_cursor: usize,
    large_limit: usize,
    request_for_large: bool,
    emergency_collection: bool,
    line: Option<usize>,
}

/// End of the space: one past its last byte.
pub open spec fn space_end(space: &ImmixSpace) -> int {
    space.spec_start() + space.spec_n_chunks() * CHUNK_SIZE
}

/// The hole search position measured as lines left before its block's end.
pub open spec fn line_measure(line: Option<usize>) -> nat {
    match line {
        None => 0,
        Some(l) => (IMMIX_BLOCK_SIZE - l % IMMIX_BLOCK_SIZE) as nat,
    }
}

impl ImmixAllocator {
    /// The small-object bump pointer.
    pub closed spec fn spec_cursor(&self) -> usize {
        self.cursor
    }

    /// The end of the small-object bump region.
    pub closed spec fn spec_limit(&self) -> usize {
        self.limit
    }

    /// The bump pointer for objects that span lines.
    pub closed spec fn spec_large_cursor(&self) -> usize {
        self.large_cursor
    }

    /// The end of the region for objects that span lines.
    pub closed spec fn spec_large_limit(&self) -> usize {
        self.large_limit
    }

    /// Where the search for the next hole resumes, if it does.
    pub closed spec fn spec_line(&self) -> Option<usize> {
        self.line
    }

    /// Whether the allocator is serving an emergency collection.
    pub closed spec fn spec_emergency(&self) -> bool {
        self.emergency_collection
    }

    /// Whether a clean block goes to the large bump region.
    pub closed spec fn spec_request_for_large(&self) -> bool {
        self.request_for_large
    }

    /// Both bump regions are empty or lie inside `space`, and the hole
    /// search resumes at an object line of a block of `space`.
    pub open spec fn wf(&self, space: &ImmixSpace) -> bool {
        &&& self.spec_cursor() <= self.spec_limit()
        &&& self.spec_large_cursor() <= self.spec_large_limit()
        &&& (self.spec_limit() == 0
            || (space.spec_start() + IMMIX_LINE_SIZE <= self.spec_cursor() && self.spec_limit() <= space_end(space)))
        &&& (self.spec_large_limit() == 0
            || (space.spec_start() + IMMIX_LINE_SIZE <= self.spec_large_cursor() && self.spec_large_limit() <= space_end(space)))
        &&& (self.spec_line() matches Some(l) ==> {
            &&& l % IMMIX_LINE_SIZE == 0
            &&& l % IMMIX_BLOCK_SIZE != 0
            &&& space.spec_start() <= l < space_end(space)
        })
    }

    /// An allocator with empty bump regions and no hole search under way.
    pub fn create() -> (a: Self)
        ensures
            a.spec_cursor() == 0 && a.spec_limit() == 0,
            a.spec_large_cursor() == 0 && a.spec_large_limit() == 0,
            a.spec_line().is_none(),
            !a.spec_request_for_large(),
            !a.spec_emergency(),
    {
        ImmixAllocator {
            cursor: 0,
            limit: 0,
            large_cursor: 0,
            large_limit: 0,
            request_for_large: false,
            emergency_collection: false,
            line: None,
        }
    }

    /// Empties both bump regions and stops the hole search.
    pub fn reset(&mut self)
        ensures
            final(self).spec_cursor() == 0 && final(self).spec_limit() == 0,
            final(self).spec_large_cursor() == 0 && final(self).spec_large_limit() == 0,
            final(self).spec_line().is_none(),
            final(self).spec_request_for_large() == old(self).spec_request_for_large(),
            final(self).spec_emergency() == old(self).spec_emergency(),
    {
        self.large_cursor = 0;
        self.large_limit = 0;
        self.cursor = 0;
        self.limit = 0;
        self.line = None;
    }

    /// Marks whether the allocator serves an emergency collection, in which
    /// taking a block raises the target footprint rather than fail.
    pub fn set_emergency_collection(&mut self, on: bool)
        ensures
            final(self).spec_emergency() == on,
            final(self).spec_cursor() == old(self).spec_cursor(),
            final(self).spec_limit() == old(self).spec_limit(),
            final(self).spec_large_cursor() == old(self).spec_large_cursor(),
            final(self).spec_large_limit() == old(self).spec_large_limit(),
            final(self).spec_line() == old(self).spec_line(),
            final(self).spec_request_for_large() == old(self).spec_request_for_large(),
    {
        self.emergency_collection = on;
    }

    /// Whether an object of `size` bytes may be allocated thread-locally:
    /// it takes at most half a block.
    pub fn can_thread_local_allocate(&self, size: usize) -> (r: bool)
        ensures
            r == (size <= IMMIX_BLOCK_SIZE / 2),
    {
        size <= IMMIX_BLOCK_SIZE / 2
    }

    /// Whether allocating `alloc_size` more bytes runs out of memory; when
    /// `grow` is set, the target footprint is raised as far as the growth
    /// limit allows instead.
    pub fn is_out_of_memory_on_allocation(&self, space: &mut ImmixSpace, alloc_size: usize, grow: bool) -> (r: bool)
        requires
            old(space).wf(),
        ensures
            final(space).wf(),
            final(space).alloc_ready() == old(space).alloc_ready(),
            ({
                let (oom, target) = out_of_memory(old(space).spec_bytes_allocated(), old(space).spec_target_footprint(),
                    old(space).spec_growth_limit(), alloc_size, grow);
                &&& r == oom
                &&& final(space).spec_target_footprint() == target
            }),
            final(space).same_layout(old(space)),
            final(space).spec_blocks() == old(space).spec_blocks(),
            final(space).spec_free() == old(space).spec_free(),
            final(space).spec_reusable() == old(space).spec_reusable(),
            final(space).spec_chunk_map() == old(space).spec_chunk_map(),
            final(space).spec_chunks() == old(space).spec_chunks(),
            final(space).spec_bytes_allocated() == old(space).spec_bytes_allocated(),
            final(space).spec_growth_limit() == old(space).spec_growth_limit(),
    {
        let old_target = space.target_footprint();
        let old_allocated = space.num_bytes_allocated();
        let new_footprint = old_allocated.wrapping_add(alloc_size);
        if new_footprint <= old_target {
            return false;
        } else if new_footprint > space.growth_limit() {
            return true;
        }
        if grow {
            space.set_target_footprint(new_footprint);
            false
        } else {
            true
        }
    }
}


proof fn lemma_block_inside_space(space: &ImmixSpace, b: usize)
    requires
        space.wf(),
        valid_block(space.spec_start() as int, space.spec_n_chunks() as int, b as int),
    ensures
        space.spec_start() + IMMIX_LINE_SIZE <= b + IMMIX_LINE_SIZE,
        b + IMMIX_BLOCK_SIZE <= space_end(space),
        b % IMMIX_BLOCK_SIZE == 0,
        (b + IMMIX_LINE_SIZE) % (IMMIX_LINE_SIZE as int) == 0,
        (b + IMMIX_LINE_SIZE) % (IMMIX_BLOCK_SIZE as int) == IMMIX_LINE_SIZE,
{
    let start = space.spec_start() as int;
    let n = space.spec_n_chunks() as int;
    let k = block_index(start, b as int);
    lemma_fundamental_div_mod(b - start, IMMIX_BLOCK_SIZE as int);
    assert(b == start + k * IMMIX_BLOCK_SIZE);
    assert(k * IMMIX_BLOCK_SIZE + IMMIX_BLOCK_SIZE <= n * CHUNK_SIZE) by (nonlinear_arith)
        requires 0 <= k < n * 128;
    crate::immix_space::lemma_space_start_aligned(space);
    lemma_fundamental_div_mod(start, CHUNK_SIZE as int);
    let q = start / (CHUNK_SIZE as int);
    lemma_fundamental_div_mod_converse(b as int, IMMIX_BLOCK_SIZE as int, q * 128 + k, 0);
    lemma_fundamental_div_mod_converse(b + IMMIX_LINE_SIZE, IMMIX_LINE_SIZE as int, (q * 128 + k) * 128 + 1, 0);
    lemma_fundamental_div_mod_converse(b + IMMIX_LINE_SIZE, IMMIX_BLOCK_SIZE as int, q * 128 + k, IMMIX_LINE_SIZE as int);
}

proof fn lemma_block_end_inside(space: &ImmixSpace, l: usize)
    requires
        space.wf(),
        space.spec_start() <= l < space_end(space),
    ensures
        space.spec_start() <= spec_align_down(l as int, IMMIX_BLOCK_SIZE as int),
        spec_align_down(l as int, IMMIX_BLOCK_SIZE as int) + IMMIX_BLOCK_SIZE <= space_end(space),
        space_end(space) <= usize::MAX,
{
    crate::immix_space::lemma_space_start_aligned(space);
    let st = space.spec_start() as int;
    let n = space.spec_n_chunks() as int;
    lemma_fundamental_div_mod(st, CHUNK_SIZE as int);
    lemma_fundamental_div_mod(l as int, IMMIX_BLOCK_SIZE as int);
    let qs = st / (CHUNK_SIZE as int);
    let q = l as int / (IMMIX_BLOCK_SIZE as int);
    assert(st == (qs * 128) * IMMIX_BLOCK_SIZE) by (nonlinear_arith)
        requires st == CHUNK_SIZE * qs + 0;
    assert(space_end(space) == (qs * 128 + n * 128) * IMMIX_BLOCK_SIZE) by (nonlinear_arith)
        requires st == (qs * 128) * IMMIX_BLOCK_SIZE, space_end(space) == st + n * CHUNK_SIZE;
    assert(qs * 128 <= q < qs * 128 + n * 128) by (nonlinear_arith)
        requires
            (qs * 128) * IMMIX_BLOCK_SIZE <= l < (qs * 128 + n * 128) * IMMIX_BLOCK_SIZE,
            l == IMMIX_BLOCK_SIZE * q + l as int % (IMMIX_BLOCK_SIZE as int),
            0 <= l as int % (IMMIX_BLOCK_SIZE as int) < IMMIX_BLOCK_SIZE;
    assert(q * IMMIX_BLOCK_SIZE + IMMIX_BLOCK_SIZE <= (qs * 128 + n * 128) * IMMIX_BLOCK_SIZE) by (nonlinear_arith)
        requires q < qs * 128 + n * 128;
    assert(st <= q * IMMIX_BLOCK_SIZE) by (nonlinear_arith)
        requires qs * 128 <= q, st == (qs * 128) * IMMIX_BLOCK_SIZE;
}

impl ImmixAllocator {
    /// Takes a clean block for the small or, when a large object asked for
    /// it, the large bump region, unless that runs out of memory. The block
    /// is counted as allocated in full.
    pub fn acquire_clean_block(&mut self, space: &mut ImmixSpace) -> (r: bool)
        requires
            old(space).wf(),
            old(space).alloc_ready(),
            old(self).wf(old(space)),
        ensures
            final(space).wf(),
            final(space).alloc_ready(),
            final(self).wf(final(space)),
            final(space).same_layout(old(space)),
            final(space).spec_reusable() == old(space).spec_reusable(),
            final(space).spec_growth_limit() == old(space).spec_growth_limit(),
            final(self).spec_line() == old(self).spec_line(),
            final(self).spec_emergency() == old(self).spec_emergency(),
            final(self).spec_request_for_large() == old(self).spec_request_for_large(),
            ({
                let (oom, target) = out_of_memory(old(space).spec_bytes_allocated(), old(space).spec_target_footprint(),
                    old(space).spec_growth_limit(), IMMIX_BLOCK_SIZE, old(self).spec_emergency());
                &&& r == (!oom && old(space).spec_free().len() > 0)
                &&& oom ==> final(space).spec_target_footprint() == old(space).spec_target_footprint()
                &&& !oom ==> final(space).spec_target_footprint() == target
                &&& !r ==> final(space).spec_free() == old(space).spec_free()
                    && final(space).spec_bytes_allocated() == old(space).spec_bytes_allocated()
                    && *final(self) == *old(self)
                &&& r ==> {
                    let b = old(space).spec_free().last();
                    &&& final(space).spec_free() == old(space).spec_free().drop_last()
                    &&& final(space).spec_bytes_allocated() == wrapping_add(old(space).spec_bytes_allocated(), IMMIX_BLOCK_SIZE as int)
                    &&& if old(self).spec_request_for_large() {
                        &&& final(self).spec_large_cursor() == b + IMMIX_LINE_SIZE
                        &&& final(self).spec_large_limit() == b + IMMIX_BLOCK_SIZE
                        &&& final(self).spec_cursor() == old(self).spec_cursor()
                        &&& final(self).spec_limit() == old(self).spec_limit()
                    } else {
                        &&& final(self).spec_cursor() == b + IMMIX_LINE_SIZE
                        &&& final(self).spec_limit() == b + IMMIX_BLOCK_SIZE
                        &&& final(self).spec_large_cursor() == old(self).spec_large_cursor()
                        &&& final(self).spec_large_limit() == old(self).spec_large_limit()
                    }
                }
            }),
    {
        if self.is_out_of_memory_on_allocation(space, IMMIX_BLOCK_SIZE, self.emergency_collection) {
            return false;
        }
        let block = space.get_clean_block();
        if block == 0 {
            return false;
        }
        proof {
            lemma_block_inside_space(space, block);
            crate::immix_space::lemma_space_start_aligned(space);
        }
        space.add_bytes_allocated(IMMIX_BLOCK_SIZE);
        if self.request_for_large {
            self.large_cursor = block + IMMIX_LINE_SIZE;
            self.large_limit = block + IMMIX_BLOCK_SIZE;
        } else {
            self.cursor = block + IMMIX_LINE_SIZE;
            self.limit = block + IMMIX_BLOCK_SIZE;
        }
        true
    }

    /// Takes a reusable block, unless that runs out of memory, and starts
    /// the hole search at its first object line. The block's free lines are
    /// counted as allocated.
    pub fn acquire_recyclable_block(&mut self, space: &mut ImmixSpace) -> (r: bool)
        requires
            old(space).wf(),
            old(space).alloc_ready(),
            old(self).wf(old(space)),
        ensures
            final(space).wf(),
            final(space).alloc_ready(),
            final(self).wf(final(space)),
            final(space).same_layout(old(space)),
            final(space).spec_free() == old(space).spec_free(),
            final(space).spec_chunks() == old(space).spec_chunks(),
            final(space).spec_growth_limit() == old(space).spec_growth_limit(),
            final(self).spec_cursor() == old(self).spec_cursor(),
            final(self).spec_limit() == old(self).spec_limit(),
            final(self).spec_large_cursor() == old(self).spec_large_cursor(),
            final(self).spec_large_limit() == old(self).spec_large_limit(),
            final(self).spec_emergency() == old(self).spec_emergency(),
            final(self).spec_request_for_large() == old(self).spec_request_for_large(),
            ({
                let (oom, target) = out_of_memory(old(space).spec_bytes_allocated(), old(space).spec_target_footprint(),
                    old(space).spec_growth_limit(), IMMIX_BLOCK_SIZE, old(self).spec_emergency());
                &&& r == (!oom && old(space).spec_reusable().len() > 0)
                &&& oom ==> final(space).spec_target_footprint() == old(space).spec_target_footprint()
                &&& !oom ==> final(space).spec_target_footprint() == target
                &&& !r ==> final(space).spec_reusable() == old(space).spec_reusable()
                    && final(space).spec_bytes_allocated() == old(space).spec_bytes_allocated()
                    && final(self).spec_line() == old(self).spec_line()
                &&& r ==> {
                    let b = old(space).spec_reusable().last();
                    &&& final(space).spec_reusable() == old(space).spec_reusable().drop_last()
                    &&& final(self).spec_line() == Some((b + IMMIX_LINE_SIZE) as usize)
                    &&& old(space).spec_blocks()[block_index(old(space).spec_start() as int, b as int)].spec_state() matches
                        BlockState::Reusable { unavailable_lines }
                        && final(space).spec_bytes_allocated() == wrapping_add(old(space).spec_bytes_allocated(),
                            (IMMIX_LINES_PER_BLOCK - unavailable_lines - 1) * IMMIX_LINE_SIZE)
                }
            }),
    {
        if self.is_out_of_memory_on_allocation(space, IMMIX_BLOCK_SIZE, self.emergency_collection) {
            return false;
        }
        let block = space.get_reusable_block();
        if block == 0 {
            return false;
        }
        proof {
            lemma_block_inside_space(space, block);
            crate::immix_space::lemma_space_start_aligned(space);
        }
        self.line = Some(block + IMMIX_LINE_SIZE);
        match space.block_state(block) {
            BlockState::Reusable { unavailable_lines } => {
                space.add_bytes_allocated((IMMIX_LINES_PER_BLOCK - unavailable_lines as usize - 1) * IMMIX_LINE_SIZE);
            },
            _ => {},
        }
        true
    }
}


impl ImmixAllocator {
    /// Makes the hole `start .. end` found from `l` the small bump region,
    /// counts its bytes as allocated, and resumes the search at its end
    /// unless that is the block's end.
    fn take_hole(&mut self, space: &mut ImmixSpace, l: usize, start: usize, end: usize)
        requires
            old(space).wf(),
            old(space).alloc_ready(),
            old(self).wf(old(space)),
            old(self).spec_line() == Some(l),
            start != 0 && end != 0,
            start as int == old(space).recyclable_hole(l as int).0,
            end as int == old(space).recyclable_hole(l as int).1,
            ({
                let t = old(space).spec_chunks()[(l - old(space).spec_start()) / (CHUNK_SIZE as int)].spec_table();
                let base = crate::immix::block_base_line(&t, l as int);
                let sl = crate::immix::line_in_block(l as int);
                let c1 = crate::immix::scan_lines(t@, base, sl, false);
                let c2 = crate::immix::scan_lines(t@, base, c1, true);
                &&& c1 != IMMIX_LINES_PER_BLOCK
                &&& start == l + (c1 - sl) * IMMIX_LINE_SIZE
                &&& end == l + (c2 - sl) * IMMIX_LINE_SIZE
            }),
        ensures
            final(space).wf(),
            final(space).alloc_ready(),
            final(self).wf(final(space)),
            final(space).same_layout(old(space)),
            final(space).spec_free() == old(space).spec_free(),
            final(space).spec_reusable() == old(space).spec_reusable(),
            final(space).spec_chunks() == old(space).spec_chunks(),
            final(space).spec_growth_limit() == old(space).spec_growth_limit(),
            final(space).spec_target_footprint() == old(space).spec_target_footprint(),
            final(space).spec_bytes_allocated() == wrapping_add(old(space).spec_bytes_allocated(), end - start),
            final(self).spec_cursor() == start,
            final(self).spec_limit() == end,
            start < end,
            (end - start) % (IMMIX_LINE_SIZE as int) == 0,
            final(self).spec_line() == (if end == spec_align_down(l as int, IMMIX_BLOCK_SIZE as int) + IMMIX_BLOCK_SIZE {
                None::<usize> } else { Some(end) }),
            line_measure(final(self).spec_line()) < line_measure(Some(l)),
            final(self).spec_large_cursor() == old(self).spec_large_cursor(),
            final(self).spec_large_limit() == old(self).spec_large_limit(),
            final(self).spec_emergency() == old(self).spec_emergency(),
            final(self).spec_request_for_large() == old(self).spec_request_for_large(),
    {
        let ghost t = space.spec_chunks()[(l - space.spec_start()) / (CHUNK_SIZE as int)].spec_table();
        let ghost base = crate::immix::block_base_line(&t, l as int);
        let ghost sl = crate::immix::line_in_block(l as int);
        let ghost c1 = crate::immix::scan_lines(t@, base, sl, false);
        let ghost c2 = crate::immix::scan_lines(t@, base, c1, true);
        let ghost bs = spec_align_down(l as int, IMMIX_BLOCK_SIZE as int);
        proof {
            crate::immix::lemma_line_in_block(l as int);
            crate::immix::lemma_scan_lines_bounds(t@, base, sl, false);
            crate::immix::lemma_scan_lines_bounds(t@, base, c1, true);
            lemma_block_end_inside(space, l);
            assert(start == bs + c1 * IMMIX_LINE_SIZE);
            assert(end == bs + c2 * IMMIX_LINE_SIZE);
            lemma_fundamental_div_mod_converse(start as int, IMMIX_BLOCK_SIZE as int,
                bs / (IMMIX_BLOCK_SIZE as int), c1 * IMMIX_LINE_SIZE);
            lemma_fundamental_div_mod(bs, IMMIX_BLOCK_SIZE as int);
        }
        space.add_bytes_allocated(end - start);
        self.cursor = start;
        self.limit = end;
        let block = ImmixBlock::align(start);
        proof {
            assert(bs % (IMMIX_BLOCK_SIZE as int) == 0);
            assert(bs == (bs / (IMMIX_BLOCK_SIZE as int)) * IMMIX_BLOCK_SIZE);
            assert(start as int % (IMMIX_BLOCK_SIZE as int) == c1 * IMMIX_LINE_SIZE);
            assert(block == bs);
            lemma_fundamental_div_mod_converse((end - start) as int, IMMIX_LINE_SIZE as int, c2 - c1, 0);
        }
        if end == block + IMMIX_BLOCK_SIZE {
            self.line = None;
        } else {
            proof {
                lemma_fundamental_div_mod_converse(end as int, IMMIX_LINE_SIZE as int,
                    (bs / (IMMIX_BLOCK_SIZE as int)) * 128 + c2, 0);
                lemma_fundamental_div_mod_converse(end as int, IMMIX_BLOCK_SIZE as int,
                    bs / (IMMIX_BLOCK_SIZE as int), c2 * IMMIX_LINE_SIZE);
            }
            self.line = Some(end);
        }
        proof {
            assert(space.spec_start() == old(space).spec_start());
            assert(l + (c1 - sl) * IMMIX_LINE_SIZE == space.recyclable_hole(l as int).0);
        }
    }
}

/// `(a1, b1)` comes before `(a2, b2)` in lexicographic order.
pub open spec fn lex_less(a1: nat, b1: nat, a2: nat, b2: nat) -> bool {
    a1 < a2 || (a1 == a2 && b1 < b2)
}

impl ImmixAllocator {
    /// Moves the small bump region to the next hole of the reusable block
    /// being searched, taking further reusable blocks as needed; the hole's
    /// bytes are counted as allocated, and the search resumes at the hole's
    /// end unless that is the block's end. Returns false only when no hole is
    /// left: no reusable block remains or taking one runs out of memory.
    pub fn acquire_recyclable_lines(&mut self, space: &mut ImmixSpace) -> (r: bool)
        requires
            old(space).wf(),
            old(space).alloc_ready(),
            old(self).wf(old(space)),
        ensures
            final(space).wf(),
            final(space).alloc_ready(),
            final(self).wf(final(space)),
            final(space).same_layout(old(space)),
            final(space).spec_free() == old(space).spec_free(),
            final(space).spec_growth_limit() == old(space).spec_growth_limit(),
            final(space).spec_reusable().len() <= old(space).spec_reusable().len(),
            final(self).spec_large_cursor() == old(self).spec_large_cursor(),
            final(self).spec_large_limit() == old(self).spec_large_limit(),
            final(self).spec_emergency() == old(self).spec_emergency(),
            final(self).spec_request_for_large() == old(self).spec_request_for_large(),
            r ==> final(self).spec_cursor() < final(self).spec_limit()
                && (final(self).spec_limit() - final(self).spec_cursor()) % (IMMIX_LINE_SIZE as int) == 0
                && lex_less(final(space).spec_reusable().len(), line_measure(final(self).spec_line()),
                    old(space).spec_reusable().len(), line_measure(old(self).spec_line())),
            !r ==> final(self).spec_line().is_none()
                && final(self).spec_cursor() == old(self).spec_cursor()
                && final(self).spec_limit() == old(self).spec_limit(),
            final(space).spec_chunks() == old(space).spec_chunks(),
            !r ==> final(space).spec_reusable().len() == 0
                || out_of_memory(final(space).spec_bytes_allocated(), final(space).spec_target_footprint(),
                    final(space).spec_growth_limit(), IMMIX_BLOCK_SIZE, final(self).spec_emergency()).0,
            r ==> exists|l: usize| {
                &&& old(space).spec_start() <= l < space_end(old(space))
                &&& final(self).spec_cursor() as int == old(space).recyclable_hole(l as int).0
                &&& final(self).spec_limit() as int == old(space).recyclable_hole(l as int).1
                &&& final(self).spec_line() == (if final(self).spec_limit() == spec_align_down(l as int, IMMIX_BLOCK_SIZE as int) + IMMIX_BLOCK_SIZE {
                    None::<usize> } else { Some(final(self).spec_limit()) })
            },
            old(self).spec_line() is Some && old(space).recyclable_hole(old(self).spec_line()->0 as int).0 != 0 ==> {
                let l = old(self).spec_line()->0;
                let (start, end) = old(space).recyclable_hole(l as int);
                &&& r
                &&& final(self).spec_cursor() == start
                &&& final(self).spec_limit() == end
                &&& final(space).spec_bytes_allocated() == wrapping_add(old(space).spec_bytes_allocated(), end - start)
                &&& final(space).spec_reusable() == old(space).spec_reusable()
                &&& final(space).spec_target_footprint() == old(space).spec_target_footprint()
                &&& final(self).spec_line() == (if end == spec_align_down(l as int, IMMIX_BLOCK_SIZE as int) + IMMIX_BLOCK_SIZE {
                    None::<usize> } else { Some(end as usize) })
            },
    {
        let ghost mut first: bool = true;
        loop
            invariant
                space.wf(),
                space.alloc_ready(),
                self.wf(space),
                space.same_layout(old(space)),
                space.spec_free() == old(space).spec_free(),
                space.spec_growth_limit() == old(space).spec_growth_limit(),
                space.spec_reusable().len() <= old(space).spec_reusable().len(),
                self.large_cursor == old(self).large_cursor,
                self.large_limit == old(self).large_limit,
                self.emergency_collection == old(self).emergency_collection,
                self.request_for_large == old(self).request_for_large,
                self.cursor == old(self).cursor,
                self.limit == old(self).limit,
                space.spec_reusable().len() < old(space).spec_reusable().len()
                    || (space.spec_reusable().len() == old(space).spec_reusable().len()
                        && line_measure(self.line) <= line_measure(old(self).line)),
                space.spec_chunks() == old(space).spec_chunks(),
                first ==> *self == *old(self) && *space == *old(space),
                !first ==> !(old(self).spec_line() is Some && old(space).recyclable_hole(old(self).spec_line()->0 as int).0 != 0),
            decreases space.spec_reusable().len(), (if self.line.is_some() { 1nat } else { 0nat }),
        {
            if self.line.is_none() {
                proof {
                    first = false;
                }
                if !self.acquire_recyclable_block(space) {
                    return false;
                }
            }
            let l = match self.line {
                Some(l) => l,
                None => { return false; },
            };
            let ghost old_measure = line_measure(self.line);
            let (start, end) = space.acquire_recyclable_lines(l);
            if start != 0 && end != 0 {
                self.take_hole(space, l, start, end);
                return true;
            } else {
                proof {
                    let t = space.spec_chunks()[(l - space.spec_start()) / (CHUNK_SIZE as int)].spec_table();
                    let base = crate::immix::block_base_line(&t, l as int);
                    let sl = crate::immix::line_in_block(l as int);
                    let c1 = crate::immix::scan_lines(t@, base, sl, false);
                    crate::immix::lemma_scan_lines_bounds(t@, base, sl, false);
                    crate::immix::lemma_scan_lines_bounds(t@, base, c1, true);
                    assert(l > 0);
                    first = false;
                }
                self.line = None;
            }
        }
    }
}


impl ImmixAllocator {
    /// Allocates `size` bytes. Small objects are bumped in the current hole,
    /// moving on to further holes of reusable blocks and then to clean blocks;
    /// objects that span lines are bumped in the large region, which moves on
    /// to clean blocks. Returns the object's address, or `0` when no block
    /// may be taken (see [no_room]).
    pub fn allocate(&mut self, space: &mut ImmixSpace, size: usize) -> (r: usize)
        requires
            old(space).wf(),
            old(space).alloc_ready(),
            old(self).wf(old(space)),
            !old(self).spec_request_for_large(),
        ensures
            final(space).wf(),
            final(space).alloc_ready(),
            final(self).wf(final(space)),
            final(space).same_layout(old(space)),
            final(space).spec_growth_limit() == old(space).spec_growth_limit(),
            final(space).spec_free().len() <= old(space).spec_free().len(),
            !final(self).spec_request_for_large(),
            final(self).spec_emergency() == old(self).spec_emergency(),
            old(self).spec_cursor() + size <= old(self).spec_limit() ==> {
                &&& r == old(self).spec_cursor()
                &&& final(self).spec_cursor() == r + size
                &&& final(self).spec_limit() == old(self).spec_limit()
                &&& final(self).spec_large_cursor() == old(self).spec_large_cursor()
                &&& final(self).spec_large_limit() == old(self).spec_large_limit()
                &&& final(self).spec_line() == old(self).spec_line()
                &&& *final(space) == *old(space)
            },
            r != 0 ==> {
                &&& final(space).spec_start() <= r
                &&& r + size <= space_end(final(space))
                &&& (final(self).spec_cursor() == r + size || final(self).spec_large_cursor() == r + size)
            },
            r == 0 ==> size == 0 || no_room(final(space), final(self).spec_emergency(), size as int),
    {
        loop
            invariant
                space.wf(),
                space.alloc_ready(),
                self.wf(space),
                space.same_layout(old(space)),
                space.spec_growth_limit() == old(space).spec_growth_limit(),
                space.spec_free().len() <= old(space).spec_free().len(),
                !self.request_for_large,
                self.emergency_collection == old(self).emergency_collection,
                old(self).spec_cursor() + size <= old(self).spec_limit() ==> *self == *old(self) && *space == *old(space),
            decreases space.spec_free().len(), space.spec_reusable().len(), line_measure(self.line),
        {
            if self.limit - self.cursor >= size {
                let result = self.cursor;
                self.cursor = result + size;
                return result;
            }
            if size > IMMIX_LINE_SIZE {
                if self.large_limit - self.large_cursor >= size {
                    let result = self.large_cursor;
                    self.large_cursor = result + size;
                    return result;
                }
                self.request_for_large = true;
                let acquired = self.acquire_clean_block(space);
                self.request_for_large = false;
                if !acquired {
                    return 0;
                }
            } else if !self.acquire_recyclable_lines(space) {
                if !self.acquire_clean_block(space) {
                    return 0;
                }
            }
        }
    }
}

} // verus!
