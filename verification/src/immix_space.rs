//! The Immix space: its chunks, the headers of all its blocks, the lists of
//! free and reusable blocks, and the byte counters that drive collection.
use vstd::prelude::*;
use vstd::arithmetic::div_mod::{lemma_fundamental_div_mod, lemma_fundamental_div_mod_converse, lemma_mod_mod};
use crate::align::{spec_align_up, spec_align_down, round_up};
use crate::immix::{
    line_align, is_line_aligned,
    IMMIX_BLOCK_SIZE, IMMIX_LINE_SIZE, IMMIX_LINES_PER_BLOCK, CHUNK_SIZE, CHUNK_BLOCKS,
    LINES_PER_CHUNK, BlockState, ImmixBlock, Chunk, BlockList, count_marked,
    block_base_line, lemma_immix_sizes_are_powers_of_two,
};

verus! {

/// Size of a memory page in bytes.
pub const PAGE_SIZE: usize = 4096;

/// Block `k` of a space that starts at `start`.
pub open spec fn block_addr(start: int, k: int) -> int {
    start + k * IMMIX_BLOCK_SIZE
}

/// Index of the block that starts at `x` in a space that starts at `start`.
pub open spec fn block_index(start: int, x: int) -> int {
    (x - start) / (IMMIX_BLOCK_SIZE as int)
}

/// `x` is the start of a block of the space that may hold objects: a block
/// of one of its `n` chunks other than the chunk's header block.
pub open spec fn valid_block(start: int, n: int, x: int) -> bool {
    &&& x >= start
    &&& (x - start) % (IMMIX_BLOCK_SIZE as int) == 0
    &&& block_index(start, x) < n * CHUNK_BLOCKS
    &&& block_index(start, x) % (CHUNK_BLOCKS as int) != 0
}

/// The `m`-th block put on the free list of a new space: the blocks of each
/// chunk in order, chunk after chunk, leaving out each chunk's header block.
pub open spec fn initial_free_block(start: int, m: int) -> int {
    start + (m / 127) * CHUNK_SIZE + (m % 127 + 1) * IMMIX_BLOCK_SIZE
}

proof fn lemma_block_fits(start: int, n: int, k: int)
    requires
        0 <= k < n * CHUNK_BLOCKS,
        start >= 0,
    ensures
        block_addr(start, k) + IMMIX_BLOCK_SIZE <= start + n * CHUNK_SIZE,
        block_addr(start, k) >= start,
{
    assert(k * IMMIX_BLOCK_SIZE + IMMIX_BLOCK_SIZE <= n * CHUNK_SIZE) by (nonlinear_arith)
        requires 0 <= k < n * 128;
    assert(k * IMMIX_BLOCK_SIZE >= 0) by (nonlinear_arith)
        requires 0 <= k;
}

proof fn lemma_block_index(start: int, k: int)
    requires
        k >= 0,
    ensures
        block_index(start, block_addr(start, k)) == k,
        (block_addr(start, k) - start) % (IMMIX_BLOCK_SIZE as int) == 0,
{
    lemma_fundamental_div_mod_converse(k * IMMIX_BLOCK_SIZE, IMMIX_BLOCK_SIZE as int, k, 0);
}

proof fn lemma_valid_block_addr(start: int, n: int, x: int)
    requires
        valid_block(start, n, x),
    ensures
        x == block_addr(start, block_index(start, x)),
        0 < block_index(start, x) < n * CHUNK_BLOCKS,
{
    lemma_fundamental_div_mod(x - start, IMMIX_BLOCK_SIZE as int);
}

proof fn lemma_initial_free_block(start: int, n: int, i: int, j: int)
    requires
        0 <= i < n,
        1 <= j < CHUNK_BLOCKS,
        start >= 0,
    ensures
        initial_free_block(start, i * 127 + j - 1) == block_addr(start, i * 128 + j),
        valid_block(start, n, block_addr(start, i * 128 + j)),
        0 <= i * 128 + j < n * CHUNK_BLOCKS,
{
    let m = i * 127 + j - 1;
    lemma_fundamental_div_mod_converse(m, 127, i, j - 1);
    assert(initial_free_block(start, m) == start + (i * 128 + j) * IMMIX_BLOCK_SIZE) by (nonlinear_arith)
        requires
            m / 127 == i,
            m % 127 == j - 1,
            initial_free_block(start, m) == start + (m / 127) * CHUNK_SIZE + (m % 127 + 1) * IMMIX_BLOCK_SIZE;
    assert(0 <= i * 128 + j < n * 128) by (nonlinear_arith)
        requires 0 <= i < n, 1 <= j < 128;
    lemma_block_index(start, i * 128 + j);
    lemma_fundamental_div_mod_converse(i * 128 + j, 128, i, j);
}

/// The Immix space.
pub struct ImmixSpace {
    start: usize,
    chunks: Vec<Chunk>,
    blocks: Vec<ImmixBlock>,
    chunk_map: Vec<bool>,
    free_blocks: BlockList,
    reusable_blocks: BlockList,
    n_chunks: usize,
    target_footprint: usize,
    num_bytes_allocated: usize,
    initial_size: usize,
    min_heap_size: usize,
    max_heap_size: usize,
    growth_limit: usize,
}

impl ImmixSpace {
    /// Address of the first chunk.
    pub closed spec fn spec_start(&self) -> usize {
        self.start
    }

    /// The chunks, in address order.
    pub closed spec fn spec_chunks(&self) -> Seq<Chunk> {
        self.chunks@
    }

    /// The block headers, in address order; block `k` belongs to chunk
    /// `k / CHUNK_BLOCKS`.
    pub closed spec fn spec_blocks(&self) -> Seq<ImmixBlock> {
        self.blocks@
    }

    /// Which chunks hold allocated blocks.
    pub closed spec fn spec_chunk_map(&self) -> Seq<bool> {
        self.chunk_map@
    }

    /// Number of chunks.
    pub closed spec fn spec_n_chunks(&self) -> nat {
        self.n_chunks as nat
    }

    /// The free list, from the first block pushed to its head.
    pub closed spec fn spec_free(&self) -> Seq<usize> {
        self.free_blocks@
    }

    /// The list of reusable blocks, from the first block pushed to its head.
    pub closed spec fn spec_reusable(&self) -> Seq<usize> {
        self.reusable_blocks@
    }

    /// Heap size the space may grow to before a collection is due.
    pub closed spec fn spec_target_footprint(&self) -> usize {
        self.target_footprint
    }

    /// Bytes counted as allocated since the last collection.
    pub closed spec fn spec_bytes_allocated(&self) -> usize {
        self.num_bytes_allocated
    }

    /// The initial heap size.
    pub closed spec fn spec_initial_size(&self) -> usize {
        self.initial_size
    }

    /// The minimum heap size.
    pub closed spec fn spec_min_heap_size(&self) -> usize {
        self.min_heap_size
    }

    /// The maximum heap size.
    pub closed spec fn spec_max_heap_size(&self) -> usize {
        self.max_heap_size
    }

    /// The size of the space: the footprint may never grow past it.
    pub closed spec fn spec_growth_limit(&self) -> usize {
        self.growth_limit
    }

    /// The layout invariant of the space.
    pub closed spec fn wf(&self) -> bool {
        let start = self.spec_start() as int;
        let n = self.n_chunks as int;
        &&& start % (CHUNK_SIZE as int) == 0
        &&& start + n * CHUNK_SIZE <= usize::MAX
        &&& self.spec_chunks().len() == n
        &&& self.spec_chunk_map().len() == n
        &&& self.spec_blocks().len() == n * CHUNK_BLOCKS
        &&& forall|i: int| 0 <= i < n ==> (#[trigger] self.spec_chunks()[i]).wf()
            && self.spec_chunks()[i].spec_addr() == start + i * CHUNK_SIZE
        &&& forall|k: int| 0 <= k < n * CHUNK_BLOCKS ==> (#[trigger] self.spec_blocks()[k]).wf()
            && self.spec_blocks()[k].spec_addr() == block_addr(start, k)
        &&& forall|m: int| 0 <= m < self.free_blocks@.len() ==> valid_block(start, n, (#[trigger] self.free_blocks@[m]) as int)
        &&& forall|m: int| 0 <= m < self.reusable_blocks@.len() ==> valid_block(start, n, (#[trigger] self.reusable_blocks@[m]) as int)
    }

    /// What a well-formed space promises of its layout: the start is chunk
    /// aligned, the chunks fit in the address space, and there is one chunk
    /// record and one chunk-map entry per chunk and one header per block.
    pub proof fn lemma_wf_layout(&self)
        requires
            self.wf(),
        ensures
            self.spec_start() % CHUNK_SIZE == 0,
            self.spec_start() + self.spec_n_chunks() * CHUNK_SIZE <= usize::MAX,
            self.spec_chunks().len() == self.spec_n_chunks(),
            self.spec_chunk_map().len() == self.spec_n_chunks(),
            self.spec_blocks().len() == self.spec_n_chunks() * CHUNK_BLOCKS,
            forall|m: int| 0 <= m < self.spec_free().len() ==> valid_block(self.spec_start() as int, self.spec_n_chunks() as int, (#[trigger] self.spec_free()[m]) as int),
            forall|m: int| 0 <= m < self.spec_reusable().len() ==> valid_block(self.spec_start() as int, self.spec_n_chunks() as int, (#[trigger] self.spec_reusable()[m]) as int),
    {
    }

    /// The space keeps its layout: start, chunks and the addresses of its blocks.
    pub open spec fn same_layout(&self, other: &Self) -> bool {
        &&& self.spec_start() == other.spec_start()
        &&& self.spec_n_chunks() == other.spec_n_chunks()
    }

    /// Every block on the reusable list is in the reusable state with room
    /// left, and none of them is also on the free list.
    pub closed spec fn alloc_ready(&self) -> bool {
        forall|m: int| 0 <= m < self.reusable_blocks@.len() ==> {
            let x = #[trigger] self.reusable_blocks@[m];
            &&& self.blocks@[block_index(self.start as int, x as int)].spec_state() matches
                BlockState::Reusable { unavailable_lines } && unavailable_lines < IMMIX_LINES_PER_BLOCK - 1
            &&& !self.free_blocks@.contains(x)
        }
    }

    /// A space of `size` bytes rounded up to whole chunks, at `aligned_start`.
    /// Every block but each chunk's header block starts out unallocated on the
    /// free list; the target footprint starts at the initial size, raised to
    /// the minimum heap size.
    pub fn new(aligned_start: usize, size: usize, initial_size: usize, min_heap_size: usize, max_heap_size: usize) -> (s: Self)
        requires
            aligned_start % CHUNK_SIZE == 0,
            size + CHUNK_SIZE - 1 <= usize::MAX,
            aligned_start + spec_align_up(size as int, CHUNK_SIZE as int) <= usize::MAX,
            min_heap_size <= spec_align_up(size as int, CHUNK_SIZE as int),
        ensures
            s.wf(),
            s.spec_start() == aligned_start,
            s.spec_n_chunks() == spec_align_up(size as int, CHUNK_SIZE as int) / (CHUNK_SIZE as int),
            s.spec_growth_limit() == spec_align_up(size as int, CHUNK_SIZE as int),
            s.spec_free().len() == s.spec_n_chunks() * 127,
            forall|m: int| 0 <= m < s.spec_free().len() ==> #[trigger] s.spec_free()[m] == initial_free_block(aligned_start as int, m),
            s.spec_reusable().len() == 0,
            s.alloc_ready(),
            forall|k: int| 0 <= k < s.spec_blocks().len() ==> (#[trigger] s.spec_blocks()[k]).spec_state() == BlockState::Unallocated,
            forall|i: int| 0 <= i < s.spec_n_chunks() ==> !(#[trigger] s.spec_chunk_map()[i]),
            s.spec_bytes_allocated() == 0,
            s.spec_initial_size() == (if initial_size < min_heap_size { min_heap_size } else { initial_size }),
            s.spec_target_footprint() == s.spec_initial_size(),
            s.spec_min_heap_size() == min_heap_size,
            s.spec_max_heap_size() == max_heap_size,
    {
        proof {
            lemma_immix_sizes_are_powers_of_two();
        }
        let size = round_up(size, CHUNK_SIZE);
        let n_chunks = size / CHUNK_SIZE;
        proof {
            lemma_fundamental_div_mod_converse(size as int, CHUNK_SIZE as int, n_chunks as int, 0);
            assert(size == n_chunks * CHUNK_SIZE) by {
                assert((((size + CHUNK_SIZE - 1) as int / CHUNK_SIZE as int) * CHUNK_SIZE as int) % (CHUNK_SIZE as int) == 0) by (nonlinear_arith);
                lemma_fundamental_div_mod(size as int, CHUNK_SIZE as int);
            }
        }
        let mut chunks: Vec<Chunk> = Vec::new();
        let mut blocks: Vec<ImmixBlock> = Vec::new();
        let mut chunk_map: Vec<bool> = Vec::new();
        let mut free_list = BlockList::new();
        let mut i: usize = 0;
        while i < n_chunks
            invariant
                aligned_start % CHUNK_SIZE == 0,
                aligned_start + n_chunks * CHUNK_SIZE <= usize::MAX,
                i <= n_chunks,
                chunks@.len() == i,
                chunk_map@.len() == i,
                blocks@.len() == i * CHUNK_BLOCKS,
                free_list@.len() == i * 127,
                forall|c: int| 0 <= c < i ==> (#[trigger] chunks@[c]).wf() && chunks@[c].spec_addr() == aligned_start + c * CHUNK_SIZE,
                forall|c: int| 0 <= c < i ==> !(#[trigger] chunk_map@[c]),
                forall|k: int| 0 <= k < i * CHUNK_BLOCKS ==> (#[trigger] blocks@[k]).wf()
                    && blocks@[k].spec_addr() == block_addr(aligned_start as int, k)
                    && blocks@[k].spec_state() == BlockState::Unallocated,
                forall|m: int| 0 <= m < free_list@.len() ==> #[trigger] free_list@[m] == initial_free_block(aligned_start as int, m)
                    && valid_block(aligned_start as int, n_chunks as int, free_list@[m] as int),
            decreases n_chunks - i,
        {
            proof {
                assert(aligned_start + i * CHUNK_SIZE + CHUNK_SIZE <= aligned_start + n_chunks * CHUNK_SIZE) by (nonlinear_arith)
                    requires i < n_chunks;
                assert((aligned_start + i * CHUNK_SIZE) % (CHUNK_SIZE as int) == 0) by {
                    lemma_fundamental_div_mod_converse(aligned_start + i * CHUNK_SIZE, CHUNK_SIZE as int, (aligned_start as int) / (CHUNK_SIZE as int) + i, 0);
                    lemma_fundamental_div_mod(aligned_start as int, CHUNK_SIZE as int);
                }
            }
            let chunk_start = aligned_start + i * CHUNK_SIZE;
            let chunk = Chunk::new(chunk_start);
            let mut j: usize = 0;
            while j < CHUNK_BLOCKS
                invariant
                    aligned_start % CHUNK_SIZE == 0,
                    aligned_start + n_chunks * CHUNK_SIZE <= usize::MAX,
                    i < n_chunks,
                    chunk_start == aligned_start + i * CHUNK_SIZE,
                    j <= CHUNK_BLOCKS,
                    blocks@.len() == i * CHUNK_BLOCKS + j,
                    free_list@.len() == (if j == 0 { i * 127 } else { i * 127 + j - 1 }),
                    forall|k: int| 0 <= k < i * CHUNK_BLOCKS + j ==> (#[trigger] blocks@[k]).wf()
                        && blocks@[k].spec_addr() == block_addr(aligned_start as int, k)
                        && blocks@[k].spec_state() == BlockState::Unallocated,
                    forall|m: int| 0 <= m < free_list@.len() ==> #[trigger] free_list@[m] == initial_free_block(aligned_start as int, m)
                        && valid_block(aligned_start as int, n_chunks as int, free_list@[m] as int),
                decreases CHUNK_BLOCKS - j,
            {
                let ghost k = i * CHUNK_BLOCKS + j;
                proof {
                    assert(0 <= i * 128 + j < n_chunks * 128) by (nonlinear_arith)
                        requires i < n_chunks, j < 128;
                    lemma_block_fits(aligned_start as int, n_chunks as int, k);
                    assert(block_addr(aligned_start as int, k) == chunk_start + j * IMMIX_BLOCK_SIZE) by (nonlinear_arith)
                        requires k == i * 128 + j, chunk_start == aligned_start + i * CHUNK_SIZE;
                    assert((chunk_start + j * IMMIX_BLOCK_SIZE) % (IMMIX_BLOCK_SIZE as int) == 0) by {
                        lemma_fundamental_div_mod(aligned_start as int, CHUNK_SIZE as int);
                        lemma_fundamental_div_mod_converse(chunk_start + j * IMMIX_BLOCK_SIZE, IMMIX_BLOCK_SIZE as int,
                            ((aligned_start as int) / (CHUNK_SIZE as int)) * 128 + i * 128 + j, 0);
                    }
                }
                let addr = chunk_start + j * IMMIX_BLOCK_SIZE;
                blocks.push(ImmixBlock::new(addr));
                if j >= 1 {
                    proof {
                        lemma_initial_free_block(aligned_start as int, n_chunks as int, i as int, j as int);
                    }
                    free_list.push(addr);
                }
                j += 1;
            }
            chunks.push(chunk);
            chunk_map.push(false);
            i += 1;
        }
        let initial = if initial_size < min_heap_size { min_heap_size } else { initial_size };
        ImmixSpace {
            start: aligned_start,
            chunks,
            blocks,
            chunk_map,
            free_blocks: free_list,
            reusable_blocks: BlockList::new(),
            n_chunks,
            target_footprint: initial,
            num_bytes_allocated: 0,
            initial_size: initial,
            min_heap_size,
            max_heap_size,
            growth_limit: size,
        }
    }
}


proof fn lemma_block_in_chunk(start: int, n: int, k: int)
    requires
        start >= 0,
        start % (CHUNK_SIZE as int) == 0,
        0 <= k < n * CHUNK_BLOCKS,
    ensures
        0 <= k / (CHUNK_BLOCKS as int) < n,
        start + (k / (CHUNK_BLOCKS as int)) * CHUNK_SIZE <= block_addr(start, k),
        block_addr(start, k) + IMMIX_BLOCK_SIZE <= start + (k / (CHUNK_BLOCKS as int)) * CHUNK_SIZE + CHUNK_SIZE,
        block_addr(start, k) % (IMMIX_BLOCK_SIZE as int) == 0,
{
    let c = k / (CHUNK_BLOCKS as int);
    let j = k % (CHUNK_BLOCKS as int);
    lemma_fundamental_div_mod(k, CHUNK_BLOCKS as int);
    assert(0 <= c < n) by (nonlinear_arith)
        requires 0 <= k < n * 128, k == 128 * c + j, 0 <= j < 128;
    assert(block_addr(start, k) == start + c * CHUNK_SIZE + j * IMMIX_BLOCK_SIZE) by (nonlinear_arith)
        requires k == 128 * c + j;
    lemma_fundamental_div_mod(start, CHUNK_SIZE as int);
    let q = start / (CHUNK_SIZE as int);
    lemma_fundamental_div_mod_converse(block_addr(start, k), IMMIX_BLOCK_SIZE as int, q * 128 + k, 0);
}

/// Start of the chunk that holds `x`.
pub open spec fn chunk_start(x: int) -> int {
    spec_align_down(x, CHUNK_SIZE as int)
}

/// `x` rounded up to the start of a line.
pub open spec fn line_end(x: int) -> int {
    if x % (IMMIX_LINE_SIZE as int) == 0 {
        x
    } else {
        x - x % (IMMIX_LINE_SIZE as int) + IMMIX_LINE_SIZE
    }
}

/// What sweeping leaves of a block's state, given its marked object lines:
/// a block with no marked line is released, a full block stays allocated,
/// any other allocated block becomes reusable.
pub open spec fn swept_state(state: BlockState, marked: nat) -> BlockState {
    if state == BlockState::Unallocated || marked == 0 {
        BlockState::Unallocated
    } else if marked == IMMIX_LINES_PER_BLOCK - 1 {
        BlockState::Unmarked
    } else {
        BlockState::Reusable { unavailable_lines: marked as u8 }
    }
}

/// `x + y`, wrapping around past the largest `usize`.
pub open spec fn wrapping_add(x: usize, y: int) -> usize {
    if x + y > usize::MAX {
        (x + y - usize::MAX - 1) as usize
    } else {
        (x + y) as usize
    }
}

impl ImmixSpace {
    /// Number of marked object lines of block `k`, by its chunk's table.
    pub closed spec fn marked_lines(&self, k: int) -> nat {
        let t = self.spec_chunks()[k / (CHUNK_BLOCKS as int)].spec_table();
        count_marked(t@, block_base_line(&t, block_addr(self.spec_start() as int, k)), 1, IMMIX_LINES_PER_BLOCK as int)
    }

    /// Address of block `k`.
    pub open spec fn spec_block_addr(&self, k: int) -> usize {
        block_addr(self.spec_start() as int, k) as usize
    }

    /// Everything but the block headers, the lists and the byte counter is
    /// as in `other`.
    pub open spec fn same_but_blocks(&self, other: &Self) -> bool {
        &&& self.spec_start() == other.spec_start()
        &&& self.spec_n_chunks() == other.spec_n_chunks()
        &&& self.spec_chunks() == other.spec_chunks()
        &&& self.spec_target_footprint() == other.spec_target_footprint()
        &&& self.spec_initial_size() == other.spec_initial_size()
        &&& self.spec_min_heap_size() == other.spec_min_heap_size()
        &&& self.spec_max_heap_size() == other.spec_max_heap_size()
        &&& self.spec_growth_limit() == other.spec_growth_limit()
    }

    /// The heap sizes of `self` and `other` agree.
    pub open spec fn same_sizes(&self, other: &Self) -> bool {
        &&& self.spec_target_footprint() == other.spec_target_footprint()
        &&& self.spec_initial_size() == other.spec_initial_size()
        &&& self.spec_min_heap_size() == other.spec_min_heap_size()
        &&& self.spec_max_heap_size() == other.spec_max_heap_size()
        &&& self.spec_growth_limit() == other.spec_growth_limit()
    }

    /// `self` is what releasing `old` leaves: block states swept by the line
    /// marks of the chunks in use, the free and reusable lists rebuilt from
    /// the blocks that sweeping releases or recycles, the byte counter
    /// advanced by the marked lines, and chunks left without allocated blocks
    /// recorded as unused.
    pub open spec fn released_from(&self, old: &Self) -> bool {
        &&& self.wf()
        &&& self.same_but_blocks(old)
        &&& self.spec_blocks().len() == old.spec_blocks().len()
        &&& forall|k: int| 0 <= k < old.spec_blocks().len() ==> {
            let ci = k / (CHUNK_BLOCKS as int);
            &&& (#[trigger] self.spec_blocks()[k]).spec_state() == (
                if old.spec_chunk_map()[ci] && k % (CHUNK_BLOCKS as int) != 0 {
                    swept_state(old.spec_blocks()[k].spec_state(), old.marked_lines(k))
                } else {
                    old.spec_blocks()[k].spec_state()
                })
            &&& self.spec_blocks()[k].spec_addr() == old.spec_blocks()[k].spec_addr()
        }
        &&& self.spec_free() == old.release_free(old.spec_n_chunks() as int)
        &&& self.spec_reusable() == old.release_reusable(old.spec_n_chunks() as int)
        &&& self.spec_bytes_allocated()
            == old.release_bytes(old.spec_n_chunks() as int, old.spec_bytes_allocated())
        &&& forall|ci: int| 0 <= ci < old.spec_n_chunks() ==> #[trigger] self.spec_chunk_map()[ci]
            == (old.spec_chunk_map()[ci] && old.chunk_keeps_blocks(ci, CHUNK_BLOCKS as int))
        &&& self.spec_chunk_map().len() == old.spec_chunk_map().len()
        &&& self.alloc_ready()
    }

    /// `self` is what preparing `old` for marking leaves: every allocated
    /// block of the chunks in use is unmarked and, for a major collection,
    /// their line marks are cleared; nothing else changes.
    pub open spec fn prepared_from(&self, old: &Self, major_gc: bool) -> bool {
        &&& self.wf()
        &&& self.same_layout(old)
        &&& self.same_sizes(old)
        &&& self.spec_free() == old.spec_free()
        &&& self.spec_reusable() == old.spec_reusable()
        &&& self.spec_chunk_map() == old.spec_chunk_map()
        &&& self.spec_bytes_allocated() == old.spec_bytes_allocated()
        &&& self.spec_blocks().len() == old.spec_blocks().len()
        &&& forall|k: int| 0 <= k < old.spec_blocks().len() ==> {
            &&& (#[trigger] self.spec_blocks()[k]).spec_state() == (
                if old.spec_chunk_map()[k / (CHUNK_BLOCKS as int)]
                    && old.spec_blocks()[k].spec_state() != BlockState::Unallocated {
                    BlockState::Unmarked
                } else {
                    old.spec_blocks()[k].spec_state()
                })
            &&& self.spec_blocks()[k].spec_addr() == old.spec_blocks()[k].spec_addr()
        }
        &&& self.spec_chunks().len() == old.spec_chunks().len()
        &&& forall|ci: int| 0 <= ci < old.spec_n_chunks() ==> {
            &&& (#[trigger] self.spec_chunks()[ci]).spec_addr() == old.spec_chunks()[ci].spec_addr()
            &&& if old.spec_chunk_map()[ci] && major_gc {
                forall|i: int| 0 <= i < LINES_PER_CHUNK ==> !#[trigger] self.spec_chunks()[ci].spec_table()@[i]
            } else {
                self.spec_chunks()[ci].spec_table() == old.spec_chunks()[ci].spec_table()
            }
        }
    }

    /// The minimum heap size.
    pub fn min_heap_size(&self) -> (r: usize)
        ensures
            r == self.spec_min_heap_size(),
    {
        self.min_heap_size
    }

    /// The maximum heap size.
    pub fn max_heap_size(&self) -> (r: usize)
        ensures
            r == self.spec_max_heap_size(),
    {
        self.max_heap_size
    }

    /// Number of chunks.
    pub fn n_chunks(&self) -> (r: usize)
        ensures
            r == self.spec_n_chunks(),
    {
        self.n_chunks
    }

    /// The list of free blocks.
    pub fn free_blocks(&self) -> (r: &BlockList)
        ensures
            r@ == self.spec_free(),
    {
        &self.free_blocks
    }

    /// The list of reusable blocks.
    pub fn reusable_blocks(&self) -> (r: &BlockList)
        ensures
            r@ == self.spec_reusable(),
    {
        &self.reusable_blocks
    }

    /// Heap size the space may grow to before a collection is due.
    pub fn target_footprint(&self) -> (r: usize)
        ensures
            r == self.spec_target_footprint(),
    {
        self.target_footprint
    }

    /// Bytes counted as allocated since the last collection.
    pub fn num_bytes_allocated(&self) -> (r: usize)
        ensures
            r == self.spec_bytes_allocated(),
    {
        self.num_bytes_allocated
    }

    /// The size of the space, the limit of its footprint.
    pub fn growth_limit(&self) -> (r: usize)
        ensures
            r == self.spec_growth_limit(),
    {
        self.growth_limit
    }

    /// The state of the block that starts at `block`.
    pub fn block_state(&self, block: usize) -> (r: BlockState)
        requires
            self.wf(),
            valid_block(self.spec_start() as int, self.spec_n_chunks() as int, block as int),
        ensures
            r == self.spec_blocks()[block_index(self.spec_start() as int, block as int)].spec_state(),
    {
        let k = (block - self.start) / IMMIX_BLOCK_SIZE;
        self.blocks[k].state()
    }

    /// Bytes held by the blocks of the free list.
    pub fn reserved_pages(&self) -> (r: usize)
        requires
            self.spec_free().len() * PAGE_SIZE <= usize::MAX,
        ensures
            r == self.spec_free().len() * PAGE_SIZE,
    {
        self.free_blocks.len() * PAGE_SIZE
    }

    /// Whether `ptr` lies inside the space.
    pub fn has_address(&self, ptr: usize) -> (r: bool)
        requires
            self.wf(),
        ensures
            r == (self.spec_start() <= ptr < self.spec_start() + self.spec_n_chunks() * CHUNK_SIZE),
    {
        proof {
            reveal_wf(self);
        }
        ptr >= self.start && ptr < self.start + self.n_chunks * CHUNK_SIZE
    }

    /// The line of its block that holds `object`.
    pub fn object_to_line_num(object: usize) -> (r: usize)
        ensures
            r == (object % IMMIX_BLOCK_SIZE) / IMMIX_LINE_SIZE,
            r < IMMIX_LINES_PER_BLOCK,
    {
        (object % IMMIX_BLOCK_SIZE) / IMMIX_LINE_SIZE
    }
}

proof fn reveal_wf(s: &ImmixSpace)
    requires
        s.wf(),
    ensures
        s.spec_start() % CHUNK_SIZE == 0,
        s.spec_start() + s.spec_n_chunks() * CHUNK_SIZE <= usize::MAX,
{
}


impl ImmixSpace {
    /// Takes a block from the free list and prepares it for allocation; `0`
    /// when the free list is empty. The block's chunk is recorded as in use.
    pub fn get_clean_block(&mut self) -> (r: usize)
        requires
            old(self).wf(),
        ensures
            final(self).wf(),
            final(self).same_but_blocks(old(self)),
            final(self).spec_bytes_allocated() == old(self).spec_bytes_allocated(),
            final(self).spec_reusable() == old(self).spec_reusable(),
            old(self).alloc_ready() ==> final(self).alloc_ready(),
            old(self).spec_free().len() == 0 ==> r == 0
                && final(self).spec_free() == old(self).spec_free()
                && final(self).spec_blocks() == old(self).spec_blocks()
                && final(self).spec_chunk_map() == old(self).spec_chunk_map(),
            old(self).spec_free().len() > 0 ==> ({
                let k = block_index(old(self).spec_start() as int, r as int);
                &&& r == old(self).spec_free().last()
                &&& r != 0
                &&& 0 <= k < old(self).spec_blocks().len()
                &&& 0 <= k / (CHUNK_BLOCKS as int) < old(self).spec_chunk_map().len()
                &&& valid_block(old(self).spec_start() as int, old(self).spec_n_chunks() as int, r as int)
                &&& final(self).spec_free() == old(self).spec_free().drop_last()
                &&& final(self).spec_blocks()[k].spec_state() == BlockState::Unmarked
                &&& final(self).spec_blocks()[k].spec_holes() == 0
                &&& !final(self).spec_blocks()[k].spec_fragmented()
                &&& final(self).spec_blocks()[k].spec_next() == 0
                &&& forall|k2: int| 0 <= k2 < old(self).spec_blocks().len() && k2 != k ==> #[trigger] final(self).spec_blocks()[k2] == old(self).spec_blocks()[k2]
                &&& final(self).spec_blocks().len() == old(self).spec_blocks().len()
                &&& final(self).spec_chunk_map() == old(self).spec_chunk_map().update(k / (CHUNK_BLOCKS as int), true)
            }),
    {
        let ghost n = self.n_chunks as int;
        let ghost start = self.start as int;
        let block = self.free_blocks.pop();
        if block == 0 {
            return 0;
        }
        proof {
            let m = old(self).free_blocks@.len() - 1;
            assert(valid_block(start, n, old(self).free_blocks@[m] as int));
            lemma_valid_block_addr(start, n, block as int);
            lemma_block_fits(start, n, block_index(start, block as int));
        }
        let k = (block - self.start) / IMMIX_BLOCK_SIZE;
        let ci = k / CHUNK_BLOCKS;
        proof {
            lemma_block_in_chunk(start, n, k as int);
        }
        self.blocks[k].init(false);
        self.chunk_map.set(ci, true);
        proof {
            assert forall|m: int| 0 <= m < self.free_blocks@.len() implies valid_block(start, n, (#[trigger] self.free_blocks@[m]) as int) by {
                assert(self.free_blocks@[m] == old(self).free_blocks@[m]);
            }
            assert forall|k2: int| 0 <= k2 < n * CHUNK_BLOCKS implies (#[trigger] self.blocks@[k2]).wf()
                && self.blocks@[k2].spec_addr() == block_addr(start, k2) by {
                if k2 != k {
                    assert(self.blocks@[k2] == old(self).blocks@[k2]);
                }
            }
            if old(self).alloc_ready() {
                assert forall|m: int| 0 <= m < self.reusable_blocks@.len() implies {
                    let x = #[trigger] self.reusable_blocks@[m];
                    &&& self.blocks@[block_index(self.start as int, x as int)].spec_state() matches
                        BlockState::Reusable { unavailable_lines } && unavailable_lines < IMMIX_LINES_PER_BLOCK - 1
                    &&& !self.free_blocks@.contains(x)
                } by {
                    let x = self.reusable_blocks@[m];
                    assert(old(self).reusable_blocks@[m] == x);
                    assert(valid_block(start, n, x as int));
                    lemma_valid_block_addr(start, n, x as int);
                    assert(old(self).free_blocks@[old(self).free_blocks@.len() - 1] == block);
                    assert(x != block);
                    assert(block_index(start, x as int) != k);
                    if self.free_blocks@.contains(x) {
                        let w = choose|w: int| 0 <= w < self.free_blocks@.len() && self.free_blocks@[w] == x;
                        assert(old(self).free_blocks@[w] == x);
                    }
                }
            }
        }
        block
    }

    /// Takes a block from the list of reusable blocks; `0` when it is empty.
    pub fn get_reusable_block(&mut self) -> (r: usize)
        requires
            old(self).wf(),
        ensures
            final(self).wf(),
            final(self).same_but_blocks(old(self)),
            final(self).spec_blocks() == old(self).spec_blocks(),
            final(self).spec_chunk_map() == old(self).spec_chunk_map(),
            final(self).spec_bytes_allocated() == old(self).spec_bytes_allocated(),
            final(self).spec_free() == old(self).spec_free(),
            old(self).alloc_ready() ==> final(self).alloc_ready(),
            old(self).alloc_ready() && r != 0 ==> (final(self).spec_blocks()[block_index(old(self).spec_start() as int, r as int)].spec_state() matches
                BlockState::Reusable { unavailable_lines } && unavailable_lines < IMMIX_LINES_PER_BLOCK - 1),
            old(self).spec_reusable().len() == 0 ==> r == 0 && final(self).spec_reusable() == old(self).spec_reusable(),
            old(self).spec_reusable().len() > 0 ==> r == old(self).spec_reusable().last()
                && final(self).spec_reusable() == old(self).spec_reusable().drop_last()
                && valid_block(old(self).spec_start() as int, old(self).spec_n_chunks() as int, r as int),
    {
        let block = self.reusable_blocks.pop();
        proof {
            if old(self).reusable_blocks@.len() > 0 {
                let m = old(self).reusable_blocks@.len() - 1;
                assert(valid_block(self.start as int, self.n_chunks as int, old(self).reusable_blocks@[m] as int));
            }
            assert forall|m: int| 0 <= m < self.reusable_blocks@.len() implies valid_block(self.start as int, self.n_chunks as int, (#[trigger] self.reusable_blocks@[m]) as int) by {
                assert(self.reusable_blocks@[m] == old(self).reusable_blocks@[m]);
            }
            if old(self).alloc_ready() {
                assert forall|m: int| 0 <= m < self.reusable_blocks@.len() implies {
                    let x = #[trigger] self.reusable_blocks@[m];
                    &&& self.blocks@[block_index(self.start as int, x as int)].spec_state() matches
                        BlockState::Reusable { unavailable_lines } && unavailable_lines < IMMIX_LINES_PER_BLOCK - 1
                    &&& !self.free_blocks@.contains(x)
                } by {
                    assert(self.reusable_blocks@[m] == old(self).reusable_blocks@[m]);
                }
                if block != 0 {
                    let m = old(self).reusable_blocks@.len() - 1;
                    assert(old(self).reusable_blocks@[m] == block);
                }
            }
        }
        block
    }

    /// Returns block `k` to the free list, marked unallocated.
    pub fn release_block(&mut self, k: usize)
        requires
            old(self).wf(),
            0 < k < old(self).spec_n_chunks() * CHUNK_BLOCKS,
            k % CHUNK_BLOCKS != 0,
        ensures
            final(self).wf(),
            final(self).same_but_blocks(old(self)),
            final(self).spec_bytes_allocated() == old(self).spec_bytes_allocated(),
            final(self).spec_reusable() == old(self).spec_reusable(),
            final(self).spec_chunk_map() == old(self).spec_chunk_map(),
            final(self).spec_free() == old(self).spec_free().push(old(self).spec_block_addr(k as int)),
            final(self).spec_blocks() == old(self).spec_blocks().update(k as int,
                final(self).spec_blocks()[k as int]),
            final(self).spec_blocks()[k as int].spec_state() == BlockState::Unallocated,
            final(self).spec_blocks()[k as int].spec_addr() == old(self).spec_blocks()[k as int].spec_addr(),
            final(self).spec_blocks()[k as int].spec_next() == old(self).spec_blocks()[k as int].spec_next(),
            final(self).spec_blocks()[k as int].spec_holes() == old(self).spec_blocks()[k as int].spec_holes(),
            final(self).spec_blocks()[k as int].spec_fragmented() == old(self).spec_blocks()[k as int].spec_fragmented(),
    {
        let ghost n = self.n_chunks as int;
        let ghost start = self.start as int;
        proof {
            lemma_block_fits(start, n, k as int);
            lemma_block_index(start, k as int);
        }
        self.blocks[k].deinit();
        let addr = self.blocks[k].start();
        self.free_blocks.push(addr);
        proof {
            assert(self.blocks@ =~= old(self).blocks@.update(k as int, self.blocks@[k as int]));
            assert forall|m: int| 0 <= m < self.free_blocks@.len() implies valid_block(start, n, (#[trigger] self.free_blocks@[m]) as int) by {
                if m < old(self).free_blocks@.len() {
                    assert(self.free_blocks@[m] == old(self).free_blocks@[m]);
                }
            }
        }
    }

    /// Marks the lines that the object at `object` of `size` bytes covers in
    /// the line mark table of the object's chunk.
    #[verifier::spinoff_prover]
    #[verifier::rlimit(40)]
    pub fn mark_lines(&mut self, object: usize, size: usize)
        requires
            old(self).wf(),
            old(self).spec_start() <= object,
            object + size + IMMIX_LINE_SIZE <= usize::MAX,
            object < old(self).spec_start() + old(self).spec_n_chunks() * CHUNK_SIZE,
            line_end((object + size) as int) <= chunk_start(object as int) + CHUNK_SIZE,
        ensures
            final(self).wf(),
            final(self).same_layout(old(self)),
            final(self).same_sizes(old(self)),
            final(self).spec_blocks() == old(self).spec_blocks(),
            final(self).spec_free() == old(self).spec_free(),
            final(self).spec_reusable() == old(self).spec_reusable(),
            final(self).spec_chunk_map() == old(self).spec_chunk_map(),
            final(self).spec_bytes_allocated() == old(self).spec_bytes_allocated(),
            ({
                let ci = (chunk_start(object as int) - old(self).spec_start()) / (CHUNK_SIZE as int);
                let c = chunk_start(object as int);
                let first = (object - object % IMMIX_LINE_SIZE - c) / (IMMIX_LINE_SIZE as int);
                let last = (line_end((object + size) as int) - c) / (IMMIX_LINE_SIZE as int);
                &&& final(self).spec_chunks().len() == old(self).spec_chunks().len()
                &&& forall|c2: int| 0 <= c2 < old(self).spec_chunks().len() && c2 != ci ==> #[trigger] final(self).spec_chunks()[c2] == old(self).spec_chunks()[c2]
                &&& final(self).spec_chunks()[ci].spec_addr() == c
                &&& forall|c2: int| 0 <= c2 < old(self).spec_chunks().len() ==> #[trigger] final(self).spec_chunks()[c2].spec_addr() == old(self).spec_chunks()[c2].spec_addr()
                &&& forall|i: int| 0 <= i < LINES_PER_CHUNK ==>
                    #[trigger] final(self).spec_chunks()[ci].spec_table()@[i]
                        == (old(self).spec_chunks()[ci].spec_table()@[i] || (first <= i < last))
            }),
    {
        let ghost start = self.start as int;
        let ghost n = self.n_chunks as int;
        proof {
            lemma_immix_sizes_are_powers_of_two();
            lemma_fundamental_div_mod(object as int, CHUNK_SIZE as int);
            lemma_fundamental_div_mod(object as int, IMMIX_LINE_SIZE as int);
            lemma_mod_mod(object as int, IMMIX_LINE_SIZE as int, 16384);
            lemma_fundamental_div_mod((object % CHUNK_SIZE) as int, IMMIX_LINE_SIZE as int);
            lemma_fundamental_div_mod(start, CHUNK_SIZE as int);
        }
        let c = Chunk::align(object);
        let ci = (c - self.start) / CHUNK_SIZE;
        proof {
            let qo = object as int / CHUNK_SIZE as int;
            let qs = start / CHUNK_SIZE as int;
            assert(c == qo * CHUNK_SIZE);
            assert(start == qs * CHUNK_SIZE);
            assert(c - start == (qo - qs) * CHUNK_SIZE) by (nonlinear_arith)
                requires c == qo * CHUNK_SIZE, start == qs * CHUNK_SIZE;
            assert(qs <= qo) by (nonlinear_arith)
                requires start <= object, object == qo * CHUNK_SIZE + object % CHUNK_SIZE,
                    start == qs * CHUNK_SIZE, 0 <= object % CHUNK_SIZE < CHUNK_SIZE;
            assert(qo - qs < n) by (nonlinear_arith)
                requires object < start + n * CHUNK_SIZE, object == qo * CHUNK_SIZE + object % CHUNK_SIZE,
                    start == qs * CHUNK_SIZE, 0 <= object % CHUNK_SIZE;
            lemma_fundamental_div_mod_converse(c - start, CHUNK_SIZE as int, qo - qs, 0);
        }
        let start_line = line_align(object);
        let end = object + size;
        let mut end_line = line_align(end);
        if !is_line_aligned(end) {
            end_line = end_line + IMMIX_LINE_SIZE;
        }
        proof {
            // both ends of the marked range are whole lines inside the chunk
            assert(object % IMMIX_LINE_SIZE <= object % CHUNK_SIZE);
            assert((c - c) % (IMMIX_LINE_SIZE as int) == 0);
            assert(c == (object as int / CHUNK_SIZE as int) * 16384 * IMMIX_LINE_SIZE) by (nonlinear_arith)
                requires c == (object as int / CHUNK_SIZE as int) * CHUNK_SIZE;
            lemma_fundamental_div_mod_converse(c as int, IMMIX_LINE_SIZE as int, (object as int / CHUNK_SIZE as int) * 16384, 0);
            lemma_fundamental_div_mod(end as int, IMMIX_LINE_SIZE as int);
        }
        let i0 = (start_line - c) / IMMIX_LINE_SIZE;
        let i1 = (end_line - c) / IMMIX_LINE_SIZE;
        proof {
            lemma_fundamental_div_mod((start_line - c) as int, IMMIX_LINE_SIZE as int);
            lemma_fundamental_div_mod((end_line - c) as int, IMMIX_LINE_SIZE as int);
            assert((start_line - c) % (IMMIX_LINE_SIZE as int) == 0) by {
                lemma_fundamental_div_mod_converse((start_line - c) as int, IMMIX_LINE_SIZE as int,
                    start_line as int / IMMIX_LINE_SIZE as int - (object as int / CHUNK_SIZE as int) * 16384, 0);
            }
            assert((end_line - c) % (IMMIX_LINE_SIZE as int) == 0) by {
                lemma_fundamental_div_mod_converse((end_line - c) as int, IMMIX_LINE_SIZE as int,
                    end_line as int / IMMIX_LINE_SIZE as int - (object as int / CHUNK_SIZE as int) * 16384, 0);
            }
        }
        let ghost old_marks = old(self).chunks@[ci as int].spec_table()@;
        let mut i = i0;
        while i < i1
            invariant
                self.wf(),
                self.same_layout(old(self)),
                self.same_sizes(old(self)),
                self.blocks@ == old(self).blocks@,
                self.free_blocks@ == old(self).free_blocks@,
                self.reusable_blocks@ == old(self).reusable_blocks@,
                self.chunk_map@ == old(self).chunk_map@,
                self.num_bytes_allocated == old(self).num_bytes_allocated,
                self.chunks@.len() == old(self).chunks@.len(),
                self.start == old(self).start,
                start == self.start,
                n == self.n_chunks,
                ci < n,
                c == start + ci * CHUNK_SIZE,
                i0 <= i <= i1,
                i1 <= LINES_PER_CHUNK,
                forall|c2: int| 0 <= c2 < n && c2 != ci ==> #[trigger] self.chunks@[c2] == old(self).chunks@[c2],
                self.chunks@[ci as int].spec_addr() == c,
                forall|j: int| 0 <= j < LINES_PER_CHUNK ==>
                    #[trigger] self.chunks@[ci as int].spec_table()@[j] == (old_marks[j] || (i0 <= j < i)),
            decreases i1 - i,
        {
            proof {
                lemma_fundamental_div_mod_converse((i * IMMIX_LINE_SIZE) as int, IMMIX_LINE_SIZE as int, i as int, 0);
            }
            let line = c + i * IMMIX_LINE_SIZE;
            let ghost prev = self.chunks@;
            self.chunks[ci].line_mark_table_mut().set(line);
            proof {
                assert forall|c2: int| 0 <= c2 < n && c2 != ci implies #[trigger] self.chunks@[c2] == old(self).chunks@[c2] by {
                    assert(self.chunks@[c2] == prev[c2]);
                }
                assert forall|c2: int| 0 <= c2 < n implies (#[trigger] self.chunks@[c2]).wf()
                    && self.chunks@[c2].spec_addr() == start + c2 * CHUNK_SIZE by {
                    if c2 != ci {
                        assert(self.chunks@[c2] == old(self).chunks@[c2]);
                    }
                }
            }
            i += 1;
        }
    }
}


impl ImmixSpace {
    /// Block `k` is allocated and sweeping finds no marked line in it.
    pub open spec fn sweep_releases(&self, k: int) -> bool {
        self.spec_blocks()[k].spec_state() != BlockState::Unallocated && self.marked_lines(k) == 0
    }

    /// Block `k` is allocated and sweeping finds it partly marked.
    pub open spec fn sweep_recycles(&self, k: int) -> bool {
        &&& self.spec_blocks()[k].spec_state() != BlockState::Unallocated
        &&& 0 < self.marked_lines(k) < IMMIX_LINES_PER_BLOCK - 1
    }

    /// The byte counter after sweeping block `k`, from `bytes`.
    pub open spec fn swept_bytes(&self, k: int, bytes: usize) -> usize {
        if self.spec_blocks()[k].spec_state() != BlockState::Unallocated && self.marked_lines(k) > 0 {
            wrapping_add(bytes, self.marked_lines(k) * IMMIX_LINE_SIZE)
        } else {
            bytes
        }
    }

    /// Blocks `1 .. to` of chunk `ci` that sweeping releases, in order.
    pub open spec fn released_blocks(&self, ci: int, to: int) -> Seq<usize>
        decreases to,
    {
        if to <= 1 {
            Seq::empty()
        } else {
            let k = ci * CHUNK_BLOCKS + to - 1;
            self.released_blocks(ci, to - 1) + (if self.sweep_releases(k) { seq![self.spec_block_addr(k)] } else { Seq::empty() })
        }
    }

    /// Blocks `1 .. to` of chunk `ci` that sweeping makes reusable, in order.
    pub open spec fn recycled_blocks(&self, ci: int, to: int) -> Seq<usize>
        decreases to,
    {
        if to <= 1 {
            Seq::empty()
        } else {
            let k = ci * CHUNK_BLOCKS + to - 1;
            self.recycled_blocks(ci, to - 1) + (if self.sweep_recycles(k) { seq![self.spec_block_addr(k)] } else { Seq::empty() })
        }
    }

    /// The byte counter after sweeping blocks `1 .. to` of chunk `ci`, from `bytes`.
    pub open spec fn chunk_swept_bytes(&self, ci: int, to: int, bytes: usize) -> usize
        decreases to,
    {
        if to <= 1 {
            bytes
        } else {
            self.swept_bytes(ci * CHUNK_BLOCKS + to - 1, self.chunk_swept_bytes(ci, to - 1, bytes))
        }
    }

    /// Whether sweeping leaves block `k` allocated.
    pub open spec fn sweep_keeps(&self, k: int) -> bool {
        swept_state(self.spec_blocks()[k].spec_state(), self.marked_lines(k)) != BlockState::Unallocated
    }

    /// Whether sweeping leaves some block among blocks `1 .. to` of chunk `ci` allocated.
    pub open spec fn chunk_keeps_blocks(&self, ci: int, to: int) -> bool {
        exists|j: int| 1 <= j < to && #[trigger] self.sweep_keeps(ci * CHUNK_BLOCKS + j)
    }

    /// Sweeps block `k`: a block with no marked object line goes back to the
    /// free list; a partly marked one is counted and becomes reusable; a full
    /// one is counted and stays allocated. Returns whether the block ends up
    /// unallocated.
    pub fn sweep_block(&mut self, k: usize) -> (r: bool)
        requires
            old(self).wf(),
            k < old(self).spec_n_chunks() * CHUNK_BLOCKS,
            k % CHUNK_BLOCKS != 0,
        ensures
            final(self).wf(),
            final(self).same_but_blocks(old(self)),
            final(self).spec_chunk_map() == old(self).spec_chunk_map(),
            final(self).spec_blocks().len() == old(self).spec_blocks().len(),
            r == (swept_state(old(self).spec_blocks()[k as int].spec_state(), old(self).marked_lines(k as int))
                == BlockState::Unallocated),
            final(self).spec_blocks()[k as int].spec_state()
                == swept_state(old(self).spec_blocks()[k as int].spec_state(), old(self).marked_lines(k as int)),
            final(self).spec_blocks()[k as int].spec_addr() == old(self).spec_blocks()[k as int].spec_addr(),
            final(self).spec_blocks()[k as int].spec_next() == old(self).spec_blocks()[k as int].spec_next(),
            final(self).spec_blocks()[k as int].spec_holes() == old(self).spec_blocks()[k as int].spec_holes(),
            final(self).spec_blocks()[k as int].spec_fragmented() == old(self).spec_blocks()[k as int].spec_fragmented(),
            forall|k2: int| 0 <= k2 < old(self).spec_blocks().len() && k2 != k
                ==> #[trigger] final(self).spec_blocks()[k2] == old(self).spec_blocks()[k2],
            final(self).spec_free() == old(self).spec_free() + (if old(self).sweep_releases(k as int) {
                seq![old(self).spec_block_addr(k as int)] } else { Seq::empty() }),
            final(self).spec_reusable() == old(self).spec_reusable() + (if old(self).sweep_recycles(k as int) {
                seq![old(self).spec_block_addr(k as int)] } else { Seq::empty() }),
            final(self).spec_bytes_allocated() == old(self).swept_bytes(k as int, old(self).spec_bytes_allocated()),
    {
        let ghost start = self.start as int;
        let ghost n = self.n_chunks as int;
        proof {
            lemma_block_in_chunk(start, n, k as int);
            lemma_block_fits(start, n, k as int);
            lemma_block_index(start, k as int);
        }
        if self.blocks[k].state() == BlockState::Unallocated {
            proof {
                assert(self.free_blocks@ =~= old(self).free_blocks@ + Seq::<usize>::empty());
                assert(self.reusable_blocks@ =~= old(self).reusable_blocks@ + Seq::<usize>::empty());
            }
            return true;
        }
        let ci = k / CHUNK_BLOCKS;
        let addr = self.blocks[k].start();
        let marked = ImmixBlock::count_marked_lines(self.chunks[ci].line_mark_table(), addr);
        if marked == 0 {
            self.release_block(k);
            proof {
                assert(self.reusable_blocks@ =~= old(self).reusable_blocks@ + Seq::<usize>::empty());
                assert forall|k2: int| 0 <= k2 < old(self).blocks@.len() && k2 != k
                    implies #[trigger] self.blocks@[k2] == old(self).blocks@[k2] by {
                    assert(self.blocks@[k2] == old(self).blocks@.update(k as int, self.blocks@[k as int])[k2]);
                }
            }
            true
        } else {
            self.num_bytes_allocated = self.num_bytes_allocated.wrapping_add(marked * IMMIX_LINE_SIZE);
            if marked != IMMIX_LINES_PER_BLOCK - 1 {
                self.blocks[k].set_state(BlockState::Reusable { unavailable_lines: marked as u8 });
                self.reusable_blocks.push(addr);
                proof {
                    assert forall|m: int| 0 <= m < self.reusable_blocks@.len()
                        implies valid_block(start, n, (#[trigger] self.reusable_blocks@[m]) as int) by {
                        if m < old(self).reusable_blocks@.len() {
                            assert(self.reusable_blocks@[m] == old(self).reusable_blocks@[m]);
                        } else {
                            lemma_fundamental_div_mod(k as int, CHUNK_BLOCKS as int);
                        }
                    }
                }
            } else {
                self.blocks[k].set_state(BlockState::Unmarked);
                proof {
                    assert(self.reusable_blocks@ =~= old(self).reusable_blocks@ + Seq::<usize>::empty());
                }
            }
            proof {
                assert(self.free_blocks@ =~= old(self).free_blocks@ + Seq::<usize>::empty());
            }
            false
        }
    }
}


impl ImmixSpace {
    /// Sweeps the object blocks of chunk `ci` in address order; the chunk is
    /// recorded as unused when none of them stays allocated.
    #[verifier::spinoff_prover]
    #[verifier::rlimit(100)]
    pub fn sweep_chunk(&mut self, ci: usize)
        requires
            old(self).wf(),
            ci < old(self).spec_n_chunks(),
        ensures
            final(self).wf(),
            final(self).same_but_blocks(old(self)),
            final(self).spec_blocks().len() == old(self).spec_blocks().len(),
            forall|j: int| 1 <= j < CHUNK_BLOCKS ==> {
                let k = ci * CHUNK_BLOCKS + j;
                &&& (#[trigger] final(self).spec_blocks()[ci * CHUNK_BLOCKS + j]).spec_state()
                    == swept_state(old(self).spec_blocks()[k].spec_state(), old(self).marked_lines(k))
                &&& final(self).spec_blocks()[k].spec_addr() == old(self).spec_blocks()[k].spec_addr()
            },
            forall|k2: int| 0 <= k2 < old(self).spec_blocks().len()
                && !(ci * CHUNK_BLOCKS < k2 < ci * CHUNK_BLOCKS + CHUNK_BLOCKS)
                ==> #[trigger] final(self).spec_blocks()[k2] == old(self).spec_blocks()[k2],
            final(self).spec_free() == old(self).spec_free() + old(self).released_blocks(ci as int, CHUNK_BLOCKS as int),
            final(self).spec_reusable() == old(self).spec_reusable() + old(self).recycled_blocks(ci as int, CHUNK_BLOCKS as int),
            final(self).spec_bytes_allocated()
                == old(self).chunk_swept_bytes(ci as int, CHUNK_BLOCKS as int, old(self).spec_bytes_allocated()),
            final(self).spec_chunk_map() == (if old(self).chunk_keeps_blocks(ci as int, CHUNK_BLOCKS as int) {
                old(self).spec_chunk_map() } else { old(self).spec_chunk_map().update(ci as int, false) }),
    {
        let ghost n = self.n_chunks as int;
        let ghost base = ci * CHUNK_BLOCKS;
        proof {
            assert(ci * 128 + 128 <= n * 128) by (nonlinear_arith)
                requires ci < n;
        }
        let mut cursor: usize = 1;
        let mut allocated_blocks: usize = 0;
        while cursor < CHUNK_BLOCKS
            invariant
                self.wf(),
                self.same_but_blocks(old(self)),
                n == self.n_chunks,
                ci < n,
                base == ci * CHUNK_BLOCKS,
                base + CHUNK_BLOCKS <= n * CHUNK_BLOCKS,
                1 <= cursor <= CHUNK_BLOCKS,
                self.blocks@.len() == old(self).blocks@.len(),
                self.chunk_map@ == old(self).chunk_map@,
                allocated_blocks < cursor,
                (allocated_blocks == 0) == !old(self).chunk_keeps_blocks(ci as int, cursor as int),
                forall|j: int| 1 <= j < cursor ==> {
                    let k = base + j;
                    &&& (#[trigger] self.blocks@[base + j]).spec_state()
                        == swept_state(old(self).blocks@[k].spec_state(), old(self).marked_lines(k))
                    &&& self.blocks@[k].spec_addr() == old(self).blocks@[k].spec_addr()
                },
                forall|k2: int| 0 <= k2 < old(self).blocks@.len() && !(base < k2 < base + cursor)
                    ==> #[trigger] self.blocks@[k2] == old(self).blocks@[k2],
                self.free_blocks@ == old(self).free_blocks@ + old(self).released_blocks(ci as int, cursor as int),
                self.reusable_blocks@ == old(self).reusable_blocks@ + old(self).recycled_blocks(ci as int, cursor as int),
                self.num_bytes_allocated == old(self).chunk_swept_bytes(ci as int, cursor as int, old(self).num_bytes_allocated),
            decreases CHUNK_BLOCKS - cursor,
        {
            let k = ci * CHUNK_BLOCKS + cursor;
            proof {
                lemma_fundamental_div_mod_converse(k as int, CHUNK_BLOCKS as int, ci as int, cursor as int);
                assert(self.blocks@[k as int] == old(self).blocks@[k as int]);
                assert(self.marked_lines(k as int) == old(self).marked_lines(k as int));
            }
            let ghost prev = *self;
            let freed = self.sweep_block(k);
            if !freed {
                allocated_blocks += 1;
            }
            proof {
                assert(old(self).sweep_keeps(k as int) == !freed);
                if freed {
                    if allocated_blocks == 0 {
                        assert forall|j: int| 1 <= j < cursor + 1 implies !(#[trigger] old(self).sweep_keeps(base + j)) by {
                            if j < cursor {
                                if old(self).sweep_keeps(base + j) {
                                    assert(old(self).chunk_keeps_blocks(ci as int, cursor as int));
                                }
                            } else {
                                assert(base + j == k);
                            }
                        }
                    } else {
                        let w = choose|j: int| 1 <= j < cursor && #[trigger] old(self).sweep_keeps(ci * CHUNK_BLOCKS + j);
                        assert(old(self).sweep_keeps(ci * CHUNK_BLOCKS + w));
                    }
                } else {
                    assert(old(self).sweep_keeps(base + cursor));
                }
                assert(old(self).released_blocks(ci as int, cursor + 1)
                    == old(self).released_blocks(ci as int, cursor as int) + (if old(self).sweep_releases(k as int) {
                        seq![old(self).spec_block_addr(k as int)] } else { Seq::empty() }));
                assert(prev.sweep_releases(k as int) == old(self).sweep_releases(k as int));
                assert(prev.sweep_recycles(k as int) == old(self).sweep_recycles(k as int));
                assert(prev.spec_block_addr(k as int) == old(self).spec_block_addr(k as int));
                assert(self.free_blocks@ =~= old(self).free_blocks@ + old(self).released_blocks(ci as int, cursor + 1));
                assert(self.reusable_blocks@ =~= old(self).reusable_blocks@ + old(self).recycled_blocks(ci as int, cursor + 1));
                assert forall|j: int| 1 <= j < cursor + 1 implies {
                    let k3 = base + j;
                    &&& (#[trigger] self.blocks@[base + j]).spec_state()
                        == swept_state(old(self).blocks@[k3].spec_state(), old(self).marked_lines(k3))
                    &&& self.blocks@[k3].spec_addr() == old(self).blocks@[k3].spec_addr()
                } by {
                    if j < cursor {
                        assert(self.blocks@[base + j] == prev.blocks@[base + j]);
                    }
                }
            }
            cursor += 1;
        }
        if allocated_blocks == 0 {
            self.chunk_map.set(ci, false);
        }
    }
}


impl ImmixSpace {
    /// Blocks that releasing the space puts on the free list: for each chunk
    /// `0 .. c` in use, the blocks it releases.
    pub open spec fn release_free(&self, c: int) -> Seq<usize>
        decreases c,
    {
        if c <= 0 {
            Seq::empty()
        } else {
            self.release_free(c - 1) + (if self.spec_chunk_map()[c - 1] {
                self.released_blocks(c - 1, CHUNK_BLOCKS as int) } else { Seq::empty() })
        }
    }

    /// Blocks that releasing the space makes reusable, chunk by chunk.
    pub open spec fn release_reusable(&self, c: int) -> Seq<usize>
        decreases c,
    {
        if c <= 0 {
            Seq::empty()
        } else {
            self.release_reusable(c - 1) + (if self.spec_chunk_map()[c - 1] {
                self.recycled_blocks(c - 1, CHUNK_BLOCKS as int) } else { Seq::empty() })
        }
    }

    /// The byte counter after releasing chunks `0 .. c`, from `bytes`.
    pub open spec fn release_bytes(&self, c: int, bytes: usize) -> usize
        decreases c,
    {
        if c <= 0 {
            bytes
        } else {
            let b = self.release_bytes(c - 1, bytes);
            if self.spec_chunk_map()[c - 1] { self.chunk_swept_bytes(c - 1, CHUNK_BLOCKS as int, b) } else { b }
        }
    }
}

proof fn lemma_sweep_frame(a: ImmixSpace, b: ImmixSpace, ci: int, to: int)
    requires
        a.same_but_blocks(&b),
        a.spec_blocks().len() == b.spec_blocks().len(),
        forall|j: int| 1 <= j < to ==> #[trigger] a.spec_blocks()[ci * CHUNK_BLOCKS + j] == b.spec_blocks()[ci * CHUNK_BLOCKS + j],
    ensures
        a.released_blocks(ci, to) == b.released_blocks(ci, to),
        a.recycled_blocks(ci, to) == b.recycled_blocks(ci, to),
        forall|x: usize| #[trigger] a.chunk_swept_bytes(ci, to, x) == b.chunk_swept_bytes(ci, to, x),
        a.chunk_keeps_blocks(ci, to) == b.chunk_keeps_blocks(ci, to),
    decreases to,
{
    if to > 1 {
        lemma_sweep_frame(a, b, ci, to - 1);
        let k = ci * CHUNK_BLOCKS + to - 1;
        assert(a.spec_blocks()[ci * CHUNK_BLOCKS + (to - 1)] == b.spec_blocks()[ci * CHUNK_BLOCKS + (to - 1)]);
        assert(a.marked_lines(k) == b.marked_lines(k));
        assert forall|x: usize| #[trigger] a.chunk_swept_bytes(ci, to, x) == b.chunk_swept_bytes(ci, to, x) by {
            assert(a.chunk_swept_bytes(ci, to - 1, x) == b.chunk_swept_bytes(ci, to - 1, x));
        }
    }
    if a.chunk_keeps_blocks(ci, to) {
        let w = choose|j: int| 1 <= j < to && #[trigger] a.sweep_keeps(ci * CHUNK_BLOCKS + j);
        assert(a.spec_blocks()[ci * CHUNK_BLOCKS + w] == b.spec_blocks()[ci * CHUNK_BLOCKS + w]);
        assert(a.marked_lines(ci * CHUNK_BLOCKS + w) == b.marked_lines(ci * CHUNK_BLOCKS + w));
        assert(b.sweep_keeps(ci * CHUNK_BLOCKS + w));
    }
    if b.chunk_keeps_blocks(ci, to) {
        let w = choose|j: int| 1 <= j < to && #[trigger] b.sweep_keeps(ci * CHUNK_BLOCKS + j);
        assert(a.spec_blocks()[ci * CHUNK_BLOCKS + w] == b.spec_blocks()[ci * CHUNK_BLOCKS + w]);
        assert(a.marked_lines(ci * CHUNK_BLOCKS + w) == b.marked_lines(ci * CHUNK_BLOCKS + w));
        assert(a.sweep_keeps(ci * CHUNK_BLOCKS + w));
    }
}

proof fn lemma_recycled_member(s: ImmixSpace, ci: int, to: int, x: usize)
    requires
        s.recycled_blocks(ci, to).contains(x),
    ensures
        exists|j: int| 1 <= j < to && #[trigger] s.sweep_recycles(ci * CHUNK_BLOCKS + j)
            && x == s.spec_block_addr(ci * CHUNK_BLOCKS + j),
    decreases to,
{
    if to > 1 {
        let k = ci * CHUNK_BLOCKS + to - 1;
        let prefix = s.recycled_blocks(ci, to - 1);
        let tail: Seq<usize> = if s.sweep_recycles(k) { seq![s.spec_block_addr(k)] } else { Seq::empty() };
        assert(s.recycled_blocks(ci, to) == prefix + tail);
        let w = choose|w: int| 0 <= w < s.recycled_blocks(ci, to).len() && s.recycled_blocks(ci, to)[w] == x;
        if w < prefix.len() {
            assert(prefix[w] == x);
            lemma_recycled_member(s, ci, to - 1, x);
        } else {
            assert(s.sweep_recycles(ci * CHUNK_BLOCKS + (to - 1)));
        }
    }
}

proof fn lemma_released_member(s: ImmixSpace, ci: int, to: int, x: usize)
    requires
        s.released_blocks(ci, to).contains(x),
    ensures
        exists|j: int| 1 <= j < to && #[trigger] s.sweep_releases(ci * CHUNK_BLOCKS + j)
            && x == s.spec_block_addr(ci * CHUNK_BLOCKS + j),
    decreases to,
{
    if to > 1 {
        let k = ci * CHUNK_BLOCKS + to - 1;
        let prefix = s.released_blocks(ci, to - 1);
        let tail: Seq<usize> = if s.sweep_releases(k) { seq![s.spec_block_addr(k)] } else { Seq::empty() };
        assert(s.released_blocks(ci, to) == prefix + tail);
        let w = choose|w: int| 0 <= w < s.released_blocks(ci, to).len() && s.released_blocks(ci, to)[w] == x;
        if w < prefix.len() {
            assert(prefix[w] == x);
            lemma_released_member(s, ci, to - 1, x);
        } else {
            assert(s.sweep_releases(ci * CHUNK_BLOCKS + (to - 1)));
        }
    }
}

/// Where a block on the rebuilt reusable list comes from.
spec fn recycled_in(s: ImmixSpace, x: usize, ci: int, j: int) -> bool {
    &&& 1 <= j < CHUNK_BLOCKS
    &&& s.spec_chunk_map()[ci]
    &&& s.sweep_recycles(ci * CHUNK_BLOCKS + j)
    &&& x == s.spec_block_addr(ci * CHUNK_BLOCKS + j)
}

/// Where a block on the rebuilt free list comes from.
spec fn released_in(s: ImmixSpace, x: usize, ci: int, j: int) -> bool {
    &&& 1 <= j < CHUNK_BLOCKS
    &&& s.spec_chunk_map()[ci]
    &&& s.sweep_releases(ci * CHUNK_BLOCKS + j)
    &&& x == s.spec_block_addr(ci * CHUNK_BLOCKS + j)
}

proof fn lemma_release_reusable_member(s: ImmixSpace, c: int, x: usize)
    requires
        s.release_reusable(c).contains(x),
    ensures
        exists|ci: int, j: int| 0 <= ci < c && #[trigger] recycled_in(s, x, ci, j),
    decreases c,
{
    if c > 0 {
        let prefix = s.release_reusable(c - 1);
        let tail: Seq<usize> = if s.spec_chunk_map()[c - 1] { s.recycled_blocks(c - 1, CHUNK_BLOCKS as int) } else { Seq::empty() };
        assert(s.release_reusable(c) == prefix + tail);
        let w = choose|w: int| 0 <= w < s.release_reusable(c).len() && s.release_reusable(c)[w] == x;
        if w < prefix.len() {
            assert(prefix[w] == x);
            lemma_release_reusable_member(s, c - 1, x);
            let (ci, j) = choose|ci: int, j: int| 0 <= ci < c - 1 && #[trigger] recycled_in(s, x, ci, j);
            assert(recycled_in(s, x, ci, j));
        } else {
            assert(tail[w - prefix.len()] == x);
            assert(tail.contains(x));
            lemma_recycled_member(s, c - 1, CHUNK_BLOCKS as int, x);
            let j = choose|j: int| 1 <= j < CHUNK_BLOCKS && #[trigger] s.sweep_recycles((c - 1) * CHUNK_BLOCKS + j)
                && x == s.spec_block_addr((c - 1) * CHUNK_BLOCKS + j);
            assert(recycled_in(s, x, c - 1, j));
        }
    }
}

proof fn lemma_release_free_member(s: ImmixSpace, c: int, x: usize)
    requires
        s.release_free(c).contains(x),
    ensures
        exists|ci: int, j: int| 0 <= ci < c && #[trigger] released_in(s, x, ci, j),
    decreases c,
{
    if c > 0 {
        let prefix = s.release_free(c - 1);
        let tail: Seq<usize> = if s.spec_chunk_map()[c - 1] { s.released_blocks(c - 1, CHUNK_BLOCKS as int) } else { Seq::empty() };
        assert(s.release_free(c) == prefix + tail);
        let w = choose|w: int| 0 <= w < s.release_free(c).len() && s.release_free(c)[w] == x;
        if w < prefix.len() {
            assert(prefix[w] == x);
            lemma_release_free_member(s, c - 1, x);
            let (ci, j) = choose|ci: int, j: int| 0 <= ci < c - 1 && #[trigger] released_in(s, x, ci, j);
            assert(released_in(s, x, ci, j));
        } else {
            assert(tail[w - prefix.len()] == x);
            assert(tail.contains(x));
            lemma_released_member(s, c - 1, CHUNK_BLOCKS as int, x);
            let j = choose|j: int| 1 <= j < CHUNK_BLOCKS && #[trigger] s.sweep_releases((c - 1) * CHUNK_BLOCKS + j)
                && x == s.spec_block_addr((c - 1) * CHUNK_BLOCKS + j);
            assert(released_in(s, x, c - 1, j));
        }
    }
}

impl ImmixSpace {
    /// Sweeps every chunk in use after a collection: the free and reusable
    /// lists are rebuilt from the blocks that sweeping releases or recycles,
    /// and chunks left without allocated blocks are recorded as unused.
    #[verifier::spinoff_prover]
    #[verifier::rlimit(100)]
    pub fn release(&mut self)
        requires
            old(self).wf(),
        ensures
            final(self).released_from(old(self)),
    {
        self.reusable_blocks.reset();
        self.free_blocks.reset();
        let ghost s0 = *self;
        let ghost n = self.n_chunks as int;
        let mut c: usize = 0;
        while c < self.n_chunks
            invariant
                self.wf(),
                self.same_but_blocks(old(self)),
                n == self.n_chunks,
                0 <= c <= n,
                self.blocks@.len() == old(self).blocks@.len(),
                self.chunk_map@.len() == n,
                s0.same_but_blocks(old(self)),
                s0.blocks@ == old(self).blocks@,
                s0.chunk_map@ == old(self).chunk_map@,
                forall|k: int| 0 <= k < old(self).blocks@.len() ==> {
                    let ci = k / (CHUNK_BLOCKS as int);
                    &&& (#[trigger] self.blocks@[k]).spec_state() == (
                        if ci < c && old(self).chunk_map@[ci] && k % (CHUNK_BLOCKS as int) != 0 {
                            swept_state(old(self).blocks@[k].spec_state(), old(self).marked_lines(k))
                        } else {
                            old(self).blocks@[k].spec_state()
                        })
                    &&& self.blocks@[k].spec_addr() == old(self).blocks@[k].spec_addr()
                    &&& (ci >= c ==> self.blocks@[k] == old(self).blocks@[k])
                },
                self.free_blocks@ == old(self).release_free(c as int),
                self.reusable_blocks@ == old(self).release_reusable(c as int),
                self.num_bytes_allocated == old(self).release_bytes(c as int, old(self).num_bytes_allocated),
                forall|ci: int| 0 <= ci < n ==> #[trigger] self.chunk_map@[ci] == (if ci < c {
                    old(self).chunk_map@[ci] && old(self).chunk_keeps_blocks(ci, CHUNK_BLOCKS as int)
                } else {
                    old(self).chunk_map@[ci]
                }),
            decreases n - c,
        {
            let ghost prev = *self;
            proof {
                assert forall|j: int| 1 <= j < CHUNK_BLOCKS implies #[trigger] prev.spec_blocks()[c * CHUNK_BLOCKS + j]
                    == old(self).spec_blocks()[c * CHUNK_BLOCKS + j] by {
                    let k = c * CHUNK_BLOCKS + j;
                    lemma_fundamental_div_mod_converse(k, CHUNK_BLOCKS as int, c as int, j);
                    assert(0 <= k < n * 128) by (nonlinear_arith)
                        requires c < n, 1 <= j < 128, k == c * 128 + j;
                }
                lemma_sweep_frame(prev, *old(self), c as int, CHUNK_BLOCKS as int);
            }
            if self.chunk_map[c] {
                self.sweep_chunk(c);
            }
            proof {
                assert(self.free_blocks@ =~= old(self).release_free(c + 1));
                assert(self.reusable_blocks@ =~= old(self).release_reusable(c + 1));
                assert forall|k: int| 0 <= k < old(self).blocks@.len() implies {
                    let ci = k / (CHUNK_BLOCKS as int);
                    &&& (#[trigger] self.blocks@[k]).spec_state() == (
                        if ci < c + 1 && old(self).chunk_map@[ci] && k % (CHUNK_BLOCKS as int) != 0 {
                            swept_state(old(self).blocks@[k].spec_state(), old(self).marked_lines(k))
                        } else {
                            old(self).blocks@[k].spec_state()
                        })
                    &&& self.blocks@[k].spec_addr() == old(self).blocks@[k].spec_addr()
                    &&& (ci >= c + 1 ==> self.blocks@[k] == old(self).blocks@[k])
                } by {
                    let ci = k / (CHUNK_BLOCKS as int);
                    let j = k % (CHUNK_BLOCKS as int);
                    lemma_fundamental_div_mod(k, CHUNK_BLOCKS as int);
                    if ci == c && prev.chunk_map@[c as int] && j != 0 {
                        assert(self.blocks@[c * CHUNK_BLOCKS + j] == self.blocks@[k]);
                        assert(prev.marked_lines(k) == old(self).marked_lines(k));
                    } else {
                        assert(!(c * CHUNK_BLOCKS < k < c * CHUNK_BLOCKS + CHUNK_BLOCKS) || !prev.chunk_map@[c as int]);
                    }
                }
            }
            c += 1;
        }
        proof {
            let o = *old(self);
            let start = self.start as int;
            let n = self.n_chunks as int;
            assert forall|m: int| 0 <= m < self.reusable_blocks@.len() implies {
                let x = #[trigger] self.reusable_blocks@[m];
                &&& self.blocks@[block_index(self.start as int, x as int)].spec_state() matches
                    BlockState::Reusable { unavailable_lines } && unavailable_lines < IMMIX_LINES_PER_BLOCK - 1
                &&& !self.free_blocks@.contains(x)
            } by {
                let x = self.reusable_blocks@[m];
                assert(o.release_reusable(n).contains(x));
                lemma_release_reusable_member(o, n, x);
                let (ci, j) = choose|ci: int, j: int| 0 <= ci < n && #[trigger] recycled_in(o, x, ci, j);
                let k = ci * CHUNK_BLOCKS + j;
                lemma_fundamental_div_mod_converse(k, CHUNK_BLOCKS as int, ci, j);
                assert(0 <= k < n * 128) by (nonlinear_arith)
                    requires k == ci * 128 + j, 0 <= ci < n, 1 <= j < 128;
                lemma_block_fits(start, n, k);
                lemma_block_index(start, k);
                assert(block_index(start, x as int) == k);
                assert(self.blocks@[k].spec_state() == swept_state(o.spec_blocks()[k].spec_state(), o.marked_lines(k)));
                if self.free_blocks@.contains(x) {
                    assert(o.release_free(n).contains(x));
                    lemma_release_free_member(o, n, x);
                    let (ci2, j2) = choose|ci2: int, j2: int| 0 <= ci2 < n && #[trigger] released_in(o, x, ci2, j2);
                    let k2 = ci2 * CHUNK_BLOCKS + j2;
                    assert(0 <= k2 < n * 128) by (nonlinear_arith)
                        requires k2 == ci2 * 128 + j2, 0 <= ci2 < n, 1 <= j2 < 128;
                    lemma_block_fits(start, n, k2);
                    assert(k2 == k) by (nonlinear_arith)
                        requires start + k2 * IMMIX_BLOCK_SIZE == start + k * IMMIX_BLOCK_SIZE;
                }
            }
        }
    }

    /// Puts every allocated block of the chunks in use back to unmarked
    /// before marking; a major collection also clears their line marks.
    #[verifier::spinoff_prover]
    #[verifier::rlimit(100)]
    pub fn prepare(&mut self, major_gc: bool)
        requires
            old(self).wf(),
        ensures
            final(self).prepared_from(old(self), major_gc),
    {
        let ghost n = self.n_chunks as int;
        let mut c: usize = 0;
        while c < self.n_chunks
            invariant
                self.wf(),
                self.same_layout(old(self)),
                self.same_sizes(old(self)),
                n == self.n_chunks,
                0 <= c <= n,
                self.free_blocks@ == old(self).free_blocks@,
                self.reusable_blocks@ == old(self).reusable_blocks@,
                self.chunk_map@ == old(self).chunk_map@,
                self.num_bytes_allocated == old(self).num_bytes_allocated,
                self.blocks@.len() == old(self).blocks@.len(),
                self.chunks@.len() == old(self).chunks@.len(),
                forall|k: int| 0 <= k < old(self).blocks@.len() ==> {
                    &&& (#[trigger] self.blocks@[k]).spec_state() == (
                        if k / (CHUNK_BLOCKS as int) < c && old(self).chunk_map@[k / (CHUNK_BLOCKS as int)]
                            && old(self).blocks@[k].spec_state() != BlockState::Unallocated {
                            BlockState::Unmarked
                        } else {
                            old(self).blocks@[k].spec_state()
                        })
                    &&& self.blocks@[k].spec_addr() == old(self).blocks@[k].spec_addr()
                },
                forall|ci: int| 0 <= ci < n ==> {
                    &&& (#[trigger] self.chunks@[ci]).spec_addr() == old(self).chunks@[ci].spec_addr()
                    &&& if ci < c && old(self).chunk_map@[ci] && major_gc {
                        forall|i: int| 0 <= i < LINES_PER_CHUNK ==> !#[trigger] self.chunks@[ci].spec_table()@[i]
                    } else {
                        self.chunks@[ci].spec_table() == old(self).chunks@[ci].spec_table()
                    }
                },
            decreases n - c,
        {
            if self.chunk_map[c] {
                let mut j: usize = 0;
                while j < CHUNK_BLOCKS
                    invariant
                        self.wf(),
                        self.same_layout(old(self)),
                        self.same_sizes(old(self)),
                        n == self.n_chunks,
                        0 <= c < n,
                        old(self).chunk_map@[c as int],
                        0 <= j <= CHUNK_BLOCKS,
                        self.free_blocks@ == old(self).free_blocks@,
                        self.reusable_blocks@ == old(self).reusable_blocks@,
                        self.chunk_map@ == old(self).chunk_map@,
                        self.num_bytes_allocated == old(self).num_bytes_allocated,
                        self.blocks@.len() == old(self).blocks@.len(),
                        self.chunks@.len() == old(self).chunks@.len(),
                        forall|k: int| 0 <= k < old(self).blocks@.len() ==> {
                            &&& (#[trigger] self.blocks@[k]).spec_state() == (
                                if (k / (CHUNK_BLOCKS as int) < c || (k / (CHUNK_BLOCKS as int) == c && k % (CHUNK_BLOCKS as int) < j))
                                    && old(self).chunk_map@[k / (CHUNK_BLOCKS as int)]
                                    && old(self).blocks@[k].spec_state() != BlockState::Unallocated {
                                    BlockState::Unmarked
                                } else {
                                    old(self).blocks@[k].spec_state()
                                })
                            &&& self.blocks@[k].spec_addr() == old(self).blocks@[k].spec_addr()
                        },
                        forall|ci: int| 0 <= ci < n ==> {
                            &&& (#[trigger] self.chunks@[ci]).spec_addr() == old(self).chunks@[ci].spec_addr()
                            &&& if ci < c && old(self).chunk_map@[ci] && major_gc {
                                forall|i: int| 0 <= i < LINES_PER_CHUNK ==> !#[trigger] self.chunks@[ci].spec_table()@[i]
                            } else {
                                self.chunks@[ci].spec_table() == old(self).chunks@[ci].spec_table()
                            }
                        },
                    decreases CHUNK_BLOCKS - j,
                {
                    let k = c * CHUNK_BLOCKS + j;
                    proof {
                        lemma_fundamental_div_mod_converse(k as int, CHUNK_BLOCKS as int, c as int, j as int);
                        assert(k < n * 128) by (nonlinear_arith)
                            requires c < n, j < 128, k == c * 128 + j;
                    }
                    let ghost prev = self.blocks@;
                    if self.blocks[k].state() != BlockState::Unallocated {
                        self.blocks[k].set_state(BlockState::Unmarked);
                    }
                    proof {
                        assert forall|k2: int| 0 <= k2 < old(self).blocks@.len() implies {
                            &&& (#[trigger] self.blocks@[k2]).spec_state() == (
                                if (k2 / (CHUNK_BLOCKS as int) < c || (k2 / (CHUNK_BLOCKS as int) == c && k2 % (CHUNK_BLOCKS as int) < j + 1))
                                    && old(self).chunk_map@[k2 / (CHUNK_BLOCKS as int)]
                                    && old(self).blocks@[k2].spec_state() != BlockState::Unallocated {
                                    BlockState::Unmarked
                                } else {
                                    old(self).blocks@[k2].spec_state()
                                })
                            &&& self.blocks@[k2].spec_addr() == old(self).blocks@[k2].spec_addr()
                        } by {
                            lemma_fundamental_div_mod(k2, CHUNK_BLOCKS as int);
                            if k2 != k {
                                assert(self.blocks@[k2] == prev[k2]);
                                assert(k2 / 128 != c || k2 % 128 != j);
                            }
                        }
                        assert forall|k2: int| 0 <= k2 < n * CHUNK_BLOCKS implies (#[trigger] self.blocks@[k2]).wf()
                            && self.blocks@[k2].spec_addr() == block_addr(self.start as int, k2) by {
                            if k2 != k {
                                assert(self.blocks@[k2] == prev[k2]);
                            }
                        }
                    }
                    j += 1;
                }
                if major_gc {
                    let ghost prevc = self.chunks@;
                    self.chunks[c].line_mark_table_mut().clear_all();
                    proof {
                        assert forall|ci: int| 0 <= ci < n && ci != c implies #[trigger] self.chunks@[ci] == prevc[ci] by {}
                        assert forall|ci: int| 0 <= ci < n implies (#[trigger] self.chunks@[ci]).wf()
                            && self.chunks@[ci].spec_addr() == self.start + ci * CHUNK_SIZE by {
                            if ci != c {
                                assert(self.chunks@[ci] == prevc[ci]);
                            }
                        }
                    }
                }
            }
            c += 1;
        }
    }

    /// The next hole at or after `line` in the line's block, by the line
    /// marks of the line's chunk: its first and one-past-last address, or
    /// `(0, 0)` when every line from `line` to the block's end is marked.
    pub open spec fn recyclable_hole(&self, line: int) -> (int, int) {
        let t = self.spec_chunks()[(line - self.spec_start()) / (CHUNK_SIZE as int)].spec_table();
        let marks = t@;
        let base = crate::immix::block_base_line(&t, line);
        let s = crate::immix::line_in_block(line);
        let c1 = crate::immix::scan_lines(marks, base, s, false);
        let c2 = crate::immix::scan_lines(marks, base, c1, true);
        if c1 == IMMIX_LINES_PER_BLOCK {
            (0, 0)
        } else {
            (line + (c1 - s) * IMMIX_LINE_SIZE, line + (c2 - s) * IMMIX_LINE_SIZE)
        }
    }

    /// The next hole at or after `line` in the line's block, as
    /// [ImmixBlock::find_hole] finds it in the line's chunk.
    pub fn acquire_recyclable_lines(&self, line: usize) -> (r: (usize, usize))
        requires
            self.wf(),
            self.spec_start() <= line < self.spec_start() + self.spec_n_chunks() * CHUNK_SIZE,
        ensures
            ({
                let t = self.spec_chunks()[(line - self.spec_start()) / (CHUNK_SIZE as int)].spec_table();
                let marks = t@;
                let base = crate::immix::block_base_line(&t, line as int);
                let s = crate::immix::line_in_block(line as int);
                let c1 = crate::immix::scan_lines(marks, base, s, false);
                let c2 = crate::immix::scan_lines(marks, base, c1, true);
                if c1 == IMMIX_LINES_PER_BLOCK {
                    r == (0usize, 0usize)
                } else {
                    &&& r.0 == line + (c1 - s) * IMMIX_LINE_SIZE
                    &&& r.1 == line + (c2 - s) * IMMIX_LINE_SIZE
                }
            }),
            r.0 as int == self.recyclable_hole(line as int).0,
            r.1 as int == self.recyclable_hole(line as int).1,
    {
        let ghost start = self.start as int;
        let ghost n = self.n_chunks as int;
        let ci = (line - self.start) / CHUNK_SIZE;
        proof {
            lemma_fundamental_div_mod((line - start) as int, CHUNK_SIZE as int);
            assert(ci < n) by (nonlinear_arith)
                requires line - start < n * CHUNK_SIZE, ci == (line - start) / (CHUNK_SIZE as int), line - start >= 0;
            assert(start + ci * CHUNK_SIZE <= line < start + ci * CHUNK_SIZE + CHUNK_SIZE) by (nonlinear_arith)
                requires line - start == CHUNK_SIZE * ci + (line - start) % (CHUNK_SIZE as int),
                    0 <= (line - start) % (CHUNK_SIZE as int) < CHUNK_SIZE;
        }
        ImmixBlock::find_hole(self.chunks[ci].line_mark_table(), line)
    }
}

impl ImmixSpace {
    /// Sets the heap size the space may grow to before a collection is due.
    pub fn set_target_footprint(&mut self, target: usize)
        requires
            old(self).wf(),
        ensures
            final(self).wf(),
            final(self).alloc_ready() == old(self).alloc_ready(),
            final(self).spec_target_footprint() == target,
            final(self).same_layout(old(self)),
            final(self).spec_blocks() == old(self).spec_blocks(),
            final(self).spec_free() == old(self).spec_free(),
            final(self).spec_reusable() == old(self).spec_reusable(),
            final(self).spec_chunk_map() == old(self).spec_chunk_map(),
            final(self).spec_chunks() == old(self).spec_chunks(),
            final(self).spec_bytes_allocated() == old(self).spec_bytes_allocated(),
            final(self).spec_growth_limit() == old(self).spec_growth_limit(),
            final(self).spec_initial_size() == old(self).spec_initial_size(),
            final(self).spec_min_heap_size() == old(self).spec_min_heap_size(),
            final(self).spec_max_heap_size() == old(self).spec_max_heap_size(),
    {
        self.target_footprint = target;
    }

    /// Counts `bytes` more as allocated, wrapping around as an atomic counter does.
    pub fn add_bytes_allocated(&mut self, bytes: usize)
        requires
            old(self).wf(),
        ensures
            final(self).wf(),
            final(self).alloc_ready() == old(self).alloc_ready(),
            final(self).spec_bytes_allocated() == wrapping_add(old(self).spec_bytes_allocated(), bytes as int),
            final(self).same_layout(old(self)),
            final(self).same_sizes(old(self)),
            final(self).spec_blocks() == old(self).spec_blocks(),
            final(self).spec_free() == old(self).spec_free(),
            final(self).spec_reusable() == old(self).spec_reusable(),
            final(self).spec_chunk_map() == old(self).spec_chunk_map(),
            final(self).spec_chunks() == old(self).spec_chunks(),
            final(self).spec_target_footprint() == old(self).spec_target_footprint(),
            final(self).spec_growth_limit() == old(self).spec_growth_limit(),
    {
        self.num_bytes_allocated = self.num_bytes_allocated.wrapping_add(bytes);
    }

    /// Forgets the bytes counted as allocated, as a collection does before it
    /// sweeps.
    pub fn reset_bytes_allocated(&mut self)
        requires
            old(self).wf(),
        ensures
            final(self).wf(),
            final(self).alloc_ready() == old(self).alloc_ready(),
            final(self).spec_bytes_allocated() == 0,
            final(self).same_layout(old(self)),
            final(self).same_sizes(old(self)),
            final(self).spec_blocks() == old(self).spec_blocks(),
            final(self).spec_free() == old(self).spec_free(),
            final(self).spec_reusable() == old(self).spec_reusable(),
            final(self).spec_chunk_map() == old(self).spec_chunk_map(),
            final(self).spec_chunks() == old(self).spec_chunks(),
            final(self).spec_target_footprint() == old(self).spec_target_footprint(),
            final(self).spec_growth_limit() == old(self).spec_growth_limit(),
    {
        self.num_bytes_allocated = 0;
    }
}


/// The space starts on a chunk boundary and ends inside the address space.
pub proof fn lemma_space_start_aligned(s: &ImmixSpace)
    requires
        s.wf(),
    ensures
        s.spec_start() % CHUNK_SIZE == 0,
        s.spec_start() + s.spec_n_chunks() * CHUNK_SIZE <= usize::MAX,
{
}

} // verus!
