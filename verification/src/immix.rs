//! Immix heap layout: chunks made of blocks made of lines, the line mark
//! table of a chunk, and the block headers that record each block's state.
//!
//! Addresses are plain `usize` values; the address `0` stands for "no block".
use vstd::prelude::*;
use vstd::arithmetic::power2::lemma2_to64;
use vstd::arithmetic::div_mod::{lemma_fundamental_div_mod, lemma_fundamental_div_mod_converse, lemma_div_multiples_vanish_fancy};
use crate::align::{is_power_of_two, spec_align_down, align_down, lemma_power_of_two};

verus! {

/// Size of an Immix block in bytes.
pub const IMMIX_BLOCK_SIZE: usize = 32768;
/// Size of an Immix line in bytes.
pub const IMMIX_LINE_SIZE: usize = 256;
/// Number of lines in one block.
pub const IMMIX_LINES_PER_BLOCK: usize = 128;
/// Size of a chunk in bytes.
pub const CHUNK_SIZE: usize = 4194304;
/// Number of blocks in one chunk; block 0 of a chunk holds the chunk header.
pub const CHUNK_BLOCKS: usize = 128;
/// Number of lines in one chunk.
pub const LINES_PER_CHUNK: usize = 16384;

/// The line, block and chunk sizes are powers of two.
pub proof fn lemma_immix_sizes_are_powers_of_two()
    ensures
        is_power_of_two(IMMIX_LINE_SIZE),
        is_power_of_two(IMMIX_BLOCK_SIZE),
        is_power_of_two(CHUNK_SIZE),
{
    lemma2_to64();
    lemma_power_of_two(IMMIX_LINE_SIZE, 8);
    lemma_power_of_two(IMMIX_BLOCK_SIZE, 15);
    lemma_power_of_two(CHUNK_SIZE, 22);
}

/// Rounds an address down to the start of its line.
pub fn line_align(ptr: usize) -> (r: usize)
    ensures
        r == spec_align_down(ptr as int, IMMIX_LINE_SIZE as int),
        r == ptr - ptr % IMMIX_LINE_SIZE,
{
    proof {
        lemma_immix_sizes_are_powers_of_two();
        lemma_fundamental_div_mod(ptr as int, IMMIX_LINE_SIZE as int);
    }
    align_down(ptr, IMMIX_LINE_SIZE)
}

/// Whether an address is the start of a line.
pub fn is_line_aligned(ptr: usize) -> (r: bool)
    ensures
        r == (ptr % IMMIX_LINE_SIZE == 0),
{
    line_align(ptr) == ptr
}

/// The allocation state of a block.
#[derive(Debug, Clone, Copy, PartialEq, Eq, Structural)]
pub enum BlockState {
    Unallocated,
    Unmarked,
    Marked,
    Reusable { unavailable_lines: u8 },
}

/// The header of one Immix block, kept at the block's first bytes.
pub struct ImmixBlock {
    addr: usize,
    next: usize,
    state: BlockState,
    hole_count: u32,
    fragmented: bool,
}

impl ImmixBlock {
    /// Address of the block's first byte.
    pub closed spec fn spec_addr(&self) -> usize {
        self.addr
    }

    /// Address of the next block in a block list, or `0`.
    pub closed spec fn spec_next(&self) -> usize {
        self.next
    }

    /// The block's allocation state.
    pub closed spec fn spec_state(&self) -> BlockState {
        self.state
    }

    /// Number of holes recorded for the block.
    pub closed spec fn spec_holes(&self) -> u32 {
        self.hole_count
    }

    /// Whether the block is recorded as fragmented.
    pub closed spec fn spec_fragmented(&self) -> bool {
        self.fragmented
    }

    /// The block starts on a block boundary and ends inside the address space.
    pub open spec fn wf(&self) -> bool {
        &&& self.spec_addr() % IMMIX_BLOCK_SIZE == 0
        &&& self.spec_addr() + IMMIX_BLOCK_SIZE <= usize::MAX
    }

    /// The header of a fresh, unallocated block at `addr`.
    pub fn new(addr: usize) -> (b: Self)
        requires
            addr % IMMIX_BLOCK_SIZE == 0,
            addr + IMMIX_BLOCK_SIZE <= usize::MAX,
        ensures
            b.wf(),
            b.spec_addr() == addr,
            b.spec_next() == 0,
            b.spec_state() == BlockState::Unallocated,
            b.spec_holes() == 0,
            !b.spec_fragmented(),
    {
        ImmixBlock { addr, next: 0, state: BlockState::Unallocated, hole_count: 0, fragmented: false }
    }

    /// The block's allocation state.
    pub fn state(&self) -> (r: BlockState)
        ensures
            r == self.spec_state(),
    {
        self.state
    }

    /// Replaces the block's allocation state.
    pub fn set_state(&mut self, state: BlockState)
        ensures
            final(self).spec_state() == state,
            final(self).spec_addr() == old(self).spec_addr(),
            final(self).spec_next() == old(self).spec_next(),
            final(self).spec_holes() == old(self).spec_holes(),
            final(self).spec_fragmented() == old(self).spec_fragmented(),
    {
        self.state = state;
    }

    /// Start of the chunk that holds this block.
    pub fn chunk(&self) -> (r: usize)
        ensures
            r == spec_align_down(self.spec_addr() as int, CHUNK_SIZE as int),
    {
        proof {
            lemma_immix_sizes_are_powers_of_two();
        }
        align_down(self.addr, CHUNK_SIZE)
    }

    /// Marks the block as no longer allocated.
    pub fn deinit(&mut self)
        ensures
            final(self).spec_state() == BlockState::Unallocated,
            final(self).spec_addr() == old(self).spec_addr(),
            final(self).spec_next() == old(self).spec_next(),
            final(self).spec_holes() == old(self).spec_holes(),
            final(self).spec_fragmented() == old(self).spec_fragmented(),
    {
        self.state = BlockState::Unallocated;
    }

    /// Prepares the block for allocation: marked when it receives copied
    /// objects, unmarked otherwise, with no holes and no successor.
    pub fn init(&mut self, copy: bool)
        ensures
            final(self).spec_state() == (if copy { BlockState::Marked } else { BlockState::Unmarked }),
            final(self).spec_addr() == old(self).spec_addr(),
            final(self).spec_next() == 0,
            final(self).spec_holes() == 0,
            !final(self).spec_fragmented(),
    {
        self.state = if copy {
            BlockState::Marked
        } else {
            BlockState::Unmarked
        };
        self.hole_count = 0;
        self.fragmented = false;
        self.next = 0;
    }

    /// Address of the next block in a block list, or `0`.
    pub fn next(&self) -> (r: usize)
        ensures
            r == self.spec_next(),
    {
        self.next
    }

    /// Links the block to `block` in a block list.
    pub fn set_next(&mut self, block: usize)
        ensures
            final(self).spec_next() == block,
            final(self).spec_addr() == old(self).spec_addr(),
            final(self).spec_state() == old(self).spec_state(),
            final(self).spec_holes() == old(self).spec_holes(),
            final(self).spec_fragmented() == old(self).spec_fragmented(),
    {
        self.next = block;
    }

    /// Address of the block's first byte.
    pub fn start(&self) -> (r: usize)
        ensures
            r == self.spec_addr(),
    {
        self.addr
    }

    /// Address one past the block's last byte.
    pub fn end(&self) -> (r: usize)
        requires
            self.wf(),
        ensures
            r == self.spec_addr() + IMMIX_BLOCK_SIZE,
    {
        self.addr + IMMIX_BLOCK_SIZE
    }

    /// Address of line `index` of the block.
    pub fn line(&self, index: u8) -> (r: usize)
        requires
            self.wf(),
            index < IMMIX_LINES_PER_BLOCK,
        ensures
            r == self.spec_addr() + index * IMMIX_LINE_SIZE,
    {
        self.addr + (index as usize) * IMMIX_LINE_SIZE
    }

    /// Forgets fragmentation and records a single hole.
    pub fn reset(&mut self)
        ensures
            !final(self).spec_fragmented(),
            final(self).spec_holes() == 1,
            final(self).spec_addr() == old(self).spec_addr(),
            final(self).spec_next() == old(self).spec_next(),
            final(self).spec_state() == old(self).spec_state(),
    {
        self.fragmented = false;
        self.hole_count = 1;
    }

    /// Whether the block is recorded as fragmented.
    pub fn is_fragmented(&self) -> (r: bool)
        ensures
            r == self.spec_fragmented(),
    {
        self.fragmented
    }

    /// Number of holes recorded for the block.
    pub fn holes(&self) -> (r: usize)
        ensures
            r == self.spec_holes(),
    {
        self.hole_count as usize
    }

    /// First address that may hold objects: line 0 holds the header.
    pub fn start_address(&self) -> (r: usize)
        requires
            self.wf(),
        ensures
            r == self.spec_addr() + IMMIX_LINE_SIZE,
    {
        self.line(1)
    }

    /// Address one past the block's last byte.
    pub fn end_address(&self) -> (r: usize)
        requires
            self.wf(),
        ensures
            r == self.spec_addr() + IMMIX_BLOCK_SIZE,
    {
        self.end()
    }

    /// Start of the block that holds `addr`.
    pub fn align(addr: usize) -> (r: usize)
        ensures
            r == spec_align_down(addr as int, IMMIX_BLOCK_SIZE as int),
            r == addr - addr % IMMIX_BLOCK_SIZE,
    {
        proof {
            lemma_immix_sizes_are_powers_of_two();
            lemma_fundamental_div_mod(addr as int, IMMIX_BLOCK_SIZE as int);
        }
        align_down(addr, IMMIX_BLOCK_SIZE)
    }

    /// Start of the block that holds the object at `object`.
    pub fn from_object(object: usize) -> (r: usize)
        ensures
            r == object - object % IMMIX_BLOCK_SIZE,
    {
        let offset = object % IMMIX_BLOCK_SIZE;
        object - offset
    }
}


/// Lines `from .. IMMIX_LINES_PER_BLOCK` of the block whose first line is
/// `base` in `marks`: the first one whose mark equals `want`, or
/// `IMMIX_LINES_PER_BLOCK` when there is none.
pub open spec fn scan_lines(marks: Seq<bool>, base: int, from: int, want: bool) -> int
    decreases IMMIX_LINES_PER_BLOCK - from,
{
    if from >= IMMIX_LINES_PER_BLOCK {
        IMMIX_LINES_PER_BLOCK as int
    } else if marks[base + from] == want {
        from
    } else {
        scan_lines(marks, base, from + 1, want)
    }
}

/// Number of marked lines among lines `from .. to` of the block whose first
/// line is `base` in `marks`.
pub open spec fn count_marked(marks: Seq<bool>, base: int, from: int, to: int) -> nat
    decreases to - from,
{
    if from >= to {
        0
    } else {
        count_marked(marks, base, from, to - 1) + (if marks[base + to - 1] { 1nat } else { 0nat })
    }
}

proof fn lemma_line_offset(x: int, c: int)
    requires
        x >= 0,
        x % (IMMIX_LINE_SIZE as int) == 0,
        c >= 0,
    ensures
        (x + c * IMMIX_LINE_SIZE) / (IMMIX_LINE_SIZE as int) == x / (IMMIX_LINE_SIZE as int) + c,
{
    lemma_fundamental_div_mod(x, IMMIX_LINE_SIZE as int);
    let q = x / (IMMIX_LINE_SIZE as int);
    assert(x + c * IMMIX_LINE_SIZE == (q + c) * IMMIX_LINE_SIZE) by (nonlinear_arith)
        requires x == q * IMMIX_LINE_SIZE + 0;
    lemma_div_multiples_vanish_fancy(q + c, 0, IMMIX_LINE_SIZE as int);
}

proof fn lemma_count_marked_bound(marks: Seq<bool>, base: int, from: int, to: int)
    requires
        from <= to,
    ensures
        count_marked(marks, base, from, to) <= to - from,
    decreases to - from,
{
    if from < to {
        lemma_count_marked_bound(marks, base, from, to - 1);
    }
}

/// One mark per line of a chunk, telling which lines hold live objects.
pub struct LineMarkTable {
    begin: usize,
    marks: Vec<bool>,
}

impl View for LineMarkTable {
    type V = Seq<bool>;

    closed spec fn view(&self) -> Seq<bool> {
        self.marks@
    }
}

impl LineMarkTable {
    /// First address covered by the table.
    pub closed spec fn spec_begin(&self) -> usize {
        self.begin
    }

    /// The table covers one whole chunk with one mark per line.
    pub open spec fn wf(&self) -> bool {
        &&& self.spec_begin() % CHUNK_SIZE == 0
        &&& self.spec_begin() + CHUNK_SIZE <= usize::MAX
        &&& self@.len() == LINES_PER_CHUNK
    }

    /// `addr` lies in the covered chunk.
    pub open spec fn covers(&self, addr: int) -> bool {
        self.spec_begin() <= addr < self.spec_begin() + CHUNK_SIZE
    }

    /// Index of the line holding `addr`.
    pub open spec fn line_index(&self, addr: int) -> int {
        (addr - self.spec_begin()) / (IMMIX_LINE_SIZE as int)
    }

    /// Whether the line holding `addr` is marked.
    pub open spec fn is_marked(&self, addr: int) -> bool {
        self@[self.line_index(addr)]
    }

    /// A table with no marks for the chunk that starts at `at`.
    pub fn create(at: usize) -> (t: Self)
        requires
            at % CHUNK_SIZE == 0,
            at + CHUNK_SIZE <= usize::MAX,
        ensures
            t.wf(),
            t.spec_begin() == at,
            forall|i: int| 0 <= i < LINES_PER_CHUNK ==> !#[trigger] t@[i],
    {
        let mut marks: Vec<bool> = Vec::new();
        let mut i: usize = 0;
        while i < LINES_PER_CHUNK
            invariant
                i <= LINES_PER_CHUNK,
                marks@.len() == i,
                forall|j: int| 0 <= j < i ==> !#[trigger] marks@[j],
            decreases LINES_PER_CHUNK - i,
        {
            marks.push(false);
            i = i + 1;
        }
        LineMarkTable { begin: at, marks }
    }

    /// Whether the line holding `addr` is marked.
    pub fn test(&self, addr: usize) -> (r: bool)
        requires
            self.wf(),
            self.covers(addr as int),
        ensures
            r == self.is_marked(addr as int),
    {
        self.marks[(addr - self.begin) / IMMIX_LINE_SIZE]
    }

    /// Marks the line holding `addr`.
    pub fn set(&mut self, addr: usize)
        requires
            old(self).wf(),
            old(self).covers(addr as int),
        ensures
            final(self).wf(),
            final(self).spec_begin() == old(self).spec_begin(),
            final(self)@ == old(self)@.update(old(self).line_index(addr as int), true),
    {
        let i = (addr - self.begin) / IMMIX_LINE_SIZE;
        self.marks.set(i, true);
    }

    /// Unmarks the line holding `addr`.
    pub fn clear(&mut self, addr: usize)
        requires
            old(self).wf(),
            old(self).covers(addr as int),
        ensures
            final(self).wf(),
            final(self).spec_begin() == old(self).spec_begin(),
            final(self)@ == old(self)@.update(old(self).line_index(addr as int), false),
    {
        let i = (addr - self.begin) / IMMIX_LINE_SIZE;
        self.marks.set(i, false);
    }

    /// Unmarks every line.
    pub fn clear_all(&mut self)
        requires
            old(self).wf(),
        ensures
            final(self).wf(),
            final(self).spec_begin() == old(self).spec_begin(),
            forall|i: int| 0 <= i < LINES_PER_CHUNK ==> !#[trigger] final(self)@[i],
    {
        let mut i: usize = 0;
        while i < LINES_PER_CHUNK
            invariant
                i <= LINES_PER_CHUNK,
                self.marks@.len() == LINES_PER_CHUNK,
                self.begin == old(self).begin,
                self.begin % CHUNK_SIZE == 0,
                self.begin + CHUNK_SIZE <= usize::MAX,
                forall|j: int| 0 <= j < i ==> !#[trigger] self.marks@[j],
            decreases LINES_PER_CHUNK - i,
        {
            self.marks.set(i, false);
            i = i + 1;
        }
    }
}

/// The line table index of the first line of the block that holds `addr`.
pub open spec fn block_base_line(t: &LineMarkTable, addr: int) -> int {
    t.line_index(spec_align_down(addr, IMMIX_BLOCK_SIZE as int))
}

/// The line of `addr` counted from the start of its block.
pub open spec fn line_in_block(addr: int) -> int {
    (addr - spec_align_down(addr, IMMIX_BLOCK_SIZE as int)) / (IMMIX_LINE_SIZE as int)
}

proof fn lemma_block_lines(t: &LineMarkTable, addr: usize, c: int)
    requires
        t.wf(),
        t.covers(addr as int),
        0 <= c < IMMIX_LINES_PER_BLOCK,
    ensures
        ({
            let b = spec_align_down(addr as int, IMMIX_BLOCK_SIZE as int);
            &&& b <= addr < b + IMMIX_BLOCK_SIZE
            &&& t.covers(b + c * IMMIX_LINE_SIZE)
            &&& t.line_index(b + c * IMMIX_LINE_SIZE) == block_base_line(t, addr as int) + c
            &&& 0 <= block_base_line(t, addr as int)
            &&& block_base_line(t, addr as int) + IMMIX_LINES_PER_BLOCK <= LINES_PER_CHUNK
            &&& 0 <= line_in_block(addr as int) < IMMIX_LINES_PER_BLOCK
        }),
{
    let a = addr as int;
    let beg = t.spec_begin() as int;
    let b = spec_align_down(a, IMMIX_BLOCK_SIZE as int);
    lemma_fundamental_div_mod(a, IMMIX_BLOCK_SIZE as int);
    lemma_fundamental_div_mod(beg, CHUNK_SIZE as int);
    let qb = a / (IMMIX_BLOCK_SIZE as int);
    let qc = beg / (CHUNK_SIZE as int);
    assert(beg == (qc * 128) * IMMIX_BLOCK_SIZE) by (nonlinear_arith)
        requires beg == qc * CHUNK_SIZE + 0;
    assert(b == qb * IMMIX_BLOCK_SIZE);
    // the block starts inside the chunk
    assert(qc * 128 <= qb < qc * 128 + 128) by (nonlinear_arith)
        requires
            qc * 128 * IMMIX_BLOCK_SIZE <= a < qc * 128 * IMMIX_BLOCK_SIZE + CHUNK_SIZE,
            a == qb * IMMIX_BLOCK_SIZE + a % (IMMIX_BLOCK_SIZE as int),
            0 <= a % (IMMIX_BLOCK_SIZE as int) < IMMIX_BLOCK_SIZE;
    let k = qb - qc * 128;
    assert(b - beg == (k * 128) * IMMIX_LINE_SIZE) by (nonlinear_arith)
        requires b == qb * IMMIX_BLOCK_SIZE, beg == qc * 128 * IMMIX_BLOCK_SIZE, k == qb - qc * 128;
    assert((b - beg) % (IMMIX_LINE_SIZE as int) == 0) by {
        lemma_div_multiples_vanish_fancy(k * 128, 0, IMMIX_LINE_SIZE as int);
        lemma_fundamental_div_mod(b - beg, IMMIX_LINE_SIZE as int);
    }
    lemma_line_offset(b - beg, c);
    lemma_line_offset(b - beg, 0);
    assert((b - beg) / (IMMIX_LINE_SIZE as int) == k * 128) by {
        lemma_div_multiples_vanish_fancy(k * 128, 0, IMMIX_LINE_SIZE as int);
    }
    assert(0 <= k < 128);
    assert(a - b < IMMIX_BLOCK_SIZE);
    assert(0 <= (a - b) / (IMMIX_LINE_SIZE as int) < 128) by (nonlinear_arith)
        requires 0 <= a - b < IMMIX_BLOCK_SIZE;
}

impl ImmixBlock {
    /// Looks for the next hole, a run of unmarked lines, in the block that
    /// holds `search_start`, from the line of `search_start` on. Returns the
    /// hole's start and end, or `(0, 0)` when the rest of the block is marked.
    pub fn find_hole(line_mark_table: &LineMarkTable, search_start: usize) -> (r: (usize, usize))
        requires
            line_mark_table.wf(),
            line_mark_table.covers(search_start as int),
        ensures
            ({
                let marks = line_mark_table@;
                let base = block_base_line(line_mark_table, search_start as int);
                let s = line_in_block(search_start as int);
                let c1 = scan_lines(marks, base, s, false);
                let c2 = scan_lines(marks, base, c1, true);
                if c1 == IMMIX_LINES_PER_BLOCK {
                    r == (0usize, 0usize)
                } else {
                    &&& r.0 == search_start + (c1 - s) * IMMIX_LINE_SIZE
                    &&& r.1 == search_start + (c2 - s) * IMMIX_LINE_SIZE
                }
            }),
    {
        let block = ImmixBlock::align(search_start);
        let start_cursor = (search_start - block) / IMMIX_LINE_SIZE;
        let ghost marks = line_mark_table@;
        let ghost base = block_base_line(line_mark_table, search_start as int);
        proof {
            lemma_block_lines(line_mark_table, search_start, 0);
        }
        let mut cursor = start_cursor;
        while cursor < IMMIX_LINES_PER_BLOCK
            invariant
                line_mark_table.wf(),
                line_mark_table.covers(search_start as int),
                marks == line_mark_table@,
                base == block_base_line(line_mark_table, search_start as int),
                block == spec_align_down(search_start as int, IMMIX_BLOCK_SIZE as int),
                start_cursor == line_in_block(search_start as int),
                start_cursor <= cursor <= IMMIX_LINES_PER_BLOCK,
                scan_lines(marks, base, start_cursor as int, false) == scan_lines(marks, base, cursor as int, false),
            ensures
                start_cursor <= cursor <= IMMIX_LINES_PER_BLOCK,
                scan_lines(marks, base, start_cursor as int, false) == cursor,
            decreases IMMIX_LINES_PER_BLOCK - cursor,
        {
            proof {
                lemma_block_lines(line_mark_table, search_start, cursor as int);
            }
            let mark = line_mark_table.test(block + cursor * IMMIX_LINE_SIZE);
            if !mark {
                break;
            }
            cursor += 1;
        }
        if cursor == IMMIX_LINES_PER_BLOCK {
            return (0, 0);
        }
        proof {
            lemma_block_lines(line_mark_table, search_start, cursor as int);
        }
        let ghost c1 = cursor as int;
        let start = search_start + (cursor - start_cursor) * IMMIX_LINE_SIZE;
        while cursor < IMMIX_LINES_PER_BLOCK
            invariant
                line_mark_table.wf(),
                line_mark_table.covers(search_start as int),
                marks == line_mark_table@,
                base == block_base_line(line_mark_table, search_start as int),
                block == spec_align_down(search_start as int, IMMIX_BLOCK_SIZE as int),
                start_cursor == line_in_block(search_start as int),
                c1 <= cursor <= IMMIX_LINES_PER_BLOCK,
                start_cursor <= c1,
                scan_lines(marks, base, c1, true) == scan_lines(marks, base, cursor as int, true),
            ensures
                c1 <= cursor <= IMMIX_LINES_PER_BLOCK,
                scan_lines(marks, base, c1, true) == cursor,
            decreases IMMIX_LINES_PER_BLOCK - cursor,
        {
            proof {
                lemma_block_lines(line_mark_table, search_start, cursor as int);
            }
            if line_mark_table.test(block + cursor * IMMIX_LINE_SIZE) {
                break;
            }
            cursor += 1;
        }
        let end = search_start + (cursor - start_cursor) * IMMIX_LINE_SIZE;
        (start, end)
    }

    /// Number of marked lines among the object lines `1 ..` of the block that
    /// starts at `block`.
    pub fn count_marked_lines(line_mark_table: &LineMarkTable, block: usize) -> (r: usize)
        requires
            line_mark_table.wf(),
            line_mark_table.covers(block as int),
            block % IMMIX_BLOCK_SIZE == 0,
        ensures
            r == count_marked(line_mark_table@, block_base_line(line_mark_table, block as int), 1, IMMIX_LINES_PER_BLOCK as int),
            r < IMMIX_LINES_PER_BLOCK,
    {
        let ghost marks = line_mark_table@;
        let ghost base = block_base_line(line_mark_table, block as int);
        proof {
            lemma_block_lines(line_mark_table, block, 0);
            lemma_fundamental_div_mod(block as int, IMMIX_BLOCK_SIZE as int);
        }
        let mut marked: usize = 0;
        let mut i: usize = 1;
        while i < IMMIX_LINES_PER_BLOCK
            invariant
                line_mark_table.wf(),
                line_mark_table.covers(block as int),
                block % IMMIX_BLOCK_SIZE == 0,
                block == spec_align_down(block as int, IMMIX_BLOCK_SIZE as int),
                marks == line_mark_table@,
                base == block_base_line(line_mark_table, block as int),
                1 <= i <= IMMIX_LINES_PER_BLOCK,
                marked == count_marked(marks, base, 1, i as int),
                marked < i,
            decreases IMMIX_LINES_PER_BLOCK - i,
        {
            proof {
                lemma_block_lines(line_mark_table, block, i as int);
                lemma_count_marked_bound(marks, base, 1, i as int);
            }
            if line_mark_table.test(block + i * IMMIX_LINE_SIZE) {
                marked += 1;
            }
            i += 1;
        }
        marked
    }
}

/// A chunk: a run of blocks whose first block holds the chunk header and
/// the chunk's line mark table.
pub struct Chunk {
    addr: usize,
    line_mark_bitmap: LineMarkTable,
}

impl Chunk {
    /// Address of the chunk's first byte.
    pub closed spec fn spec_addr(&self) -> usize {
        self.addr
    }

    /// The chunk's line mark table.
    pub closed spec fn spec_table(&self) -> LineMarkTable {
        self.line_mark_bitmap
    }

    /// The chunk is chunk aligned and its table covers it.
    pub open spec fn wf(&self) -> bool {
        &&& self.spec_addr() % CHUNK_SIZE == 0
        &&& self.spec_addr() + CHUNK_SIZE <= usize::MAX
        &&& self.spec_table().wf()
        &&& self.spec_table().spec_begin() == self.spec_addr()
    }

    /// A chunk at `at` with no marked lines.
    pub fn new(at: usize) -> (c: Self)
        requires
            at % CHUNK_SIZE == 0,
            at + CHUNK_SIZE <= usize::MAX,
        ensures
            c.wf(),
            c.spec_addr() == at,
            forall|i: int| 0 <= i < LINES_PER_CHUNK ==> !#[trigger] c.spec_table()@[i],
    {
        Chunk { addr: at, line_mark_bitmap: LineMarkTable::create(at) }
    }

    /// Address of the chunk's first byte.
    pub fn start(&self) -> (r: usize)
        ensures
            r == self.spec_addr(),
    {
        self.addr
    }

    /// Address one past the chunk's last byte.
    pub fn end(&self) -> (r: usize)
        requires
            self.wf(),
        ensures
            r == self.spec_addr() + CHUNK_SIZE,
    {
        self.addr + CHUNK_SIZE
    }

    /// Address of block 0 of the chunk.
    pub fn blocks_start(&self) -> (r: usize)
        ensures
            r == self.spec_addr(),
    {
        self.addr
    }

    /// Address of block `index` of the chunk.
    pub fn block(&self, index: usize) -> (r: usize)
        requires
            self.wf(),
            index < CHUNK_BLOCKS,
        ensures
            r == self.spec_addr() + index * IMMIX_BLOCK_SIZE,
    {
        self.blocks_start() + index * IMMIX_BLOCK_SIZE
    }

    /// The chunk's line mark table.
    pub fn line_mark_table(&self) -> (r: &LineMarkTable)
        ensures
            *r == self.spec_table(),
    {
        &self.line_mark_bitmap
    }

    /// The chunk's line mark table, for marking.
    pub fn line_mark_table_mut(&mut self) -> (r: &mut LineMarkTable)
        ensures
            *r == old(self).spec_table(),
            final(self).spec_table() == *final(r),
            final(self).spec_addr() == old(self).spec_addr(),
    {
        &mut self.line_mark_bitmap
    }

    /// Start of the chunk that holds `addr`.
    pub fn align(addr: usize) -> (r: usize)
        ensures
            r == spec_align_down(addr as int, CHUNK_SIZE as int),
    {
        proof {
            lemma_immix_sizes_are_powers_of_two();
        }
        align_down(addr, CHUNK_SIZE)
    }
}


/// The list that a run of operations leaves, from `start`: `Some(b)` pushes
/// `b`, `None` pops the head when there is one.
pub open spec fn run_block_list(start: Seq<usize>, ops: Seq<Option<usize>>) -> Seq<usize>
    decreases ops.len(),
{
    if ops.len() == 0 {
        start
    } else {
        let l = run_block_list(start, ops.drop_last());
        match ops.last() {
            Some(b) => l.push(b),
            None => if l.len() > 0 { l.drop_last() } else { l },
        }
    }
}

/// Every pop of the run, from `start`, finds a block to take.
pub open spec fn pops_find_blocks(start: Seq<usize>, ops: Seq<Option<usize>>) -> bool
    decreases ops.len(),
{
    ops.len() > 0 ==> {
        &&& pops_find_blocks(start, ops.drop_last())
        &&& (ops.last() is None ==> run_block_list(start, ops.drop_last()).len() > 0)
    }
}

/// Number of pushes in a run.
pub open spec fn count_pushes(ops: Seq<Option<usize>>) -> nat
    decreases ops.len(),
{
    if ops.len() == 0 { 0 } else { count_pushes(ops.drop_last()) + if ops.last() is Some { 1nat } else { 0nat } }
}

/// Number of pops in a run.
pub open spec fn count_pops(ops: Seq<Option<usize>>) -> nat
    decreases ops.len(),
{
    if ops.len() == 0 { 0 } else { count_pops(ops.drop_last()) + if ops.last() is None { 1nat } else { 0nat } }
}

/// A list of block addresses used as a stack: the last block pushed is the
/// head and leaves first.
pub struct BlockList {
    blocks: Vec<usize>,
}

impl View for BlockList {
    type V = Seq<usize>;

    /// The blocks from the first pushed to the head.
    closed spec fn view(&self) -> Seq<usize> {
        self.blocks@
    }
}

impl BlockList {
    /// An empty list.
    pub fn new() -> (l: Self)
        ensures
            l@ == Seq::<usize>::empty(),
    {
        BlockList { blocks: Vec::new() }
    }

    /// Number of blocks in the list.
    pub fn len(&self) -> (r: usize)
        ensures
            r == self@.len(),
    {
        self.blocks.len()
    }

    /// Whether the list holds no block.
    pub fn is_empty(&self) -> (r: bool)
        ensures
            r == (self@.len() == 0),
    {
        self.blocks.len() == 0
    }

    /// Adds `block` as the new head.
    pub fn push(&mut self, block: usize)
        ensures
            final(self)@ == old(self)@.push(block),
    {
        self.blocks.push(block);
    }

    /// Removes and returns the head, or `0` when the list is empty.
    pub fn pop(&mut self) -> (r: usize)
        ensures
            old(self)@.len() == 0 ==> r == 0 && final(self)@ == old(self)@,
            old(self)@.len() > 0 ==> r == old(self)@.last() && final(self)@ == old(self)@.drop_last(),
    {
        match self.blocks.pop() {
            Some(b) => b,
            None => 0,
        }
    }

    /// Clears the list.
    pub fn reset(&mut self)
        ensures
            final(self)@ == Seq::<usize>::empty(),
    {
        self.blocks.clear();
    }

    /// An iterator over the blocks, from the head to the first pushed.
    pub fn iter(&self) -> (it: BlockIterator)
        ensures
            it.wf(),
            it.spec_remaining() == self@.reverse(),
    {
        let mut copy: Vec<usize> = Vec::new();
        let mut i: usize = 0;
        while i < self.blocks.len()
            invariant
                i <= self.blocks@.len(),
                copy@ == self.blocks@.take(i as int),
            decreases self.blocks@.len() - i,
        {
            copy.push(self.blocks[i]);
            i += 1;
            proof {
                assert(copy@ =~= self.blocks@.take(i as int));
            }
        }
        proof {
            assert(copy@ =~= self.blocks@);
            assert(copy@.take(copy@.len() as int) =~= copy@);
        }
        BlockIterator { blocks: copy, remaining: i }
    }
}

/// Walks a block list from its head.
pub struct BlockIterator {
    blocks: Vec<usize>,
    remaining: usize,
}

impl BlockIterator {
    /// The blocks still to come, in the order they come.
    pub closed spec fn spec_remaining(&self) -> Seq<usize> {
        self.blocks@.take(self.remaining as int).reverse()
    }

    /// The walk position lies inside the copied list.
    pub closed spec fn wf(&self) -> bool {
        self.remaining <= self.blocks@.len()
    }

    /// The next block, or `None` when the walk is over.
    pub fn next(&mut self) -> (r: Option<usize>)
        requires
            old(self).wf(),
        ensures
            final(self).wf(),
            old(self).spec_remaining().len() == 0 ==> r.is_none() && final(self).spec_remaining() == old(self).spec_remaining(),
            old(self).spec_remaining().len() > 0 ==> r == Some(old(self).spec_remaining()[0])
                && final(self).spec_remaining() == old(self).spec_remaining().drop_first(),
    {
        if self.remaining == 0 {
            return None;
        }
        let b = self.blocks[self.remaining - 1];
        self.remaining = self.remaining - 1;
        proof {
            assert(self.blocks@.take(self.remaining as int).reverse() =~= old(self).blocks@.take(old(self).remaining as int).reverse().drop_first());
        }
        Some(b)
    }
}


/// A scan for a mark stays within the block and, when the first line looked
/// at does not match, moves past it.
pub proof fn lemma_scan_lines_bounds(marks: Seq<bool>, base: int, from: int, want: bool)
    requires
        0 <= from <= IMMIX_LINES_PER_BLOCK,
    ensures
        from <= scan_lines(marks, base, from, want) <= IMMIX_LINES_PER_BLOCK,
        from < IMMIX_LINES_PER_BLOCK && marks[base + from] != want ==> scan_lines(marks, base, from, want) > from,
        scan_lines(marks, base, from, want) < IMMIX_LINES_PER_BLOCK
            ==> marks[base + scan_lines(marks, base, from, want)] == want,
    decreases IMMIX_LINES_PER_BLOCK - from,
{
    if from < IMMIX_LINES_PER_BLOCK && marks[base + from] != want {
        lemma_scan_lines_bounds(marks, base, from + 1, want);
    }
}

/// A line-aligned address is its block's start plus its line in the block.
pub proof fn lemma_line_in_block(l: int)
    requires
        l >= 0,
        l % (IMMIX_LINE_SIZE as int) == 0,
    ensures
        l == spec_align_down(l, IMMIX_BLOCK_SIZE as int) + line_in_block(l) * IMMIX_LINE_SIZE,
        0 <= line_in_block(l) < IMMIX_LINES_PER_BLOCK,
        line_in_block(l) * IMMIX_LINE_SIZE == l % (IMMIX_BLOCK_SIZE as int),
        spec_align_down(l, IMMIX_BLOCK_SIZE as int) % (IMMIX_BLOCK_SIZE as int) == 0,
{
    lemma_fundamental_div_mod(l, IMMIX_BLOCK_SIZE as int);
    lemma_fundamental_div_mod(l, IMMIX_LINE_SIZE as int);
    let q = l / (IMMIX_BLOCK_SIZE as int);
    let r = l % (IMMIX_BLOCK_SIZE as int);
    let ql = l / (IMMIX_LINE_SIZE as int);
    assert(r == (ql - q * 128) * IMMIX_LINE_SIZE) by (nonlinear_arith)
        requires l == IMMIX_BLOCK_SIZE * q + r, l == IMMIX_LINE_SIZE * ql + 0;
    lemma_fundamental_div_mod_converse(r, IMMIX_LINE_SIZE as int, ql - q * 128, 0);
    lemma_fundamental_div_mod_converse(q * IMMIX_BLOCK_SIZE, IMMIX_BLOCK_SIZE as int, q, 0);
}

/// A list's length is the number of blocks in it: after `n` pushes and `m`
/// pops that each found a block, starting from an empty list, it holds
/// `n - m` blocks.
pub proof fn lemma_block_list_len(ops: Seq<Option<usize>>)
    requires
        pops_find_blocks(Seq::empty(), ops),
    ensures
        run_block_list(Seq::empty(), ops).len() + count_pops(ops) == count_pushes(ops),
    decreases ops.len(),
{
    if ops.len() > 0 {
        lemma_block_list_len(ops.drop_last());
    }
}

/// Popping right after a push gives back the block pushed and leaves the
/// list as it was.
pub proof fn lemma_pop_undoes_push(l0: BlockList, l1: BlockList, l2: BlockList, block: usize, r: usize)
    requires
        l1@ == l0@.push(block),
        l1@.len() == 0 ==> r == 0 && l2@ == l1@,
        l1@.len() > 0 ==> r == l1@.last() && l2@ == l1@.drop_last(),
    ensures
        r == block,
        l2@ == l0@,
{
    assert(l0@.push(block).drop_last() =~= l0@);
}

} // verus!
