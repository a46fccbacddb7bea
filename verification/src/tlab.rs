//! A simple thread-local allocation buffer: objects are bumped into a
//! buffer taken from the heap, and a new buffer is taken when one is full.
use vstd::prelude::*;
use crate::align::{round_up, spec_align_up, lemma_eight_is_power_of_two};

verus! {

/// Size of the buffer a thread takes from the heap.
pub const TLAB_SIZE: usize = 32768;
/// Largest object the buffer serves.
pub const TLAB_MAX_OBJECT: usize = 8192;
/// Size of the header in front of every object.
pub const HEADER_SIZE: usize = 16;

/// The buffer's bounds and cursor; all `0` while the thread holds no buffer.
pub struct SimpleTLAB {
    pub tlab_start: usize,
    pub tlab_cursor: usize,
    pub tlab_end: usize,
}

/// The inline allocation helpers of [SimpleTLAB]: code generators bump the
/// buffer's cursor directly.
pub struct InlineAllocationHelpersForSimpleTLAB;

/// Bytes an object of `allocation_size` payload bytes takes with its header,
/// rounded up to whole words.
pub open spec fn object_footprint(allocation_size: int) -> int {
    spec_align_up(allocation_size + HEADER_SIZE, 8)
}

impl SimpleTLAB {
    /// The cursor lies inside the buffer.
    pub open spec fn wf(&self) -> bool {
        self.tlab_start <= self.tlab_cursor <= self.tlab_end
    }

    /// A thread that holds no buffer yet.
    pub fn create() -> (t: Self)
        ensures
            t.wf(),
            t.tlab_start == 0 && t.tlab_cursor == 0 && t.tlab_end == 0,
    {
        SimpleTLAB { tlab_start: 0, tlab_cursor: 0, tlab_end: 0 }
    }

    /// Whether an object of `size` bytes may go to the buffer.
    pub fn can_thread_local_allocate(&self, size: usize) -> (r: bool)
        ensures
            r == (size <= TLAB_MAX_OBJECT),
    {
        size <= 8 * 1024
    }

    /// Bumps an object of `allocation_size` payload bytes, with its header,
    /// into the buffer; `None` when no buffer is held or the object does not
    /// fit.
    pub fn allocate(&mut self, allocation_size: usize) -> (r: Option<usize>)
        requires
            old(self).wf(),
            allocation_size + HEADER_SIZE + 7 <= usize::MAX,
        ensures
            final(self).wf(),
            final(self).tlab_start == old(self).tlab_start,
            final(self).tlab_end == old(self).tlab_end,
            old(self).tlab_cursor == 0 ==> r.is_none() && *final(self) == *old(self),
            old(self).tlab_cursor != 0 && old(self).tlab_cursor + object_footprint(allocation_size as int) > old(self).tlab_end
                ==> r.is_none() && *final(self) == *old(self),
            old(self).tlab_cursor != 0 && old(self).tlab_cursor + object_footprint(allocation_size as int) <= old(self).tlab_end
                ==> r == Some(old(self).tlab_cursor)
                    && final(self).tlab_cursor == old(self).tlab_cursor + object_footprint(allocation_size as int),
    {
        if self.tlab_cursor == 0 {
            return None;
        }
        proof {
            lemma_eight_is_power_of_two();
        }
        let size = round_up(allocation_size + HEADER_SIZE, 8);
        let result = self.tlab_cursor;
        if size > self.tlab_end - result {
            return None;
        }
        self.tlab_cursor = result + size;
        Some(result)
    }

    /// Takes the buffer at `tlab`, handed out by the heap, or fails when the
    /// heap had none (`0`).
    pub fn refill(&mut self, tlab: usize) -> (r: bool)
        requires
            old(self).wf(),
            tlab + TLAB_SIZE <= usize::MAX,
        ensures
            final(self).wf(),
            r == (tlab != 0),
            !r ==> *final(self) == *old(self),
            r ==> final(self).tlab_start == tlab && final(self).tlab_cursor == tlab
                && final(self).tlab_end == tlab + TLAB_SIZE,
    {
        if tlab == 0 {
            return false;
        }
        self.tlab_start = tlab;
        self.tlab_end = tlab + 32 * 1024;
        self.tlab_cursor = tlab;
        true
    }

    /// Gives up the buffer.
    pub fn reset(&mut self)
        ensures
            final(self).wf(),
            final(self).tlab_start == 0 && final(self).tlab_cursor == 0 && final(self).tlab_end == 0,
    {
        self.tlab_cursor = 0;
        self.tlab_end = 0;
        self.tlab_start = 0;
    }
}

} // verus!
