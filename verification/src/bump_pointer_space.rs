//! A space that allocates by bumping a cursor from its start to its end.
use vstd::prelude::*;

verus! {

/// A bump-pointer space over the addresses `start .. end`.
pub struct BumpPointerSpace {
    start: usize,
    end: usize,
    cursor: usize,
}

impl BumpPointerSpace {
    /// First address of the space.
    pub closed spec fn spec_start(&self) -> usize {
        self.start
    }

    /// One past the last address of the space.
    pub closed spec fn spec_end(&self) -> usize {
        self.end
    }

    /// Next address to hand out.
    pub closed spec fn spec_cursor(&self) -> usize {
        self.cursor
    }

    /// The cursor lies inside the space.
    pub open spec fn wf(&self) -> bool {
        self.spec_start() <= self.spec_cursor() <= self.spec_end()
    }

    /// A space of `size` bytes at `start`, with the cursor at its start.
    pub fn new(start: usize, size: usize) -> (s: Self)
        requires
            start + size <= usize::MAX,
        ensures
            s.wf(),
            s.spec_start() == start,
            s.spec_end() == start + size,
            s.spec_cursor() == start,
    {
        BumpPointerSpace { start, end: start + size, cursor: start }
    }

    /// Whether `addr` lies inside the space.
    pub fn contains(&self, addr: usize) -> (r: bool)
        ensures
            r == (self.spec_start() <= addr < self.spec_end()),
    {
        addr >= self.start && addr < self.end
    }

    /// Moves the cursor back to the start, freeing everything at once.
    pub fn reset(&mut self)
        requires
            old(self).wf(),
        ensures
            final(self).wf(),
            final(self).spec_cursor() == old(self).spec_start(),
            final(self).spec_start() == old(self).spec_start(),
            final(self).spec_end() == old(self).spec_end(),
    {
        self.cursor = self.start;
    }

    /// Hands out `size` bytes at the cursor, or `0` when they do not fit
    /// before the end.
    pub fn bump_alloc(&mut self, size: usize) -> (r: usize)
        requires
            old(self).wf(),
        ensures
            final(self).wf(),
            final(self).spec_start() == old(self).spec_start(),
            final(self).spec_end() == old(self).spec_end(),
            old(self).spec_cursor() + size <= old(self).spec_end() ==> r == old(self).spec_cursor()
                && final(self).spec_cursor() == old(self).spec_cursor() + size,
            old(self).spec_cursor() + size > old(self).spec_end() ==> r == 0
                && final(self).spec_cursor() == old(self).spec_cursor(),
    {
        if size > self.end - self.cursor {
            return 0;
        }
        let result = self.cursor;
        self.cursor = result + size;
        result
    }
}

/// A fresh space starts empty at its start: it contains its start (when it
/// is not empty) but not its end, and its first allocation that fits is
/// placed at the start.
pub proof fn lemma_fresh_space_allocates_at_start(
    start: usize,
    size: usize,
    s0: BumpPointerSpace,
    s1: BumpPointerSpace,
    n: usize,
    r: usize,
)
    requires
        s0.wf(),
        s0.spec_start() == start && s0.spec_end() == start + size && s0.spec_cursor() == start,
        s1.wf(),
        s1.spec_start() == s0.spec_start() && s1.spec_end() == s0.spec_end(),
        s0.spec_cursor() + n <= s0.spec_end() ==> r == s0.spec_cursor() && s1.spec_cursor() == s0.spec_cursor() + n,
        s0.spec_cursor() + n > s0.spec_end() ==> r == 0 && s1.spec_cursor() == s0.spec_cursor(),
        start + n <= start + size,
    ensures
        s0.spec_start() <= s0.spec_end(),
        size > 0 ==> s0.spec_start() <= start < s0.spec_end(),
        !(s0.spec_start() <= s0.spec_end() < s0.spec_end()),
        r == start,
        s1.spec_cursor() == start + n,
{
}

} // verus!
