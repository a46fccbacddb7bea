//! Allocation thresholds that decide when a collection is due.
use vstd::prelude::*;

verus! {

/// Counts block and large allocations against their thresholds.
pub struct AllocationConfig {
    pub threshold: u32,
    pub large_threshold: usize,
    pub block_allocations: u32,
    pub large_allocations: usize,
}

/// `x + y` wrapping around past the largest `u32`.
pub open spec fn wrapping_add_u32(x: u32, y: u32) -> u32 {
    if x + y > u32::MAX {
        (x + y - u32::MAX - 1) as u32
    } else {
        (x + y) as u32
    }
}

/// `x + y` wrapping around past the largest `usize`.
pub open spec fn wrapping_add_usize(x: usize, y: usize) -> usize {
    if x + y > usize::MAX {
        (x + y - usize::MAX - 1) as usize
    } else {
        (x + y) as usize
    }
}

impl AllocationConfig {
    /// A configuration with the given thresholds and no allocation counted.
    pub fn new(threshold: u32, large_threshold: usize) -> (c: Self)
        ensures
            c.threshold == threshold,
            c.large_threshold == large_threshold,
            c.block_allocations == 0,
            c.large_allocations == 0,
    {
        AllocationConfig { threshold, large_threshold, block_allocations: 0, large_allocations: 0 }
    }

    /// Counts `size` more bytes of large allocations, wrapping around as an
    /// atomic counter does.
    pub fn increment_large_allocations(&mut self, size: usize)
        ensures
            final(self).large_allocations == wrapping_add_usize(old(self).large_allocations, size),
            final(self).block_allocations == old(self).block_allocations,
            final(self).threshold == old(self).threshold,
            final(self).large_threshold == old(self).large_threshold,
    {
        self.large_allocations = self.large_allocations.wrapping_add(size);
    }

    /// Counts one more block allocation, wrapping around as an atomic counter does.
    pub fn increment_allocations(&mut self)
        ensures
            final(self).block_allocations == wrapping_add_u32(old(self).block_allocations, 1),
            final(self).large_allocations == old(self).large_allocations,
            final(self).threshold == old(self).threshold,
            final(self).large_threshold == old(self).large_threshold,
    {
        self.block_allocations = self.block_allocations.wrapping_add(1);
    }

    /// Whether either count has reached its threshold.
    pub fn allocation_threshold_exceeded(&self) -> (r: bool)
        ensures
            r == (self.block_allocations >= self.threshold || self.large_allocations >= self.large_threshold),
    {
        self.block_allocations >= self.threshold || self.large_allocations >= self.large_threshold
    }

    /// After a collection: forgets both counts and takes the grown
    /// thresholds, where growth was decided. Always returns `false`.
    pub fn update_after_collection(&mut self, grown_threshold: Option<u32>, grown_large_threshold: Option<usize>) -> (r: bool)
        ensures
            !r,
            final(self).block_allocations == 0,
            final(self).large_allocations == 0,
            final(self).threshold == (match grown_threshold {
                Some(t) => t,
                None => old(self).threshold,
            }),
            final(self).large_threshold == (match grown_large_threshold {
                Some(t) => t,
                None => old(self).large_threshold,
            }),
    {
        self.block_allocations = 0;
        self.large_allocations = 0;
        if let Some(t) = grown_threshold {
            self.threshold = t;
        }
        if let Some(t) = grown_large_threshold {
            self.large_threshold = t;
        }
        false
    }
}

} // verus!
