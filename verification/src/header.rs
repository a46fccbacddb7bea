//! The object header: a GC info index and a 16-bit word holding the object's
//! size in allocation granules (15 bits) and its mark bit.
use vstd::prelude::*;

verus! {

/// Granularity of allocation sizes in bytes.
pub const ALLOCATION_GRANULARITY: usize = 8;
/// Largest value of the size field.
pub const MAX_SIZE_FIELD: u16 = 32767;

/// The header in front of every object.
#[derive(Clone, Copy)]
pub struct HeapObjectHeader {
    encoded_high: u16,
    encoded_low: u16,
}

impl HeapObjectHeader {
    /// The size field: the object's size in granules, `0` for large objects.
    pub closed spec fn size_field(&self) -> u16 {
        self.encoded_high & 0x7fff
    }

    /// The mark bit.
    pub closed spec fn mark_bit(&self) -> bool {
        self.encoded_high & 0x8000 != 0
    }

    /// The GC info index.
    pub closed spec fn info_index(&self) -> u16 {
        self.encoded_low
    }

    /// An unmarked header of a large object with GC info `gc_info_index`.
    pub fn new(gc_info_index: u16) -> (h: Self)
        ensures
            h.size_field() == 0,
            !h.mark_bit(),
            h.info_index() == gc_info_index,
    {
        let h = HeapObjectHeader { encoded_high: 0, encoded_low: gc_info_index };
        assert(0u16 & 0x7fff == 0) by (bit_vector);
        assert(0u16 & 0x8000 == 0) by (bit_vector);
        h
    }

    /// The GC info index.
    pub fn get_gc_info_index(&self) -> (r: u16)
        ensures
            r == self.info_index(),
    {
        self.encoded_low
    }

    /// The object's size in bytes; `0` for an object of the large object space.
    pub fn get_size(&self) -> (r: usize)
        ensures
            r == self.size_field() * ALLOCATION_GRANULARITY,
    {
        let size = self.encoded_high & 0x7fff;
        size as usize * ALLOCATION_GRANULARITY
    }

    /// Records a size of `size` bytes, rounded down to whole granules.
    pub fn set_size(&mut self, size: usize)
        requires
            size / ALLOCATION_GRANULARITY <= MAX_SIZE_FIELD,
        ensures
            final(self).size_field() == size / ALLOCATION_GRANULARITY,
            final(self).mark_bit() == old(self).mark_bit(),
            final(self).info_index() == old(self).info_index(),
    {
        let granules = (size / ALLOCATION_GRANULARITY) as u16;
        let high = self.encoded_high;
        let new_high = (high & 0x8000) | granules;
        assert(granules <= 0x7fff ==> ((high & 0x8000) | granules) & 0x7fff == granules) by (bit_vector);
        assert(granules <= 0x7fff ==> (((high & 0x8000) | granules) & 0x8000 != 0) == (high & 0x8000 != 0)) by (bit_vector);
        self.encoded_high = new_high;
    }

    /// Whether the mark bit is set.
    pub fn is_marked(&self) -> (r: bool)
        ensures
            r == self.mark_bit(),
    {
        self.encoded_high & 0x8000 != 0
    }

    /// Sets the mark bit; returns `false` when it was already set.
    pub fn set_marked(&mut self) -> (r: bool)
        ensures
            r == !old(self).mark_bit(),
            final(self).mark_bit(),
            final(self).size_field() == old(self).size_field(),
            final(self).info_index() == old(self).info_index(),
    {
        if self.is_marked() {
            return false;
        }
        let high = self.encoded_high;
        assert((high | 0x8000) & 0x8000 != 0) by (bit_vector);
        assert((high | 0x8000) & 0x7fff == high & 0x7fff) by (bit_vector);
        self.encoded_high = high | 0x8000;
        true
    }

    /// Whether the header belongs to a free cell: its GC info index is `0`.
    pub fn is_free(&self) -> (r: bool)
        ensures
            r == (self.info_index() == 0),
    {
        self.encoded_low == 0
    }
}

} // verus!
