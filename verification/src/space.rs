//! Contiguous address ranges that hold heap objects, and the growth limits
//! of a space whose end grows and shrinks with its mapped memory.
use vstd::prelude::*;
use vstd::arithmetic::power2::lemma2_to64;
use crate::align::{round_up, spec_align_up, is_power_of_two, lemma_power_of_two};
use crate::immix_space::PAGE_SIZE;

verus! {

/// A named space.
pub struct Space {
    name: String,
}

impl Space {
    /// The name of the space.
    pub closed spec fn spec_name(&self) -> Seq<char> {
        self.name@
    }

    /// The name of the space.
    pub fn get_name(&self) -> (r: &str)
        ensures
            r@ == self.spec_name(),
    {
        self.name.as_str()
    }
}

/// The page size is a power of two.
proof fn lemma_page_size_is_power_of_two()
    ensures
        is_power_of_two(PAGE_SIZE),
{
    lemma2_to64();
    lemma_power_of_two(PAGE_SIZE, 12);
}

/// A space over the addresses from `begin` up to `limit`, of which those
/// below `end` are in use.
pub struct ContinuousSpace {
    space: Space,
    begin: usize,
    end: usize,
    limit: usize,
}

impl ContinuousSpace {
    /// The name of the space.
    pub closed spec fn spec_name(&self) -> Seq<char> {
        self.space.spec_name()
    }

    /// The first address.
    pub closed spec fn spec_begin(&self) -> usize {
        self.begin
    }

    /// The end of the addresses in use.
    pub closed spec fn spec_end(&self) -> usize {
        self.end
    }

    /// The end of the addresses the space may use.
    pub closed spec fn spec_limit(&self) -> usize {
        self.limit
    }

    /// A space named `name` from `begin` to `limit`, in use up to `end`.
    pub fn new(name: &str, begin: usize, end: usize, limit: usize) -> (s: Self)
        ensures
            s.spec_name() == name@,
            s.spec_begin() == begin,
            s.spec_end() == end,
            s.spec_limit() == limit,
    {
        ContinuousSpace { space: Space { name: name.to_string() }, begin, end, limit }
    }

    /// The name of the space.
    pub fn get_name(&self) -> (r: &str)
        ensures
            r@ == self.spec_name(),
    {
        self.space.get_name()
    }

    /// The first address.
    pub fn begin(&self) -> (r: usize)
        ensures
            r == self.spec_begin(),
    {
        self.begin
    }

    /// The end of the addresses in use.
    pub fn end(&self) -> (r: usize)
        ensures
            r == self.spec_end(),
    {
        self.end
    }

    /// The end of the addresses the space may use.
    pub fn limit(&self) -> (r: usize)
        ensures
            r == self.spec_limit(),
    {
        self.limit
    }

    /// Moves the limit to `limit`.
    pub fn set_limit(&mut self, limit: usize)
        ensures
            final(self).spec_limit() == limit,
            final(self).spec_begin() == old(self).spec_begin(),
            final(self).spec_end() == old(self).spec_end(),
            final(self).spec_name() == old(self).spec_name(),
    {
        self.limit = limit;
    }

    /// Moves the end of the addresses in use to `end`.
    pub fn set_end(&mut self, end: usize)
        ensures
            final(self).spec_end() == end,
            final(self).spec_begin() == old(self).spec_begin(),
            final(self).spec_limit() == old(self).spec_limit(),
            final(self).spec_name() == old(self).spec_name(),
    {
        self.end = end;
    }

    /// Bytes in use.
    pub fn size(&self) -> (r: usize)
        requires
            self.spec_begin() <= self.spec_end(),
        ensures
            r == self.spec_end() - self.spec_begin(),
    {
        self.end - self.begin
    }

    /// Bytes the space may use.
    pub fn capacity(&self) -> (r: usize)
        requires
            self.spec_begin() <= self.spec_limit(),
        ensures
            r == self.spec_limit() - self.spec_begin(),
    {
        self.limit - self.begin
    }

    /// Whether `obj` lies in the space.
    pub fn has_address(&self, obj: usize) -> (r: bool)
        ensures
            r == (self.spec_begin() <= obj && obj < self.spec_limit()),
    {
        obj >= self.begin && obj < self.limit
    }

    /// A continuous space is continuous.
    pub fn is_continuous_space(&self) -> (r: bool)
        ensures
            r,
    {
        true
    }
}

/// The sizes that a malloc space is created with: the initial size, the
/// growth limit and the capacity of the mapping.
pub struct MemMapSizes {
    pub initial_size: usize,
    pub growth_limit: usize,
    pub capacity: usize,
}

/// A space whose end grows and shrinks within a mapping of `mem_map_size`
/// bytes, up to a growth limit.
pub struct MallocSpace {
    space: ContinuousSpace,
    mem_map_size: usize,
    growth_limit: usize,
    can_move_objects: bool,
    starting_size: usize,
    initial_size: usize,
}

impl MallocSpace {
    /// The addresses of the space.
    pub closed spec fn spec_space(&self) -> ContinuousSpace {
        self.space
    }

    /// The size of the mapping.
    pub closed spec fn spec_mem_map_size(&self) -> usize {
        self.mem_map_size
    }

    /// The growth limit.
    pub closed spec fn spec_growth_limit(&self) -> usize {
        self.growth_limit
    }

    /// Whether objects in the space may move.
    pub closed spec fn spec_can_move_objects(&self) -> bool {
        self.can_move_objects
    }

    /// A space over a mapping of `mem_map_size` bytes at `begin`.
    pub fn new(name: &str, mem_map_size: usize, begin: usize, end: usize, limit: usize, growth_limit: usize,
        can_move_objects: bool, starting_size: usize, initial_size: usize) -> (s: Self)
        ensures
            s.spec_space().spec_name() == name@,
            s.spec_space().spec_begin() == begin,
            s.spec_space().spec_end() == end,
            s.spec_space().spec_limit() == limit,
            s.spec_mem_map_size() == mem_map_size,
            s.spec_growth_limit() == growth_limit,
            s.spec_can_move_objects() == can_move_objects,
    {
        MallocSpace {
            space: ContinuousSpace::new(name, begin, end, limit),
            mem_map_size,
            growth_limit,
            can_move_objects,
            starting_size,
            initial_size,
        }
    }

    /// The sizes a space is created with: the initial size raised to the
    /// starting size, and the growth limit and the capacity rounded up to
    /// whole pages. The initial size may not pass the growth limit, nor the
    /// growth limit the capacity.
    pub fn create_mem_map(starting_size: usize, initial_size: usize, growth_limit: usize, capacity: usize) -> (r: MemMapSizes)
        requires
            (if starting_size > initial_size { starting_size } else { initial_size }) <= growth_limit,
            growth_limit <= capacity,
            capacity + PAGE_SIZE - 1 <= usize::MAX,
        ensures
            r.initial_size == (if starting_size > initial_size { starting_size } else { initial_size }),
            r.growth_limit == spec_align_up(growth_limit as int, PAGE_SIZE as int),
            r.capacity == spec_align_up(capacity as int, PAGE_SIZE as int),
    {
        proof {
            lemma_page_size_is_power_of_two();
        }
        let initial_size = if starting_size > initial_size { starting_size } else { initial_size };
        MemMapSizes {
            initial_size,
            growth_limit: round_up(growth_limit, PAGE_SIZE),
            capacity: round_up(capacity, PAGE_SIZE),
        }
    }

    /// Forbids moving objects in the space.
    pub fn disable_moving_objects(&mut self)
        ensures
            !final(self).spec_can_move_objects(),
            final(self).spec_space() == old(self).spec_space(),
            final(self).spec_mem_map_size() == old(self).spec_mem_map_size(),
            final(self).spec_growth_limit() == old(self).spec_growth_limit(),
    {
        self.can_move_objects = false;
    }

    /// Whether objects in the space may move.
    pub fn can_move_objects(&self) -> (r: bool)
        ensures
            r == self.spec_can_move_objects(),
    {
        self.can_move_objects
    }

    /// The capacity: the growth limit.
    pub fn capacity(&self) -> (r: usize)
        ensures
            r == self.spec_growth_limit(),
    {
        self.growth_limit
    }

    /// The capacity without the growth limit: the size of the mapping.
    pub fn non_growth_limit_capacity(&self) -> (r: usize)
        ensures
            r == self.spec_mem_map_size(),
    {
        self.mem_map_size
    }

    /// Lifts the growth limit to the whole mapping.
    pub fn clear_growth_limit(&mut self)
        ensures
            final(self).spec_growth_limit() == old(self).spec_mem_map_size(),
            final(self).spec_space() == old(self).spec_space(),
            final(self).spec_mem_map_size() == old(self).spec_mem_map_size(),
            final(self).spec_can_move_objects() == old(self).spec_can_move_objects(),
    {
        self.growth_limit = self.mem_map_size;
    }

    /// Sets the growth limit to `growth_limit` rounded up to whole pages;
    /// when the space is larger, its end moves back to the limit.
    pub fn set_growth_limit(&mut self, growth_limit: usize)
        requires
            growth_limit + PAGE_SIZE - 1 <= usize::MAX,
            old(self).spec_space().spec_begin() <= old(self).spec_space().spec_end(),
            old(self).spec_space().spec_begin() + spec_align_up(growth_limit as int, PAGE_SIZE as int) <= usize::MAX,
        ensures
            final(self).spec_growth_limit() == spec_align_up(growth_limit as int, PAGE_SIZE as int),
            final(self).spec_space().spec_end() == (
                if old(self).spec_space().spec_end() - old(self).spec_space().spec_begin() > final(self).spec_growth_limit() {
                    (old(self).spec_space().spec_begin() + final(self).spec_growth_limit()) as usize
                } else {
                    old(self).spec_space().spec_end()
                }),
            final(self).spec_space().spec_begin() == old(self).spec_space().spec_begin(),
            final(self).spec_space().spec_limit() == old(self).spec_space().spec_limit(),
            final(self).spec_space().spec_name() == old(self).spec_space().spec_name(),
            final(self).spec_mem_map_size() == old(self).spec_mem_map_size(),
            final(self).spec_can_move_objects() == old(self).spec_can_move_objects(),
    {
        proof {
            lemma_page_size_is_power_of_two();
        }
        let growth_limit = round_up(growth_limit, PAGE_SIZE);
        self.growth_limit = growth_limit;
        if self.space.size() > growth_limit {
            let begin = self.space.begin();
            self.space.set_end(begin + growth_limit);
        }
    }

    /// Moves the end of the space by `increment` bytes and returns where it
    /// was: the memory between the two ends is committed or given back by the
    /// caller.
    pub fn morecore(&mut self, increment: isize) -> (original_end: usize)
        requires
            0 <= old(self).spec_space().spec_end() + increment <= usize::MAX,
        ensures
            original_end == old(self).spec_space().spec_end(),
            final(self).spec_space().spec_end() == old(self).spec_space().spec_end() + increment,
            final(self).spec_space().spec_begin() == old(self).spec_space().spec_begin(),
            final(self).spec_space().spec_limit() == old(self).spec_space().spec_limit(),
            final(self).spec_space().spec_name() == old(self).spec_space().spec_name(),
            final(self).spec_mem_map_size() == old(self).spec_mem_map_size(),
            final(self).spec_growth_limit() == old(self).spec_growth_limit(),
            final(self).spec_can_move_objects() == old(self).spec_can_move_objects(),
    {
        let original_end = self.space.end();
        if increment != 0 {
            let new_end = if increment > 0 {
                original_end + (increment as usize)
            } else {
                original_end - (((0 - (increment + 1)) as usize) + 1)
            };
            self.space.set_end(new_end);
        }
        original_end
    }

    /// Moves the limit of the space to its beginning plus its capacity.
    pub fn clamp_growth_limit(&mut self)
        requires
            old(self).spec_space().spec_begin() + old(self).spec_growth_limit() <= usize::MAX,
        ensures
            final(self).spec_space().spec_limit() == old(self).spec_space().spec_begin() + old(self).spec_growth_limit(),
            final(self).spec_space().spec_begin() == old(self).spec_space().spec_begin(),
            final(self).spec_space().spec_end() == old(self).spec_space().spec_end(),
            final(self).spec_space().spec_name() == old(self).spec_space().spec_name(),
            final(self).spec_mem_map_size() == old(self).spec_mem_map_size(),
            final(self).spec_growth_limit() == old(self).spec_growth_limit(),
            final(self).spec_can_move_objects() == old(self).spec_can_move_objects(),
    {
        let new_capacity = self.growth_limit;
        let begin = self.space.begin();
        self.space.set_limit(begin + new_capacity);
    }
}

} // verus!
