//! Tags and small types shared by the collectors.
use vstd::prelude::*;

verus! {

/// The space an object is allocated in.
#[derive(Clone, Copy, PartialEq, Eq, PartialOrd, Ord, Debug, Structural)]
pub enum AllocationSpace {
    New,
    Old,
    Large,
}

/// A collector without inline allocation helpers.
pub struct NoHelp;

/// When a marking constraint runs in a collection cycle.
#[derive(Clone, Copy, PartialEq, Eq, Debug, Structural)]
pub enum MarkingConstraintRuns {
    AfterMark,
    BeforeMark,
}

/// The read barrier of collectors that never move an object behind the
/// mutator's back: a read gives the reference itself.
pub struct NoReadBarrier;

impl NoReadBarrier {
    /// The reference to use for `object`: `object` itself.
    pub fn read_barrier(object: usize) -> (r: usize)
        ensures
            r == object,
    {
        object
    }
}

/// The read barrier of collectors that keep a forwarding word in front of
/// each object: a read follows that word.
pub struct BrooksPointer;

impl BrooksPointer {
    /// The reference to use for an object whose forwarding word holds
    /// `forwarding`: the forwarding address.
    pub fn read_barrier(forwarding: usize) -> (r: usize)
        ensures
            r == forwarding,
    {
        forwarding
    }
}

/// The phases of a major collection of the generational collector.
#[derive(Clone, Copy, PartialEq, Eq, Debug, Structural)]
pub enum MajorPhase {
    Scanning,
    Marking,
    Sweeping,
    Finalizing,
}

/// What sweeping a block leaves of it.
#[derive(Clone, Copy, PartialEq, Eq, Debug, Structural)]
pub enum SweepResult {
    Empty,
    Reuse,
}

/// The index of an object's GC info in the GC info table.
#[derive(Clone, Copy, PartialEq, Eq, PartialOrd, Ord, Debug, Structural)]
pub struct GCInfoIndex(pub u16);

/// What a write barrier does when a reference is stored into a slot.
pub trait WriteBarrierPolicyTrait {
    /// Barrier for the first store into a fresh object.
    fn initializing_barrier(slot: usize, value: usize) {
    }

    /// Barrier for a store that replaces a reference.
    fn assigning_barrier(slot: usize, value: usize) {
    }
}

/// Dijkstra's insertion barrier.
pub struct DijkstraWriteBarrierPolicy;

impl WriteBarrierPolicyTrait for DijkstraWriteBarrierPolicy {
}

/// No barrier at all.
pub struct NoWriteBarrierPolicy;

impl WriteBarrierPolicyTrait for NoWriteBarrierPolicy {
}

/// Tag of a member that keeps its referent alive.
pub struct StrongMemberTag;

/// Tag of a member that does not keep its referent alive.
pub struct WeakMemberTag;

/// Tag of a member the collector does not trace.
pub struct UntracedMemberTag;

/// The heap shared by the collectors of the first generation of the
/// library.
pub struct GlobalHeap {}

/// The regions of a Shenandoah heap.
pub struct ShenandoahHeap {
    pub num_regions: usize,
    pub heap_region_special: bool,
}

/// The concurrent mark-and-sweep heap; `CONCURRENT` tells whether marking
/// and sweeping run concurrently or in a pause.
pub struct ConcurrentMarkSweep<const CONCURRENT: bool> {}

} // verus!
