//! The Immix collector: objects live in the lines of an Immix space, and a
//! collection marks what the roots reach, marks the lines those objects
//! cover, and lets the space sweep its blocks by their line marks.
use vstd::prelude::*;
use crate::heap::{Heap, Object, live, all_live, GC_WHITE, WEAK_CELL_SIZE};
use crate::immix::{IMMIX_LINE_SIZE, CHUNK_SIZE, LINES_PER_CHUNK};
use crate::immix_space::{ImmixSpace, chunk_start, line_end};
use crate::align::spec_align_up;
use crate::immix_alloc::{ImmixAllocator, no_room};

verus! {

/// An object of `size` bytes at `a` lies inside the space and inside the
/// lines of one chunk.
pub open spec fn placed(space: ImmixSpace, a: int, size: int) -> bool {
    &&& space.spec_start() <= a
    &&& a + size + IMMIX_LINE_SIZE <= usize::MAX
    &&& a < space.spec_start() + space.spec_n_chunks() * CHUNK_SIZE
    &&& line_end(a + size) <= chunk_start(a) + CHUNK_SIZE
}

/// The object of `size` bytes at `a` covers line `i` of chunk `ci` of a
/// space that starts at `start`.
pub open spec fn covers_line(start: int, a: int, size: int, ci: int, i: int) -> bool {
    let c = chunk_start(a);
    &&& (c - start) / (CHUNK_SIZE as int) == ci
    &&& (a - a % (IMMIX_LINE_SIZE as int) - c) / (IMMIX_LINE_SIZE as int) <= i
    &&& i < (line_end(a + size) - c) / (IMMIX_LINE_SIZE as int)
}

/// Some live object among the first `upto` slots covers line `i` of chunk
/// `ci`.
pub open spec fn line_in_use<T>(start: int, objs: Seq<Option<Object<T>>>, addrs: Seq<usize>, upto: int, ci: int, i: int) -> bool {
    exists|o: int| 0 <= o < upto && live(objs, o) && #[trigger] covers_line(start, addrs[o] as int, objs[o]->0.size as int, ci, i)
}

/// `after` is `before` with the lines that the live objects among the first
/// `upto` slots cover marked as well; nothing else changes.
pub open spec fn lines_marked<T>(before: ImmixSpace, after: ImmixSpace, objs: Seq<Option<Object<T>>>, addrs: Seq<usize>, upto: int) -> bool {
    &&& after.wf()
    &&& after.same_layout(&before)
    &&& after.same_sizes(&before)
    &&& after.spec_blocks() == before.spec_blocks()
    &&& after.spec_free() == before.spec_free()
    &&& after.spec_reusable() == before.spec_reusable()
    &&& after.spec_chunk_map() == before.spec_chunk_map()
    &&& after.spec_chunks().len() == before.spec_chunks().len()
    &&& forall|ci: int| 0 <= ci < before.spec_n_chunks() ==> (#[trigger] after.spec_chunks()[ci]).spec_addr() == before.spec_chunks()[ci].spec_addr()
    &&& forall|ci: int, i: int| 0 <= ci < before.spec_n_chunks() && 0 <= i < LINES_PER_CHUNK ==>
        #[trigger] after.spec_chunks()[ci].spec_table()@[i]
            == (before.spec_chunks()[ci].spec_table()@[i] || line_in_use(before.spec_start() as int, objs, addrs, upto, ci, i))
}

/// The Immix collector: the space, the allocator of the mutator, and the
/// objects with their addresses in the space.
pub struct Immix<T> {
    space: ImmixSpace,
    tlab: ImmixAllocator,
    heap: Heap<T>,
    addrs: Vec<usize>,
}

impl<T> Immix<T> {
    /// The Immix space.
    pub closed spec fn space(&self) -> ImmixSpace {
        self.space
    }

    /// The mutator's allocator.
    pub closed spec fn allocator(&self) -> ImmixAllocator {
        self.tlab
    }

    /// The objects, their references and weak cells, and the colors and
    /// cycle count of the collector.
    pub closed spec fn objects(&self) -> Heap<T> {
        self.heap
    }

    /// The address of each object slot in the space.
    pub closed spec fn addrs(&self) -> Seq<usize> {
        self.addrs@
    }

    /// The object slots.
    pub open spec fn slots(&self) -> Seq<Option<Object<T>>> {
        self.objects().slots()
    }

    /// The invariant: the space is well formed and ready for allocation, the
    /// allocator's regions lie in it, the object graph is well formed, and
    /// every live object lies in the lines of one chunk of the space.
    pub closed spec fn wf(&self) -> bool {
        &&& self.space.wf()
        &&& self.space.alloc_ready()
        &&& self.tlab.wf(&self.space)
        &&& !self.tlab.spec_request_for_large()
        &&& self.heap.wf()
        &&& self.heap.spec_defers() == 0
        &&& self.addrs@.len() == self.heap.slots().len()
        &&& forall|i: int| #[trigger] live(self.heap.slots(), i)
            ==> placed(self.space, self.addrs@[i] as int, self.heap.slots()[i]->0.size as int)
    }

    /// A collector over `space` with no objects yet; the mutator's allocator
    /// starts with empty regions.
    pub fn new(space: ImmixSpace) -> (h: Self)
        requires
            space.wf(),
            space.alloc_ready(),
        ensures
            h.wf(),
            h.space() == space,
            h.slots().len() == 0,
            h.objects().weak_cells().len() == 0,
            h.objects().spec_total_gcs() == 0,
            h.objects().spec_alloc_color() == GC_WHITE,
    {
        let tlab = ImmixAllocator::create();
        let heap = Heap::new(0, 0);
        Immix { space, tlab, heap, addrs: Vec::new() }
    }
}

} // verus!

verus! {

impl<T> Immix<T> {
    /// Marks, in the space's line mark tables, the lines that every live
    /// object covers.
    fn mark_live_lines(&mut self)
        requires
            old(self).space.wf(),
            old(self).addrs@.len() == old(self).heap.slots().len(),
            forall|i: int| #[trigger] live(old(self).heap.slots(), i)
                ==> placed(old(self).space, old(self).addrs@[i] as int, old(self).heap.slots()[i]->0.size as int),
        ensures
            lines_marked(old(self).space, final(self).space, old(self).heap.slots(), old(self).addrs@, old(self).addrs@.len() as int),
            final(self).space.spec_bytes_allocated() == old(self).space.spec_bytes_allocated(),
            final(self).heap == old(self).heap,
            final(self).addrs == old(self).addrs,
            final(self).tlab == old(self).tlab,
    {
        let ghost s0 = self.space;
        let ghost objs = self.heap.slots();
        let ghost start = s0.spec_start() as int;
        let n = self.addrs.len();
        let mut i: usize = 0;
        proof {
            s0.lemma_wf_layout();
        }
        while i < n
            invariant
                0 <= i <= n,
                n == self.addrs@.len(),
                self.heap == old(self).heap,
                self.addrs == old(self).addrs,
                self.tlab == old(self).tlab,
                s0 == old(self).space,
                objs == self.heap.slots(),
                start == s0.spec_start(),
                s0.wf(),
                self.space.spec_bytes_allocated() == s0.spec_bytes_allocated(),
                forall|j: int| #[trigger] live(objs, j) ==> placed(s0, self.addrs@[j] as int, objs[j]->0.size as int),
                lines_marked(s0, self.space, objs, self.addrs@, i as int),
            decreases n - i,
        {
            let ghost before = self.space;
            proof {
                before.lemma_wf_layout();
            }
            match self.heap.object_size(i) {
                Some(size) => {
                    let a = self.addrs[i];
                    proof {
                        assert(placed(s0, a as int, size as int));
                    }
                    self.space.mark_lines(a, size);
                    proof {
                        let ci0 = (chunk_start(a as int) - start) / (CHUNK_SIZE as int);
                        assert forall|ci: int, l: int| 0 <= ci < s0.spec_n_chunks() && 0 <= l < LINES_PER_CHUNK implies
                            #[trigger] self.space.spec_chunks()[ci].spec_table()@[l]
                                == (s0.spec_chunks()[ci].spec_table()@[l] || line_in_use(start, objs, self.addrs@, i + 1, ci, l)) by {
                            let was = line_in_use(start, objs, self.addrs@, i as int, ci, l);
                            let now = line_in_use(start, objs, self.addrs@, i + 1, ci, l);
                            assert(before.spec_chunks()[ci].spec_table()@[l] == (s0.spec_chunks()[ci].spec_table()@[l] || was));
                            if covers_line(start, a as int, size as int, ci, l) {
                                assert(live(objs, i as int));
                                assert(covers_line(start, self.addrs@[i as int] as int, objs[i as int]->0.size as int, ci, l));
                            }
                            if now && !was {
                                let o = choose|o: int| 0 <= o < i + 1 && live(objs, o)
                                    && #[trigger] covers_line(start, self.addrs@[o] as int, objs[o]->0.size as int, ci, l);
                                assert(o == i);
                            }
                            if was {
                                let o = choose|o: int| 0 <= o < i && live(objs, o)
                                    && #[trigger] covers_line(start, self.addrs@[o] as int, objs[o]->0.size as int, ci, l);
                                assert(0 <= o < i + 1 && live(objs, o));
                            }
                            if ci != ci0 {
                                assert(self.space.spec_chunks()[ci] == before.spec_chunks()[ci]);
                            }
                        }
                    }
                },
                None => {
                    proof {
                        assert forall|ci: int, l: int| 0 <= ci < s0.spec_n_chunks() && 0 <= l < LINES_PER_CHUNK implies
                            line_in_use(start, objs, self.addrs@, i + 1, ci, l) == line_in_use(start, objs, self.addrs@, i as int, ci, l) by {
                            if line_in_use(start, objs, self.addrs@, i + 1, ci, l) {
                                let o = choose|o: int| 0 <= o < i + 1 && live(objs, o)
                                    && #[trigger] covers_line(start, self.addrs@[o] as int, objs[o]->0.size as int, ci, l);
                                assert(o != i);
                            }
                            if line_in_use(start, objs, self.addrs@, i as int, ci, l) {
                                let o = choose|o: int| 0 <= o < i && live(objs, o)
                                    && #[trigger] covers_line(start, self.addrs@[o] as int, objs[o]->0.size as int, ci, l);
                                assert(0 <= o < i + 1);
                            }
                        }
                    }
                },
            }
            i = i + 1;
        }
    }
}

} // verus!

verus! {

impl<T> Immix<T> {
    /// A full collection from `roots`: the space is prepared, what the roots
    /// reach is marked and survives while the rest is freed, dead weak
    /// referents are cleared and dead weak cells dropped, the lines of the
    /// survivors are marked, the space sweeps its blocks by those marks, the
    /// allocator's regions are emptied, the colors swap and the cycle count
    /// grows by one. Returns the bytes that the space counts as allocated
    /// afterwards.
    pub fn collect(&mut self, roots: &Vec<usize>) -> (live_bytes: usize)
        requires
            old(self).wf(),
            all_live(old(self).slots(), roots@),
            old(self).objects().spec_total_gcs() < usize::MAX,
        ensures
            final(self).wf(),
            old(self).objects().collected_from(final(self).objects(), roots@),
            final(self).objects().spec_total_gcs() == old(self).objects().spec_total_gcs() + 1,
            final(self).addrs() == old(self).addrs(),
            exists|p: ImmixSpace, m: ImmixSpace| #![trigger lines_marked(p, m, final(self).slots(), old(self).addrs(), old(self).addrs().len() as int)] {
                &&& p.prepared_from(&old(self).space(), true)
                &&& lines_marked(p, m, final(self).slots(), old(self).addrs(), old(self).addrs().len() as int)
                &&& m.spec_bytes_allocated() == 0
                &&& final(self).space().released_from(&m)
            },
            live_bytes == final(self).space().spec_bytes_allocated(),
            final(self).allocator().spec_cursor() == 0 && final(self).allocator().spec_limit() == 0,
            final(self).allocator().spec_large_cursor() == 0 && final(self).allocator().spec_large_limit() == 0,
            final(self).allocator().spec_line().is_none(),
            final(self).allocator().spec_emergency() == old(self).allocator().spec_emergency(),
    {
        let ghost s_old = self.space;
        let ghost a = self.heap.slots();
        self.space.prepare(true);
        let ghost p = self.space;
        self.heap.collect_garbage(roots);
        self.space.reset_bytes_allocated();
        proof {
            let b = self.heap.slots();
            assert forall|i: int| #[trigger] live(b, i) implies placed(self.space, self.addrs@[i] as int, b[i]->0.size as int) by {
                assert(b[i] is Some);
                assert(crate::heap::reachable(a, roots@, i));
                crate::heap::lemma_reachable_live(a, roots@, i);
                assert(live(a, i));
            }
        }
        self.mark_live_lines();
        let ghost m = self.space;
        proof {
            assert(lines_marked(p, m, self.heap.slots(), self.addrs@, self.addrs@.len() as int));
        }
        self.space.release();
        self.tlab.reset();
        proof {
            let b = self.heap.slots();
            assert forall|i: int| #[trigger] live(b, i) implies placed(self.space, self.addrs@[i] as int, b[i]->0.size as int) by {
                assert(crate::heap::reachable(a, roots@, i));
                crate::heap::lemma_reachable_live(a, roots@, i);
                assert(live(a, i));
            }
            assert(p.prepared_from(&old(self).space(), true));
            assert(m.spec_bytes_allocated() == 0);
            assert(self.space.released_from(&m));
            assert(self.addrs() == old(self).addrs());
            assert(lines_marked(p, m, self.slots(), old(self).addrs(), old(self).addrs().len() as int));
        }
        self.space.num_bytes_allocated()
    }

    /// Sets the space's target footprint from `scaled`, the live bytes scaled
    /// by the growth factor: at least the minimum and at most the maximum
    /// heap size.
    pub fn set_target_footprint_from(&mut self, scaled: usize)
        requires
            old(self).wf(),
        ensures
            final(self).wf(),
            final(self).space().spec_target_footprint() == ({
                let lo = if scaled < old(self).space().spec_min_heap_size() { old(self).space().spec_min_heap_size() } else { scaled };
                if old(self).space().spec_max_heap_size() < lo { old(self).space().spec_max_heap_size() } else { lo }
            }),
            final(self).space().spec_min_heap_size() == old(self).space().spec_min_heap_size(),
            final(self).space().spec_max_heap_size() == old(self).space().spec_max_heap_size(),
            final(self).space().spec_bytes_allocated() == old(self).space().spec_bytes_allocated(),
            final(self).objects() == old(self).objects(),
            final(self).addrs() == old(self).addrs(),
            final(self).allocator() == old(self).allocator(),
    {
        let min = self.space.min_heap_size();
        let max = self.space.max_heap_size();
        let lo = if scaled < min { min } else { scaled };
        let target = if max < lo { max } else { lo };
        self.space.set_target_footprint(target);
    }
}

} // verus!

verus! {

/// Size of the header in front of every object in the Immix space.
pub const IMMIX_HEADER_SIZE: usize = 16;

/// Why an allocation of `total` bytes in the space, from `old` to `new`,
/// gave no object of `size` bytes: the allocator found no block to take, a
/// byte counter of the object graph would overflow, or the object at the
/// address handed out would not lie in the lines of one chunk of the space.
pub open spec fn alloc_refused<T>(old: Immix<T>, new: Immix<T>, total: int, size: int) -> bool {
    ||| no_room(&new.space(), new.allocator().spec_emergency(), total)
    ||| old.objects().spec_bytes_allocated() + size > usize::MAX
    ||| old.objects().spec_heap_bytes() + size > usize::MAX
    ||| exists|a: usize| #![trigger placed(new.space(), a as int, size)] {
        &&& a != 0
        &&& !placed(new.space(), a as int, size)
        &&& (new.allocator().spec_cursor() == a + total || new.allocator().spec_large_cursor() == a + total)
    }
}

/// Bytes that an object with a payload of `size` bytes takes in the space:
/// payload and header, rounded up to the allocation granule.
pub open spec fn immix_object_size(size: nat) -> int {
    Heap::<()>::spec_alloc_size((size + IMMIX_HEADER_SIZE) as nat)
}

impl<T> Immix<T> {
    /// Whether an object of `size` bytes at `a` lies inside the space and
    /// inside the lines of one chunk.
    fn is_placed(&self, a: usize, size: usize) -> (r: bool)
        requires
            self.space.wf(),
        ensures
            r == placed(self.space, a as int, size as int),
    {
        if !self.space.has_address(a) {
            return false;
        }
        if a > usize::MAX - IMMIX_LINE_SIZE || size > usize::MAX - IMMIX_LINE_SIZE - a {
            return false;
        }
        proof {
            crate::immix::lemma_immix_sizes_are_powers_of_two();
        }
        let c = crate::align::align_down(a, CHUNK_SIZE);
        let e = a + size;
        let le = if e % IMMIX_LINE_SIZE == 0 { e } else { e - e % IMMIX_LINE_SIZE + IMMIX_LINE_SIZE };
        proof {
            assert(c <= a) by (nonlinear_arith)
                requires c == (a as int / CHUNK_SIZE as int) * CHUNK_SIZE, a >= 0;
        }
        le <= c || le - c <= CHUNK_SIZE
    }

    /// Marks whether the mutator's allocator serves an emergency collection,
    /// as it does while retrying an allocation right after a collection.
    pub fn set_emergency_collection(&mut self, on: bool)
        requires
            old(self).wf(),
        ensures
            final(self).wf(),
            final(self).allocator().spec_emergency() == on,
            final(self).allocator().spec_cursor() == old(self).allocator().spec_cursor(),
            final(self).allocator().spec_limit() == old(self).allocator().spec_limit(),
            final(self).allocator().spec_large_cursor() == old(self).allocator().spec_large_cursor(),
            final(self).allocator().spec_large_limit() == old(self).allocator().spec_large_limit(),
            final(self).allocator().spec_line() == old(self).allocator().spec_line(),
            final(self).space() == old(self).space(),
            final(self).objects() == old(self).objects(),
            final(self).addrs() == old(self).addrs(),
    {
        self.tlab.set_emergency_collection(on);
    }

    /// Allocates an object holding `value` with strong references `refs` and
    /// a payload of `size` bytes in the space, through the mutator's
    /// allocator; returns its identifier. `None` when the allocation is
    /// refused (see [alloc_refused]) and nothing is allocated; the caller then
    /// collects, since the next target footprint is a float computation, and
    /// retries as an emergency allocation.
    pub fn alloc_inline(&mut self, value: T, refs: Vec<usize>, size: usize) -> (r: Option<usize>)
        requires
            old(self).wf(),
            all_live(old(self).slots(), refs@),
            size + IMMIX_HEADER_SIZE + 8 <= usize::MAX,
        ensures
            final(self).wf(),
            final(self).space().same_layout(&old(self).space()),
            final(self).objects().weak_cells() == old(self).objects().weak_cells(),
            final(self).objects().spec_alloc_color() == old(self).objects().spec_alloc_color(),
            final(self).objects().spec_total_gcs() == old(self).objects().spec_total_gcs(),
            r is None ==> final(self).slots() == old(self).slots() && final(self).addrs() == old(self).addrs(),
            r is None ==> alloc_refused(*old(self), *final(self), immix_object_size(size as nat), immix_object_size(size as nat)),
            r is Some ==> {
                &&& r == Some(old(self).slots().len() as usize)
                &&& final(self).slots() == old(self).slots().push(Some(Object {
                    color: old(self).objects().spec_alloc_color(),
                    size: immix_object_size(size as nat) as usize,
                    refs,
                    weak_target: None,
                    value: Some(value),
                }))
                &&& final(self).addrs().drop_last() == old(self).addrs()
                &&& placed(final(self).space(), final(self).addrs().last() as int, immix_object_size(size as nat))
            },
            ({
                let total = immix_object_size(size as nat);
                let a = old(self).allocator().spec_cursor();
                old(self).allocator().spec_cursor() + total <= old(self).allocator().spec_limit() ==> {
                    &&& r is Some <==> (placed(old(self).space(), a as int, total)
                        && old(self).objects().spec_bytes_allocated() + total <= usize::MAX
                        && old(self).objects().spec_heap_bytes() + total <= usize::MAX)
                    &&& r is Some ==> final(self).addrs().last() == a
                }
            }),
    {
        proof {
            crate::align::lemma_eight_is_power_of_two();
        }
        let total = crate::align::round_up(size + IMMIX_HEADER_SIZE, 8);
        let a = self.tlab.allocate(&mut self.space, total);
        if a == 0 || !self.is_placed(a, total) {
            proof {
                assert forall|i: int| #[trigger] live(self.heap.slots(), i)
                    implies placed(self.space, self.addrs@[i] as int, self.heap.slots()[i]->0.size as int) by {
                    assert(placed(old(self).space, self.addrs@[i] as int, self.heap.slots()[i]->0.size as int));
                }
            }
            return None;
        }
        if self.heap.bytes_allocated_this_cycle() > usize::MAX - total || self.heap.heap_bytes() > usize::MAX - total {
            proof {
                assert forall|i: int| #[trigger] live(self.heap.slots(), i)
                    implies placed(self.space, self.addrs@[i] as int, self.heap.slots()[i]->0.size as int) by {
                    assert(placed(old(self).space, self.addrs@[i] as int, self.heap.slots()[i]->0.size as int));
                }
            }
            return None;
        }
        let ghost before = self.heap.slots();
        let id = self.heap.allocate(value, refs, size + IMMIX_HEADER_SIZE);
        self.addrs.push(a);
        proof {
            let objs = self.heap.slots();
            assert forall|i: int| #[trigger] live(objs, i)
                implies placed(self.space, self.addrs@[i] as int, objs[i]->0.size as int) by {
                if i < before.len() {
                    assert(live(before, i));
                    assert(placed(old(self).space, old(self).addrs@[i] as int, before[i]->0.size as int));
                    assert(self.addrs@[i] == old(self).addrs@[i]);
                }
            }
            assert(self.addrs@.drop_last() =~= old(self).addrs@);
        }
        Some(id)
    }
}

impl<T> Immix<T> {
    /// Allocates a weak cell whose referent is `target` in the space and
    /// registers it with the collector; returns the cell's identifier. `None`
    /// when the allocator finds no room, and nothing is allocated.
    pub fn allocate_weak(&mut self, target: usize) -> (r: Option<usize>)
        requires
            old(self).wf(),
            live(old(self).slots(), target as int),
        ensures
            final(self).wf(),
            final(self).space().same_layout(&old(self).space()),
            final(self).objects().spec_alloc_color() == old(self).objects().spec_alloc_color(),
            final(self).objects().spec_total_gcs() == old(self).objects().spec_total_gcs(),
            r is None ==> final(self).slots() == old(self).slots() && final(self).addrs() == old(self).addrs()
                && final(self).objects().weak_cells() == old(self).objects().weak_cells(),
            r is None ==> alloc_refused(*old(self), *final(self), immix_object_size(WEAK_CELL_SIZE as nat), WEAK_CELL_SIZE as int),
            r is Some ==> {
                &&& r == Some(old(self).slots().len() as usize)
                &&& final(self).slots() == old(self).slots().push(Some(Object {
                    color: old(self).objects().spec_alloc_color(),
                    size: WEAK_CELL_SIZE,
                    refs: final(self).slots().last()->0.refs,
                    weak_target: Some(target),
                    value: None,
                }))
                &&& final(self).slots().last()->0.refs@ == Seq::<usize>::empty()
                &&& final(self).objects().weak_cells() == old(self).objects().weak_cells().push(old(self).slots().len() as usize)
                &&& final(self).addrs().drop_last() == old(self).addrs()
            },
            ({
                let a = old(self).allocator().spec_cursor();
                old(self).allocator().spec_cursor() + immix_object_size(WEAK_CELL_SIZE as nat) <= old(self).allocator().spec_limit() ==> {
                    &&& r is Some <==> (placed(old(self).space(), a as int, WEAK_CELL_SIZE as int)
                        && old(self).objects().spec_bytes_allocated() + WEAK_CELL_SIZE <= usize::MAX
                        && old(self).objects().spec_heap_bytes() + WEAK_CELL_SIZE <= usize::MAX)
                    &&& r is Some ==> final(self).addrs().last() == a
                }
            }),
    {
        proof {
            crate::align::lemma_eight_is_power_of_two();
        }
        let total = crate::align::round_up(WEAK_CELL_SIZE + IMMIX_HEADER_SIZE, 8);
        let a = self.tlab.allocate(&mut self.space, total);
        if a == 0 || !self.is_placed(a, WEAK_CELL_SIZE)
            || self.heap.bytes_allocated_this_cycle() > usize::MAX - WEAK_CELL_SIZE
            || self.heap.heap_bytes() > usize::MAX - WEAK_CELL_SIZE {
            proof {
                assert forall|i: int| #[trigger] live(self.heap.slots(), i)
                    implies placed(self.space, self.addrs@[i] as int, self.heap.slots()[i]->0.size as int) by {
                    assert(placed(old(self).space, self.addrs@[i] as int, self.heap.slots()[i]->0.size as int));
                }
            }
            return None;
        }
        let ghost before = self.heap.slots();
        let id = self.heap.allocate_weak(target);
        self.addrs.push(a);
        proof {
            let objs = self.heap.slots();
            assert(objs.drop_last() == before);
            assert forall|i: int| #[trigger] live(objs, i)
                implies placed(self.space, self.addrs@[i] as int, objs[i]->0.size as int) by {
                if i < before.len() {
                    assert(objs[i] == before[i]);
                    assert(live(before, i));
                    assert(placed(old(self).space, old(self).addrs@[i] as int, before[i]->0.size as int));
                    assert(self.addrs@[i] == old(self).addrs@[i]);
                }
            }
            assert(self.addrs@.drop_last() =~= old(self).addrs@);
            assert(objs =~= before.push(Some(Object {
                color: old(self).heap.spec_alloc_color(),
                size: WEAK_CELL_SIZE,
                refs: objs.last()->0.refs,
                weak_target: Some(target),
                value: None,
            })));
        }
        Some(id)
    }

    /// The referent of weak cell `weak`, or `None` once it has been cleared.
    pub fn upgrade(&self, weak: usize) -> (r: Option<usize>)
        requires
            live(self.slots(), weak as int),
        ensures
            r == self.slots()[weak as int]->0.weak_target,
    {
        self.heap.upgrade(weak)
    }

    /// Whether object `id` is live.
    pub fn is_live(&self, id: usize) -> (r: bool)
        ensures
            r == live(self.slots(), id as int),
    {
        self.heap.is_live(id)
    }

    /// The payload of object `id`, or `None` when the slot is free or holds a
    /// weak cell.
    pub fn get(&self, id: usize) -> (r: Option<&T>)
        ensures
            r == (if live(self.slots(), id as int) {
                match self.slots()[id as int]->0.value {
                    Some(v) => Some(&v),
                    None => None,
                }
            } else {
                None
            }),
    {
        self.heap.get(id)
    }

    /// Number of collections so far.
    pub fn total_gc_cycles_count(&self) -> (r: usize)
        ensures
            r == self.objects().spec_total_gcs(),
    {
        self.heap.total_gc_cycles_count()
    }

    /// Bytes that the space counts as allocated.
    pub fn bytes_allocated(&self) -> (r: usize)
        ensures
            r == self.space().spec_bytes_allocated(),
    {
        self.space.num_bytes_allocated()
    }

    /// The heap size the space may grow to before a collection is due.
    pub fn target_footprint(&self) -> (r: usize)
        ensures
            r == self.space().spec_target_footprint(),
    {
        self.space.target_footprint()
    }
}

/// Line-level reclamation: when a collection prepares the space for a full
/// marking and then marks the lines of the surviving objects, a line of a
/// chunk in use ends marked exactly when some survivor covers it, so the
/// sweep frees every other line.
pub proof fn lemma_marked_lines_are_survivor_lines<T>(
    old: ImmixSpace,
    p: ImmixSpace,
    m: ImmixSpace,
    objs: Seq<Option<Object<T>>>,
    addrs: Seq<usize>,
    ci: int,
    i: int,
)
    requires
        old.wf(),
        p.prepared_from(&old, true),
        lines_marked(p, m, objs, addrs, addrs.len() as int),
        0 <= ci < old.spec_n_chunks(),
        old.spec_chunk_map()[ci],
        0 <= i < LINES_PER_CHUNK,
    ensures
        m.spec_chunks()[ci].spec_table()@[i] == line_in_use(old.spec_start() as int, objs, addrs, addrs.len() as int, ci, i),
{
    assert(!p.spec_chunks()[ci].spec_table()@[i]);
}

/// A collector over a fresh Immix space of `size` bytes, rounded up to whole
/// chunks, at the chunk-aligned address `aligned_start`, with the given
/// initial, minimum and maximum heap sizes.
pub fn instantiate_immix<T>(aligned_start: usize, size: usize, initial_size: usize, min_heap_size: usize, max_heap_size: usize) -> (h: Immix<T>)
    requires
        aligned_start % CHUNK_SIZE == 0,
        size + CHUNK_SIZE - 1 <= usize::MAX,
        aligned_start + spec_align_up(size as int, CHUNK_SIZE as int) <= usize::MAX,
        min_heap_size <= spec_align_up(size as int, CHUNK_SIZE as int),
    ensures
        h.wf(),
        h.slots().len() == 0,
        h.objects().weak_cells().len() == 0,
        h.objects().spec_total_gcs() == 0,
        h.space().spec_start() == aligned_start,
        h.space().spec_n_chunks() == spec_align_up(size as int, CHUNK_SIZE as int) / (CHUNK_SIZE as int),
        h.space().spec_growth_limit() == spec_align_up(size as int, CHUNK_SIZE as int),
        h.space().spec_free().len() == h.space().spec_n_chunks() * 127,
        h.space().spec_reusable().len() == 0,
        h.space().spec_bytes_allocated() == 0,
        h.space().spec_initial_size() == (if initial_size < min_heap_size { min_heap_size } else { initial_size }),
        h.space().spec_target_footprint() == h.space().spec_initial_size(),
        h.space().spec_min_heap_size() == min_heap_size,
        h.space().spec_max_heap_size() == max_heap_size,
{
    let space = ImmixSpace::new(aligned_start, size, initial_size, min_heap_size, max_heap_size);
    Immix::new(space)
}

} // verus!
