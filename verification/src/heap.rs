//! The collected heap: objects, their references, weak references and the
//! mark-and-sweep collection cycle.
//!
//! Objects are identified by the index of the slot that holds them. A slot is
//! never reused, so an identifier names one object for the whole life of the
//! heap. Strong references are traced by the collector; the referent of a weak
//! cell is not, and is cleared when the collector finds it dead.
use vstd::prelude::*;
use crate::align::{round_up, spec_align_up, lemma_eight_is_power_of_two};
use vstd::set_lib::{set_int_range, lemma_int_range, lemma_len_subset};

verus! {

/// Color given to objects that the current cycle has not reached.
pub const GC_WHITE: u8 = 0;
/// Color given to objects that the current cycle has reached.
pub const GC_BLACK: u8 = 1;
/// Color of objects that are queued for tracing.
pub const GC_GREY: u8 = 2;

/// Heap objects are allocated in granules of this many bytes.
pub const ALLOCATION_GRANULE: usize = 8;

/// Heap size used when none, or less than [MIN_REQUESTED_HEAP_SIZE], is asked
/// for: 1 GiB.
pub const DEFAULT_HEAP_SIZE: usize = 1073741824;

/// The smallest heap size a request may set: 1 MiB.
pub const MIN_REQUESTED_HEAP_SIZE: usize = 1048576;

/// The heap size for a requested `size`: the request when it is at least
/// 1 MiB, else the 1 GiB default.
pub fn configured_heap_size(size: Option<usize>) -> (r: usize)
    ensures
        r == (match size {
            Some(s) => if s >= MIN_REQUESTED_HEAP_SIZE { s } else { DEFAULT_HEAP_SIZE },
            None => DEFAULT_HEAP_SIZE,
        }),
{
    match size {
        Some(s) => if s >= MIN_REQUESTED_HEAP_SIZE { s } else { DEFAULT_HEAP_SIZE },
        None => DEFAULT_HEAP_SIZE,
    }
}

/// Payload size of a weak cell: one reference.
pub const WEAK_CELL_SIZE: usize = 8;

/// One object on the heap.
pub struct Object<T> {
    /// Mark color of the object.
    pub color: u8,
    /// Allocation size in bytes.
    pub size: usize,
    /// Objects this one references strongly.
    pub refs: Vec<usize>,
    /// For a weak cell: its referent, which the collector does not trace.
    pub weak_target: Option<usize>,
    /// The payload; a weak cell has none.
    pub value: Option<T>,
}

/// Which collection a cycle performs.
#[derive(PartialEq, Eq, Structural, Clone, Copy, Debug)]
pub enum CollectionScope {
    Full,
    Eden,
}

/// While a defer point is open, requested collections do not run.
pub struct DeferPoint {
    depth: usize,
}

/// A mark-and-sweep collected heap.
pub struct Heap<T> {
    objects: Vec<Option<Object<T>>>,
    weak_refs: Vec<usize>,
    mark_stack: Vec<usize>,
    alloc_color: u8,
    mark_color: u8,
    defers: usize,
    bytes_allocated_this_cycle: usize,
    max_eden_size: usize,
    max_heap_size: usize,
    size_after_last_collect: usize,
    heap_bytes: usize,
    total_gcs: usize,
    last_collection_scope: Option<CollectionScope>,
}

/// Slot `i` holds an object.
pub open spec fn live<T>(objs: Seq<Option<Object<T>>>, i: int) -> bool {
    0 <= i < objs.len() && objs[i] is Some
}

/// Object `i` is live and references `j` strongly.
pub open spec fn points_to<T>(objs: Seq<Option<Object<T>>>, i: int, j: int) -> bool {
    live(objs, i) && 0 <= j <= usize::MAX && objs[i]->0.refs@.contains(j as usize)
}

/// `p` is a chain of strong references that starts at a root and stays among
/// live objects.
pub open spec fn is_path<T>(objs: Seq<Option<Object<T>>>, roots: Seq<usize>, p: Seq<usize>) -> bool {
    &&& p.len() > 0
    &&& roots.contains(p[0])
    &&& forall|k: int| 0 <= k < p.len() ==> live(objs, #[trigger] p[k] as int)
    &&& forall|k: int| 0 <= k < p.len() - 1 ==> points_to(objs, #[trigger] p[k] as int, p[k + 1] as int)
}

/// Object `i` can be reached from `roots` through strong references.
pub open spec fn reachable<T>(objs: Seq<Option<Object<T>>>, roots: Seq<usize>, i: int) -> bool {
    exists|p: Seq<usize>| #[trigger] is_path(objs, roots, p) && p.last() == i
}

/// Every strong reference of every live object leads to a live object.
pub open spec fn refs_closed<T>(objs: Seq<Option<Object<T>>>) -> bool {
    forall|i: int, j: int| #[trigger] points_to(objs, i, j) ==> live(objs, j)
}

/// `s` names only live objects.
pub open spec fn all_live<T>(objs: Seq<Option<Object<T>>>, s: Seq<usize>) -> bool {
    forall|k: int| 0 <= k < s.len() ==> live(objs, #[trigger] s[k] as int)
}

/// Total allocation size of the live objects.
pub open spec fn live_bytes<T>(objs: Seq<Option<Object<T>>>) -> nat
    decreases objs.len(),
{
    if objs.len() == 0 {
        0
    } else {
        live_bytes(objs.drop_last()) + match objs.last() {
            Some(o) => o.size as nat,
            None => 0,
        }
    }
}

/// Freeing an object removes its size from the live total.
pub proof fn lemma_live_bytes_free<T>(objs: Seq<Option<Object<T>>>, i: int)
    requires
        live(objs, i),
    ensures
        live_bytes(objs.update(i, None)) + objs[i]->0.size == live_bytes(objs),
    decreases objs.len(),
{
    let u = objs.update(i, None);
    if i == objs.len() - 1 {
        assert(u.drop_last() =~= objs.drop_last());
    } else {
        assert(u.drop_last() =~= objs.drop_last().update(i, None));
        lemma_live_bytes_free(objs.drop_last(), i);
    }
}

/// Recoloring keeps the live total.
pub proof fn lemma_live_bytes_same<T>(a: Seq<Option<Object<T>>>, b: Seq<Option<Object<T>>>)
    requires
        a.len() == b.len(),
        forall|i: int| 0 <= i < a.len() ==> (#[trigger] a[i] is Some) == (b[i] is Some),
        forall|i: int| #[trigger] live(a, i) ==> b[i]->0.size == a[i]->0.size,
    ensures
        live_bytes(a) == live_bytes(b),
    decreases a.len(),
{
    if a.len() > 0 {
        let n = a.len() - 1;
        assert(a[n] is Some == b[n] is Some);
        if a[n] is Some {
            assert(live(a, n));
        }
        assert forall|i: int| #[trigger] live(a.drop_last(), i) implies b.drop_last()[i]->0.size == a.drop_last()[i]->0.size by {
            assert(live(a, i));
        }
        assert forall|i: int| 0 <= i < a.drop_last().len() implies (#[trigger] a.drop_last()[i] is Some) == (b.drop_last()[i] is Some) by {
            assert(a[i] is Some == b[i] is Some);
        }
        lemma_live_bytes_same(a.drop_last(), b.drop_last());
    }
}

/// Object `i` is live and has color `c`.
pub open spec fn colored<T>(objs: Seq<Option<Object<T>>>, i: int, c: u8) -> bool {
    live(objs, i) && objs[i]->0.color == c
}

/// `b` differs from `a` at most in the colors of its objects.
pub open spec fn recolored<T>(a: Seq<Option<Object<T>>>, b: Seq<Option<Object<T>>>) -> bool {
    &&& a.len() == b.len()
    &&& forall|i: int| 0 <= i < a.len() ==> (#[trigger] a[i] is Some) == (b[i] is Some)
    &&& forall|i: int|
        #[trigger] live(a, i) ==> {
            &&& b[i]->0.size == a[i]->0.size
            &&& b[i]->0.refs == a[i]->0.refs
            &&& b[i]->0.weak_target == a[i]->0.weak_target
            &&& b[i]->0.value == a[i]->0.value
        }
}

/// A path that ends in an object referencing `j` extends to `j`.
pub proof fn lemma_path_extend<T>(objs: Seq<Option<Object<T>>>, roots: Seq<usize>, p: Seq<usize>, j: usize)
    requires
        is_path(objs, roots, p),
        points_to(objs, p.last() as int, j as int),
        live(objs, j as int),
    ensures
        is_path(objs, roots, p.push(j)),
        reachable(objs, roots, j as int),
{
    let q = p.push(j);
    assert forall|k: int| 0 <= k < q.len() - 1 implies points_to(objs, #[trigger] q[k] as int, q[k + 1] as int) by {
        if k < p.len() - 1 {
            assert(points_to(objs, p[k] as int, p[k + 1] as int));
        }
    }
    assert forall|k: int| 0 <= k < q.len() implies live(objs, #[trigger] q[k] as int) by {
        if k < p.len() {
            assert(live(objs, p[k] as int));
        }
    }
    assert(q.last() == j);
}

/// Every object on a path is colored `c` when the roots are and `c` is closed
/// under references.
proof fn lemma_path_colored<T>(a: Seq<Option<Object<T>>>, b: Seq<Option<Object<T>>>, roots: Seq<usize>, c: u8, p: Seq<usize>, k: int)
    requires
        recolored(a, b),
        forall|r: int| 0 <= r < roots.len() ==> colored(b, #[trigger] roots[r] as int, c),
        forall|i: int, j: int| colored(b, i, c) && #[trigger] points_to(a, i, j) ==> colored(b, j, c),
        is_path(a, roots, p),
        0 <= k < p.len(),
    ensures
        colored(b, p[k] as int, c),
    decreases k,
{
    if k == 0 {
        let r = choose|r: int| 0 <= r < roots.len() && roots[r] == p[0];
        assert(colored(b, roots[r] as int, c));
    } else {
        lemma_path_colored(a, b, roots, c, p, k - 1);
        assert(points_to(a, p[k - 1] as int, p[k] as int));
    }
}

/// A set of objects that holds the roots and is closed under references holds
/// every reachable object.
pub proof fn lemma_reachable_colored<T>(a: Seq<Option<Object<T>>>, b: Seq<Option<Object<T>>>, roots: Seq<usize>, c: u8, i: int)
    requires
        recolored(a, b),
        forall|r: int| 0 <= r < roots.len() ==> colored(b, #[trigger] roots[r] as int, c),
        forall|i: int, j: int| colored(b, i, c) && #[trigger] points_to(a, i, j) ==> colored(b, j, c),
        reachable(a, roots, i),
    ensures
        colored(b, i, c),
{
    let p = choose|p: Seq<usize>| #[trigger] is_path(a, roots, p) && p.last() == i;
    lemma_path_colored(a, b, roots, c, p, p.len() - 1);
}

impl<T> Heap<T> {
    /// The object slots.
    pub closed spec fn slots(&self) -> Seq<Option<Object<T>>> {
        self.objects@
    }

    /// The registered weak cells, in registration order.
    pub closed spec fn weak_cells(&self) -> Seq<usize> {
        self.weak_refs@
    }

    /// Color that newly allocated and surviving objects carry.
    pub closed spec fn spec_alloc_color(&self) -> u8 {
        self.alloc_color
    }

    /// Number of collection cycles run so far.
    pub closed spec fn spec_total_gcs(&self) -> nat {
        self.total_gcs as nat
    }

    /// Number of open defer points.
    pub closed spec fn spec_defers(&self) -> nat {
        self.defers as nat
    }

    /// Bytes allocated since the last collection.
    pub closed spec fn spec_bytes_allocated(&self) -> nat {
        self.bytes_allocated_this_cycle as nat
    }

    /// Allocation budget between collections.
    pub closed spec fn spec_max_eden_size(&self) -> nat {
        self.max_eden_size as nat
    }

    /// Heap size after the last collection, in bytes.
    pub closed spec fn spec_size_after_last_collect(&self) -> nat {
        self.size_after_last_collect as nat
    }

    /// The heap's invariant.
    pub closed spec fn wf(&self) -> bool {
        &&& self.alloc_color != self.mark_color
        &&& (self.alloc_color == GC_WHITE || self.alloc_color == GC_BLACK)
        &&& (self.mark_color == GC_WHITE || self.mark_color == GC_BLACK)
        &&& self.mark_stack@.len() == 0
        &&& refs_closed(self.objects@)
        &&& forall|i: int| #[trigger] live(self.objects@, i) ==> self.objects@[i]->0.color == self.alloc_color
        &&& all_live(self.objects@, self.weak_refs@)
        &&& forall|i: int|
            #[trigger] live(self.objects@, i) && self.objects@[i]->0.weak_target is Some
                ==> live(self.objects@, self.objects@[i]->0.weak_target->0 as int)
                    && self.weak_refs@.contains(i as usize)
        &&& self.heap_bytes == live_bytes(self.objects@)
    }

    /// Total allocation size of the live objects.
    pub closed spec fn spec_heap_bytes(&self) -> nat {
        self.heap_bytes as nat
    }

    /// Creates an empty heap whose collections may be triggered once
    /// `max_eden_size` bytes have been allocated.
    pub fn new(max_eden_size: usize, max_heap_size: usize) -> (h: Self)
        ensures
            h.wf(),
            h.slots().len() == 0,
            h.weak_cells().len() == 0,
            h.spec_defers() == 0,
            h.spec_total_gcs() == 0,
            h.spec_bytes_allocated() == 0,
            h.spec_max_eden_size() == max_eden_size,
            h.spec_alloc_color() == GC_WHITE,
    {
        Heap {
            objects: Vec::new(),
            weak_refs: Vec::new(),
            mark_stack: Vec::new(),
            alloc_color: GC_WHITE,
            mark_color: GC_BLACK,
            defers: 0,
            bytes_allocated_this_cycle: 0,
            max_eden_size,
            max_heap_size,
            size_after_last_collect: 0,
            heap_bytes: 0,
            total_gcs: 0,
            last_collection_scope: None,
        }
    }
}

impl<T> Heap<T> {
    /// Allocation size of a request of `size` bytes.
    pub open spec fn spec_alloc_size(size: nat) -> int {
        spec_align_up(size as int, ALLOCATION_GRANULE as int)
    }

    /// Allocates an object holding `value` with strong references `refs` and a
    /// payload of `size` bytes; returns its identifier. The object gets the
    /// allocation color and the allocation size is added to this cycle's count.
    pub fn allocate(&mut self, value: T, refs: Vec<usize>, size: usize) -> (id: usize)
        requires
            old(self).wf(),
            all_live(old(self).slots(), refs@),
            size + ALLOCATION_GRANULE <= usize::MAX,
            old(self).spec_bytes_allocated() + Self::spec_alloc_size(size as nat) <= usize::MAX,
            old(self).spec_heap_bytes() + Self::spec_alloc_size(size as nat) <= usize::MAX,
        ensures
            final(self).wf(),
            id == old(self).slots().len(),
            final(self).slots() == old(self).slots().push(Some(Object {
                color: old(self).spec_alloc_color(),
                size: Self::spec_alloc_size(size as nat) as usize,
                refs,
                weak_target: None,
                value: Some(value),
            })),
            final(self).weak_cells() == old(self).weak_cells(),
            final(self).spec_alloc_color() == old(self).spec_alloc_color(),
            final(self).spec_bytes_allocated() == old(self).spec_bytes_allocated() + Self::spec_alloc_size(size as nat),
            final(self).spec_heap_bytes() == old(self).spec_heap_bytes() + Self::spec_alloc_size(size as nat),
            final(self).spec_total_gcs() == old(self).spec_total_gcs(),
            final(self).spec_defers() == old(self).spec_defers(),
            final(self).spec_max_eden_size() == old(self).spec_max_eden_size(),
    {
        proof {
            lemma_eight_is_power_of_two();
        }
        let size = round_up(size, ALLOCATION_GRANULE);
        let id = self.objects.len();
        let ghost old_objs = self.objects@;
        self.objects.push(Some(Object { color: self.alloc_color, size, refs, weak_target: None, value: Some(value) }));
        self.bytes_allocated_this_cycle = self.bytes_allocated_this_cycle + size;
        self.heap_bytes = self.heap_bytes + size;
        proof {
            let objs = self.objects@;
            assert(objs.drop_last() =~= old_objs);
            assert forall|i: int, j: int| #[trigger] points_to(objs, i, j) implies live(objs, j) by {
                if i < old_objs.len() {
                    assert(points_to(old_objs, i, j));
                } else {
                    let k = choose|k: int| 0 <= k < objs[i]->0.refs@.len() && objs[i]->0.refs@[k] == j as usize;
                    assert(live(old_objs, objs[i]->0.refs@[k] as int));
                }
            }
            assert forall|i: int| #[trigger] live(objs, i) implies objs[i]->0.color == self.alloc_color by {
                if i < old_objs.len() {
                    assert(live(old_objs, i));
                }
            }
            assert forall|k: int| 0 <= k < self.weak_refs@.len() implies live(objs, #[trigger] self.weak_refs@[k] as int) by {
                assert(live(old_objs, self.weak_refs@[k] as int));
            }
            assert forall|i: int|
                #[trigger] live(objs, i) && objs[i]->0.weak_target is Some
                    implies live(objs, objs[i]->0.weak_target->0 as int) && self.weak_refs@.contains(i as usize) by {
                assert(live(old_objs, i));
            }
        }
        id
    }
}

impl<T> Heap<T> {
    /// Allocates a weak cell whose referent is `target` and registers it with
    /// the collector; returns the cell's identifier.
    pub fn allocate_weak(&mut self, target: usize) -> (id: usize)
        requires
            old(self).wf(),
            live(old(self).slots(), target as int),
            old(self).spec_bytes_allocated() + WEAK_CELL_SIZE <= usize::MAX,
            old(self).spec_heap_bytes() + WEAK_CELL_SIZE <= usize::MAX,
        ensures
            final(self).wf(),
            id == old(self).slots().len(),
            final(self).slots().len() == old(self).slots().len() + 1,
            final(self).slots().drop_last() == old(self).slots(),
            final(self).slots().last() is Some,
            final(self).slots().last()->0.color == old(self).spec_alloc_color(),
            final(self).slots().last()->0.size == WEAK_CELL_SIZE,
            final(self).slots().last()->0.refs@ == Seq::<usize>::empty(),
            final(self).slots().last()->0.weak_target == Some(target),
            final(self).slots().last()->0.value is None,
            final(self).weak_cells() == old(self).weak_cells().push(id),
            final(self).spec_alloc_color() == old(self).spec_alloc_color(),
            final(self).spec_bytes_allocated() == old(self).spec_bytes_allocated() + WEAK_CELL_SIZE,
            final(self).spec_heap_bytes() == old(self).spec_heap_bytes() + WEAK_CELL_SIZE,
            final(self).spec_total_gcs() == old(self).spec_total_gcs(),
            final(self).spec_defers() == old(self).spec_defers(),
            final(self).spec_max_eden_size() == old(self).spec_max_eden_size(),
    {
        let id = self.objects.len();
        let ghost old_objs = self.objects@;
        let refs: Vec<usize> = Vec::new();
        self.objects.push(
            Some(Object { color: self.alloc_color, size: WEAK_CELL_SIZE, refs, weak_target: Some(target), value: None }),
        );
        self.weak_refs.push(id);
        self.bytes_allocated_this_cycle = self.bytes_allocated_this_cycle + WEAK_CELL_SIZE;
        self.heap_bytes = self.heap_bytes + WEAK_CELL_SIZE;
        proof {
            assert(self.objects@.drop_last() =~= old_objs);
            let objs = self.objects@;
            assert forall|i: int, j: int| #[trigger] points_to(objs, i, j) implies live(objs, j) by {
                if i < old_objs.len() {
                    assert(points_to(old_objs, i, j));
                }
            }
            assert forall|i: int| #[trigger] live(objs, i) implies objs[i]->0.color == self.alloc_color by {
                if i < old_objs.len() {
                    assert(live(old_objs, i));
                }
            }
            assert forall|k: int| 0 <= k < self.weak_refs@.len() implies live(objs, #[trigger] self.weak_refs@[k] as int) by {
                if k < self.weak_refs@.len() - 1 {
                    assert(live(old_objs, self.weak_refs@[k] as int));
                }
            }
            assert forall|i: int|
                #[trigger] live(objs, i) && objs[i]->0.weak_target is Some
                    implies live(objs, objs[i]->0.weak_target->0 as int) && self.weak_refs@.contains(i as usize) by {
                if i < old_objs.len() {
                    assert(live(old_objs, i));
                    let k = choose|k: int| 0 <= k < old(self).weak_refs@.len() && old(self).weak_refs@[k] == i as usize;
                    assert(self.weak_refs@[k] == i as usize);
                } else {
                    assert(self.weak_refs@[self.weak_refs@.len() - 1] == i as usize);
                }
            }
        }
        id
    }

    /// The referent of weak cell `weak`, or `None` once it has been cleared.
    pub fn upgrade(&self, weak: usize) -> (r: Option<usize>)
        requires
            live(self.slots(), weak as int),
        ensures
            r == self.slots()[weak as int]->0.weak_target,
    {
        match &self.objects[weak] {
            Some(o) => o.weak_target,
            None => None,
        }
    }

    /// The payload of object `id`, or `None` when the slot is free or holds a
    /// weak cell.
    pub fn get(&self, id: usize) -> (r: Option<&T>)
        ensures
            r == (if live(self.slots(), id as int) {
                match self.slots()[id as int]->0.value {
                    Some(v) => Some(&v),
                    None => None,
                }
            } else {
                None
            }),
    {
        if id < self.objects.len() {
            match &self.objects[id] {
                Some(o) => match &o.value {
                    Some(v) => Some(v),
                    None => None,
                },
                None => None,
            }
        } else {
            None
        }
    }

    /// Whether object `id` is live.
    pub fn is_live(&self, id: usize) -> (r: bool)
        ensures
            r == live(self.slots(), id as int),
    {
        id < self.objects.len() && self.objects[id].is_some()
    }

    /// The allocation size of object `id`, or `None` when the slot is free.
    pub fn object_size(&self, id: usize) -> (r: Option<usize>)
        ensures
            r == (if live(self.slots(), id as int) { Some(self.slots()[id as int]->0.size) } else { None }),
    {
        if id < self.objects.len() {
            match &self.objects[id] {
                Some(o) => Some(o.size),
                None => None,
            }
        } else {
            None
        }
    }

    /// Total allocation size of the live objects.
    pub fn heap_bytes(&self) -> (r: usize)
        ensures
            r == self.spec_heap_bytes(),
    {
        self.heap_bytes
    }
}

impl<T> Heap<T> {
    /// Marks object `id` when it still has the allocation color and queues it
    /// for tracing (the visitor's `mark_object`).
    fn mark_object(&mut self, id: usize)
        requires
            live(old(self).objects@, id as int),
        ensures
            recolored(old(self).objects@, final(self).objects@),
            forall|i: int| 0 <= i < old(self).objects@.len() && i != id ==> final(self).objects@[i] == old(self).objects@[i],
            colored(old(self).objects@, id as int, old(self).alloc_color) ==> {
                &&& colored(final(self).objects@, id as int, old(self).mark_color)
                &&& final(self).mark_stack@ == old(self).mark_stack@.push(id)
            },
            !colored(old(self).objects@, id as int, old(self).alloc_color) ==> {
                &&& final(self).objects@ == old(self).objects@
                &&& final(self).mark_stack@ == old(self).mark_stack@
            },
            final(self).weak_refs == old(self).weak_refs,
            final(self).alloc_color == old(self).alloc_color,
            final(self).mark_color == old(self).mark_color,
            final(self).defers == old(self).defers,
            final(self).bytes_allocated_this_cycle == old(self).bytes_allocated_this_cycle,
            final(self).max_eden_size == old(self).max_eden_size,
            final(self).max_heap_size == old(self).max_heap_size,
            final(self).size_after_last_collect == old(self).size_after_last_collect,
            final(self).heap_bytes == old(self).heap_bytes,
            final(self).total_gcs == old(self).total_gcs,
            final(self).last_collection_scope == old(self).last_collection_scope,
    {
        let unmarked = match &self.objects[id] {
            Some(o) => o.color == self.alloc_color,
            None => false,
        };
        if unmarked {
            let mark = self.mark_color;
            match &mut self.objects[id] {
                Some(o) => {
                    o.color = mark;
                },
                None => {},
            }
            self.mark_stack.push(id);
            proof {
                assert(live(old(self).objects@, id as int));
            }
        }
    }
}

/// The objects colored `c`.
pub open spec fn colored_set<T>(objs: Seq<Option<Object<T>>>, c: u8) -> Set<int> {
    Set::new(|i: int| colored(objs, i, c))
}

proof fn lemma_colored_set_bounded<T>(objs: Seq<Option<Object<T>>>, c: u8)
    ensures
        colored_set(objs, c).finite(),
        colored_set(objs, c).len() <= objs.len(),
{
    lemma_int_range(0, objs.len() as int);
    assert(colored_set(objs, c).subset_of(set_int_range(0, objs.len() as int)));
    lemma_len_subset(colored_set(objs, c), set_int_range(0, objs.len() as int));
}

/// The state of a marking in progress: `a` is the heap before marking, `b` the
/// heap now, `stack` the queued objects and `done` the roots already marked.
/// Objects other than `scanning` that are marked and not queued have all their
/// references marked.
pub open spec fn marking<T>(
    a: Seq<Option<Object<T>>>,
    b: Seq<Option<Object<T>>>,
    stack: Seq<usize>,
    roots: Seq<usize>,
    done: int,
    alloc: u8,
    mark: u8,
    scanning: int,
) -> bool {
    &&& recolored(a, b)
    &&& refs_closed(a)
    &&& all_live(a, roots)
    &&& alloc != mark
    &&& 0 <= done <= roots.len()
    &&& forall|i: int| #[trigger] live(a, i) ==> colored(b, i, alloc) || colored(b, i, mark)
    &&& forall|s: int| 0 <= s < stack.len() ==> colored(b, #[trigger] stack[s] as int, mark)
    &&& forall|i: int| #[trigger] colored(b, i, mark) ==> reachable(a, roots, i)
    &&& forall|r: int| 0 <= r < done ==> colored(b, #[trigger] roots[r] as int, mark)
    &&& forall|i: int, j: int|
        colored(b, i, mark) && !stack.contains(i as usize) && i != scanning && #[trigger] points_to(a, i, j)
            ==> colored(b, j, mark)
}

impl<T> Heap<T> {
    /// Marks every object reachable from `roots`: the roots are marked first,
    /// then the mark stack is drained, the references of each popped object
    /// being marked in turn.
    fn trace_from(&mut self, roots: &Vec<usize>)
        requires
            old(self).mark_stack@.len() == 0,
            old(self).alloc_color != old(self).mark_color,
            refs_closed(old(self).objects@),
            forall|i: int| #[trigger] live(old(self).objects@, i) ==> old(self).objects@[i]->0.color == old(self).alloc_color,
            all_live(old(self).objects@, roots@),
        ensures
            recolored(old(self).objects@, final(self).objects@),
            forall|i: int| #[trigger] live(old(self).objects@, i) ==>
                (colored(final(self).objects@, i, old(self).mark_color) <==> reachable(old(self).objects@, roots@, i)),
            forall|i: int| #[trigger] live(old(self).objects@, i) && !reachable(old(self).objects@, roots@, i) ==>
                colored(final(self).objects@, i, old(self).alloc_color),
            final(self).mark_stack@.len() == 0,
            final(self).weak_refs == old(self).weak_refs,
            final(self).alloc_color == old(self).alloc_color,
            final(self).mark_color == old(self).mark_color,
            final(self).defers == old(self).defers,
            final(self).bytes_allocated_this_cycle == old(self).bytes_allocated_this_cycle,
            final(self).max_eden_size == old(self).max_eden_size,
            final(self).max_heap_size == old(self).max_heap_size,
            final(self).size_after_last_collect == old(self).size_after_last_collect,
            final(self).heap_bytes == old(self).heap_bytes,
            final(self).total_gcs == old(self).total_gcs,
            final(self).last_collection_scope == old(self).last_collection_scope,
    {
        let ghost a = self.objects@;
        let ghost alloc = self.alloc_color;
        let ghost mark = self.mark_color;
        proof {
            assert forall|i: int| #[trigger] colored(self.objects@, i, mark) implies reachable(a, roots@, i) by {
                assert(live(a, i));
            }
        }
        let mut k: usize = 0;
        while k < roots.len()
            invariant
                marking(a, self.objects@, self.mark_stack@, roots@, k as int, alloc, mark, -1),
                self.alloc_color == alloc,
                self.mark_color == mark,
                self.weak_refs == old(self).weak_refs,
                self.defers == old(self).defers,
                self.bytes_allocated_this_cycle == old(self).bytes_allocated_this_cycle,
                self.max_eden_size == old(self).max_eden_size,
                self.max_heap_size == old(self).max_heap_size,
                self.size_after_last_collect == old(self).size_after_last_collect,
                self.heap_bytes == old(self).heap_bytes,
                self.total_gcs == old(self).total_gcs,
                self.last_collection_scope == old(self).last_collection_scope,
            decreases roots.len() - k,
        {
            let r = roots[k];
            let ghost b = self.objects@;
            let ghost st = self.mark_stack@;
            proof {
                assert(live(a, r as int));
            }
            self.mark_object(r);
            proof {
                let b2 = self.objects@;
                let p = seq![r];
                assert(roots@[k as int] == r);
                assert(is_path(a, roots@, p));
                assert(reachable(a, roots@, r as int));
                assert forall|i: int| #[trigger] live(a, i) implies colored(b2, i, alloc) || colored(b2, i, mark) by {
                    if i != r {
                        assert(colored(b, i, alloc) || colored(b, i, mark));
                    }
                }
                assert forall|i: int| #[trigger] colored(b2, i, mark) implies reachable(a, roots@, i) by {
                    if i != r {
                        assert(colored(b, i, mark));
                    }
                }
                assert forall|q: int| 0 <= q < k + 1 implies colored(b2, #[trigger] roots@[q] as int, mark) by {
                    if q < k && roots@[q] != r {
                        assert(colored(b, roots@[q] as int, mark));
                    }
                }
                assert forall|s: int| 0 <= s < self.mark_stack@.len() implies colored(b2, #[trigger] self.mark_stack@[s] as int, mark) by {
                    if s < st.len() {
                        assert(colored(b, st[s] as int, mark));
                    }
                }
                assert forall|i: int, j: int|
                    colored(b2, i, mark) && !self.mark_stack@.contains(i as usize) && i != -1 && #[trigger] points_to(a, i, j)
                        implies colored(b2, j, mark) by {
                    if i != r {
                        assert(!st.contains(i as usize)) by {
                            if st.contains(i as usize) {
                                let s = choose|s: int| 0 <= s < st.len() && st[s] == i as usize;
                                assert(self.mark_stack@[s] == st[s]);
                            }
                        }
                        assert(colored(b, i, mark));
                        assert(colored(b, j, mark));
                    } else {
                        if colored(b, r as int, alloc) {
                            assert(self.mark_stack@[st.len() as int] == r);
                            assert(self.mark_stack@.contains(r));
                        } else {
                            assert(!st.contains(i as usize));
                            assert(colored(b, i, mark));
                            assert(colored(b, j, mark));
                        }
                    }
                }
            }
            k = k + 1;
        }
        proof {
            lemma_colored_set_bounded(self.objects@, mark);
        }
        while self.mark_stack.len() > 0
            invariant
                marking(a, self.objects@, self.mark_stack@, roots@, roots@.len() as int, alloc, mark, -1),
                colored_set(self.objects@, mark).finite(),
                colored_set(self.objects@, mark).len() <= a.len(),
                self.alloc_color == alloc,
                self.mark_color == mark,
                self.weak_refs == old(self).weak_refs,
                self.defers == old(self).defers,
                self.bytes_allocated_this_cycle == old(self).bytes_allocated_this_cycle,
                self.max_eden_size == old(self).max_eden_size,
                self.max_heap_size == old(self).max_heap_size,
                self.size_after_last_collect == old(self).size_after_last_collect,
                self.heap_bytes == old(self).heap_bytes,
                self.total_gcs == old(self).total_gcs,
                self.last_collection_scope == old(self).last_collection_scope,
            decreases a.len() - colored_set(self.objects@, mark).len(), self.mark_stack@.len(),
        {
            let ghost st0 = self.mark_stack@;
            let o = self.mark_stack.pop().unwrap();
            let ghost base_stack = self.mark_stack@.len();
            let ghost base_marked = colored_set(self.objects@, mark).len();
            proof {
                assert(st0[st0.len() - 1] == o);
                assert(colored(self.objects@, o as int, mark));
                assert forall|i: int, j: int|
                    colored(self.objects@, i, mark) && !self.mark_stack@.contains(i as usize) && i != o as int && #[trigger] points_to(a, i, j)
                        implies colored(self.objects@, j, mark) by {
                    assert(!st0.contains(i as usize)) by {
                        if st0.contains(i as usize) {
                            let s = choose|s: int| 0 <= s < st0.len() && st0[s] == i as usize;
                            if s < st0.len() - 1 {
                                assert(self.mark_stack@[s] == st0[s]);
                            }
                        }
                    }
                }
                assert forall|s: int| 0 <= s < self.mark_stack@.len() implies colored(self.objects@, #[trigger] self.mark_stack@[s] as int, mark) by {
                    assert(self.mark_stack@[s] == st0[s]);
                }
            }
            let nrefs = match &self.objects[o] {
                Some(ob) => ob.refs.len(),
                None => 0,
            };
            let mut c: usize = 0;
            while c < nrefs
                invariant
                    marking(a, self.objects@, self.mark_stack@, roots@, roots@.len() as int, alloc, mark, o as int),
                    colored(self.objects@, o as int, mark),
                    live(a, o as int),
                    nrefs == a[o as int]->0.refs@.len(),
                    0 <= c <= nrefs,
                    forall|q: int| 0 <= q < c ==> colored(self.objects@, #[trigger] a[o as int]->0.refs@[q] as int, mark),
                    colored_set(self.objects@, mark).finite(),
                    colored_set(self.objects@, mark).len() <= a.len(),
                    self.mark_stack@.len() >= base_stack,
                    self.mark_stack@.len() - base_stack == colored_set(self.objects@, mark).len() - base_marked,
                    self.alloc_color == alloc,
                    self.mark_color == mark,
                    self.weak_refs == old(self).weak_refs,
                    self.defers == old(self).defers,
                    self.bytes_allocated_this_cycle == old(self).bytes_allocated_this_cycle,
                    self.max_eden_size == old(self).max_eden_size,
                    self.max_heap_size == old(self).max_heap_size,
                    self.size_after_last_collect == old(self).size_after_last_collect,
                    self.heap_bytes == old(self).heap_bytes,
                    self.total_gcs == old(self).total_gcs,
                    self.last_collection_scope == old(self).last_collection_scope,
                decreases nrefs - c,
            {
                let child = match &self.objects[o] {
                    Some(ob) => ob.refs[c],
                    None => 0,
                };
                let ghost b = self.objects@;
                let ghost st = self.mark_stack@;
                proof {
                    assert(child == a[o as int]->0.refs@[c as int]);
                    assert(a[o as int]->0.refs@.contains(child));
                    assert(points_to(a, o as int, child as int));
                    assert(live(a, child as int));
                }
                self.mark_object(child);
                proof {
                    let b2 = self.objects@;
                    let p = choose|p: Seq<usize>| #[trigger] is_path(a, roots@, p) && p.last() == o as int;
                    assert(reachable(a, roots@, o as int));
                    lemma_path_extend(a, roots@, p, child);
                    if colored(b, child as int, alloc) {
                        assert(colored_set(b2, mark) =~= colored_set(b, mark).insert(child as int));
                        assert(!colored_set(b, mark).contains(child as int));
                    } else {
                        assert(b2 == b);
                    }
                    lemma_colored_set_bounded(b2, mark);
                    assert forall|i: int| #[trigger] live(a, i) implies colored(b2, i, alloc) || colored(b2, i, mark) by {
                        if i != child {
                            assert(colored(b, i, alloc) || colored(b, i, mark));
                        }
                    }
                    assert forall|i: int| #[trigger] colored(b2, i, mark) implies reachable(a, roots@, i) by {
                        if i != child {
                            assert(colored(b, i, mark));
                        }
                    }
                    assert forall|q: int| 0 <= q < roots@.len() implies colored(b2, #[trigger] roots@[q] as int, mark) by {
                        if roots@[q] != child {
                            assert(colored(b, roots@[q] as int, mark));
                        }
                    }
                    assert forall|q: int| 0 <= q < c + 1 implies colored(b2, #[trigger] a[o as int]->0.refs@[q] as int, mark) by {
                        if a[o as int]->0.refs@[q] != child {
                            assert(colored(b, a[o as int]->0.refs@[q] as int, mark));
                        }
                    }
                    assert forall|s: int| 0 <= s < self.mark_stack@.len() implies colored(b2, #[trigger] self.mark_stack@[s] as int, mark) by {
                        if s < st.len() {
                            assert(colored(b, st[s] as int, mark));
                        }
                    }
                    assert forall|i: int, j: int|
                        colored(b2, i, mark) && !self.mark_stack@.contains(i as usize) && i != o as int && #[trigger] points_to(a, i, j)
                            implies colored(b2, j, mark) by {
                        if i != child {
                            assert(!st.contains(i as usize)) by {
                                if st.contains(i as usize) {
                                    let s = choose|s: int| 0 <= s < st.len() && st[s] == i as usize;
                                    assert(self.mark_stack@[s] == st[s]);
                                }
                            }
                            assert(colored(b, i, mark));
                            assert(colored(b, j, mark));
                        } else {
                            if colored(b, child as int, alloc) {
                                assert(self.mark_stack@[st.len() as int] == child);
                                assert(self.mark_stack@.contains(child));
                            } else {
                                assert(!st.contains(i as usize));
                                assert(colored(b, i, mark));
                                assert(colored(b, j, mark));
                            }
                        }
                    }
                }
                c = c + 1;
            }
            proof {
                let b = self.objects@;
                assert forall|i: int, j: int|
                    colored(b, i, mark) && !self.mark_stack@.contains(i as usize) && i != -1 && #[trigger] points_to(a, i, j)
                        implies colored(b, j, mark) by {
                    if i == o as int {
                        let q = choose|q: int| 0 <= q < a[o as int]->0.refs@.len() && a[o as int]->0.refs@[q] == j as usize;
                        assert(colored(b, a[o as int]->0.refs@[q] as int, mark));
                    }
                }
            }
        }
        proof {
            let b = self.objects@;
            assert forall|i: int| #[trigger] live(a, i) implies
                (colored(b, i, mark) <==> reachable(a, roots@, i)) by {
                if reachable(a, roots@, i) {
                    lemma_reachable_colored(a, b, roots@, mark, i);
                }
            }
            assert forall|i: int| #[trigger] live(a, i) && !reachable(a, roots@, i) implies colored(b, i, alloc) by {
                if colored(b, i, mark) {
                    assert(reachable(a, roots@, i));
                }
                assert(colored(b, i, alloc) || colored(b, i, mark));
            }
        }
    }
}

/// A weak referent `t` after a collection in which the objects colored `mark`
/// in `b` survived.
pub open spec fn cleared_by_color<T>(b: Seq<Option<Object<T>>>, mark: u8, t: Option<usize>) -> Option<usize> {
    match t {
        Some(x) => if colored(b, x as int, mark) {
            Some(x)
        } else {
            None
        },
        None => None,
    }
}

/// A weak referent `t` after a collection from `roots`: kept when reachable,
/// cleared otherwise.
pub open spec fn cleared_target<T>(objs: Seq<Option<Object<T>>>, roots: Seq<usize>, t: Option<usize>) -> Option<usize> {
    match t {
        Some(x) => if reachable(objs, roots, x as int) {
            Some(x)
        } else {
            None
        },
        None => None,
    }
}

/// The weak cells that a collection keeps: those colored `mark`.
pub open spec fn marked_cell<T>(b: Seq<Option<Object<T>>>, mark: u8) -> spec_fn(usize) -> bool {
    |c: usize| colored(b, c as int, mark)
}

impl<T> Heap<T> {
    /// Clears the referents that marking did not reach and drops the weak cells
    /// that are themselves dead from the registry.
    fn update_weak_references(&mut self, Ghost(a): Ghost<Seq<Option<Object<T>>>>)
        requires
            recolored(a, old(self).objects@),
            forall|i: int| #[trigger] live(a, i) ==>
                colored(old(self).objects@, i, old(self).mark_color) || colored(old(self).objects@, i, old(self).alloc_color),
            all_live(a, old(self).weak_refs@),
            forall|i: int|
                #[trigger] live(a, i) && a[i]->0.weak_target is Some
                    ==> live(a, a[i]->0.weak_target->0 as int) && old(self).weak_refs@.contains(i as usize),
        ensures
            final(self).objects@.len() == a.len(),
            forall|i: int| 0 <= i < a.len() ==> (#[trigger] final(self).objects@[i] is Some) == (a[i] is Some),
            forall|i: int| #[trigger] live(a, i) ==> {
                &&& final(self).objects@[i]->0.size == a[i]->0.size
                &&& final(self).objects@[i]->0.refs == a[i]->0.refs
                &&& final(self).objects@[i]->0.value == a[i]->0.value
                &&& final(self).objects@[i]->0.color == old(self).objects@[i]->0.color
                &&& final(self).objects@[i]->0.weak_target == (if colored(old(self).objects@, i, old(self).mark_color) {
                    cleared_by_color(old(self).objects@, old(self).mark_color, a[i]->0.weak_target)
                } else {
                    a[i]->0.weak_target
                })
            },
            final(self).weak_refs@ == old(self).weak_refs@.filter(marked_cell(old(self).objects@, old(self).mark_color)),
            final(self).mark_stack == old(self).mark_stack,
            final(self).alloc_color == old(self).alloc_color,
            final(self).mark_color == old(self).mark_color,
            final(self).defers == old(self).defers,
            final(self).bytes_allocated_this_cycle == old(self).bytes_allocated_this_cycle,
            final(self).max_eden_size == old(self).max_eden_size,
            final(self).max_heap_size == old(self).max_heap_size,
            final(self).size_after_last_collect == old(self).size_after_last_collect,
            final(self).heap_bytes == old(self).heap_bytes,
            final(self).total_gcs == old(self).total_gcs,
            final(self).last_collection_scope == old(self).last_collection_scope,
    {
        let ghost b0 = self.objects@;
        let ghost mark = self.mark_color;
        let ghost pred = marked_cell(b0, mark);
        let ghost w = self.weak_refs@;
        let mut kept: Vec<usize> = Vec::new();
        let mut idx: usize = 0;
        let nobj = self.objects.len();
        proof {
            reveal(Seq::filter);
            assert(w.take(0).filter(pred) =~= Seq::<usize>::empty());
        }
        while idx < self.weak_refs.len()
            invariant
                0 <= idx <= w.len(),
                self.weak_refs@ == w,
                self.mark_color == mark,
                self.objects@.len() == a.len(),
                a.len() == nobj,
                recolored(a, b0),
                all_live(a, w),
                forall|i: int| #[trigger] live(a, i) ==> colored(b0, i, mark) || colored(b0, i, old(self).alloc_color),
                forall|i: int|
                    #[trigger] live(a, i) && a[i]->0.weak_target is Some ==> live(a, a[i]->0.weak_target->0 as int),
                forall|i: int| 0 <= i < a.len() ==> (#[trigger] self.objects@[i] is Some) == (a[i] is Some),
                forall|i: int| #[trigger] live(a, i) ==> {
                    &&& self.objects@[i]->0.size == a[i]->0.size
                    &&& self.objects@[i]->0.refs == a[i]->0.refs
                    &&& self.objects@[i]->0.value == a[i]->0.value
                    &&& self.objects@[i]->0.color == b0[i]->0.color
                    &&& self.objects@[i]->0.weak_target == (if colored(b0, i, mark) && w.take(idx as int).contains(i as usize) {
                        cleared_by_color(b0, mark, a[i]->0.weak_target)
                    } else {
                        a[i]->0.weak_target
                    })
                },
                kept@ == w.take(idx as int).filter(pred),
                pred == marked_cell(b0, mark),
                self.mark_stack == old(self).mark_stack,
                self.alloc_color == old(self).alloc_color,
                self.defers == old(self).defers,
                self.bytes_allocated_this_cycle == old(self).bytes_allocated_this_cycle,
                self.max_eden_size == old(self).max_eden_size,
                self.max_heap_size == old(self).max_heap_size,
                self.size_after_last_collect == old(self).size_after_last_collect,
                self.heap_bytes == old(self).heap_bytes,
                self.total_gcs == old(self).total_gcs,
                self.last_collection_scope == old(self).last_collection_scope,
            decreases w.len() - idx,
        {
            let cell = self.weak_refs[idx];
            proof {
                assert(live(a, w[idx as int] as int));
            }
            let cell_marked = match &self.objects[cell] {
                Some(o) => o.color == self.mark_color,
                None => false,
            };
            let ghost before = self.objects@;
            if cell_marked {
                let target = match &self.objects[cell] {
                    Some(o) => o.weak_target,
                    None => None,
                };
                let new_target = match target {
                    Some(t) => {
                        proof {
                            if w.take(idx as int).contains(cell) {
                                if a[cell as int]->0.weak_target is Some {
                                    assert(live(a, a[cell as int]->0.weak_target->0 as int));
                                }
                            } else {
                                assert(live(a, a[cell as int]->0.weak_target->0 as int));
                            }
                        }
                        let alive = match &self.objects[t] {
                            Some(o) => o.color == self.mark_color,
                            None => false,
                        };
                        proof {
                            assert(live(a, t as int));
                            assert(b0[t as int] is Some);
                            assert(alive == colored(b0, t as int, mark));
                        }
                        if alive {
                            Some(t)
                        } else {
                            None
                        }
                    },
                    None => None,
                };
                proof {
                    assert(new_target == cleared_by_color(b0, mark, a[cell as int]->0.weak_target));
                }
                match &mut self.objects[cell] {
                    Some(o) => {
                        o.weak_target = new_target;
                    },
                    None => {},
                }
                kept.push(cell);
            }
            proof {
                reveal(Seq::filter);
                assert(w.take(idx as int + 1) =~= w.take(idx as int).push(cell));
                assert(w.take(idx as int + 1).drop_last() =~= w.take(idx as int));
                assert(w.take(idx as int + 1).last() == cell);
                assert(a[cell as int] is Some);
                assert(live(a, cell as int));
                assert(b0[cell as int] is Some);
                assert(colored(b0, cell as int, mark) == cell_marked);
                assert(pred(cell) == colored(b0, cell as int, mark));
                assert(w.take(idx as int + 1).filter(pred) == (if pred(cell) {
                    w.take(idx as int).filter(pred).push(cell)
                } else {
                    w.take(idx as int).filter(pred)
                }));
                assert forall|i: int| #[trigger] live(a, i) implies {
                    &&& self.objects@[i]->0.size == a[i]->0.size
                    &&& self.objects@[i]->0.refs == a[i]->0.refs
                    &&& self.objects@[i]->0.value == a[i]->0.value
                    &&& self.objects@[i]->0.color == b0[i]->0.color
                    &&& self.objects@[i]->0.weak_target == (if colored(b0, i, mark) && w.take(idx as int + 1).contains(i as usize) {
                        cleared_by_color(b0, mark, a[i]->0.weak_target)
                    } else {
                        a[i]->0.weak_target
                    })
                } by {
                    assert(w.take(idx as int + 1).contains(i as usize) == (w.take(idx as int).contains(i as usize) || i as usize == cell));
                    assert(a[i] is Some);
                    assert(before[i] is Some);
                    if i == cell as int {
                        if cell_marked {
                            assert(self.objects@[i]->0.weak_target == cleared_by_color(b0, mark, a[i]->0.weak_target));
                        } else {
                            assert(self.objects@ == before);
                        }
                    } else {
                        assert(self.objects@[i] == before[i]);
                        assert(i as usize != cell);
                        assert(w.take(idx as int + 1).contains(i as usize) == w.take(idx as int).contains(i as usize));
                    }
                }
            }
            idx = idx + 1;
        }
        proof {
            assert(w.take(w.len() as int) =~= w);
        }
        self.weak_refs = kept;
        proof {
            assert forall|i: int| #[trigger] live(a, i) implies
                self.objects@[i]->0.weak_target == (if colored(b0, i, mark) {
                    cleared_by_color(b0, mark, a[i]->0.weak_target)
                } else {
                    a[i]->0.weak_target
                }) by {
                if colored(b0, i, mark) && !w.contains(i as usize) {
                    assert(a[i]->0.weak_target is None) by {
                        if a[i]->0.weak_target is Some {
                            assert(old(self).weak_refs@.contains(i as usize));
                        }
                    }
                }
            }
        }
    }
}

/// The weak cells that survive a collection from `roots`.
pub open spec fn reachable_cell<T>(objs: Seq<Option<Object<T>>>, roots: Seq<usize>) -> spec_fn(usize) -> bool {
    |c: usize| reachable(objs, roots, c as int)
}

/// Objects reachable from a reachable object are reachable.
pub proof fn lemma_reachable_step<T>(objs: Seq<Option<Object<T>>>, roots: Seq<usize>, i: int, j: int)
    requires
        reachable(objs, roots, i),
        points_to(objs, i, j),
        live(objs, j),
    ensures
        reachable(objs, roots, j),
{
    let p = choose|p: Seq<usize>| #[trigger] is_path(objs, roots, p) && p.last() == i;
    lemma_path_extend(objs, roots, p, j as usize);
}

/// A reachable object is live.
pub proof fn lemma_reachable_live<T>(objs: Seq<Option<Object<T>>>, roots: Seq<usize>, i: int)
    requires
        reachable(objs, roots, i),
    ensures
        live(objs, i),
{
    let p = choose|p: Seq<usize>| #[trigger] is_path(objs, roots, p) && p.last() == i;
    assert(live(objs, p[p.len() - 1] as int));
}

impl<T> Heap<T> {
    /// Frees every live object that does not carry the mark color.
    fn sweep(&mut self)
        requires
            old(self).heap_bytes == live_bytes(old(self).objects@),
        ensures
            final(self).objects@.len() == old(self).objects@.len(),
            forall|i: int| 0 <= i < old(self).objects@.len() ==> #[trigger] final(self).objects@[i] == (if colored(old(self).objects@, i, old(self).mark_color) {
                old(self).objects@[i]
            } else {
                None
            }),
            final(self).heap_bytes == live_bytes(final(self).objects@),
            final(self).weak_refs == old(self).weak_refs,
            final(self).mark_stack == old(self).mark_stack,
            final(self).alloc_color == old(self).alloc_color,
            final(self).mark_color == old(self).mark_color,
            final(self).defers == old(self).defers,
            final(self).bytes_allocated_this_cycle == old(self).bytes_allocated_this_cycle,
            final(self).max_eden_size == old(self).max_eden_size,
            final(self).max_heap_size == old(self).max_heap_size,
            final(self).size_after_last_collect == old(self).size_after_last_collect,
            final(self).total_gcs == old(self).total_gcs,
            final(self).last_collection_scope == old(self).last_collection_scope,
    {
        let ghost a = self.objects@;
        let n = self.objects.len();
        let mut i: usize = 0;
        while i < n
            invariant
                0 <= i <= n,
                n == a.len(),
                self.objects@.len() == n,
                self.mark_color == old(self).mark_color,
                forall|k: int| 0 <= k < i ==> #[trigger] self.objects@[k] == (if colored(a, k, self.mark_color) {
                    a[k]
                } else {
                    None
                }),
                forall|k: int| i <= k < n ==> #[trigger] self.objects@[k] == a[k],
                self.heap_bytes == live_bytes(self.objects@),
                self.weak_refs == old(self).weak_refs,
                self.mark_stack == old(self).mark_stack,
                self.alloc_color == old(self).alloc_color,
                self.defers == old(self).defers,
                self.bytes_allocated_this_cycle == old(self).bytes_allocated_this_cycle,
                self.max_eden_size == old(self).max_eden_size,
                self.max_heap_size == old(self).max_heap_size,
                self.size_after_last_collect == old(self).size_after_last_collect,
                self.total_gcs == old(self).total_gcs,
                self.last_collection_scope == old(self).last_collection_scope,
            decreases n - i,
        {
            let (dead, size) = match &self.objects[i] {
                Some(o) => (o.color != self.mark_color, o.size),
                None => (false, 0),
            };
            if dead {
                proof {
                    assert(self.objects@[i as int] == a[i as int]);
                    lemma_live_bytes_free(self.objects@, i as int);
                }
                self.heap_bytes = self.heap_bytes - size;
                self.objects.set(i, None);
            }
            proof {
                assert(self.objects@[i as int] == (if colored(a, i as int, self.mark_color) {
                    a[i as int]
                } else {
                    None
                }));
            }
            i = i + 1;
        }
    }
}

impl<T> Heap<T> {
    /// `new` is the heap that a collection of `self` from `roots` leaves: an
    /// object survives exactly when it is reachable from the roots; survivors
    /// keep their size, references and payload; a weak referent is kept when
    /// reachable and cleared otherwise; the registry keeps the surviving weak
    /// cells in order; the cycle counters restart.
    pub open spec fn collected_from(self, new: Self, roots: Seq<usize>) -> bool {
        let a = self.slots();
        let b = new.slots();
        &&& b.len() == a.len()
        &&& forall|i: int| 0 <= i < a.len() ==> ((#[trigger] b[i] is Some) <==> reachable(a, roots, i))
        &&& forall|i: int| #[trigger] live(b, i) ==> {
            &&& b[i]->0.size == a[i]->0.size
            &&& b[i]->0.refs == a[i]->0.refs
            &&& b[i]->0.value == a[i]->0.value
            &&& b[i]->0.weak_target == cleared_target(a, roots, a[i]->0.weak_target)
        }
        &&& new.weak_cells() == self.weak_cells().filter(reachable_cell(a, roots))
        &&& new.spec_bytes_allocated() == 0
        &&& new.spec_size_after_last_collect() == live_bytes(b)
        &&& new.spec_heap_bytes() == live_bytes(b)
        &&& new.spec_total_gcs() == (if self.spec_total_gcs() < usize::MAX {
            self.spec_total_gcs() + 1
        } else {
            self.spec_total_gcs()
        })
        &&& new.spec_defers() == self.spec_defers()
        &&& new.spec_max_eden_size() == self.spec_max_eden_size()
        &&& new.spec_alloc_color() == (if self.spec_alloc_color() == GC_WHITE { GC_BLACK } else { GC_WHITE })
    }

    /// Runs one collection cycle from `roots`: marks what the roots reach,
    /// clears dead weak referents, sweeps the unmarked objects and flips the
    /// allocation and mark colors.
    fn perform_garbage_collection(&mut self, roots: &Vec<usize>)
        requires
            old(self).wf(),
            all_live(old(self).slots(), roots@),
        ensures
            final(self).wf(),
            old(self).collected_from(*final(self), roots@),
    {
        let ghost a = self.objects@;
        let ghost mark = self.mark_color;
        let ghost alloc = self.alloc_color;
        self.last_collection_scope = Some(CollectionScope::Full);
        self.trace_from(roots);
        let ghost b0 = self.objects@;
        self.update_weak_references(Ghost(a));
        let ghost b1 = self.objects@;
        proof {
            lemma_live_bytes_same(a, b1);
        }
        self.sweep();
        let t = self.alloc_color;
        self.alloc_color = self.mark_color;
        self.mark_color = t;
        self.size_after_last_collect = self.heap_bytes;
        self.bytes_allocated_this_cycle = 0;
        if self.total_gcs < usize::MAX {
            self.total_gcs = self.total_gcs + 1;
        }
        proof {
            let b = self.objects@;
            // marking decided survival
            assert forall|i: int| 0 <= i < a.len() implies ((#[trigger] b[i] is Some) <==> reachable(a, roots@, i)) by {
                if live(a, i) {
                    assert(colored(b0, i, mark) <==> reachable(a, roots@, i));
                    assert(b1[i] is Some);
                    assert(colored(b1, i, mark) == colored(b0, i, mark));
                } else {
                    assert(b1[i] is None);
                    if reachable(a, roots@, i) {
                        lemma_reachable_live(a, roots@, i);
                    }
                }
            }
            assert forall|i: int| #[trigger] live(b, i) implies {
                &&& b[i]->0.size == a[i]->0.size
                &&& b[i]->0.refs == a[i]->0.refs
                &&& b[i]->0.value == a[i]->0.value
                &&& b[i]->0.weak_target == cleared_target(a, roots@, a[i]->0.weak_target)
                &&& b[i]->0.color == self.alloc_color
            } by {
                assert(b[i] is Some);
                assert(b1[i] is Some);
                assert(colored(b1, i, mark));
                assert(live(a, i));
                assert(colored(b0, i, mark));
                if a[i]->0.weak_target is Some {
                    let t = a[i]->0.weak_target->0;
                    assert(live(a, t as int));
                    assert(colored(b0, t as int, mark) <==> reachable(a, roots@, t as int));
                }
            }
            // the weak registry
            assert(marked_cell(b0, mark) =~= reachable_cell(a, roots@)) by {
                assert forall|c: usize| #[trigger] marked_cell(b0, mark)(c) == reachable_cell(a, roots@)(c) by {
                    if reachable(a, roots@, c as int) {
                        lemma_reachable_live(a, roots@, c as int);
                    }
                    if colored(b0, c as int, mark) {
                        assert(live(a, c as int));
                    }
                }
            }
            // the invariant
            assert forall|i: int, j: int| #[trigger] points_to(b, i, j) implies live(b, j) by {
                assert(points_to(a, i, j));
                assert(reachable(a, roots@, i));
                assert(live(a, j));
                lemma_reachable_step(a, roots@, i, j);
            }
            assert forall|k: int| 0 <= k < self.weak_refs@.len() implies live(b, #[trigger] self.weak_refs@[k] as int) by {
                let w = old(self).weak_refs@;
                let pred = marked_cell(b0, mark);
                w.lemma_filter_pred(pred, k);
                assert(pred(self.weak_refs@[k]));
            }
            assert forall|i: int|
                #[trigger] live(b, i) && b[i]->0.weak_target is Some
                    implies live(b, b[i]->0.weak_target->0 as int) && self.weak_refs@.contains(i as usize) by {
                let t = b[i]->0.weak_target->0;
                assert(reachable(a, roots@, t as int));
                lemma_reachable_live(a, roots@, t as int);
                assert(live(a, i));
                assert(old(self).weak_refs@.contains(i as usize));
                let w = old(self).weak_refs@;
                let q = choose|q: int| 0 <= q < w.len() && w[q] == i as usize;
                assert(marked_cell(b0, mark)(w[q]));
                w.lemma_filter_contains(marked_cell(b0, mark), q);
            }
        }
    }

    /// Runs a collection cycle from `roots` unless a defer point is open.
    pub fn collect_garbage(&mut self, roots: &Vec<usize>)
        requires
            old(self).wf(),
            all_live(old(self).slots(), roots@),
        ensures
            final(self).wf(),
            old(self).spec_defers() > 0 ==> *final(self) == *old(self),
            old(self).spec_defers() == 0 ==> old(self).collected_from(*final(self), roots@),
    {
        if self.defers > 0 {
            return;
        }
        self.perform_garbage_collection(roots);
    }
}

impl<T> Heap<T> {
    /// Opens a defer point: until it is closed, requested collections do not run.
    pub fn defer(&mut self) -> (point: DeferPoint)
        requires
            old(self).wf(),
            old(self).spec_defers() < usize::MAX,
        ensures
            final(self).wf(),
            final(self).spec_defers() == old(self).spec_defers() + 1,
            final(self).slots() == old(self).slots(),
            final(self).weak_cells() == old(self).weak_cells(),
            final(self).spec_alloc_color() == old(self).spec_alloc_color(),
            final(self).spec_bytes_allocated() == old(self).spec_bytes_allocated(),
            final(self).spec_heap_bytes() == old(self).spec_heap_bytes(),
            final(self).spec_total_gcs() == old(self).spec_total_gcs(),
            final(self).spec_max_eden_size() == old(self).spec_max_eden_size(),
    {
        self.defers = self.defers + 1;
        DeferPoint { depth: self.defers }
    }

    /// Closes a defer point.
    pub fn end_defer(&mut self, point: DeferPoint)
        requires
            old(self).wf(),
            old(self).spec_defers() > 0,
        ensures
            final(self).wf(),
            final(self).spec_defers() == old(self).spec_defers() - 1,
            final(self).slots() == old(self).slots(),
            final(self).weak_cells() == old(self).weak_cells(),
            final(self).spec_alloc_color() == old(self).spec_alloc_color(),
            final(self).spec_bytes_allocated() == old(self).spec_bytes_allocated(),
            final(self).spec_heap_bytes() == old(self).spec_heap_bytes(),
            final(self).spec_total_gcs() == old(self).spec_total_gcs(),
            final(self).spec_max_eden_size() == old(self).spec_max_eden_size(),
    {
        let _ = point.depth;
        self.defers = self.defers - 1;
    }

    /// Runs a collection from `roots` when this cycle's allocations reached the
    /// allocation budget and no defer point is open.
    pub fn collect_if_necessary_or_defer(&mut self, roots: &Vec<usize>)
        requires
            old(self).wf(),
            all_live(old(self).slots(), roots@),
        ensures
            final(self).wf(),
            (old(self).spec_defers() > 0 || old(self).spec_bytes_allocated() < old(self).spec_max_eden_size())
                ==> *final(self) == *old(self),
            (old(self).spec_defers() == 0 && old(self).spec_bytes_allocated() >= old(self).spec_max_eden_size())
                ==> old(self).collected_from(*final(self), roots@),
    {
        if self.defers > 0 {
            return;
        }
        if self.bytes_allocated_this_cycle >= self.max_eden_size {
            self.collect_garbage(roots);
        }
    }

    /// Sets the heap limit after a collection to `max_heap_size` bytes; the
    /// allocation budget becomes what is left above the surviving heap.
    pub fn update_allocation_limits(&mut self, max_heap_size: usize)
        requires
            old(self).wf(),
            max_heap_size >= old(self).spec_size_after_last_collect(),
        ensures
            final(self).wf(),
            final(self).spec_max_eden_size() == max_heap_size - old(self).spec_size_after_last_collect(),
            final(self).spec_max_heap_size() == max_heap_size,
            final(self).slots() == old(self).slots(),
            final(self).weak_cells() == old(self).weak_cells(),
            final(self).spec_alloc_color() == old(self).spec_alloc_color(),
            final(self).spec_bytes_allocated() == old(self).spec_bytes_allocated(),
            final(self).spec_heap_bytes() == old(self).spec_heap_bytes(),
            final(self).spec_total_gcs() == old(self).spec_total_gcs(),
            final(self).spec_defers() == old(self).spec_defers(),
            final(self).spec_size_after_last_collect() == old(self).spec_size_after_last_collect(),
    {
        self.max_heap_size = max_heap_size;
        self.max_eden_size = max_heap_size - self.size_after_last_collect;
    }

    /// Heap limit in bytes.
    pub closed spec fn spec_max_heap_size(&self) -> nat {
        self.max_heap_size as nat
    }

    /// Number of collection cycles run so far.
    pub fn total_gc_cycles_count(&self) -> (r: usize)
        ensures
            r == self.spec_total_gcs(),
    {
        self.total_gcs
    }

    /// Heap size in bytes after the last collection.
    pub fn size_after_last_collect(&self) -> (r: usize)
        ensures
            r == self.spec_size_after_last_collect(),
    {
        self.size_after_last_collect
    }

    /// Bytes allocated since the last collection.
    pub fn bytes_allocated_this_cycle(&self) -> (r: usize)
        ensures
            r == self.spec_bytes_allocated(),
    {
        self.bytes_allocated_this_cycle
    }

    /// Replaces the strong references of object `id` by `refs`.
    pub fn set_refs(&mut self, id: usize, refs: Vec<usize>)
        requires
            old(self).wf(),
            live(old(self).slots(), id as int),
            all_live(old(self).slots(), refs@),
        ensures
            final(self).wf(),
            final(self).slots().len() == old(self).slots().len(),
            final(self).slots()[id as int] is Some,
            final(self).slots()[id as int]->0.refs == refs,
            final(self).slots()[id as int]->0.size == old(self).slots()[id as int]->0.size,
            final(self).slots()[id as int]->0.value == old(self).slots()[id as int]->0.value,
            final(self).slots()[id as int]->0.weak_target == old(self).slots()[id as int]->0.weak_target,
            final(self).slots()[id as int]->0.color == old(self).slots()[id as int]->0.color,
            forall|i: int| 0 <= i < old(self).slots().len() && i != id ==> #[trigger] final(self).slots()[i] == old(self).slots()[i],
            final(self).weak_cells() == old(self).weak_cells(),
            final(self).spec_alloc_color() == old(self).spec_alloc_color(),
            final(self).spec_bytes_allocated() == old(self).spec_bytes_allocated(),
            final(self).spec_heap_bytes() == old(self).spec_heap_bytes(),
            final(self).spec_defers() == old(self).spec_defers(),
            final(self).spec_total_gcs() == old(self).spec_total_gcs(),
            final(self).spec_max_eden_size() == old(self).spec_max_eden_size(),
    {
        let ghost a = self.objects@;
        match &mut self.objects[id] {
            Some(o) => {
                o.refs = refs;
            },
            None => {},
        }
        proof {
            let b = self.objects@;
            assert forall|i: int, j: int| #[trigger] points_to(b, i, j) implies live(b, j) by {
                if i != id {
                    assert(points_to(a, i, j));
                } else {
                    let k = choose|k: int| 0 <= k < refs@.len() && refs@[k] == j as usize;
                    assert(live(a, refs@[k] as int));
                }
            }
            assert forall|i: int| #[trigger] live(b, i) implies b[i]->0.color == self.alloc_color by {
                assert(live(a, i));
            }
            assert forall|k: int| 0 <= k < self.weak_refs@.len() implies live(b, #[trigger] self.weak_refs@[k] as int) by {
                assert(live(a, self.weak_refs@[k] as int));
            }
            assert forall|i: int|
                #[trigger] live(b, i) && b[i]->0.weak_target is Some
                    implies live(b, b[i]->0.weak_target->0 as int) && self.weak_refs@.contains(i as usize) by {
                assert(live(a, i));
            }
            lemma_live_bytes_same(a, b);
        }
    }

    /// Clears weak cell `weak` (its referent becomes `None`).
    pub fn clear_weak(&mut self, weak: usize)
        requires
            old(self).wf(),
            live(old(self).slots(), weak as int),
        ensures
            final(self).wf(),
            final(self).slots() == old(self).slots().update(weak as int, Some(Object {
                weak_target: None,
                ..old(self).slots()[weak as int]->0
            })),
            final(self).weak_cells() == old(self).weak_cells(),
            final(self).spec_alloc_color() == old(self).spec_alloc_color(),
            final(self).spec_bytes_allocated() == old(self).spec_bytes_allocated(),
            final(self).spec_heap_bytes() == old(self).spec_heap_bytes(),
            final(self).spec_defers() == old(self).spec_defers(),
            final(self).spec_total_gcs() == old(self).spec_total_gcs(),
            final(self).spec_max_eden_size() == old(self).spec_max_eden_size(),
    {
        let ghost a = self.objects@;
        match &mut self.objects[weak] {
            Some(o) => {
                o.weak_target = None;
            },
            None => {},
        }
        proof {
            let b = self.objects@;
            assert forall|i: int, j: int| #[trigger] points_to(b, i, j) implies live(b, j) by {
                assert(points_to(a, i, j));
            }
            assert forall|i: int| #[trigger] live(b, i) implies b[i]->0.color == self.alloc_color by {
                assert(live(a, i));
            }
            assert forall|k: int| 0 <= k < self.weak_refs@.len() implies live(b, #[trigger] self.weak_refs@[k] as int) by {
                assert(live(a, self.weak_refs@[k] as int));
            }
            assert forall|i: int|
                #[trigger] live(b, i) && b[i]->0.weak_target is Some
                    implies live(b, b[i]->0.weak_target->0 as int) && self.weak_refs@.contains(i as usize) by {
                assert(live(a, i));
            }
            lemma_live_bytes_same(a, b);
        }
    }
}

} // verus!

verus! {

/// The survivors of a collection reach each other exactly as before: an
/// object is reachable among the survivors when it was reachable before.
proof fn lemma_survivors_reachable<T>(a: Seq<Option<Object<T>>>, b: Seq<Option<Object<T>>>, roots: Seq<usize>, i: int)
    requires
        b.len() == a.len(),
        forall|x: int| 0 <= x < a.len() ==> ((#[trigger] b[x] is Some) <==> reachable(a, roots, x)),
        forall|x: int| #[trigger] live(b, x) ==> b[x]->0.refs == a[x]->0.refs,
    ensures
        reachable(b, roots, i) <==> reachable(a, roots, i),
{
    if reachable(b, roots, i) {
        let p = choose|p: Seq<usize>| #[trigger] is_path(b, roots, p) && p.last() == i;
        assert forall|k: int| 0 <= k < p.len() implies live(a, #[trigger] p[k] as int) by {
            assert(live(b, p[k] as int));
            lemma_reachable_live(a, roots, p[k] as int);
        }
        assert forall|k: int| 0 <= k < p.len() - 1 implies points_to(a, #[trigger] p[k] as int, p[k + 1] as int) by {
            assert(points_to(b, p[k] as int, p[k + 1] as int));
            assert(live(b, p[k] as int));
            assert(live(a, p[k] as int)) by {
                lemma_reachable_live(a, roots, p[k] as int);
            }
        }
        assert(is_path(a, roots, p));
    }
    if reachable(a, roots, i) {
        let p = choose|p: Seq<usize>| #[trigger] is_path(a, roots, p) && p.last() == i;
        assert forall|k: int| 0 <= k < p.len() implies live(b, #[trigger] p[k] as int) by {
            let q = p.take(k + 1);
            assert forall|m: int| 0 <= m < q.len() implies live(a, #[trigger] q[m] as int) by {
                assert(q[m] == p[m]);
            }
            assert forall|m: int| 0 <= m < q.len() - 1 implies points_to(a, #[trigger] q[m] as int, q[m + 1] as int) by {
                assert(q[m] == p[m]);
                assert(q[m + 1] == p[m + 1]);
            }
            assert(is_path(a, roots, q));
            assert(q.last() == p[k]);
            assert(reachable(a, roots, p[k] as int));
        }
        assert forall|k: int| 0 <= k < p.len() - 1 implies points_to(b, #[trigger] p[k] as int, p[k + 1] as int) by {
            assert(points_to(a, p[k] as int, p[k + 1] as int));
            assert(live(b, p[k] as int));
        }
        assert(is_path(b, roots, p));
    }
}

/// Collecting twice from the same roots frees nothing the second time:
/// whatever survived the first collection survives the second.
pub proof fn lemma_second_collection_frees_nothing<T>(h0: Heap<T>, h1: Heap<T>, h2: Heap<T>, roots: Seq<usize>)
    requires
        h0.collected_from(h1, roots),
        h1.collected_from(h2, roots),
    ensures
        h2.slots().len() == h1.slots().len(),
        forall|i: int| 0 <= i < h1.slots().len() ==> (#[trigger] h2.slots()[i] is Some) == (h1.slots()[i] is Some),
{
    let a = h0.slots();
    let b = h1.slots();
    assert forall|i: int| 0 <= i < b.len() implies (#[trigger] h2.slots()[i] is Some) == (b[i] is Some) by {
        lemma_survivors_reachable(a, b, roots, i);
    }
}

/// A collection keeps an object exactly when the roots reach it, and a weak
/// cell that survives keeps its referent exactly when the roots reach the
/// referent.
pub proof fn lemma_collection_keeps_reachable<T>(h0: Heap<T>, h1: Heap<T>, roots: Seq<usize>, i: int, w: int)
    requires
        h0.collected_from(h1, roots),
        0 <= i < h0.slots().len(),
        live(h1.slots(), w),
        h0.slots()[w]->0.weak_target matches Some(t) && live(h0.slots(), t as int),
    ensures
        (h1.slots()[i] is Some) == reachable(h0.slots(), roots, i),
        (h1.slots()[w]->0.weak_target is Some) == reachable(h0.slots(), roots, h0.slots()[w]->0.weak_target->0 as int),
{
}

/// A read of a freshly allocated object gives back the value it was
/// allocated with.
pub proof fn lemma_allocate_then_get<T>(h0: Heap<T>, h1: Heap<T>, value: T, refs: Vec<usize>, size: nat, id: int)
    requires
        id == h0.slots().len(),
        h1.slots() == h0.slots().push(Some(Object {
            color: h0.spec_alloc_color(),
            size: Heap::<T>::spec_alloc_size(size) as usize,
            refs,
            weak_target: None,
            value: Some(value),
        })),
    ensures
        live(h1.slots(), id),
        h1.slots()[id]->0.value == Some(value),
{
}

/// A weak reference: the identifier of a weak cell on a heap. Copies share
/// the cell.
#[derive(Clone, Copy)]
pub struct WeakRef {
    cell: usize,
}

impl WeakRef {
    /// The weak cell this reference reads.
    pub closed spec fn spec_cell(&self) -> usize {
        self.cell
    }

    /// A reference reading weak cell `cell`.
    pub fn new(cell: usize) -> (w: Self)
        ensures
            w.spec_cell() == cell,
    {
        WeakRef { cell }
    }

    /// The object the cell still refers to on `heap`, or `None` once the
    /// collector has cleared it.
    pub fn upgrade<T>(&self, heap: &Heap<T>) -> (r: Option<usize>)
        requires
            live(heap.slots(), self.spec_cell() as int),
        ensures
            r == heap.slots()[self.spec_cell() as int]->0.weak_target,
    {
        heap.upgrade(self.cell)
    }

    /// Clears the cell on `heap`, for this reference and every copy of it.
    pub fn clear<T>(&self, heap: &mut Heap<T>)
        requires
            old(heap).wf(),
            live(old(heap).slots(), self.spec_cell() as int),
        ensures
            final(heap).wf(),
            final(heap).slots() == old(heap).slots().update(self.spec_cell() as int, Some(Object {
                weak_target: None,
                ..old(heap).slots()[self.spec_cell() as int]->0
            })),
            final(heap).weak_cells() == old(heap).weak_cells(),
            final(heap).spec_alloc_color() == old(heap).spec_alloc_color(),
            final(heap).spec_bytes_allocated() == old(heap).spec_bytes_allocated(),
            final(heap).spec_heap_bytes() == old(heap).spec_heap_bytes(),
            final(heap).spec_defers() == old(heap).spec_defers(),
            final(heap).spec_total_gcs() == old(heap).spec_total_gcs(),
            final(heap).spec_max_eden_size() == old(heap).spec_max_eden_size(),
    {
        heap.clear_weak(self.cell)
    }
}

/// Clearing a weak cell clears it for every reference to it: each copy of a
/// weak reference reads the same cell, and reads `None` after the clear.
pub proof fn lemma_clear_then_upgrade<T>(h0: Heap<T>, h1: Heap<T>, w: WeakRef, copy: WeakRef)
    requires
        live(h0.slots(), w.spec_cell() as int),
        copy.spec_cell() == w.spec_cell(),
        h1.slots() == h0.slots().update(w.spec_cell() as int, Some(Object {
            weak_target: None,
            ..h0.slots()[w.spec_cell() as int]->0
        })),
    ensures
        live(h1.slots(), copy.spec_cell() as int),
        h1.slots()[copy.spec_cell() as int]->0.weak_target is None,
{
}

/// A cleared weak cell stays cleared: a collection never gives a referent
/// back to a cell that had none.
pub proof fn lemma_collection_keeps_cleared<T>(h0: Heap<T>, h1: Heap<T>, roots: Seq<usize>, w: int)
    requires
        h0.collected_from(h1, roots),
        live(h1.slots(), w),
        h0.slots()[w]->0.weak_target is None,
    ensures
        h1.slots()[w]->0.weak_target is None,
{
}

} // verus!
