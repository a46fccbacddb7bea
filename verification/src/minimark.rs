//! The generational collector: new objects go to a nursery; a minor
//! collection keeps the nursery objects that the roots and the remembered
//! set reach through nursery objects, promotes them to the old generation and
//! empties the nursery. A write barrier records old objects that come to
//! reference nursery objects.
use vstd::prelude::*;
use vstd::set_lib::{set_int_range, lemma_int_range, lemma_len_subset};
use crate::heap::{Object, live, points_to, is_path, reachable};
use crate::allocation_config::wrapping_add_usize;
use crate::gc_base::AllocationSpace;

verus! {

/// Object `j` is where a minor collection starts tracing: a root, or an
/// object that a remembered object references.
pub open spec fn minor_source<T>(objs: Seq<Option<Object<T>>>, roots: Seq<usize>, rem: Seq<usize>, j: int) -> bool {
    ||| roots.contains(j as usize)
    ||| exists|r: int| 0 <= r < rem.len() && #[trigger] points_to(objs, rem[r] as int, j)
}

/// `p` is a chain of strong references among nursery objects that starts at
/// a source of the minor collection.
pub open spec fn is_young_path<T>(
    objs: Seq<Option<Object<T>>>,
    young: Seq<bool>,
    roots: Seq<usize>,
    rem: Seq<usize>,
    p: Seq<usize>,
) -> bool {
    &&& p.len() > 0
    &&& minor_source(objs, roots, rem, p[0] as int)
    &&& forall|k: int| 0 <= k < p.len() ==> live(objs, #[trigger] p[k] as int) && young[p[k] as int]
    &&& forall|k: int| 0 <= k < p.len() - 1 ==> points_to(objs, #[trigger] p[k] as int, p[k + 1] as int)
}

/// Nursery object `i` is reached by a minor collection.
pub open spec fn young_reachable<T>(
    objs: Seq<Option<Object<T>>>,
    young: Seq<bool>,
    roots: Seq<usize>,
    rem: Seq<usize>,
    i: int,
) -> bool {
    exists|p: Seq<usize>| #[trigger] is_young_path(objs, young, roots, rem, p) && p.last() == i
}

/// Every old object that references a nursery object is remembered.
pub open spec fn remembered_complete<T>(objs: Seq<Option<Object<T>>>, young: Seq<bool>, rem: Seq<usize>) -> bool {
    forall|i: int, j: int| #[trigger] points_to(objs, i, j) && !young[i] && young[j] ==> rem.contains(i as usize)
}

/// When every old object that references a nursery object is remembered,
/// every nursery object that the roots reach is reached by a minor
/// collection: a minor collection frees no reachable object.
pub proof fn lemma_minor_collection_is_sound<T>(
    objs: Seq<Option<Object<T>>>,
    young: Seq<bool>,
    roots: Seq<usize>,
    rem: Seq<usize>,
    i: int,
)
    requires
        young.len() == objs.len(),
        remembered_complete(objs, young, rem),
        reachable(objs, roots, i),
        young[i],
    ensures
        young_reachable(objs, young, roots, rem, i),
{
    let p = choose|p: Seq<usize>| #[trigger] is_path(objs, roots, p) && p.last() == i;
    lemma_young_suffix(objs, young, roots, rem, p, p.len() - 1);
}

proof fn lemma_young_suffix<T>(
    objs: Seq<Option<Object<T>>>,
    young: Seq<bool>,
    roots: Seq<usize>,
    rem: Seq<usize>,
    p: Seq<usize>,
    m: int,
)
    requires
        young.len() == objs.len(),
        remembered_complete(objs, young, rem),
        is_path(objs, roots, p),
        0 <= m < p.len(),
        young[p[m] as int],
    ensures
        young_reachable(objs, young, roots, rem, p[m] as int),
    decreases m,
{
    assert(live(objs, p[m] as int));
    if m > 0 && young[p[m - 1] as int] {
        lemma_young_suffix(objs, young, roots, rem, p, m - 1);
        let q = choose|q: Seq<usize>| #[trigger] is_young_path(objs, young, roots, rem, q) && q.last() == p[m - 1] as int;
        let q2 = q.push(p[m]);
        assert(points_to(objs, p[m - 1] as int, p[m] as int));
        assert forall|k: int| 0 <= k < q2.len() implies live(objs, #[trigger] q2[k] as int) && young[q2[k] as int] by {
            if k < q.len() {
                assert(q2[k] == q[k]);
            }
        }
        assert forall|k: int| 0 <= k < q2.len() - 1 implies points_to(objs, #[trigger] q2[k] as int, q2[k + 1] as int) by {
            if k < q.len() - 1 {
                assert(q2[k] == q[k]);
                assert(q2[k + 1] == q[k + 1]);
                assert(points_to(objs, q[k] as int, q[k + 1] as int));
            }
        }
        assert(q2[0] == q[0]);
        assert(is_young_path(objs, young, roots, rem, q2));
        assert(q2.last() == p[m]);
    } else {
        let q = seq![p[m]];
        if m == 0 {
            assert(roots.contains(p[0]));
        } else {
            assert(points_to(objs, p[m - 1] as int, p[m] as int));
            assert(live(objs, p[m - 1] as int));
            assert(rem.contains(p[m - 1]));
            let r = choose|r: int| 0 <= r < rem.len() && rem[r] == p[m - 1];
            assert(points_to(objs, rem[r] as int, p[m] as int));
        }
        assert(is_young_path(objs, young, roots, rem, q));
        assert(q.last() == p[m]);
    }
}


/// The state of a minor marking in progress over the objects `a` with the
/// nursery `young`: `marked` holds the nursery objects reached so far and
/// `stack` those whose references are still to be visited; the first `dr`
/// roots and the first `dm` remembered objects are done; a marked object
/// other than `scanning` that is not queued has its nursery references
/// marked.
pub open spec fn minor_marking<T>(
    a: Seq<Option<Object<T>>>,
    young: Seq<bool>,
    roots: Seq<usize>,
    rem: Seq<usize>,
    marked: Seq<bool>,
    stack: Seq<usize>,
    dr: int,
    dm: int,
    scanning: int,
) -> bool {
    &&& marked.len() == a.len()
    &&& young.len() == a.len()
    &&& 0 <= dr <= roots.len()
    &&& 0 <= dm <= rem.len()
    &&& forall|i: int| 0 <= i < a.len() && #[trigger] marked[i] ==> young[i] && live(a, i)
        && young_reachable(a, young, roots, rem, i)
    &&& forall|s: int| 0 <= s < stack.len() ==> #[trigger] stack[s] < a.len() && marked[stack[s] as int]
    &&& forall|r: int| 0 <= r < dr && live(a, #[trigger] roots[r] as int) && young[roots[r] as int] ==> marked[roots[r] as int]
    &&& forall|r: int, j: int| 0 <= r < dm && 0 <= j < a.len() && #[trigger] points_to(a, rem[r] as int, j) && young[j] ==> marked[j]
    &&& forall|i: int, j: int| 0 <= i < a.len() && 0 <= j < a.len() && marked[i] && !stack.contains(i as usize) && i != scanning
        && #[trigger] points_to(a, i, j) && young[j] ==> marked[j]
}

/// The set of marked objects.
pub open spec fn marked_set(marked: Seq<bool>) -> Set<int> {
    Set::new(|i: int| 0 <= i < marked.len() && marked[i])
}

proof fn lemma_marked_set_bounded(marked: Seq<bool>)
    ensures
        marked_set(marked).finite(),
        marked_set(marked).len() <= marked.len(),
{
    lemma_int_range(0, marked.len() as int);
    assert(marked_set(marked).subset_of(set_int_range(0, marked.len() as int)));
    lemma_len_subset(marked_set(marked), set_int_range(0, marked.len() as int));
}

/// Marking `j` keeps the marking state when `j` is a reached nursery object.
proof fn lemma_mark_one<T>(
    a: Seq<Option<Object<T>>>,
    young: Seq<bool>,
    roots: Seq<usize>,
    rem: Seq<usize>,
    marked: Seq<bool>,
    stack: Seq<usize>,
    dr: int,
    dm: int,
    scanning: int,
    j: int,
)
    requires
        minor_marking(a, young, roots, rem, marked, stack, dr, dm, scanning),
        0 <= j < a.len(),
        young[j],
        live(a, j),
        young_reachable(a, young, roots, rem, j),
        !marked[j],
    ensures
        minor_marking(a, young, roots, rem, marked.update(j, true), stack.push(j as usize), dr, dm, scanning),
        marked_set(marked.update(j, true)) == marked_set(marked).insert(j),
        !marked_set(marked).contains(j),
{
    let m2 = marked.update(j, true);
    let st2 = stack.push(j as usize);
    assert forall|s: int| 0 <= s < st2.len() implies #[trigger] st2[s] < a.len() && m2[st2[s] as int] by {
        if s < stack.len() {
            assert(st2[s] == stack[s]);
        }
    }
    assert forall|i: int, k: int| 0 <= i < a.len() && 0 <= k < a.len() && m2[i] && !st2.contains(i as usize) && i != scanning
        && #[trigger] points_to(a, i, k) && young[k] implies m2[k] by {
        if i != j {
            assert(!stack.contains(i as usize)) by {
                if stack.contains(i as usize) {
                    let s = choose|s: int| 0 <= s < stack.len() && stack[s] == i as usize;
                    assert(st2[s] == stack[s]);
                }
            }
        } else {
            assert(st2[stack.len() as int] == j as usize);
        }
    }
    assert(marked_set(m2) =~= marked_set(marked).insert(j));
}

/// A nursery object a minor collection reaches is marked once marking is
/// over.
proof fn lemma_young_reachable_marked<T>(
    a: Seq<Option<Object<T>>>,
    young: Seq<bool>,
    roots: Seq<usize>,
    rem: Seq<usize>,
    marked: Seq<bool>,
    i: int,
)
    requires
        minor_marking(a, young, roots, rem, marked, Seq::empty(), roots.len() as int, rem.len() as int, -1),
        young_reachable(a, young, roots, rem, i),
    ensures
        marked[i],
{
    let p = choose|p: Seq<usize>| #[trigger] is_young_path(a, young, roots, rem, p) && p.last() == i;
    lemma_young_path_marked(a, young, roots, rem, marked, p, p.len() - 1);
}

proof fn lemma_young_path_marked<T>(
    a: Seq<Option<Object<T>>>,
    young: Seq<bool>,
    roots: Seq<usize>,
    rem: Seq<usize>,
    marked: Seq<bool>,
    p: Seq<usize>,
    k: int,
)
    requires
        minor_marking(a, young, roots, rem, marked, Seq::empty(), roots.len() as int, rem.len() as int, -1),
        is_young_path(a, young, roots, rem, p),
        0 <= k < p.len(),
    ensures
        marked[p[k] as int],
    decreases k,
{
    assert(live(a, p[k] as int) && young[p[k] as int]);
    if k == 0 {
        if roots.contains(p[0]) {
            let r = choose|r: int| 0 <= r < roots.len() && roots[r] == p[0];
            assert(live(a, roots[r] as int) && young[roots[r] as int]);
        } else {
            let r = choose|r: int| 0 <= r < rem.len() && #[trigger] points_to(a, rem[r] as int, p[0] as int);
        }
    } else {
        lemma_young_path_marked(a, young, roots, rem, marked, p, k - 1);
        assert(points_to(a, p[k - 1] as int, p[k] as int));
        assert(!Seq::<usize>::empty().contains(p[k - 1]));
    }
}


/// A nursery object that a minor collection starts from is reached by it.
proof fn lemma_source_young_reachable<T>(
    a: Seq<Option<Object<T>>>,
    young: Seq<bool>,
    roots: Seq<usize>,
    rem: Seq<usize>,
    j: int,
)
    requires
        young.len() == a.len(),
        j <= usize::MAX,
        minor_source(a, roots, rem, j),
        live(a, j),
        young[j],
    ensures
        young_reachable(a, young, roots, rem, j),
{
    let p = seq![j as usize];
    assert(p[0] == j as usize);
    assert(is_young_path(a, young, roots, rem, p));
    assert(p.last() == j);
}

/// A nursery object that a reached object references is reached too.
proof fn lemma_young_reachable_step<T>(
    a: Seq<Option<Object<T>>>,
    young: Seq<bool>,
    roots: Seq<usize>,
    rem: Seq<usize>,
    i: int,
    j: int,
)
    requires
        young.len() == a.len(),
        young_reachable(a, young, roots, rem, i),
        points_to(a, i, j),
        live(a, j),
        young[j],
    ensures
        young_reachable(a, young, roots, rem, j),
{
    let q = choose|q: Seq<usize>| #[trigger] is_young_path(a, young, roots, rem, q) && q.last() == i;
    let q2 = q.push(j as usize);
    assert forall|k: int| 0 <= k < q2.len() implies live(a, #[trigger] q2[k] as int) && young[q2[k] as int] by {
        if k < q.len() {
            assert(q2[k] == q[k]);
        }
    }
    assert forall|k: int| 0 <= k < q2.len() - 1 implies points_to(a, #[trigger] q2[k] as int, q2[k + 1] as int) by {
        if k < q.len() - 1 {
            assert(q2[k] == q[k]);
            assert(q2[k + 1] == q[k + 1]);
            assert(points_to(a, q[k] as int, q[k + 1] as int));
        }
    }
    assert(q2[0] == q[0]);
    assert(is_young_path(a, young, roots, rem, q2));
    assert(q2.last() == j);
}

/// An object a minor collection reaches is a live nursery object.
proof fn lemma_young_reachable_live<T>(
    a: Seq<Option<Object<T>>>,
    young: Seq<bool>,
    roots: Seq<usize>,
    rem: Seq<usize>,
    i: int,
)
    requires
        young_reachable(a, young, roots, rem, i),
    ensures
        live(a, i),
        young[i],
{
    let q = choose|q: Seq<usize>| #[trigger] is_young_path(a, young, roots, rem, q) && q.last() == i;
    assert(live(a, q[q.len() - 1] as int));
}

/// Marks nursery object `j` and queues it for scanning, unless it is old or
/// marked already.
fn mark_young<T>(
    objects: &Vec<Option<Object<T>>>,
    young: &Vec<bool>,
    marked: &mut Vec<bool>,
    stack: &mut Vec<usize>,
    j: usize,
    Ghost(roots): Ghost<Seq<usize>>,
    Ghost(rem): Ghost<Seq<usize>>,
    Ghost(dr): Ghost<int>,
    Ghost(dm): Ghost<int>,
    Ghost(scanning): Ghost<int>,
)
    requires
        minor_marking(objects@, young@, roots, rem, old(marked)@, old(stack)@, dr, dm, scanning),
        j < objects@.len(),
        young@[j as int] ==> young_reachable(objects@, young@, roots, rem, j as int),
    ensures
        minor_marking(objects@, young@, roots, rem, final(marked)@, final(stack)@, dr, dm, scanning),
        young@[j as int] ==> final(marked)@[j as int],
        forall|i: int| 0 <= i < old(marked)@.len() && #[trigger] old(marked)@[i] ==> final(marked)@[i],
        final(stack)@.len() >= old(stack)@.len(),
        final(stack)@.len() - old(stack)@.len() == marked_set(final(marked)@).len() - marked_set(old(marked)@).len(),
{
    if young[j] && !marked[j] {
        proof {
            lemma_young_reachable_live(objects@, young@, roots, rem, j as int);
            lemma_mark_one(objects@, young@, roots, rem, marked@, stack@, dr, dm, scanning, j as int);
            lemma_marked_set_bounded(marked@);
        }
        marked.set(j, true);
        stack.push(j);
    }
}

/// Marks the objects flagged in `nursery` that the roots and the objects in
/// `remembered` reach through flagged objects.
fn mark_nursery<T>(
    objects: &Vec<Option<Object<T>>>,
    nursery: &Vec<bool>,
    roots: &Vec<usize>,
    remembered: &Vec<usize>,
) -> (marked: Vec<bool>)
    requires
        nursery@.len() == objects@.len(),
        forall|i: int, j: int| #[trigger] points_to(objects@, i, j) ==> live(objects@, j),
        forall|k: int| 0 <= k < remembered@.len() ==> #[trigger] remembered@[k] < objects@.len(),
        forall|k: int| 0 <= k < roots@.len() ==> live(objects@, #[trigger] roots@[k] as int),
    ensures
        marked@.len() == objects@.len(),
        forall|i: int| 0 <= i < objects@.len() ==>
            (#[trigger] marked@[i] <==> young_reachable(objects@, nursery@, roots@, remembered@, i)),
{
    let n = objects.len();
    let ghost a = objects@;
    let ghost young = nursery@;
    let ghost rem = remembered@;
    let mut marked: Vec<bool> = Vec::new();
    let mut i: usize = 0;
    while i < n
        invariant
            i <= n,
            n == a.len(),
            marked@.len() == i,
            forall|k: int| 0 <= k < i ==> !#[trigger] marked@[k],
        decreases n - i,
    {
        marked.push(false);
        i = i + 1;
    }
    let mut stack: Vec<usize> = Vec::new();
    let mut k: usize = 0;
    while k < roots.len()
        invariant
            a == objects@,
            young == nursery@,
            rem == remembered@,
            young.len() == a.len(),
            forall|i: int, j: int| #[trigger] points_to(a, i, j) ==> live(a, j),
            forall|q: int| 0 <= q < rem.len() ==> #[trigger] rem[q] < a.len(),
            n == a.len(),
            forall|q: int| 0 <= q < roots@.len() ==> live(a, #[trigger] roots@[q] as int),
            k <= roots@.len(),
            minor_marking(a, young, roots@, rem, marked@, stack@, k as int, 0, -1),
        decreases roots@.len() - k,
    {
        let r = roots[k];
        proof {
            assert(live(a, roots@[k as int] as int));
            if young[r as int] {
                assert(roots@.contains(r));
                lemma_source_young_reachable(a, young, roots@, rem, r as int);
            }
        }
        let ghost before = marked@;
        mark_young(objects, nursery, &mut marked, &mut stack, r, Ghost(roots@), Ghost(rem), Ghost(k as int), Ghost(0), Ghost(-1));
        proof {
            assert forall|q: int| 0 <= q < k + 1 && live(a, #[trigger] roots@[q] as int) && young[roots@[q] as int]
                implies marked@[roots@[q] as int] by {
                if q < k {
                    assert(before[roots@[q] as int]);
                }
            }
        }
        k = k + 1;
    }
    let mut m: usize = 0;
    while m < remembered.len()
        invariant
            a == objects@,
            young == nursery@,
            rem == remembered@,
            young.len() == a.len(),
            forall|i: int, j: int| #[trigger] points_to(a, i, j) ==> live(a, j),
            forall|q: int| 0 <= q < rem.len() ==> #[trigger] rem[q] < a.len(),
            n == a.len(),
            m <= rem.len(),
            minor_marking(a, young, roots@, rem, marked@, stack@, roots@.len() as int, m as int, -1),
        decreases rem.len() - m,
    {
        let o = remembered[m];
        let nrefs = match &objects[o] {
            Some(ob) => ob.refs.len(),
            None => 0,
        };
        let mut c: usize = 0;
        while c < nrefs
            invariant
                a == objects@,
                young == nursery@,
                rem == remembered@,
                young.len() == a.len(),
                forall|i: int, j: int| #[trigger] points_to(a, i, j) ==> live(a, j),
                forall|q: int| 0 <= q < rem.len() ==> #[trigger] rem[q] < a.len(),
                n == a.len(),
                m < rem.len(),
                o == rem[m as int],
                o < n,
                live(a, o as int) ==> nrefs == a[o as int]->0.refs@.len(),
                !live(a, o as int) ==> nrefs == 0,
                c <= nrefs,
                forall|q: int| 0 <= q < c ==> young[#[trigger] a[o as int]->0.refs@[q] as int]
                    ==> marked@[a[o as int]->0.refs@[q] as int],
                minor_marking(a, young, roots@, rem, marked@, stack@, roots@.len() as int, m as int, -1),
            decreases nrefs - c,
        {
            let child = match &objects[o] {
                Some(ob) => ob.refs[c],
                None => 0,
            };
            proof {
                assert(live(a, o as int));
                assert(child == a[o as int]->0.refs@[c as int]);
                assert(a[o as int]->0.refs@.contains(child));
                assert(points_to(a, rem[m as int] as int, child as int));
                assert(live(a, child as int));
                if young[child as int] {
                    lemma_source_young_reachable(a, young, roots@, rem, child as int);
                }
            }
            let ghost before = marked@;
            mark_young(objects, nursery, &mut marked, &mut stack, child, Ghost(roots@), Ghost(rem), Ghost(roots@.len() as int), Ghost(m as int), Ghost(-1));
            proof {
                assert forall|q: int| 0 <= q < c + 1 && young[#[trigger] a[o as int]->0.refs@[q] as int]
                    implies marked@[a[o as int]->0.refs@[q] as int] by {
                    if q < c && young[a[o as int]->0.refs@[q] as int] {
                        assert(a[o as int]->0.refs@.contains(a[o as int]->0.refs@[q]));
                        assert(points_to(a, o as int, a[o as int]->0.refs@[q] as int));
                        assert(live(a, a[o as int]->0.refs@[q] as int));
                        assert(before[a[o as int]->0.refs@[q] as int]);
                    } else if q == c {
                        assert(a[o as int]->0.refs@[q] == child);
                    }
                }
            }
            c = c + 1;
        }
        proof {
            assert forall|r: int, j: int| 0 <= r < m + 1 && 0 <= j < a.len() && #[trigger] points_to(a, rem[r] as int, j) && young[j]
                implies marked@[j] by {
                if r == m {
                    let q = choose|q: int| 0 <= q < a[o as int]->0.refs@.len() && a[o as int]->0.refs@[q] == j as usize;
                    assert(young[a[o as int]->0.refs@[q] as int]);
                }
            }
        }
        m = m + 1;
    }
    proof {
        lemma_marked_set_bounded(marked@);
    }
    while stack.len() > 0
        invariant
            a == objects@,
            young == nursery@,
            rem == remembered@,
            young.len() == a.len(),
            forall|i: int, j: int| #[trigger] points_to(a, i, j) ==> live(a, j),
            forall|q: int| 0 <= q < rem.len() ==> #[trigger] rem[q] < a.len(),
            n == a.len(),
            minor_marking(a, young, roots@, rem, marked@, stack@, roots@.len() as int, rem.len() as int, -1),
            marked_set(marked@).finite(),
            marked_set(marked@).len() <= n,
        decreases n - marked_set(marked@).len(), stack@.len(),
    {
        let ghost st0 = stack@;
        let o = stack.pop().unwrap();
        let ghost base_stack = stack@.len();
        let ghost base_marked = marked_set(marked@).len();
        proof {
            assert(st0[st0.len() - 1] == o);
            assert(marked@[o as int]);
            assert forall|i: int, j: int| 0 <= i < a.len() && 0 <= j < a.len() && marked@[i] && !stack@.contains(i as usize)
                && i != o as int && #[trigger] points_to(a, i, j) && young[j] implies marked@[j] by {
                assert(!st0.contains(i as usize)) by {
                    if st0.contains(i as usize) {
                        let s = choose|s: int| 0 <= s < st0.len() && st0[s] == i as usize;
                        if s < st0.len() - 1 {
                            assert(stack@[s] == st0[s]);
                        }
                    }
                }
            }
            assert forall|s: int| 0 <= s < stack@.len() implies #[trigger] stack@[s] < a.len() && marked@[stack@[s] as int] by {
                assert(stack@[s] == st0[s]);
            }
        }
        let nrefs = match &objects[o] {
            Some(ob) => ob.refs.len(),
            None => 0,
        };
        let mut c: usize = 0;
        while c < nrefs
            invariant
                a == objects@,
                young == nursery@,
                rem == remembered@,
                young.len() == a.len(),
                forall|i: int, j: int| #[trigger] points_to(a, i, j) ==> live(a, j),
                forall|q: int| 0 <= q < rem.len() ==> #[trigger] rem[q] < a.len(),
                n == a.len(),
                o < n,
                marked@[o as int],
                live(a, o as int),
                nrefs == a[o as int]->0.refs@.len(),
                c <= nrefs,
                forall|q: int| 0 <= q < c ==> young[#[trigger] a[o as int]->0.refs@[q] as int]
                    ==> marked@[a[o as int]->0.refs@[q] as int],
                minor_marking(a, young, roots@, rem, marked@, stack@, roots@.len() as int, rem.len() as int, o as int),
                marked_set(marked@).finite(),
                marked_set(marked@).len() <= n,
                stack@.len() >= base_stack,
                stack@.len() - base_stack == marked_set(marked@).len() - base_marked,
            decreases nrefs - c,
        {
            let child = match &objects[o] {
                Some(ob) => ob.refs[c],
                None => 0,
            };
            proof {
                assert(child == a[o as int]->0.refs@[c as int]);
                assert(a[o as int]->0.refs@.contains(child));
                assert(points_to(a, o as int, child as int));
                assert(live(a, child as int));
                if young[child as int] {
                    lemma_young_reachable_step(a, young, roots@, rem, o as int, child as int);
                }
            }
            let ghost before = marked@;
            mark_young(objects, nursery, &mut marked, &mut stack, child, Ghost(roots@), Ghost(rem), Ghost(roots@.len() as int), Ghost(rem.len() as int), Ghost(o as int));
            proof {
                lemma_marked_set_bounded(marked@);
                assert forall|q: int| 0 <= q < c + 1 && young[#[trigger] a[o as int]->0.refs@[q] as int]
                    implies marked@[a[o as int]->0.refs@[q] as int] by {
                    if q < c && young[a[o as int]->0.refs@[q] as int] {
                        assert(a[o as int]->0.refs@.contains(a[o as int]->0.refs@[q]));
                        assert(points_to(a, o as int, a[o as int]->0.refs@[q] as int));
                        assert(live(a, a[o as int]->0.refs@[q] as int));
                        assert(before[a[o as int]->0.refs@[q] as int]);
                    } else if q == c {
                        assert(a[o as int]->0.refs@[q] == child);
                    }
                }
                assert(marked@[o as int]);
            }
            c = c + 1;
        }
        proof {
            assert forall|i: int, j: int| 0 <= i < a.len() && 0 <= j < a.len() && marked@[i] && !stack@.contains(i as usize)
                && i != -1 && #[trigger] points_to(a, i, j) && young[j] implies marked@[j] by {
                if i == o as int {
                    let q = choose|q: int| 0 <= q < a[o as int]->0.refs@.len() && a[o as int]->0.refs@[q] == j as usize;
                    assert(young[a[o as int]->0.refs@[q] as int]);
                }
            }
        }
    }
    proof {
        assert(stack@ =~= Seq::<usize>::empty());
        assert forall|i: int| 0 <= i < a.len() implies
            (#[trigger] marked@[i] <==> young_reachable(a, young, roots@, rem, i)) by {
            if young_reachable(a, young, roots@, rem, i) {
                lemma_young_reachable_marked(a, young, roots@, rem, marked@, i);
            }
        }
    }
    marked
}

/// Size of the header in front of every object.
pub const HEADER_SIZE: usize = 16;

/// The generational heap.
pub struct MiniMark<T> {
    objects: Vec<Option<Object<T>>>,
    young: Vec<bool>,
    remembered: Vec<bool>,
    remembered_set: Vec<usize>,
    weak_refs: Vec<usize>,
    nursery_size: usize,
    nursery_used: usize,
    num_old_space_allocated: usize,
    next_major_collection_threshold: usize,
    next_major_collection_initial: usize,
    min_heap_size: usize,
    growth_limit: usize,
    total_gcs: usize,
}

impl<T> MiniMark<T> {
    /// The object slots.
    pub closed spec fn slots(&self) -> Seq<Option<Object<T>>> {
        self.objects@
    }

    /// Which objects are in the nursery.
    pub closed spec fn nursery(&self) -> Seq<bool> {
        self.young@
    }

    /// The remembered set.
    pub closed spec fn spec_remembered_set(&self) -> Seq<usize> {
        self.remembered_set@
    }

    /// The registered weak cells.
    pub closed spec fn weak_cells(&self) -> Seq<usize> {
        self.weak_refs@
    }

    /// Bytes counted in the old generation.
    pub closed spec fn spec_old_bytes(&self) -> usize {
        self.num_old_space_allocated
    }

    /// Bytes bumped in the nursery since the last minor collection.
    pub closed spec fn spec_nursery_used(&self) -> usize {
        self.nursery_used
    }

    /// Size of the nursery.
    pub closed spec fn spec_nursery_size(&self) -> usize {
        self.nursery_size
    }

    /// Old-generation size past which a major collection is due.
    pub closed spec fn spec_major_threshold(&self) -> usize {
        self.next_major_collection_threshold
    }

    /// The threshold that the last major collection settled on.
    pub closed spec fn spec_major_initial(&self) -> usize {
        self.next_major_collection_initial
    }

    /// The smallest major collection threshold.
    pub closed spec fn spec_min_heap_size(&self) -> usize {
        self.min_heap_size
    }

    /// Old-generation size past which an allocation runs out of memory.
    pub closed spec fn spec_growth_limit(&self) -> usize {
        self.growth_limit
    }

    /// Number of collections so far.
    pub closed spec fn spec_total_gcs(&self) -> usize {
        self.total_gcs
    }

    /// The counters and limits of `self` and `other` agree.
    pub open spec fn same_limits(self, other: Self) -> bool {
        &&& self.spec_nursery_size() == other.spec_nursery_size()
        &&& self.spec_major_threshold() == other.spec_major_threshold()
        &&& self.spec_major_initial() == other.spec_major_initial()
        &&& self.spec_min_heap_size() == other.spec_min_heap_size()
        &&& self.spec_growth_limit() == other.spec_growth_limit()
        &&& self.spec_total_gcs() == other.spec_total_gcs()
        &&& self.spec_old_bytes() == other.spec_old_bytes()
    }

    /// The heap invariant: references lead to live objects, nursery objects
    /// are live, the remembered set holds every old object that references a
    /// nursery object, and the registry holds live weak cells.
    pub closed spec fn wf(&self) -> bool {
        let objs = self.objects@;
        &&& self.young@.len() == objs.len()
        &&& self.remembered@.len() == objs.len()
        &&& forall|i: int, j: int| #[trigger] points_to(objs, i, j) ==> live(objs, j)
        &&& forall|i: int| 0 <= i < objs.len() && #[trigger] self.young@[i] ==> live(objs, i)
        &&& forall|k: int| 0 <= k < self.remembered_set@.len() ==> #[trigger] self.remembered_set@[k] < objs.len()
        &&& forall|i: int| 0 <= i < objs.len() ==> (#[trigger] self.remembered@[i] <==> self.remembered_set@.contains(i as usize))
        &&& remembered_complete(objs, self.young@, self.remembered_set@)
        &&& forall|k: int| 0 <= k < self.weak_refs@.len() ==> live(objs, #[trigger] self.weak_refs@[k] as int)
        &&& forall|i: int| #[trigger] live(objs, i) && objs[i]->0.weak_target is Some ==> objs[i]->0.weak_target->0 < objs.len()
        &&& self.nursery_used <= self.nursery_size
    }

    /// An empty heap with a nursery of `nursery_size` bytes. The smallest
    /// major collection threshold is the larger of `min_heap_size` and
    /// `nursery_floor` (the nursery size scaled by the major collection
    /// factor), and the first threshold is that size; the old generation may
    /// grow to the smaller of `growth_limit` and `capacity`.
    pub fn new(nursery_size: usize, min_heap_size: usize, nursery_floor: usize, growth_limit: usize, capacity: usize) -> (h: Self)
        ensures
            h.wf(),
            h.slots().len() == 0,
            h.weak_cells().len() == 0,
            h.spec_nursery_size() == nursery_size,
            h.spec_nursery_used() == 0,
            h.spec_old_bytes() == 0,
            h.spec_min_heap_size() == (if min_heap_size >= nursery_floor { min_heap_size } else { nursery_floor }),
            h.spec_major_threshold() == h.spec_min_heap_size(),
            h.spec_major_initial() == h.spec_min_heap_size(),
            h.spec_growth_limit() == (if capacity <= growth_limit { capacity } else { growth_limit }),
            h.spec_total_gcs() == 0,
    {
        let growth_limit = if capacity <= growth_limit { capacity } else { growth_limit };
        let min_heap_size = if min_heap_size >= nursery_floor { min_heap_size } else { nursery_floor };
        MiniMark {
            objects: Vec::new(),
            young: Vec::new(),
            remembered: Vec::new(),
            remembered_set: Vec::new(),
            weak_refs: Vec::new(),
            nursery_size,
            nursery_used: 0,
            num_old_space_allocated: 0,
            next_major_collection_threshold: min_heap_size,
            next_major_collection_initial: min_heap_size,
            min_heap_size,
            growth_limit,
            total_gcs: 0,
        }
    }

    /// Whether object `id` is in the nursery.
    pub fn is_young(&self, id: usize) -> (r: bool)
        requires
            self.wf(),
        ensures
            r == (id < self.slots().len() && self.nursery()[id as int]),
    {
        id < self.young.len() && self.young[id]
    }

    /// Whether slot `id` holds an object.
    pub fn is_live(&self, id: usize) -> (r: bool)
        ensures
            r == live(self.slots(), id as int),
    {
        id < self.objects.len() && self.objects[id].is_some()
    }

    /// The payload of object `id`, if it holds one.
    pub fn get(&self, id: usize) -> (r: Option<&T>)
        ensures
            r == (if live(self.slots(), id as int) {
                match self.slots()[id as int]->0.value {
                    Some(v) => Some(&v),
                    None => None,
                }
            } else {
                None
            }),
    {
        if id < self.objects.len() {
            match &self.objects[id] {
                Some(o) => match &o.value {
                    Some(v) => Some(v),
                    None => None,
                },
                None => None,
            }
        } else {
            None
        }
    }

    /// The referent of weak cell `weak`, or `None` once it has been cleared.
    pub fn upgrade(&self, weak: usize) -> (r: Option<usize>)
        requires
            live(self.slots(), weak as int),
        ensures
            r == self.slots()[weak as int]->0.weak_target,
    {
        match &self.objects[weak] {
            Some(o) => o.weak_target,
            None => None,
        }
    }

    /// Number of collections so far.
    pub fn total_gc_cycles_count(&self) -> (r: usize)
        ensures
            r == self.spec_total_gcs(),
    {
        self.total_gcs
    }

    /// Bytes counted in the old generation.
    pub fn old_space_allocated(&self) -> (r: usize)
        ensures
            r == self.spec_old_bytes(),
    {
        self.num_old_space_allocated
    }

    /// Old-generation size past which a major collection is due.
    pub fn next_major_collection_threshold(&self) -> (r: usize)
        ensures
            r == self.spec_major_threshold(),
    {
        self.next_major_collection_threshold
    }

    /// The threshold that the last major collection settled on.
    pub fn next_major_collection_initial(&self) -> (r: usize)
        ensures
            r == self.spec_major_initial(),
    {
        self.next_major_collection_initial
    }
}


/// Bytes an object with `size` payload bytes takes with its header, rounded
/// up to whole words.
pub open spec fn object_size(size: int) -> int {
    crate::align::spec_align_up(size + HEADER_SIZE, 8)
}

/// Payload size of a weak cell: one reference.
pub const WEAK_CELL_SIZE: usize = 8;

/// Bytes an object with a payload of `size` bytes takes: its header and
/// payload, rounded up to whole words.
pub fn allocation_size(size: usize) -> (r: usize)
    requires
        size + HEADER_SIZE + 8 <= usize::MAX,
    ensures
        r == object_size(size as int),
{
    proof {
        crate::align::lemma_eight_is_power_of_two();
    }
    crate::align::round_up(size + HEADER_SIZE, 8)
}


impl<T> MiniMark<T> {
    /// Appends a nursery object, when it fits in the nursery.
    fn bump_young(&mut self, o: Object<T>) -> (r: Option<usize>)
        requires
            old(self).wf(),
            forall|j: int| 0 <= j < o.refs@.len() ==> live(old(self).slots(), #[trigger] o.refs@[j] as int),
            o.weak_target matches Some(t) ==> t < old(self).slots().len(),
        ensures
            final(self).same_limits(*old(self)),
            final(self).wf(),
            final(self).weak_cells() == old(self).weak_cells(),
            final(self).spec_remembered_set() == old(self).spec_remembered_set(),
            final(self).spec_old_bytes() == old(self).spec_old_bytes(),
            final(self).spec_major_threshold() == old(self).spec_major_threshold(),
            final(self).spec_total_gcs() == old(self).spec_total_gcs(),
            final(self).spec_nursery_size() == old(self).spec_nursery_size(),
            old(self).spec_nursery_used() + o.size <= old(self).spec_nursery_size() ==> {
                &&& r == Some(old(self).slots().len() as usize)
                &&& final(self).slots() == old(self).slots().push(Some(o))
                &&& final(self).nursery() == old(self).nursery().push(true)
                &&& final(self).spec_nursery_used() == old(self).spec_nursery_used() + o.size
            },
            old(self).spec_nursery_used() + o.size > old(self).spec_nursery_size() ==> r is None
                && final(self).slots() == old(self).slots() && final(self).nursery() == old(self).nursery()
                && final(self).spec_nursery_used() == old(self).spec_nursery_used(),
    {
        if o.size > self.nursery_size - self.nursery_used {
            return None;
        }
        let id = self.objects.len();
        let ghost before = self.objects@;
        let ghost before_young = self.young@;
        let ghost before_rem = self.remembered@;
        self.nursery_used = self.nursery_used + o.size;
        self.objects.push(Some(o));
        self.young.push(true);
        self.remembered.push(false);
        proof {
            let objs = self.objects@;
            assert forall|i: int| 0 <= i < before.len() implies objs[i] == before[i] && #[trigger] self.young@[i] == before_young[i]
                && self.remembered@[i] == before_rem[i] by {}
            assert forall|i: int, j: int| #[trigger] points_to(objs, i, j) implies live(objs, j) by {
                if i < before.len() {
                    assert(points_to(before, i, j));
                } else {
                    let p = choose|p: int| 0 <= p < objs[i]->0.refs@.len() && objs[i]->0.refs@[p] == j as usize;
                    assert(live(before, objs[i]->0.refs@[p] as int));
                }
            }
            assert forall|i: int| 0 <= i < objs.len() && #[trigger] self.young@[i] implies live(objs, i) by {
                if i < before.len() {
                    assert(before_young[i]);
                }
            }
            assert forall|i: int| 0 <= i < objs.len() implies (#[trigger] self.remembered@[i] <==> self.remembered_set@.contains(i as usize)) by {
                if i == before.len() {
                    if self.remembered_set@.contains(i as usize) {
                        let k = choose|k: int| 0 <= k < self.remembered_set@.len() && self.remembered_set@[k] == i as usize;
                    }
                } else {
                    assert(self.remembered@[i] == before_rem[i]);
                }
            }
            assert forall|i: int, j: int| #[trigger] points_to(objs, i, j) && !self.young@[i] && self.young@[j]
                implies self.remembered_set@.contains(i as usize) by {
                assert(i < before.len());
                assert(points_to(before, i, j));
                assert(live(before, j));
                assert(self.young@[j] == before_young[j]);
            }
            assert forall|k: int| 0 <= k < self.weak_refs@.len() implies live(objs, #[trigger] self.weak_refs@[k] as int) by {
                assert(live(before, self.weak_refs@[k] as int));
            }
            assert forall|i: int| #[trigger] live(objs, i) && objs[i]->0.weak_target is Some implies objs[i]->0.weak_target->0 < objs.len() by {
                if i < before.len() {
                    assert(live(before, i));
                }
            }
            assert(self.young@ =~= before_young.push(true));
        }
        Some(id)
    }

    /// Allocates a nursery object holding `value` with references `refs`
    /// and a payload of `size` bytes, when it fits in the nursery.
    pub fn alloc_inline_new(&mut self, value: T, refs: Vec<usize>, size: usize) -> (r: Option<usize>)
        requires
            old(self).wf(),
            forall|j: int| 0 <= j < refs@.len() ==> live(old(self).slots(), #[trigger] refs@[j] as int),
            size + HEADER_SIZE + 8 <= usize::MAX,
        ensures
            final(self).same_limits(*old(self)),
            final(self).wf(),
            final(self).weak_cells() == old(self).weak_cells(),
            final(self).spec_remembered_set() == old(self).spec_remembered_set(),
            final(self).spec_old_bytes() == old(self).spec_old_bytes(),
            old(self).spec_nursery_used() + object_size(size as int) <= old(self).spec_nursery_size() ==> {
                &&& r == Some(old(self).slots().len() as usize)
                &&& final(self).slots() == old(self).slots().push(Some(Object {
                    color: 0, size: object_size(size as int) as usize, refs, weak_target: None, value: Some(value) }))
                &&& final(self).nursery() == old(self).nursery().push(true)
                &&& final(self).spec_nursery_used() == old(self).spec_nursery_used() + object_size(size as int)
            },
            old(self).spec_nursery_used() + object_size(size as int) > old(self).spec_nursery_size() ==> r is None
                && final(self).slots() == old(self).slots() && final(self).nursery() == old(self).nursery()
                && final(self).spec_nursery_used() == old(self).spec_nursery_used(),
    {
        proof {
            crate::align::lemma_eight_is_power_of_two();
        }
        let osize = crate::align::round_up(size + HEADER_SIZE, 8);
        self.bump_young(Object { color: 0, size: osize, refs, weak_target: None, value: Some(value) })
    }

    /// Allocates a nursery weak cell referring to `target` and registers it,
    /// when it fits in the nursery.
    pub fn allocate_weak(&mut self, target: usize) -> (r: Option<usize>)
        requires
            old(self).wf(),
            target < old(self).slots().len(),
        ensures
            final(self).same_limits(*old(self)),
            final(self).wf(),
            final(self).spec_remembered_set() == old(self).spec_remembered_set(),
            old(self).spec_nursery_used() + object_size(WEAK_CELL_SIZE as int) <= old(self).spec_nursery_size() ==> {
                &&& r == Some(old(self).slots().len() as usize)
                &&& final(self).slots().len() == old(self).slots().len() + 1
                &&& final(self).slots().drop_last() == old(self).slots()
                &&& final(self).slots().last() is Some
                &&& final(self).slots().last()->0.weak_target == Some(target)
                &&& final(self).slots().last()->0.refs@ == Seq::<usize>::empty()
                &&& final(self).slots().last()->0.value is None
                &&& final(self).slots().last()->0.size == object_size(WEAK_CELL_SIZE as int) as usize
                &&& final(self).slots().last()->0.color == 0
                &&& final(self).weak_cells() == old(self).weak_cells().push(old(self).slots().len() as usize)
                &&& final(self).nursery() == old(self).nursery().push(true)
                &&& final(self).spec_nursery_used() == old(self).spec_nursery_used() + object_size(WEAK_CELL_SIZE as int)
            },
            old(self).spec_nursery_used() + object_size(WEAK_CELL_SIZE as int) > old(self).spec_nursery_size() ==> r is None
                && final(self).slots() == old(self).slots() && final(self).weak_cells() == old(self).weak_cells()
                && final(self).nursery() == old(self).nursery() && final(self).spec_nursery_used() == old(self).spec_nursery_used(),
    {
        proof {
            crate::align::lemma_eight_is_power_of_two();
        }
        let osize = crate::align::round_up(WEAK_CELL_SIZE + HEADER_SIZE, 8);
        let n = self.objects.len();
        let r = self.bump_young(Object { color: 0, size: osize, refs: Vec::new(), weak_target: Some(target), value: None });
        match r {
            Some(id) => {
                let ghost before = self.weak_refs@;
                self.weak_refs.push(id);
                proof {
                    let objs = self.objects@;
                    let prev = old(self).objects@;
                    assert(before == old(self).weak_refs@);
                    assert(old(self).nursery_used + osize <= old(self).nursery_size);
                    assert(id == n);
                    assert(objs.len() == prev.len() + 1);
                    assert(objs[id as int] is Some);
                    assert(objs.drop_last() =~= prev);
                    assert forall|k: int| 0 <= k < self.weak_refs@.len() implies live(objs, #[trigger] self.weak_refs@[k] as int) by {
                        if k < before.len() {
                            let w = before[k] as int;
                            assert(self.weak_refs@[k] == before[k]);
                            assert(live(prev, w));
                            assert(objs[w] == prev[w]);
                        } else {
                            assert(self.weak_refs@[k] == id);
                        }
                    }
                }
            },
            None => {},
        }
        r
    }

    /// The write barrier: an old object that is not remembered yet is
    /// remembered, so that a minor collection traces from it.
    pub fn write_barrier(&mut self, object: usize)
        requires
            old(self).wf(),
            object < old(self).slots().len(),
        ensures
            final(self).same_limits(*old(self)),
            final(self).spec_nursery_used() == old(self).spec_nursery_used(),
            final(self).wf(),
            final(self).slots() == old(self).slots(),
            final(self).nursery() == old(self).nursery(),
            final(self).weak_cells() == old(self).weak_cells(),
            !old(self).nursery()[object as int] && !old(self).spec_remembered_set().contains(object)
                ==> final(self).spec_remembered_set() == old(self).spec_remembered_set().push(object),
            old(self).nursery()[object as int] || old(self).spec_remembered_set().contains(object)
                ==> final(self).spec_remembered_set() == old(self).spec_remembered_set(),
    {
        let n: usize = self.objects.len();
        if !self.young[object] && !self.remembered[object] {
            let ghost before = self.remembered_set@;
            let ghost before_flags = self.remembered@;
            self.remembered.set(object, true);
            self.remembered_set.push(object);
            proof {
                assert(self.remembered_set@[before.len() as int] == object);
                assert forall|i: int| 0 <= i < self.objects@.len() implies (#[trigger] self.remembered@[i] <==> self.remembered_set@.contains(i as usize)) by {
                    if i != object {
                        assert(self.remembered@[i] == before_flags[i]);
                        assert(before_flags[i] <==> before.contains(i as usize));
                        if self.remembered_set@.contains(i as usize) {
                            let k = choose|k: int| 0 <= k < self.remembered_set@.len() && self.remembered_set@[k] == i as usize;
                            if k < before.len() {
                                assert(before[k] == i as usize);
                            } else {
                                assert(self.remembered_set@[k] == object);
                            }
                        }
                        if before.contains(i as usize) {
                            let k = choose|k: int| 0 <= k < before.len() && before[k] == i as usize;
                            assert(self.remembered_set@[k] == i as usize);
                        }
                    } else {
                        assert(self.remembered@[i]);
                        assert(self.remembered_set@[before.len() as int] == i as usize);
                    }
                }
                assert forall|i: int, j: int| #[trigger] points_to(self.objects@, i, j) && !self.young@[i] && self.young@[j]
                    implies self.remembered_set@.contains(i as usize) by {
                    assert(before.contains(i as usize));
                    let k = choose|k: int| 0 <= k < before.len() && before[k] == i as usize;
                    assert(self.remembered_set@[k] == i as usize);
                }
                assert forall|k: int| 0 <= k < self.remembered_set@.len() implies #[trigger] self.remembered_set@[k] < self.objects@.len() by {
                    if k < before.len() {
                        assert(self.remembered_set@[k] == before[k]);
                    }
                }
            }
        }
    }

    /// Replaces the references of object `object` with `refs`, then runs the
    /// write barrier on it.
    pub fn write(&mut self, object: usize, refs: Vec<usize>)
        requires
            old(self).wf(),
            live(old(self).slots(), object as int),
            forall|j: int| 0 <= j < refs@.len() ==> live(old(self).slots(), #[trigger] refs@[j] as int),
        ensures
            final(self).same_limits(*old(self)),
            final(self).spec_nursery_used() == old(self).spec_nursery_used(),
            final(self).wf(),
            final(self).slots().len() == old(self).slots().len(),
            final(self).slots()[object as int] is Some,
            final(self).slots()[object as int]->0.refs == refs,
            final(self).slots()[object as int]->0.value == old(self).slots()[object as int]->0.value,
            forall|i: int| 0 <= i < old(self).slots().len() && i != object ==> #[trigger] final(self).slots()[i] == old(self).slots()[i],
            final(self).nursery() == old(self).nursery(),
            final(self).weak_cells() == old(self).weak_cells(),
            !old(self).nursery()[object as int] ==> final(self).spec_remembered_set().contains(object),
    {
        let n: usize = self.objects.len();
        let ghost before = self.objects@;
        let ghost before_rem = self.remembered_set@;
        let ghost before_flags = self.remembered@;
        let ghost new_refs = refs@;
        match &mut self.objects[object] {
            Some(o) => {
                o.refs = refs;
            },
            None => {},
        }
        if !self.young[object] && !self.remembered[object] {
            self.remembered.set(object, true);
            self.remembered_set.push(object);
        }
        proof {
            let objs = self.objects@;
            assert forall|i: int| 0 <= i < objs.len() && i != object implies #[trigger] objs[i] == before[i] by {}
            assert forall|i: int, j: int| #[trigger] points_to(objs, i, j) implies live(objs, j) by {
                if i != object {
                    assert(points_to(before, i, j));
                    assert(live(before, j));
                } else {
                    let p = choose|p: int| 0 <= p < objs[i]->0.refs@.len() && objs[i]->0.refs@[p] == j as usize;
                    assert(live(before, new_refs[p] as int));
                }
                assert(objs[j] is Some) by {
                    if j != object {
                        assert(objs[j] == before[j]);
                    }
                }
            }
            assert forall|i: int| 0 <= i < objs.len() && #[trigger] self.young@[i] implies live(objs, i) by {
                if i != object {
                    assert(live(before, i));
                }
            }
            assert forall|i: int| 0 <= i < objs.len() implies (#[trigger] self.remembered@[i] <==> self.remembered_set@.contains(i as usize)) by {
                if i != object {
                    assert(self.remembered@[i] == before_flags[i]);
                    assert(before_flags[i] <==> before_rem.contains(i as usize));
                    if self.remembered_set@.contains(i as usize) {
                        let k = choose|k: int| 0 <= k < self.remembered_set@.len() && self.remembered_set@[k] == i as usize;
                        if k < before_rem.len() {
                            assert(before_rem[k] == i as usize);
                        } else {
                            assert(self.remembered_set@[k] == object);
                        }
                    }
                    if before_rem.contains(i as usize) {
                        let k = choose|k: int| 0 <= k < before_rem.len() && before_rem[k] == i as usize;
                        assert(self.remembered_set@[k] == i as usize);
                    }
                } else {
                    if self.remembered@[i] {
                        if before_rem.contains(i as usize) {
                            let k = choose|k: int| 0 <= k < before_rem.len() && before_rem[k] == i as usize;
                            assert(self.remembered_set@[k] == i as usize);
                        } else {
                            assert(self.remembered_set@[before_rem.len() as int] == i as usize);
                        }
                    }
                    if self.remembered_set@.contains(i as usize) {
                        let k = choose|k: int| 0 <= k < self.remembered_set@.len() && self.remembered_set@[k] == i as usize;
                        if k < before_rem.len() {
                            assert(before_rem[k] == i as usize);
                        }
                    }
                }
            }
            assert forall|i: int, j: int| #[trigger] points_to(objs, i, j) && !self.young@[i] && self.young@[j]
                implies self.remembered_set@.contains(i as usize) by {
                if i != object {
                    assert(points_to(before, i, j));
                    assert(before_rem.contains(i as usize));
                    let k = choose|k: int| 0 <= k < before_rem.len() && before_rem[k] == i as usize;
                    assert(self.remembered_set@[k] == i as usize);
                } else {
                    if before_rem.contains(i as usize) {
                        let k = choose|k: int| 0 <= k < before_rem.len() && before_rem[k] == i as usize;
                        assert(self.remembered_set@[k] == i as usize);
                    } else {
                        assert(self.remembered_set@[before_rem.len() as int] == i as usize);
                    }
                }
            }
            assert forall|k: int| 0 <= k < self.remembered_set@.len() implies #[trigger] self.remembered_set@[k] < objs.len() by {
                if k < before_rem.len() {
                    assert(self.remembered_set@[k] == before_rem[k]);
                }
            }
            assert forall|k: int| 0 <= k < self.weak_refs@.len() implies live(objs, #[trigger] self.weak_refs@[k] as int) by {
                assert(live(before, self.weak_refs@[k] as int));
            }
            assert forall|i: int| #[trigger] live(objs, i) && objs[i]->0.weak_target is Some implies objs[i]->0.weak_target->0 < objs.len() by {
                assert(live(before, i));
            }
            if !self.young@[object as int] {
                if before_rem.contains(object) {
                    let k = choose|k: int| 0 <= k < before_rem.len() && before_rem[k] == object;
                    assert(self.remembered_set@[k] == object);
                } else {
                    assert(self.remembered_set@[before_rem.len() as int] == object);
                }
            }
        }
    }
}


/// Object `i` dies in a minor collection: a nursery object that the
/// collection does not reach.
pub open spec fn minor_dies<T>(
    a: Seq<Option<Object<T>>>,
    young: Seq<bool>,
    roots: Seq<usize>,
    rem: Seq<usize>,
    i: int,
) -> bool {
    young[i] && !young_reachable(a, young, roots, rem, i)
}

/// A weak referent after a minor collection: cleared when it dies.
pub open spec fn minor_target<T>(
    a: Seq<Option<Object<T>>>,
    young: Seq<bool>,
    roots: Seq<usize>,
    rem: Seq<usize>,
    t: Option<usize>,
) -> Option<usize> {
    match t {
        Some(x) => if minor_dies(a, young, roots, rem, x as int) { None } else { Some(x) },
        None => None,
    }
}

/// A weak referent after the flagged objects that `marked` leaves out died.
pub open spec fn target_after(young: Seq<bool>, marked: Seq<bool>, t: Option<usize>) -> Option<usize> {
    match t {
        Some(x) => if young[x as int] && !marked[x as int] { None } else { Some(x) },
        None => None,
    }
}

/// The weak cells that stay registered: all but the dying nursery cells.
pub open spec fn kept_cell(young: Seq<bool>, marked: Seq<bool>) -> spec_fn(usize) -> bool {
    |w: usize| !(young[w as int] && !marked[w as int])
}

/// The sizes of the objects below `n` that `keep` selects, added one by one
/// to `acc`, wrapping around past the largest `usize`.
pub open spec fn add_sizes<T>(objs: Seq<Option<Object<T>>>, keep: spec_fn(int) -> bool, acc: usize, n: nat) -> usize
    decreases n,
{
    if n == 0 {
        acc
    } else {
        let prev = add_sizes(objs, keep, acc, (n - 1) as nat);
        if keep(n - 1) {
            wrapping_add_usize(prev, objs[n - 1]->0.size)
        } else {
            prev
        }
    }
}

/// `add_sizes` only reads the selected objects below `n`.
proof fn lemma_add_sizes_same<T>(
    o1: Seq<Option<Object<T>>>,
    o2: Seq<Option<Object<T>>>,
    k1: spec_fn(int) -> bool,
    k2: spec_fn(int) -> bool,
    acc: usize,
    n: nat,
)
    requires
        forall|i: int| 0 <= i < n ==> #[trigger] k1(i) == k2(i),
        forall|i: int| 0 <= i < n && #[trigger] k1(i) ==> o1[i]->0.size == o2[i]->0.size,
    ensures
        add_sizes(o1, k1, acc, n) == add_sizes(o2, k2, acc, n),
    decreases n,
{
    if n > 0 {
        lemma_add_sizes_same(o1, o2, k1, k2, acc, (n - 1) as nat);
        assert(k1(n - 1) == k2(n - 1));
    }
}

/// Filtering by two predicates that agree on the elements gives the same.
proof fn lemma_filter_congruent<A>(s: Seq<A>, p1: spec_fn(A) -> bool, p2: spec_fn(A) -> bool)
    requires
        forall|k: int| 0 <= k < s.len() ==> #[trigger] p1(s[k]) == p2(s[k]),
    ensures
        s.filter(p1) == s.filter(p2),
    decreases s.len(),
{
    reveal(Seq::filter);
    if s.len() > 0 {
        assert forall|k: int| 0 <= k < s.drop_last().len() implies #[trigger] p1(s.drop_last()[k]) == p2(s.drop_last()[k]) by {
            assert(s.drop_last()[k] == s[k]);
            assert(p1(s[k]) == p2(s[k]));
        }
        lemma_filter_congruent(s.drop_last(), p1, p2);
        assert(p1(s[s.len() - 1]) == p2(s[s.len() - 1]));
    }
}

/// Drops from the registry the weak cells that are flagged and not marked,
/// and clears, in the flagged and marked cells, the referents that are
/// flagged and not marked.
fn update_weak_cells<T>(
    objects: &mut Vec<Option<Object<T>>>,
    weak_refs: &mut Vec<usize>,
    flags: &Vec<bool>,
    marked: &Vec<bool>,
)
    requires
        flags@.len() == old(objects)@.len(),
        marked@.len() == old(objects)@.len(),
        forall|k: int| 0 <= k < old(weak_refs)@.len() ==> live(old(objects)@, #[trigger] old(weak_refs)@[k] as int),
        forall|i: int| #[trigger] live(old(objects)@, i) && old(objects)@[i]->0.weak_target is Some
            ==> old(objects)@[i]->0.weak_target->0 < old(objects)@.len(),
    ensures
        final(objects)@.len() == old(objects)@.len(),
        forall|i: int| 0 <= i < old(objects)@.len() ==>
            (#[trigger] final(objects)@[i] is Some) == (old(objects)@[i] is Some),
        forall|i: int| #[trigger] live(old(objects)@, i) ==> {
            &&& final(objects)@[i]->0.size == old(objects)@[i]->0.size
            &&& final(objects)@[i]->0.refs == old(objects)@[i]->0.refs
            &&& final(objects)@[i]->0.value == old(objects)@[i]->0.value
            &&& final(objects)@[i]->0.color == old(objects)@[i]->0.color
            &&& final(objects)@[i]->0.weak_target == (
                if old(weak_refs)@.contains(i as usize) && flags@[i] && marked@[i] {
                    target_after(flags@, marked@, old(objects)@[i]->0.weak_target)
                } else {
                    old(objects)@[i]->0.weak_target
                })
        },
        final(weak_refs)@ == old(weak_refs)@.filter(kept_cell(flags@, marked@)),
{
    let ghost a = objects@;
    let ghost young = flags@;
    let ghost pred = kept_cell(young, marked@);
    let ghost w = weak_refs@;
    let mut kept: Vec<usize> = Vec::new();
    let mut idx: usize = 0;
    let n: usize = objects.len();
    proof {
        reveal(Seq::filter);
        assert(w.take(0).filter(pred) =~= Seq::<usize>::empty());
    }
    while idx < weak_refs.len()
        invariant
            0 <= idx <= w.len(),
            n == a.len(),
            weak_refs@ == w,
            flags@ == young,
            young.len() == a.len(),
            marked@.len() == a.len(),
            objects@.len() == a.len(),
            forall|k: int| 0 <= k < w.len() ==> live(a, #[trigger] w[k] as int),
            forall|i: int| #[trigger] live(a, i) && a[i]->0.weak_target is Some ==> a[i]->0.weak_target->0 < a.len(),
            forall|i: int| 0 <= i < a.len() ==> (#[trigger] objects@[i] is Some) == (a[i] is Some),
            forall|i: int| #[trigger] live(a, i) ==> {
                &&& objects@[i]->0.size == a[i]->0.size
                &&& objects@[i]->0.refs == a[i]->0.refs
                &&& objects@[i]->0.value == a[i]->0.value
                &&& objects@[i]->0.color == a[i]->0.color
                &&& objects@[i]->0.weak_target == (
                    if w.take(idx as int).contains(i as usize) && young[i] && marked@[i] {
                        target_after(young, marked@, a[i]->0.weak_target)
                    } else {
                        a[i]->0.weak_target
                    })
            },
            kept@ == w.take(idx as int).filter(pred),
            pred == kept_cell(young, marked@),
        decreases w.len() - idx,
    {
        let cell = weak_refs[idx];
        proof {
            assert(live(a, w[idx as int] as int));
        }
        let keep = !(flags[cell] && !marked[cell]);
        let ghost before = objects@;
        if keep {
            if flags[cell] {
                let target = match &objects[cell] {
                    Some(o) => o.weak_target,
                    None => None,
                };
                let new_target = match target {
                    Some(t) => {
                        proof {
                            if a[cell as int]->0.weak_target is None {
                                assert(target_after(young, marked@, a[cell as int]->0.weak_target) is None);
                            }
                            assert(t < a.len());
                        }
                        if flags[t] && !marked[t] {
                            None
                        } else {
                            Some(t)
                        }
                    },
                    None => None,
                };
                proof {
                    assert(new_target == target_after(young, marked@, a[cell as int]->0.weak_target));
                }
                match &mut objects[cell] {
                    Some(o) => {
                        o.weak_target = new_target;
                    },
                    None => {},
                }
            }
            kept.push(cell);
        }
        proof {
            reveal(Seq::filter);
            assert(w.take(idx as int + 1) =~= w.take(idx as int).push(cell));
            assert(w.take(idx as int + 1).drop_last() =~= w.take(idx as int));
            assert(w.take(idx as int + 1).last() == cell);
            assert(pred(cell) == keep);
            assert(w.take(idx as int + 1).filter(pred) == (if pred(cell) {
                w.take(idx as int).filter(pred).push(cell)
            } else {
                w.take(idx as int).filter(pred)
            }));
            assert forall|i: int| #[trigger] live(a, i) implies {
                &&& objects@[i]->0.size == a[i]->0.size
                &&& objects@[i]->0.refs == a[i]->0.refs
                &&& objects@[i]->0.value == a[i]->0.value
                &&& objects@[i]->0.color == a[i]->0.color
                &&& objects@[i]->0.weak_target == (
                    if w.take(idx as int + 1).contains(i as usize) && young[i] && marked@[i] {
                        target_after(young, marked@, a[i]->0.weak_target)
                    } else {
                        a[i]->0.weak_target
                    })
            } by {
                assert(w.take(idx as int + 1).contains(i as usize) == (w.take(idx as int).contains(i as usize) || i as usize == cell));
                assert(before[i] is Some);
                if i != cell as int {
                    assert(objects@[i] == before[i]);
                } else if keep && young[i] {
                    assert(marked@[i]);
                    assert(objects@[i]->0.weak_target == target_after(young, marked@, a[i]->0.weak_target));
                } else {
                    assert(objects@[i] == before[i]);
                }
            }
            assert forall|i: int| 0 <= i < a.len() implies (#[trigger] objects@[i] is Some) == (a[i] is Some) by {
                if i != cell as int {
                    assert(objects@[i] == before[i]);
                }
            }
        }
        idx = idx + 1;
    }
    proof {
        assert(w.take(w.len() as int) =~= w);
    }
    *weak_refs = kept;
}

impl<T> MiniMark<T> {
    /// Frees the dying nursery objects, promotes the survivors to the old
    /// generation and counts their bytes there.
    fn minor_sweep(&mut self, marked: &Vec<bool>)
        requires
            marked@.len() == old(self).objects@.len(),
            old(self).young@.len() == old(self).objects@.len(),
            forall|i: int| 0 <= i < old(self).objects@.len() && #[trigger] old(self).young@[i] ==> old(self).objects@[i] is Some,
        ensures
            final(self).objects@.len() == old(self).objects@.len(),
            forall|i: int| 0 <= i < old(self).objects@.len() ==> #[trigger] final(self).objects@[i] == (
                if old(self).young@[i] && !marked@[i] { None } else { old(self).objects@[i] }),
            final(self).young@.len() == old(self).objects@.len(),
            forall|i: int| 0 <= i < old(self).objects@.len() ==> !#[trigger] final(self).young@[i],
            final(self).num_old_space_allocated == add_sizes(old(self).objects@,
                |i: int| old(self).young@[i] && marked@[i], old(self).num_old_space_allocated, old(self).objects@.len()),
            final(self).weak_refs == old(self).weak_refs,
            final(self).remembered == old(self).remembered,
            final(self).remembered_set == old(self).remembered_set,
            final(self).nursery_size == old(self).nursery_size,
            final(self).nursery_used == old(self).nursery_used,
            final(self).next_major_collection_threshold == old(self).next_major_collection_threshold,
            final(self).next_major_collection_initial == old(self).next_major_collection_initial,
            final(self).min_heap_size == old(self).min_heap_size,
            final(self).growth_limit == old(self).growth_limit,
            final(self).total_gcs == old(self).total_gcs,
    {
        let ghost a = self.objects@;
        let ghost young = self.young@;
        let ghost keep = |i: int| young[i] && marked@[i];
        let n = self.objects.len();
        let mut i: usize = 0;
        while i < n
            invariant
                i <= n,
                n == a.len(),
                marked@.len() == a.len(),
                young.len() == a.len(),
                self.objects@.len() == a.len(),
                self.young@.len() == a.len(),
                forall|k: int| 0 <= k < a.len() && #[trigger] young[k] ==> a[k] is Some,
                forall|k: int| 0 <= k < i ==> #[trigger] self.objects@[k] == (if young[k] && !marked@[k] { None } else { a[k] }),
                forall|k: int| i <= k < a.len() ==> #[trigger] self.objects@[k] == a[k],
                forall|k: int| 0 <= k < i ==> !#[trigger] self.young@[k],
                forall|k: int| i <= k < a.len() ==> #[trigger] self.young@[k] == young[k],
                self.num_old_space_allocated == add_sizes(a, keep, old(self).num_old_space_allocated, i as nat),
                keep == (|k: int| young[k] && marked@[k]),
                self.weak_refs == old(self).weak_refs,
                self.remembered == old(self).remembered,
                self.remembered_set == old(self).remembered_set,
                self.nursery_size == old(self).nursery_size,
                self.nursery_used == old(self).nursery_used,
                self.next_major_collection_threshold == old(self).next_major_collection_threshold,
                self.next_major_collection_initial == old(self).next_major_collection_initial,
                self.min_heap_size == old(self).min_heap_size,
                self.growth_limit == old(self).growth_limit,
                self.total_gcs == old(self).total_gcs,
            decreases n - i,
        {
            if self.young[i] {
                if marked[i] {
                    let size = match &self.objects[i] {
                        Some(o) => o.size,
                        None => 0,
                    };
                    self.num_old_space_allocated = self.num_old_space_allocated.wrapping_add(size);
                } else {
                    self.objects.set(i, None);
                }
                self.young.set(i, false);
            }
            proof {
                assert(keep(i as int) == (young[i as int] && marked@[i as int]));
            }
            i = i + 1;
        }
    }
}

impl<T> MiniMark<T> {
    /// Forgets the remembered set and the flags that mirror it.
    fn clear_remembered(&mut self)
        requires
            old(self).remembered@.len() == old(self).objects@.len(),
            forall|k: int| 0 <= k < old(self).remembered_set@.len() ==> #[trigger] old(self).remembered_set@[k] < old(self).objects@.len(),
            forall|i: int| 0 <= i < old(self).objects@.len() ==>
                (#[trigger] old(self).remembered@[i] <==> old(self).remembered_set@.contains(i as usize)),
        ensures
            final(self).remembered@.len() == old(self).objects@.len(),
            forall|i: int| 0 <= i < old(self).objects@.len() ==> !#[trigger] final(self).remembered@[i],
            final(self).remembered_set@ == Seq::<usize>::empty(),
            final(self).objects == old(self).objects,
            final(self).young == old(self).young,
            final(self).weak_refs == old(self).weak_refs,
            final(self).nursery_size == old(self).nursery_size,
            final(self).nursery_used == old(self).nursery_used,
            final(self).num_old_space_allocated == old(self).num_old_space_allocated,
            final(self).next_major_collection_threshold == old(self).next_major_collection_threshold,
            final(self).next_major_collection_initial == old(self).next_major_collection_initial,
            final(self).min_heap_size == old(self).min_heap_size,
            final(self).growth_limit == old(self).growth_limit,
            final(self).total_gcs == old(self).total_gcs,
    {
        let ghost rem = self.remembered_set@;
        let n: usize = self.objects.len();
        let mut k: usize = 0;
        while k < self.remembered_set.len()
            invariant
                k <= rem.len(),
                n == old(self).objects@.len(),
                self.remembered_set@ == rem,
                self.remembered@.len() == n,
                forall|q: int| 0 <= q < rem.len() ==> #[trigger] rem[q] < n,
                forall|i: int| 0 <= i < n && #[trigger] self.remembered@[i] ==>
                    exists|q: int| k <= q < rem.len() && rem[q] == i as usize,
                self.objects == old(self).objects,
                self.young == old(self).young,
                self.weak_refs == old(self).weak_refs,
                self.nursery_size == old(self).nursery_size,
                self.nursery_used == old(self).nursery_used,
                self.num_old_space_allocated == old(self).num_old_space_allocated,
                self.next_major_collection_threshold == old(self).next_major_collection_threshold,
                self.next_major_collection_initial == old(self).next_major_collection_initial,
                self.min_heap_size == old(self).min_heap_size,
                self.growth_limit == old(self).growth_limit,
                self.total_gcs == old(self).total_gcs,
            decreases rem.len() - k,
        {
            let o = self.remembered_set[k];
            let ghost before = self.remembered@;
            self.remembered.set(o, false);
            proof {
                assert forall|i: int| 0 <= i < n && #[trigger] self.remembered@[i] implies
                    exists|q: int| k + 1 <= q < rem.len() && rem[q] == i as usize by {
                    assert(before[i]);
                    let q = choose|q: int| k <= q < rem.len() && rem[q] == i as usize;
                    assert(i != o as int);
                    assert(q != k);
                }
            }
            k = k + 1;
        }
        self.remembered_set.clear();
    }

    /// What a minor collection from `roots` makes of the heap: the nursery
    /// objects that it does not reach are freed, the others stay in place,
    /// now old, and are counted in the old generation; dying nursery weak
    /// cells leave the registry and surviving ones forget dying referents;
    /// the nursery and the remembered set are emptied.
    pub open spec fn minor_collected(self, new: Self, roots: Seq<usize>) -> bool {
        let a = self.slots();
        let young = self.nursery();
        let rem = self.spec_remembered_set();
        &&& new.slots().len() == a.len()
        &&& forall|i: int| 0 <= i < a.len() && minor_dies(a, young, roots, rem, i) ==> #[trigger] new.slots()[i] is None
        &&& forall|i: int| 0 <= i < a.len() && !live(a, i) ==> #[trigger] new.slots()[i] is None
        &&& forall|i: int| #[trigger] live(a, i) && !minor_dies(a, young, roots, rem, i) ==> {
            &&& live(new.slots(), i)
            &&& new.slots()[i]->0.size == a[i]->0.size
            &&& new.slots()[i]->0.refs == a[i]->0.refs
            &&& new.slots()[i]->0.value == a[i]->0.value
            &&& new.slots()[i]->0.color == a[i]->0.color
            &&& new.slots()[i]->0.weak_target == (if self.weak_cells().contains(i as usize) && young[i] {
                minor_target(a, young, roots, rem, a[i]->0.weak_target)
            } else {
                a[i]->0.weak_target
            })
        }
        &&& forall|i: int| 0 <= i < a.len() ==> !#[trigger] new.nursery()[i]
        &&& new.spec_remembered_set() == Seq::<usize>::empty()
        &&& new.weak_cells() == self.weak_cells().filter(|w: usize| !minor_dies(a, young, roots, rem, w as int))
        &&& new.spec_nursery_used() == 0
        &&& new.spec_nursery_size() == self.spec_nursery_size()
        &&& new.spec_major_threshold() == self.spec_major_threshold()
        &&& new.spec_major_initial() == self.spec_major_initial()
        &&& new.spec_min_heap_size() == self.spec_min_heap_size()
        &&& new.spec_growth_limit() == self.spec_growth_limit()
        &&& new.spec_total_gcs() == self.spec_total_gcs() + 1
        &&& new.spec_old_bytes() == add_sizes(a, |i: int| young_reachable(a, young, roots, rem, i), self.spec_old_bytes(), a.len())
    }

    /// A minor collection from `roots`: traces the nursery from the roots and
    /// the remembered set, promotes what it reaches and frees the rest of the
    /// nursery; the payload of a freed object is dropped, which finalizes it.
    /// Returns whether the old generation has outgrown the major collection
    /// threshold.
    pub fn minor(&mut self, roots: &Vec<usize>) -> (major_due: bool)
        requires
            old(self).wf(),
            forall|k: int| 0 <= k < roots@.len() ==> live(old(self).slots(), #[trigger] roots@[k] as int),
            old(self).spec_total_gcs() < usize::MAX,
        ensures
            final(self).wf(),
            old(self).minor_collected(*final(self), roots@),
            major_due == (final(self).spec_old_bytes() > final(self).spec_major_threshold()),
    {
        let ghost a = self.objects@;
        let ghost young = self.young@;
        let ghost rem = self.remembered_set@;
        let ghost w0 = self.weak_refs@;
        let ghost old_bytes = self.num_old_space_allocated;
        let n: usize = self.objects.len();
        let marked = mark_nursery(&self.objects, &self.young, roots, &self.remembered_set);
        update_weak_cells(&mut self.objects, &mut self.weak_refs, &self.young, &marked);
        let ghost b = self.objects@;
        self.minor_sweep(&marked);
        self.clear_remembered();
        self.nursery_used = 0;
        self.total_gcs = self.total_gcs + 1;
        proof {
            let c = self.objects@;
            let dies = |i: int| minor_dies(a, young, roots@, rem, i);
            assert forall|i: int| 0 <= i < n implies (#[trigger] marked@[i] <==> young_reachable(a, young, roots@, rem, i)) by {}
            // survivors keep their fields
            assert forall|i: int| #[trigger] live(a, i) && !minor_dies(a, young, roots@, rem, i) implies {
                &&& live(c, i)
                &&& c[i]->0.size == a[i]->0.size
                &&& c[i]->0.refs == a[i]->0.refs
                &&& c[i]->0.value == a[i]->0.value
                &&& c[i]->0.color == a[i]->0.color
                &&& c[i]->0.weak_target == (if w0.contains(i as usize) && young[i] {
                    minor_target(a, young, roots@, rem, a[i]->0.weak_target)
                } else {
                    a[i]->0.weak_target
                })
            } by {
                assert(marked@[i] <==> young_reachable(a, young, roots@, rem, i));
                assert(c[i] == b[i]);
                if w0.contains(i as usize) && young[i] {
                    assert(marked@[i]);
                    match a[i]->0.weak_target {
                        Some(x) => {
                            assert(x < a.len());
                            assert(marked@[x as int] <==> young_reachable(a, young, roots@, rem, x as int));
                        },
                        None => {},
                    }
                }
            }
            assert forall|i: int| 0 <= i < a.len() && minor_dies(a, young, roots@, rem, i) implies #[trigger] c[i] is None by {
                assert(marked@[i] <==> young_reachable(a, young, roots@, rem, i));
            }
            assert forall|i: int| 0 <= i < a.len() && !live(a, i) implies #[trigger] c[i] is None by {
                assert(b[i] is None);
            }
            // the registry
            let kp = kept_cell(young, marked@);
            let np = |w: usize| !minor_dies(a, young, roots@, rem, w as int);
            assert forall|k: int| 0 <= k < w0.len() implies #[trigger] kp(w0[k]) == np(w0[k]) by {
                assert(live(a, w0[k] as int));
                assert(marked@[w0[k] as int] <==> young_reachable(a, young, roots@, rem, w0[k] as int));
            }
            lemma_filter_congruent(w0, kp, np);
            // promoted bytes
            let ks = |i: int| young[i] && marked@[i];
            let kr = |i: int| young_reachable(a, young, roots@, rem, i);
            assert forall|i: int| 0 <= i < a.len() implies #[trigger] ks(i) == kr(i) by {
                assert(marked@[i] <==> young_reachable(a, young, roots@, rem, i));
                if young_reachable(a, young, roots@, rem, i) {
                    lemma_young_reachable_live(a, young, roots@, rem, i);
                }
            }
            assert forall|i: int| 0 <= i < a.len() && #[trigger] ks(i) implies b[i]->0.size == a[i]->0.size by {
                assert(live(a, i));
            }
            lemma_add_sizes_same(b, a, ks, kr, old_bytes, a.len());
            // the invariant
            assert forall|i: int, j: int| #[trigger] points_to(c, i, j) implies live(c, j) by {
                assert(live(a, i));
                assert(!minor_dies(a, young, roots@, rem, i));
                assert(c[i]->0.refs == a[i]->0.refs);
                assert(points_to(a, i, j));
                assert(live(a, j));
                if minor_dies(a, young, roots@, rem, j) {
                    if young[i] {
                        lemma_young_reachable_step(a, young, roots@, rem, i, j);
                    } else {
                        assert(rem.contains(i as usize));
                        let r = choose|r: int| 0 <= r < rem.len() && rem[r] == i as usize;
                        assert(points_to(a, rem[r] as int, j));
                        lemma_source_young_reachable(a, young, roots@, rem, j);
                    }
                }
            }
            let nw = self.weak_refs@;
            assert forall|k: int| 0 <= k < nw.len() implies live(c, #[trigger] nw[k] as int) by {
                w0.lemma_filter_pred(np, k);
                assert(w0.filter(np).contains(nw[k]));
                w0.lemma_filter_contains_rev(np, nw[k]);
                let q = choose|q: int| 0 <= q < w0.len() && w0[q] == nw[k];
                assert(live(a, w0[q] as int));
            }
            assert forall|i: int| #[trigger] live(c, i) && c[i]->0.weak_target is Some implies c[i]->0.weak_target->0 < c.len() by {
                assert(live(a, i));
                assert(!minor_dies(a, young, roots@, rem, i));
                if w0.contains(i as usize) && young[i] {
                    assert(a[i]->0.weak_target is Some);
                }
            }
            assert forall|i: int| 0 <= i < c.len() && #[trigger] self.young@[i] implies live(c, i) by {}
            assert forall|i: int, j: int| #[trigger] points_to(c, i, j) && !self.young@[i] && self.young@[j]
                implies self.remembered_set@.contains(i as usize) by {
                assert(live(c, j));
            }
            assert forall|i: int| 0 <= i < c.len() implies (#[trigger] self.remembered@[i] <==> self.remembered_set@.contains(i as usize)) by {}
        }
        self.num_old_space_allocated > self.next_major_collection_threshold
    }
}

/// A minor collection frees no object that the roots reach: every object
/// reachable before it is still live after it.
pub proof fn lemma_minor_keeps_reachable<T>(h0: MiniMark<T>, h1: MiniMark<T>, roots: Seq<usize>, i: int)
    requires
        h0.wf(),
        h0.minor_collected(h1, roots),
        reachable(h0.slots(), roots, i),
    ensures
        live(h1.slots(), i),
{
    let a = h0.slots();
    let p = choose|p: Seq<usize>| #[trigger] is_path(a, roots, p) && p.last() == i;
    assert(live(a, p[p.len() - 1] as int));
    if h0.nursery()[i] {
        lemma_minor_collection_is_sound(a, h0.nursery(), roots, h0.spec_remembered_set(), i);
    }
}

/// Right after a minor collection the nursery is empty, so a second minor
/// collection frees nothing and promotes nothing.
pub proof fn lemma_second_minor_frees_nothing<T>(
    h0: MiniMark<T>,
    h1: MiniMark<T>,
    h2: MiniMark<T>,
    roots0: Seq<usize>,
    roots1: Seq<usize>,
    i: int,
)
    requires
        h0.wf(),
        h0.minor_collected(h1, roots0),
        h1.minor_collected(h2, roots1),
        live(h1.slots(), i),
    ensures
        live(h2.slots(), i),
        h2.spec_old_bytes() == h1.spec_old_bytes(),
{
    let b = h1.slots();
    let young = h1.nursery();
    let rem = h1.spec_remembered_set();
    assert(!minor_dies(b, young, roots1, rem, i));
    let kr = |k: int| young_reachable(b, young, roots1, rem, k);
    let none = |k: int| false;
    assert forall|k: int| 0 <= k < b.len() implies #[trigger] kr(k) == none(k) by {
        if young_reachable(b, young, roots1, rem, k) {
            lemma_young_reachable_live(b, young, roots1, rem, k);
        }
    }
    lemma_add_sizes_same(b, b, kr, none, h1.spec_old_bytes(), b.len());
    lemma_add_sizes_none(b, h1.spec_old_bytes(), b.len());
}

/// Selecting nothing adds nothing.
proof fn lemma_add_sizes_none<T>(objs: Seq<Option<Object<T>>>, acc: usize, n: nat)
    ensures
        add_sizes(objs, |k: int| false, acc, n) == acc,
    decreases n,
{
    if n > 0 {
        lemma_add_sizes_none(objs, acc, (n - 1) as nat);
    }
}

/// `x - y` wrapping around below zero.
pub open spec fn wrapping_sub_usize(x: usize, y: usize) -> usize {
    if x >= y {
        (x - y) as usize
    } else {
        (x - y + usize::MAX + 1) as usize
    }
}

/// Object `i` dies in a major collection: a live object that the roots do
/// not reach.
pub open spec fn major_dies<T>(a: Seq<Option<Object<T>>>, roots: Seq<usize>, i: int) -> bool {
    live(a, i) && !reachable(a, roots, i)
}

/// A weak referent after a major collection: cleared when it dies.
pub open spec fn major_target<T>(a: Seq<Option<Object<T>>>, roots: Seq<usize>, t: Option<usize>) -> Option<usize> {
    match t {
        Some(x) => if major_dies(a, roots, x as int) { None } else { Some(x) },
        None => None,
    }
}

/// With every live object flagged and nothing remembered, tracing the
/// flagged objects is tracing reachability.
proof fn lemma_full_trace<T>(a: Seq<Option<Object<T>>>, flags: Seq<bool>, roots: Seq<usize>, i: int)
    requires
        flags.len() == a.len(),
        forall|k: int| 0 <= k < a.len() ==> #[trigger] flags[k] == (a[k] is Some),
    ensures
        young_reachable(a, flags, roots, Seq::<usize>::empty(), i) <==> reachable(a, roots, i),
{
    let none = Seq::<usize>::empty();
    if young_reachable(a, flags, roots, none, i) {
        let p = choose|p: Seq<usize>| #[trigger] is_young_path(a, flags, roots, none, p) && p.last() == i;
        assert forall|k: int| 0 <= k < p.len() implies live(a, #[trigger] p[k] as int) by {}
        assert(is_path(a, roots, p));
    }
    if reachable(a, roots, i) {
        let p = choose|p: Seq<usize>| #[trigger] is_path(a, roots, p) && p.last() == i;
        assert forall|k: int| 0 <= k < p.len() implies live(a, #[trigger] p[k] as int) && flags[p[k] as int] by {
            assert(live(a, p[k] as int));
        }
        assert(is_young_path(a, flags, roots, none, p));
    }
}

/// The objects after a major collection, from what its steps guarantee.
proof fn lemma_major_objects<T>(
    a: Seq<Option<Object<T>>>,
    b: Seq<Option<Object<T>>>,
    c: Seq<Option<Object<T>>>,
    flags: Seq<bool>,
    marked: Seq<bool>,
    w0: Seq<usize>,
    roots: Seq<usize>,
)
    requires
        b.len() == a.len(),
        c.len() == a.len(),
        flags.len() == a.len(),
        marked.len() == a.len(),
        forall|k: int| 0 <= k < a.len() ==> #[trigger] flags[k] == (a[k] is Some),
        forall|k: int| 0 <= k < a.len() ==> (#[trigger] marked[k] <==> reachable(a, roots, k)),
        forall|i: int, j: int| #[trigger] points_to(a, i, j) ==> live(a, j),
        forall|i: int| #[trigger] live(a, i) && a[i]->0.weak_target is Some ==> a[i]->0.weak_target->0 < a.len(),
        forall|i: int| 0 <= i < a.len() ==> (#[trigger] b[i] is Some) == (a[i] is Some),
        forall|i: int| #[trigger] live(a, i) ==> {
            &&& b[i]->0.size == a[i]->0.size
            &&& b[i]->0.refs == a[i]->0.refs
            &&& b[i]->0.value == a[i]->0.value
            &&& b[i]->0.color == a[i]->0.color
            &&& b[i]->0.weak_target == (
                if w0.contains(i as usize) && flags[i] && marked[i] {
                    target_after(flags, marked, a[i]->0.weak_target)
                } else {
                    a[i]->0.weak_target
                })
        },
        forall|i: int| 0 <= i < a.len() ==> #[trigger] c[i] == (if !marked[i] { None } else { b[i] }),
    ensures
        forall|i: int| #[trigger] reachable(a, roots, i) ==> {
            &&& live(c, i)
            &&& c[i]->0.size == a[i]->0.size
            &&& c[i]->0.refs == a[i]->0.refs
            &&& c[i]->0.value == a[i]->0.value
            &&& c[i]->0.color == a[i]->0.color
            &&& c[i]->0.weak_target == (if w0.contains(i as usize) {
                major_target(a, roots, a[i]->0.weak_target)
            } else {
                a[i]->0.weak_target
            })
        },
        forall|i: int| 0 <= i < a.len() && !reachable(a, roots, i) ==> #[trigger] c[i] is None,
        forall|i: int, j: int| #[trigger] points_to(c, i, j) ==> live(c, j),
        forall|i: int| #[trigger] live(c, i) && c[i]->0.weak_target is Some ==> c[i]->0.weak_target->0 < c.len(),
{
    assert forall|i: int| #[trigger] reachable(a, roots, i) implies {
        &&& live(c, i)
        &&& c[i]->0.size == a[i]->0.size
        &&& c[i]->0.refs == a[i]->0.refs
        &&& c[i]->0.value == a[i]->0.value
        &&& c[i]->0.color == a[i]->0.color
        &&& c[i]->0.weak_target == (if w0.contains(i as usize) {
            major_target(a, roots, a[i]->0.weak_target)
        } else {
            a[i]->0.weak_target
        })
    } by {
        crate::heap::lemma_reachable_live(a, roots, i);
        assert(marked[i]);
        assert(c[i] == b[i]);
        if w0.contains(i as usize) {
            match a[i]->0.weak_target {
                Some(x) => {
                    assert(x < a.len());
                    assert(marked[x as int] <==> reachable(a, roots, x as int));
                },
                None => {},
            }
        }
    }
    assert forall|i: int| 0 <= i < a.len() && !reachable(a, roots, i) implies #[trigger] c[i] is None by {
        assert(!marked[i]);
    }
    assert forall|i: int, j: int| #[trigger] points_to(c, i, j) implies live(c, j) by {
        assert(marked[i]);
        assert(reachable(a, roots, i));
        crate::heap::lemma_reachable_live(a, roots, i);
        assert(points_to(a, i, j));
        crate::heap::lemma_reachable_step(a, roots, i, j);
    }
    assert forall|i: int| #[trigger] live(c, i) && c[i]->0.weak_target is Some implies c[i]->0.weak_target->0 < c.len() by {
        assert(marked[i]);
        assert(live(a, i));
    }
}

impl<T> MiniMark<T> {
    /// What a major collection from `roots` makes of the heap: the live
    /// objects that the roots do not reach are freed and their bytes leave
    /// the old generation; dead weak cells leave the registry and the others
    /// forget dead referents.
    pub open spec fn major_collected(self, new: Self, roots: Seq<usize>) -> bool {
        let a = self.slots();
        &&& new.slots().len() == a.len()
        &&& forall|i: int| 0 <= i < a.len() && !reachable(a, roots, i) ==> #[trigger] new.slots()[i] is None
        &&& forall|i: int| #[trigger] reachable(a, roots, i) ==> {
            &&& live(new.slots(), i)
            &&& new.slots()[i]->0.size == a[i]->0.size
            &&& new.slots()[i]->0.refs == a[i]->0.refs
            &&& new.slots()[i]->0.value == a[i]->0.value
            &&& new.slots()[i]->0.color == a[i]->0.color
            &&& new.slots()[i]->0.weak_target == (if self.weak_cells().contains(i as usize) {
                major_target(a, roots, a[i]->0.weak_target)
            } else {
                a[i]->0.weak_target
            })
        }
        &&& new.nursery() == self.nursery()
        &&& new.spec_remembered_set() == self.spec_remembered_set()
        &&& new.weak_cells() == self.weak_cells().filter(|w: usize| !major_dies(a, roots, w as int))
        &&& new.spec_nursery_used() == self.spec_nursery_used()
        &&& new.spec_nursery_size() == self.spec_nursery_size()
        &&& new.spec_major_threshold() == self.spec_major_threshold()
        &&& new.spec_major_initial() == self.spec_major_initial()
        &&& new.spec_min_heap_size() == self.spec_min_heap_size()
        &&& new.spec_growth_limit() == self.spec_growth_limit()
        &&& new.spec_total_gcs() == self.spec_total_gcs() + 1
        &&& new.spec_old_bytes() == wrapping_sub_usize(self.spec_old_bytes(),
            add_sizes(a, |i: int| major_dies(a, roots, i), 0, a.len()))
    }

    /// Frees the live objects that `marked` leaves out; returns their bytes.
    fn major_sweep(&mut self, marked: &Vec<bool>) -> (freed: usize)
        requires
            marked@.len() == old(self).objects@.len(),
        ensures
            final(self).objects@.len() == old(self).objects@.len(),
            forall|i: int| 0 <= i < old(self).objects@.len() ==> #[trigger] final(self).objects@[i] == (
                if !marked@[i] { None } else { old(self).objects@[i] }),
            freed == add_sizes(old(self).objects@, |i: int| live(old(self).objects@, i) && !marked@[i], 0, old(self).objects@.len()),
            final(self).young == old(self).young,
            final(self).weak_refs == old(self).weak_refs,
            final(self).remembered == old(self).remembered,
            final(self).remembered_set == old(self).remembered_set,
            final(self).nursery_size == old(self).nursery_size,
            final(self).nursery_used == old(self).nursery_used,
            final(self).num_old_space_allocated == old(self).num_old_space_allocated,
            final(self).next_major_collection_threshold == old(self).next_major_collection_threshold,
            final(self).next_major_collection_initial == old(self).next_major_collection_initial,
            final(self).min_heap_size == old(self).min_heap_size,
            final(self).growth_limit == old(self).growth_limit,
            final(self).total_gcs == old(self).total_gcs,
    {
        let ghost a = self.objects@;
        let ghost keep = |i: int| live(a, i) && !marked@[i];
        let n = self.objects.len();
        let mut freed: usize = 0;
        let mut i: usize = 0;
        while i < n
            invariant
                i <= n,
                n == a.len(),
                marked@.len() == a.len(),
                self.objects@.len() == a.len(),
                forall|k: int| 0 <= k < i ==> #[trigger] self.objects@[k] == (if !marked@[k] { None } else { a[k] }),
                forall|k: int| i <= k < a.len() ==> #[trigger] self.objects@[k] == a[k],
                freed == add_sizes(a, keep, 0, i as nat),
                keep == (|k: int| live(a, k) && !marked@[k]),
                self.young == old(self).young,
                self.weak_refs == old(self).weak_refs,
                self.remembered == old(self).remembered,
                self.remembered_set == old(self).remembered_set,
                self.nursery_size == old(self).nursery_size,
                self.nursery_used == old(self).nursery_used,
                self.num_old_space_allocated == old(self).num_old_space_allocated,
                self.next_major_collection_threshold == old(self).next_major_collection_threshold,
                self.next_major_collection_initial == old(self).next_major_collection_initial,
                self.min_heap_size == old(self).min_heap_size,
                self.growth_limit == old(self).growth_limit,
                self.total_gcs == old(self).total_gcs,
            decreases n - i,
        {
            if !marked[i] {
                let size = match &self.objects[i] {
                    Some(o) => o.size,
                    None => 0,
                };
                if self.objects[i].is_some() {
                    freed = freed.wrapping_add(size);
                }
                self.objects.set(i, None);
            }
            proof {
                assert(keep(i as int) == (live(a, i as int) && !marked@[i as int]));
            }
            i = i + 1;
        }
        freed
    }

    /// Marks what the roots reach, updates the weak cells and frees the
    /// live objects left unmarked; returns their bytes.
    #[verifier::spinoff_prover]
    fn major_trace_sweep(&mut self, roots: &Vec<usize>) -> (freed: usize)
        requires
            old(self).wf(),
            forall|k: int| 0 <= k < roots@.len() ==> live(old(self).slots(), #[trigger] roots@[k] as int),
        ensures
            ({
                let a = old(self).objects@;
                let c = final(self).objects@;
                &&& c.len() == a.len()
                &&& forall|i: int| #[trigger] reachable(a, roots@, i) ==> {
                    &&& live(c, i)
                    &&& c[i]->0.size == a[i]->0.size
                    &&& c[i]->0.refs == a[i]->0.refs
                    &&& c[i]->0.value == a[i]->0.value
                    &&& c[i]->0.color == a[i]->0.color
                    &&& c[i]->0.weak_target == (if old(self).weak_refs@.contains(i as usize) {
                        major_target(a, roots@, a[i]->0.weak_target)
                    } else {
                        a[i]->0.weak_target
                    })
                }
                &&& forall|i: int| 0 <= i < a.len() && !reachable(a, roots@, i) ==> #[trigger] c[i] is None
                &&& forall|i: int, j: int| #[trigger] points_to(c, i, j) ==> live(c, j)
                &&& forall|i: int| #[trigger] live(c, i) && c[i]->0.weak_target is Some ==> c[i]->0.weak_target->0 < c.len()
                &&& final(self).weak_refs@ == old(self).weak_refs@.filter(|w: usize| !major_dies(a, roots@, w as int))
                &&& forall|k: int| 0 <= k < final(self).weak_refs@.len() ==> live(c, #[trigger] final(self).weak_refs@[k] as int)
                &&& freed == add_sizes(a, |i: int| major_dies(a, roots@, i), 0, a.len())
            }),
            final(self).young == old(self).young,
            final(self).remembered == old(self).remembered,
            final(self).remembered_set == old(self).remembered_set,
            final(self).nursery_size == old(self).nursery_size,
            final(self).nursery_used == old(self).nursery_used,
            final(self).num_old_space_allocated == old(self).num_old_space_allocated,
            final(self).next_major_collection_threshold == old(self).next_major_collection_threshold,
            final(self).next_major_collection_initial == old(self).next_major_collection_initial,
            final(self).min_heap_size == old(self).min_heap_size,
            final(self).growth_limit == old(self).growth_limit,
            final(self).total_gcs == old(self).total_gcs,
    {
        let ghost a = self.objects@;
        let ghost w0 = self.weak_refs@;
        let n = self.objects.len();
        let mut flags: Vec<bool> = Vec::new();
        let mut i: usize = 0;
        while i < n
            invariant
                i <= n,
                n == a.len(),
                a == self.objects@,
                flags@.len() == i,
                forall|k: int| 0 <= k < i ==> #[trigger] flags@[k] == (a[k] is Some),
            decreases n - i,
        {
            flags.push(self.objects[i].is_some());
            i = i + 1;
        }
        let nothing: Vec<usize> = Vec::new();
        let marked = mark_nursery(&self.objects, &flags, roots, &nothing);
        proof {
            assert(nothing@ =~= Seq::<usize>::empty());
            assert forall|k: int| 0 <= k < n implies (#[trigger] marked@[k] <==> reachable(a, roots@, k)) by {
                lemma_full_trace(a, flags@, roots@, k);
            }
        }
        update_weak_cells(&mut self.objects, &mut self.weak_refs, &flags, &marked);
        let ghost b = self.objects@;
        let freed = self.major_sweep(&marked);
        proof {
            let c = self.objects@;
            lemma_major_objects(a, b, c, flags@, marked@, w0, roots@);
            let kp = kept_cell(flags@, marked@);
            let np = |w: usize| !major_dies(a, roots@, w as int);
            assert forall|k: int| 0 <= k < w0.len() implies #[trigger] kp(w0[k]) == np(w0[k]) by {
                assert(live(a, w0[k] as int));
            }
            lemma_filter_congruent(w0, kp, np);
            let kb = |i: int| live(b, i) && !marked@[i];
            let kd = |i: int| major_dies(a, roots@, i);
            assert forall|i: int| 0 <= i < a.len() implies #[trigger] kb(i) == kd(i) by {
                assert((b[i] is Some) == (a[i] is Some));
            }
            assert forall|i: int| 0 <= i < a.len() && #[trigger] kb(i) implies b[i]->0.size == a[i]->0.size by {}
            lemma_add_sizes_same(b, a, kb, kd, 0, a.len());
            let nw = self.weak_refs@;
            assert forall|k: int| 0 <= k < nw.len() implies live(c, #[trigger] nw[k] as int) by {
                w0.lemma_filter_pred(np, k);
                assert(w0.filter(np).contains(nw[k]));
                w0.lemma_filter_contains_rev(np, nw[k]);
                let q = choose|q: int| 0 <= q < w0.len() && w0[q] == nw[k];
                assert(live(a, w0[q] as int));
            }
        }
        freed
    }

    /// A major collection from `roots`, run once a minor collection has
    /// emptied the nursery and the remembered set: frees the old objects
    /// that the roots do not reach. Returns the bytes left in the old
    /// generation, from which the next threshold is set.
    pub fn major(&mut self, roots: &Vec<usize>) -> (total: usize)
        requires
            old(self).wf(),
            forall|i: int| 0 <= i < old(self).slots().len() ==> !#[trigger] old(self).nursery()[i],
            old(self).spec_remembered_set().len() == 0,
            forall|k: int| 0 <= k < roots@.len() ==> live(old(self).slots(), #[trigger] roots@[k] as int),
            old(self).spec_total_gcs() < usize::MAX,
        ensures
            final(self).wf(),
            old(self).major_collected(*final(self), roots@),
            total == final(self).spec_old_bytes(),
    {
        let freed = self.major_trace_sweep(roots);
        self.num_old_space_allocated = self.num_old_space_allocated.wrapping_sub(freed);
        self.total_gcs = self.total_gcs + 1;
        proof {
            let c = self.objects@;
            assert forall|i: int| 0 <= i < c.len() && #[trigger] self.young@[i] implies live(c, i) by {
                assert(!old(self).nursery()[i]);
            }
            assert forall|i: int, j: int| #[trigger] points_to(c, i, j) && !self.young@[i] && self.young@[j]
                implies self.remembered_set@.contains(i as usize) by {
                assert(live(c, j));
                assert(!old(self).nursery()[j]);
            }
            assert forall|k: int| 0 <= k < self.remembered_set@.len() implies #[trigger] self.remembered_set@[k] < c.len() by {}
            assert forall|i: int| 0 <= i < c.len() implies (#[trigger] self.remembered@[i] <==> self.remembered_set@.contains(i as usize)) by {
                assert(old(self).remembered@[i] <==> old(self).remembered_set@.contains(i as usize));
            }
        }
        self.num_old_space_allocated
    }
}

/// `threshold` kept at most `threshold_max`, then at least `min`.
pub open spec fn clamp_threshold(threshold: usize, threshold_max: usize, min: usize) -> usize {
    let t = if threshold > threshold_max { threshold_max } else { threshold };
    if t < min { min } else { t }
}

impl<T> MiniMark<T> {
    /// Sets the major collection threshold from `threshold` (the old
    /// generation's bytes scaled by the major collection factor), kept at
    /// most `threshold_max` (the last threshold scaled by the largest growth
    /// rate) and at least the smallest heap size.
    pub fn set_major_threshold_from(&mut self, threshold: usize, threshold_max: usize)
        requires
            old(self).wf(),
        ensures
            final(self).wf(),
            final(self).spec_major_threshold() == clamp_threshold(threshold, threshold_max, old(self).spec_min_heap_size()),
            final(self).spec_major_initial() == final(self).spec_major_threshold(),
            final(self).slots() == old(self).slots(),
            final(self).nursery() == old(self).nursery(),
            final(self).weak_cells() == old(self).weak_cells(),
            final(self).spec_remembered_set() == old(self).spec_remembered_set(),
            final(self).spec_nursery_size() == old(self).spec_nursery_size(),
            final(self).spec_nursery_used() == old(self).spec_nursery_used(),
            final(self).spec_old_bytes() == old(self).spec_old_bytes(),
            final(self).spec_min_heap_size() == old(self).spec_min_heap_size(),
            final(self).spec_growth_limit() == old(self).spec_growth_limit(),
            final(self).spec_total_gcs() == old(self).spec_total_gcs(),
    {
        let mut t = threshold;
        if t > threshold_max {
            t = threshold_max;
        }
        if t < self.min_heap_size {
            t = self.min_heap_size;
        }
        self.next_major_collection_initial = t;
        self.next_major_collection_threshold = t;
    }

    /// Whether allocating `alloc_size` more old bytes runs out of memory:
    /// not while the old generation stays within the threshold; always past
    /// the growth limit; in between only when the threshold may not grow,
    /// and when it may, it grows to the new footprint.
    pub fn is_out_of_memory_on_allocation(&mut self, alloc_size: usize, grow: bool) -> (r: bool)
        requires
            old(self).wf(),
            old(self).spec_old_bytes() + alloc_size <= usize::MAX,
        ensures
            final(self).wf(),
            ({
                let fp = old(self).spec_old_bytes() + alloc_size;
                &&& r == (fp > old(self).spec_major_threshold() && (fp > old(self).spec_growth_limit() || !grow))
                &&& final(self).spec_major_threshold() == (
                    if fp > old(self).spec_major_threshold() && fp <= old(self).spec_growth_limit() && grow {
                        fp as usize
                    } else {
                        old(self).spec_major_threshold()
                    })
            }),
            final(self).slots() == old(self).slots(),
            final(self).nursery() == old(self).nursery(),
            final(self).weak_cells() == old(self).weak_cells(),
            final(self).spec_remembered_set() == old(self).spec_remembered_set(),
            final(self).spec_nursery_size() == old(self).spec_nursery_size(),
            final(self).spec_nursery_used() == old(self).spec_nursery_used(),
            final(self).spec_old_bytes() == old(self).spec_old_bytes(),
            final(self).spec_major_initial() == old(self).spec_major_initial(),
            final(self).spec_min_heap_size() == old(self).spec_min_heap_size(),
            final(self).spec_growth_limit() == old(self).spec_growth_limit(),
            final(self).spec_total_gcs() == old(self).spec_total_gcs(),
    {
        let new_footprint = self.num_old_space_allocated + alloc_size;
        if new_footprint <= self.next_major_collection_threshold {
            false
        } else if new_footprint > self.growth_limit {
            true
        } else if grow {
            self.next_major_collection_threshold = new_footprint;
            false
        } else {
            true
        }
    }

    /// Allocates an old object holding `value` with references `refs` and a
    /// payload of `size` bytes, and counts its bytes in the old generation.
    /// Its references lead to old objects: a reference from an old object
    /// into the nursery is seen by a minor collection only through the
    /// write barrier.
    pub fn alloc_inline_old(&mut self, value: T, refs: Vec<usize>, size: usize) -> (id: usize)
        requires
            old(self).wf(),
            forall|j: int| 0 <= j < refs@.len() ==> live(old(self).slots(), #[trigger] refs@[j] as int)
                && !old(self).nursery()[refs@[j] as int],
            size + HEADER_SIZE + 8 <= usize::MAX,
        ensures
            final(self).wf(),
            id == old(self).slots().len(),
            final(self).slots() == old(self).slots().push(Some(Object {
                color: 0, size: object_size(size as int) as usize, refs, weak_target: None, value: Some(value) })),
            final(self).nursery() == old(self).nursery().push(false),
            final(self).spec_old_bytes() == wrapping_add_usize(old(self).spec_old_bytes(), object_size(size as int) as usize),
            final(self).weak_cells() == old(self).weak_cells(),
            final(self).spec_remembered_set() == old(self).spec_remembered_set(),
            final(self).spec_nursery_size() == old(self).spec_nursery_size(),
            final(self).spec_nursery_used() == old(self).spec_nursery_used(),
            final(self).spec_major_threshold() == old(self).spec_major_threshold(),
            final(self).spec_major_initial() == old(self).spec_major_initial(),
            final(self).spec_min_heap_size() == old(self).spec_min_heap_size(),
            final(self).spec_growth_limit() == old(self).spec_growth_limit(),
            final(self).spec_total_gcs() == old(self).spec_total_gcs(),
    {
        proof {
            crate::align::lemma_eight_is_power_of_two();
        }
        let osize = crate::align::round_up(size + HEADER_SIZE, 8);
        let id = self.objects.len();
        let ghost before = self.objects@;
        let ghost before_young = self.young@;
        let ghost before_rem = self.remembered@;
        let ghost new_refs = refs@;
        self.objects.push(Some(Object { color: 0, size: osize, refs, weak_target: None, value: Some(value) }));
        self.young.push(false);
        self.remembered.push(false);
        self.num_old_space_allocated = self.num_old_space_allocated.wrapping_add(osize);
        proof {
            let objs = self.objects@;
            assert forall|i: int| 0 <= i < before.len() implies objs[i] == before[i] && #[trigger] self.young@[i] == before_young[i]
                && self.remembered@[i] == before_rem[i] by {}
            assert forall|i: int, j: int| #[trigger] points_to(objs, i, j) implies live(objs, j) by {
                if i < before.len() {
                    assert(points_to(before, i, j));
                } else {
                    let p = choose|p: int| 0 <= p < objs[i]->0.refs@.len() && objs[i]->0.refs@[p] == j as usize;
                    assert(live(before, new_refs[p] as int));
                }
            }
            assert forall|i: int| 0 <= i < objs.len() && #[trigger] self.young@[i] implies live(objs, i) by {
                if i < before.len() {
                    assert(before_young[i]);
                }
            }
            assert forall|i: int| 0 <= i < objs.len() implies (#[trigger] self.remembered@[i] <==> self.remembered_set@.contains(i as usize)) by {
                if i == before.len() {
                    if self.remembered_set@.contains(i as usize) {
                        let k = choose|k: int| 0 <= k < self.remembered_set@.len() && self.remembered_set@[k] == i as usize;
                    }
                } else {
                    assert(self.remembered@[i] == before_rem[i]);
                }
            }
            assert forall|i: int, j: int| #[trigger] points_to(objs, i, j) && !self.young@[i] && self.young@[j]
                implies self.remembered_set@.contains(i as usize) by {
                if i < before.len() {
                    assert(points_to(before, i, j));
                    assert(live(before, j));
                    assert(self.young@[j] == before_young[j]);
                } else {
                    let p = choose|p: int| 0 <= p < objs[i]->0.refs@.len() && objs[i]->0.refs@[p] == j as usize;
                    assert(!before_young[new_refs[p] as int]);
                    assert(live(before, new_refs[p] as int));
                    assert(self.young@[j] == before_young[j]);
                }
            }
            assert forall|k: int| 0 <= k < self.weak_refs@.len() implies live(objs, #[trigger] self.weak_refs@[k] as int) by {
                assert(live(before, self.weak_refs@[k] as int));
            }
            assert forall|i: int| #[trigger] live(objs, i) && objs[i]->0.weak_target is Some implies objs[i]->0.weak_target->0 < objs.len() by {
                if i < before.len() {
                    assert(live(before, i));
                }
            }
            assert(self.young@ =~= before_young.push(false));
        }
        id
    }

    /// Allocates in the space that `space` names: the nursery, when the
    /// object fits there, or the old generation. Large objects are not
    /// allocated here.
    pub fn alloc_inline(&mut self, value: T, refs: Vec<usize>, size: usize, space: AllocationSpace) -> (r: Option<usize>)
        requires
            old(self).wf(),
            space is New || space is Old,
            forall|j: int| 0 <= j < refs@.len() ==> live(old(self).slots(), #[trigger] refs@[j] as int),
            space is Old ==> forall|j: int| 0 <= j < refs@.len() ==> !old(self).nursery()[#[trigger] refs@[j] as int],
            size + HEADER_SIZE + 8 <= usize::MAX,
        ensures
            final(self).wf(),
            final(self).weak_cells() == old(self).weak_cells(),
            final(self).spec_remembered_set() == old(self).spec_remembered_set(),
            final(self).spec_total_gcs() == old(self).spec_total_gcs(),
            space is Old ==> {
                &&& r == Some(old(self).slots().len() as usize)
                &&& final(self).slots() == old(self).slots().push(Some(Object {
                    color: 0, size: object_size(size as int) as usize, refs, weak_target: None, value: Some(value) }))
                &&& final(self).nursery() == old(self).nursery().push(false)
                &&& final(self).spec_old_bytes() == wrapping_add_usize(old(self).spec_old_bytes(), object_size(size as int) as usize)
            },
            space is New && old(self).spec_nursery_used() + object_size(size as int) <= old(self).spec_nursery_size() ==> {
                &&& r == Some(old(self).slots().len() as usize)
                &&& final(self).slots() == old(self).slots().push(Some(Object {
                    color: 0, size: object_size(size as int) as usize, refs, weak_target: None, value: Some(value) }))
                &&& final(self).nursery() == old(self).nursery().push(true)
                &&& final(self).spec_old_bytes() == old(self).spec_old_bytes()
            },
            space is New && old(self).spec_nursery_used() + object_size(size as int) > old(self).spec_nursery_size() ==>
                r is None && final(self).slots() == old(self).slots(),
    {
        match space {
            AllocationSpace::New => self.alloc_inline_new(value, refs, size),
            AllocationSpace::Old => Some(self.alloc_inline_old(value, refs, size)),
            AllocationSpace::Large => None,
        }
    }

    /// A minor collection from `roots`, then, when the old generation has
    /// outgrown its threshold, a major one; returns the bytes left in the old
    /// generation after a major collection, from which the next threshold is
    /// set, and `None` when only the minor collection ran.
    pub fn collect(&mut self, roots: &Vec<usize>) -> (r: Option<usize>)
        requires
            old(self).wf(),
            forall|k: int| 0 <= k < roots@.len() ==> live(old(self).slots(), #[trigger] roots@[k] as int),
            old(self).spec_total_gcs() + 2 <= usize::MAX,
        ensures
            final(self).wf(),
            exists|mid: Self| {
                &&& #[trigger] old(self).minor_collected(mid, roots@)
                &&& mid.wf()
                &&& (r is None <==> mid.spec_old_bytes() <= mid.spec_major_threshold())
                &&& r is None ==> *final(self) == mid
                &&& r is Some ==> mid.major_collected(*final(self), roots@) && r == Some(final(self).spec_old_bytes())
            },
    {
        let ghost h0 = *self;
        let due = self.minor(roots);
        if due {
            proof {
                self.lemma_roots_survive_minor(h0, roots@);
            }
            let total = self.major(roots);
            Some(total)
        } else {
            None
        }
    }

    /// A minor collection from `roots` followed by a major one; returns the
    /// bytes left in the old generation.
    pub fn full_collection(&mut self, roots: &Vec<usize>) -> (total: usize)
        requires
            old(self).wf(),
            forall|k: int| 0 <= k < roots@.len() ==> live(old(self).slots(), #[trigger] roots@[k] as int),
            old(self).spec_total_gcs() + 2 <= usize::MAX,
        ensures
            final(self).wf(),
            exists|mid: Self| #[trigger] old(self).minor_collected(mid, roots@) && mid.wf()
                && mid.major_collected(*final(self), roots@),
            total == final(self).spec_old_bytes(),
    {
        let ghost h0 = *self;
        self.minor(roots);
        proof {
            self.lemma_roots_survive_minor(h0, roots@);
        }
        self.major(roots)
    }

    /// A minor collection from `roots`.
    pub fn minor_collection(&mut self, roots: &Vec<usize>)
        requires
            old(self).wf(),
            forall|k: int| 0 <= k < roots@.len() ==> live(old(self).slots(), #[trigger] roots@[k] as int),
            old(self).spec_total_gcs() < usize::MAX,
        ensures
            final(self).wf(),
            old(self).minor_collected(*final(self), roots@),
    {
        self.minor(roots);
    }

    /// The roots are live after a minor collection from them, and the
    /// nursery and the remembered set are empty.
    proof fn lemma_roots_survive_minor(self, h0: Self, roots: Seq<usize>)
        requires
            h0.wf(),
            h0.minor_collected(self, roots),
            forall|k: int| 0 <= k < roots.len() ==> live(h0.slots(), #[trigger] roots[k] as int),
        ensures
            forall|k: int| 0 <= k < roots.len() ==> live(self.slots(), #[trigger] roots[k] as int),
            forall|i: int| 0 <= i < self.slots().len() ==> !#[trigger] self.nursery()[i],
            self.spec_remembered_set().len() == 0,
    {
        assert forall|k: int| 0 <= k < roots.len() implies live(self.slots(), #[trigger] roots[k] as int) by {
            let p = seq![roots[k]];
            assert(p[0] == roots[k]);
            assert(is_path(h0.slots(), roots, p));
            assert(reachable(h0.slots(), roots, roots[k] as int));
            lemma_minor_keeps_reachable(h0, self, roots, roots[k] as int);
        }
    }
}


/// Every object on a path from the roots is reachable.
proof fn lemma_path_prefix_reachable<T>(a: Seq<Option<Object<T>>>, roots: Seq<usize>, p: Seq<usize>, k: int)
    requires
        is_path(a, roots, p),
        0 <= k < p.len(),
    ensures
        reachable(a, roots, p[k] as int),
{
    let q = p.take(k + 1);
    assert forall|j: int| 0 <= j < q.len() implies live(a, #[trigger] q[j] as int) by {
        assert(q[j] == p[j]);
    }
    assert forall|j: int| 0 <= j < q.len() - 1 implies points_to(a, #[trigger] q[j] as int, q[j + 1] as int) by {
        assert(q[j] == p[j]);
        assert(q[j + 1] == p[j + 1]);
        assert(points_to(a, p[j] as int, p[j + 1] as int));
    }
    assert(q[0] == p[0]);
    assert(is_path(a, roots, q));
    assert(q.last() == p[k]);
}

/// After a major collection every live object is reachable from the roots it
/// ran from, so a second major collection from them frees nothing.
pub proof fn lemma_major_survivors_reachable<T>(h0: MiniMark<T>, h1: MiniMark<T>, roots: Seq<usize>, i: int)
    requires
        h0.wf(),
        h0.major_collected(h1, roots),
        live(h1.slots(), i),
    ensures
        reachable(h1.slots(), roots, i),
{
    let a = h0.slots();
    let c = h1.slots();
    if !reachable(a, roots, i) {
        assert(c[i] is None);
    }
    let p = choose|p: Seq<usize>| #[trigger] is_path(a, roots, p) && p.last() == i;
    assert forall|k: int| 0 <= k < p.len() implies live(c, #[trigger] p[k] as int) by {
        lemma_path_prefix_reachable(a, roots, p, k);
    }
    assert forall|k: int| 0 <= k < p.len() - 1 implies points_to(c, #[trigger] p[k] as int, p[k + 1] as int) by {
        lemma_path_prefix_reachable(a, roots, p, k);
        lemma_path_prefix_reachable(a, roots, p, k + 1);
        assert(points_to(a, p[k] as int, p[k + 1] as int));
    }
    assert(is_path(c, roots, p));
}

} // verus!
