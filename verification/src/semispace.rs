//! A semi-space copying collector: objects live in one space; a collection
//! copies the objects that the roots reach into the other space, renumbering
//! them, rewrites every reference to the copies, and drops the rest.
use vstd::prelude::*;
use vstd::set_lib::{set_int_range, lemma_int_range, lemma_len_subset};
use crate::heap::{Object, live, points_to, is_path, reachable, live_bytes, lemma_path_extend, lemma_live_bytes_free};

verus! {

/// The copy of old object `back[k]` is new object `k`: for a collection of
/// the objects `a` from `roots` that produced the objects `b`, the roots
/// `new_roots`, the weak registry `new_weak` from `weak`, and the numbering
/// `back`.
pub open spec fn copied<T>(
    a: Seq<Option<Object<T>>>,
    roots: Seq<usize>,
    weak: Seq<usize>,
    b: Seq<Option<Object<T>>>,
    new_roots: Seq<usize>,
    new_weak: Seq<usize>,
    back: Seq<usize>,
) -> bool {
    &&& back.len() == b.len()
    &&& forall|k: int| 0 <= k < back.len() ==> 0 <= #[trigger] back[k] < a.len() && reachable(a, roots, back[k] as int)
    &&& forall|k1: int, k2: int| 0 <= k1 < back.len() && 0 <= k2 < back.len() && #[trigger] back[k1] == #[trigger] back[k2] ==> k1 == k2
    &&& forall|i: int| #[trigger] reachable(a, roots, i) ==> back.contains(i as usize)
    &&& forall|k: int| 0 <= k < b.len() ==> copy_of(a[back[k] as int], #[trigger] b[k], back, reachable_set(a, roots))
    &&& new_roots.len() == roots.len()
    &&& forall|j: int| 0 <= j < roots.len() ==> #[trigger] new_roots[j] < b.len() && back[new_roots[j] as int] == roots[j]
    &&& new_weak.map_values(|k: usize| back[k as int]) == weak.filter(|w: usize| reachable(a, roots, w as int))
}

/// The objects the roots reach.
pub open spec fn reachable_set<T>(a: Seq<Option<Object<T>>>, roots: Seq<usize>) -> spec_fn(usize) -> bool {
    |i: usize| reachable(a, roots, i as int)
}

/// `copy` is `old` with every strong reference renumbered by `back`, and its
/// weak referent renumbered when `kept` holds of it and cleared otherwise.
pub open spec fn copy_of<T>(old: Option<Object<T>>, copy: Option<Object<T>>, back: Seq<usize>, kept: spec_fn(usize) -> bool) -> bool {
    &&& old is Some
    &&& copy is Some
    &&& copy->0.size == old->0.size
    &&& copy->0.color == old->0.color
    &&& copy->0.value == old->0.value
    &&& copy->0.refs@.len() == old->0.refs@.len()
    &&& forall|p: int| 0 <= p < copy->0.refs@.len() ==> #[trigger] copy->0.refs@[p] < back.len()
        && back[copy->0.refs@[p] as int] == old->0.refs@[p]
    &&& match old->0.weak_target {
        None => copy->0.weak_target is None,
        Some(t) => if kept(t) {
            copy->0.weak_target matches Some(m) && m < back.len() && back[m as int] == t
        } else {
            copy->0.weak_target is None
        },
    }
}

/// A semi-space collected heap: objects are numbered densely from zero.
pub struct SemiSpace<T> {
    objects: Vec<Option<Object<T>>>,
    weak_refs: Vec<usize>,
    semispace_size: usize,
    used: usize,
}

impl<T> SemiSpace<T> {
    /// The objects.
    pub closed spec fn slots(&self) -> Seq<Option<Object<T>>> {
        self.objects@
    }

    /// The registered weak cells.
    pub closed spec fn weak_cells(&self) -> Seq<usize> {
        self.weak_refs@
    }

    /// Size of each of the two spaces in bytes.
    pub closed spec fn spec_semispace_size(&self) -> usize {
        self.semispace_size
    }

    /// Bytes in use in the current space.
    pub closed spec fn spec_used(&self) -> usize {
        self.used
    }

    /// Every slot holds an object, every reference and weak referent names an
    /// object, and the bytes in use are the objects' sizes, within the space.
    pub open spec fn wf(&self) -> bool {
        let objs = self.slots();
        &&& forall|i: int| 0 <= i < objs.len() ==> (#[trigger] objs[i]) is Some
        &&& forall|i: int, j: int| #[trigger] points_to(objs, i, j) ==> 0 <= j < objs.len()
        &&& forall|i: int| #[trigger] live(objs, i) && objs[i]->0.weak_target is Some
            ==> objs[i]->0.weak_target->0 < objs.len()
        &&& forall|k: int| 0 <= k < self.weak_cells().len() ==> #[trigger] self.weak_cells()[k] < objs.len()
        &&& self.spec_used() == live_bytes(objs)
        &&& self.spec_used() <= self.spec_semispace_size()
    }

    /// An empty heap with two spaces of `semispace_size` bytes.
    pub fn new(semispace_size: usize) -> (h: Self)
        ensures
            h.wf(),
            h.slots().len() == 0,
            h.weak_cells().len() == 0,
            h.spec_semispace_size() == semispace_size,
            h.spec_used() == 0,
    {
        SemiSpace { objects: Vec::new(), weak_refs: Vec::new(), semispace_size, used: 0 }
    }
}


/// The state of a collection of `a` from `roots` while it copies: `to` holds
/// the copies, `origin` the old number of each copy, `fwd` the new number of
/// each copied object; the copies before `scan` have their references
/// renumbered, the others still hold the old numbers; `fset` is the set of
/// copied objects.
pub open spec fn copying<T>(
    a: Seq<Option<Object<T>>>,
    roots: Seq<usize>,
    cur: Seq<Option<Object<T>>>,
    to: Seq<Option<Object<T>>>,
    origin: Seq<usize>,
    fwd: Seq<Option<usize>>,
    scan: int,
    fset: Set<int>,
) -> bool {
    &&& cur.len() == a.len()
    &&& fwd.len() == a.len()
    &&& origin.len() == to.len()
    &&& 0 <= scan <= to.len()
    &&& fset.finite()
    &&& fset.len() == to.len()
    &&& forall|i: int| #[trigger] fset.contains(i) <==> (0 <= i < a.len() && fwd[i] is Some)
    &&& forall|k: int| 0 <= k < to.len() ==> #[trigger] origin[k] < a.len() && fwd[origin[k] as int] == Some(k as usize)
    &&& forall|i: int| 0 <= i < a.len() && (#[trigger] fwd[i]) is Some ==> fwd[i]->0 < to.len() && origin[fwd[i]->0 as int] == i
    &&& forall|i: int| 0 <= i < a.len() ==> ((#[trigger] cur[i]) is None) == (fwd[i] is Some)
    &&& forall|i: int| 0 <= i < a.len() && fwd[i] is None ==> #[trigger] cur[i] == a[i]
    &&& forall|i: int| 0 <= i < a.len() && (#[trigger] fwd[i]) is Some ==> reachable(a, roots, i)
    &&& forall|k: int| 0 <= k < to.len() ==> {
        let o = a[origin[k] as int];
        let c = #[trigger] to[k];
        &&& o is Some
        &&& c is Some
        &&& c->0.size == o->0.size
        &&& c->0.color == o->0.color
        &&& c->0.value == o->0.value
        &&& c->0.weak_target == o->0.weak_target
        &&& (k >= scan ==> c->0.refs@ == o->0.refs@)
        &&& (k < scan ==> renumbered(o->0.refs@, c->0.refs@, origin))
    }
}

/// `new` is `old` with each reference replaced by a copy's number.
pub open spec fn renumbered(old: Seq<usize>, new: Seq<usize>, origin: Seq<usize>) -> bool {
    &&& new.len() == old.len()
    &&& forall|p: int| 0 <= p < new.len() ==> #[trigger] new[p] < origin.len() && origin[new[p] as int] == old[p]
}

/// A bound on the copies' sizes: they copy distinct live objects of `a`.
proof fn lemma_copies_bytes<T>(a: Seq<Option<Object<T>>>, to: Seq<Option<Object<T>>>, origin: Seq<usize>)
    requires
        origin.len() == to.len(),
        forall|k: int| 0 <= k < to.len() ==> #[trigger] origin[k] < a.len() && live(a, origin[k] as int)
            && to[k] is Some && to[k]->0.size == a[origin[k] as int]->0.size,
        forall|k1: int, k2: int| 0 <= k1 < origin.len() && 0 <= k2 < origin.len() && #[trigger] origin[k1] == #[trigger] origin[k2] ==> k1 == k2,
    ensures
        live_bytes(to) <= live_bytes(a),
    decreases to.len(),
{
    if to.len() > 0 {
        let last = to.len() - 1;
        let x = origin[last] as int;
        let a2 = a.update(x, None);
        lemma_live_bytes_free(a, x);
        assert forall|k: int| 0 <= k < to.drop_last().len() implies #[trigger] origin.drop_last()[k] < a2.len()
            && live(a2, origin.drop_last()[k] as int)
            && to.drop_last()[k] is Some && to.drop_last()[k]->0.size == a2[origin.drop_last()[k] as int]->0.size by {
            assert(origin.drop_last()[k] == origin[k]);
            assert(origin[k] != origin[last]);
            assert(to.drop_last()[k] == to[k]);
        }
        assert forall|k1: int, k2: int| 0 <= k1 < origin.drop_last().len() && 0 <= k2 < origin.drop_last().len()
            && #[trigger] origin.drop_last()[k1] == #[trigger] origin.drop_last()[k2] implies k1 == k2 by {
            assert(origin.drop_last()[k1] == origin[k1]);
            assert(origin.drop_last()[k2] == origin[k2]);
        }
        lemma_copies_bytes(a2, to.drop_last(), origin.drop_last());
    }
}

/// An object a root names is reachable.
proof fn lemma_root_reachable<T>(a: Seq<Option<Object<T>>>, roots: Seq<usize>, j: int)
    requires
        0 <= j < roots.len(),
        live(a, roots[j] as int),
    ensures
        reachable(a, roots, roots[j] as int),
{
    let p = seq![roots[j]];
    assert(is_path(a, roots, p));
    assert(p.last() == roots[j]);
}

impl<T> SemiSpace<T> {
    /// The new number of object `id`, copying it first when it has none yet.
    fn copy_object(
        &mut self,
        to: &mut Vec<Option<Object<T>>>,
        origin: &mut Vec<usize>,
        fwd: &mut Vec<Option<usize>>,
        id: usize,
        used: &mut usize,
        Ghost(a): Ghost<Seq<Option<Object<T>>>>,
        Ghost(roots): Ghost<Seq<usize>>,
        Ghost(scan): Ghost<int>,
        Ghost(fset): Ghost<Set<int>>,
    ) -> (r: (usize, Ghost<Set<int>>))
        requires
            copying(a, roots, old(self).objects@, old(to)@, old(origin)@, old(fwd)@, scan, fset),
            id < a.len(),
            reachable(a, roots, id as int),
            forall|i: int| 0 <= i < a.len() ==> (#[trigger] a[i]) is Some,
            *old(used) == live_bytes(old(to)@),
            live_bytes(a) <= usize::MAX,
        ensures
            copying(a, roots, final(self).objects@, final(to)@, final(origin)@, final(fwd)@, scan, r.1@),
            r.0 < final(to)@.len(),
            final(origin)@[r.0 as int] == id,
            final(fwd)@[id as int] == Some(r.0),
            final(to)@.len() >= old(to)@.len(),
            forall|k: int| 0 <= k < old(to)@.len() ==> #[trigger] final(to)@[k] == old(to)@[k],
            final(origin)@.take(old(origin)@.len() as int) == old(origin)@,
            forall|i: int| 0 <= i < a.len() && (#[trigger] old(fwd)@[i]) is Some ==> final(fwd)@[i] == old(fwd)@[i],
            *final(used) == live_bytes(final(to)@),
            final(self).weak_refs@ == old(self).weak_refs@,
            final(self).semispace_size == old(self).semispace_size,
            final(self).used == old(self).used,
    {
        match fwd[id] {
            Some(k) => {
                return (k, Ghost(fset));
            },
            None => {},
        }
        let mut slot: Option<Object<T>> = None;
        std::mem::swap(&mut self.objects[id], &mut slot);
        let k = to.len();
        let ghost old_to = to@;
        let ghost old_origin = origin@;
        let ghost old_fwd = fwd@;
        to.push(slot);
        origin.push(id);
        fwd.set(id, Some(k));
        let ghost nfset = fset.insert(id as int);
        proof {
            assert(a[id as int] is Some);
            assert(!fset.contains(id as int));
            assert forall|k2: int| 0 <= k2 < to@.len() implies #[trigger] origin@[k2] < a.len() && live(a, origin@[k2] as int)
                && to@[k2] is Some && to@[k2]->0.size == a[origin@[k2] as int]->0.size by {
                if k2 < k {
                    assert(old_to[k2] == to@[k2]);
                    assert(old_origin[k2] == origin@[k2]);
                }
            }
            assert forall|k1: int, k2: int| 0 <= k1 < origin@.len() && 0 <= k2 < origin@.len()
                && #[trigger] origin@[k1] == #[trigger] origin@[k2] implies k1 == k2 by {
                if k1 < k && k2 < k {
                    assert(old_fwd[origin@[k1] as int] == Some(k1 as usize));
                    assert(old_fwd[origin@[k2] as int] == Some(k2 as usize));
                } else if k1 < k {
                    assert(old_fwd[origin@[k1] as int] == Some(k1 as usize));
                } else if k2 < k {
                    assert(old_fwd[origin@[k2] as int] == Some(k2 as usize));
                }
            }
            lemma_copies_bytes(a, to@, origin@);
            assert(live_bytes(to@) == live_bytes(old_to) + a[id as int]->0.size) by {
                assert(to@.drop_last() =~= old_to);
            }
            assert(nfset.len() == fset.len() + 1);
        }
        let size = match &to[k] {
            Some(o) => o.size,
            None => 0,
        };
        *used = *used + size;
        proof {
            assert forall|i: int| #[trigger] nfset.contains(i) <==> (0 <= i < a.len() && fwd@[i] is Some) by {
                if i != id && 0 <= i < a.len() {
                    assert(fwd@[i] == old_fwd[i]);
                }
            }
            assert forall|k2: int| 0 <= k2 < to@.len() implies #[trigger] origin@[k2] < a.len() && fwd@[origin@[k2] as int] == Some(k2 as usize) by {
                if k2 < k {
                    assert(old_origin[k2] == origin@[k2]);
                    assert(origin@[k2] != id) by {
                        assert(old_fwd[origin@[k2] as int] is Some);
                    }
                }
            }
            assert forall|i: int| 0 <= i < a.len() && (#[trigger] fwd@[i]) is Some implies fwd@[i]->0 < to@.len() && origin@[fwd@[i]->0 as int] == i by {
                if i != id {
                    assert(fwd@[i] == old_fwd[i]);
                }
            }
            assert forall|i: int| 0 <= i < a.len() implies ((#[trigger] self.objects@[i]) is None) == (fwd@[i] is Some) by {
                if i != id {
                    assert(fwd@[i] == old_fwd[i]);
                }
            }
            assert forall|i: int| 0 <= i < a.len() && fwd@[i] is None implies #[trigger] self.objects@[i] == a[i] by {
                assert(fwd@[i] == old_fwd[i]);
            }
            assert forall|i: int| 0 <= i < a.len() && (#[trigger] fwd@[i]) is Some implies reachable(a, roots, i) by {
                if i != id {
                    assert(fwd@[i] == old_fwd[i]);
                }
            }
            assert forall|k2: int| 0 <= k2 < to@.len() implies {
                let o = a[origin@[k2] as int];
                let c = #[trigger] to@[k2];
                &&& o is Some
                &&& c is Some
                &&& c->0.size == o->0.size
                &&& c->0.color == o->0.color
                &&& c->0.value == o->0.value
                &&& c->0.weak_target == o->0.weak_target
                &&& (k2 >= scan ==> c->0.refs@ == o->0.refs@)
                &&& (k2 < scan ==> renumbered(o->0.refs@, c->0.refs@, origin@))
            } by {
                if k2 < k {
                    assert(old_to[k2] == to@[k2]);
                    assert(old_origin[k2] == origin@[k2]);
                    if k2 < scan {
                        let o = a[origin@[k2] as int];
                        let c = to@[k2];
                        assert forall|p: int| 0 <= p < c->0.refs@.len() implies #[trigger] c->0.refs@[p] < origin@.len()
                            && origin@[c->0.refs@[p] as int] == o->0.refs@[p] by {
                            assert(old_origin[c->0.refs@[p] as int] == origin@[c->0.refs@[p] as int]);
                        }
                    }
                }
            }
            assert(origin@.take(old_origin.len() as int) =~= old_origin);
        }
        (k, Ghost(nfset))
    }
}


/// When the roots and the references of every scanned copy are copied,
/// every object the roots reach is copied.
proof fn lemma_all_reachable_copied<T>(
    a: Seq<Option<Object<T>>>,
    r0: Seq<usize>,
    cur: Seq<Option<Object<T>>>,
    to: Seq<Option<Object<T>>>,
    origin: Seq<usize>,
    fwd: Seq<Option<usize>>,
    fset: Set<int>,
    i: int,
)
    requires
        copying(a, r0, cur, to, origin, fwd, to.len() as int, fset),
        forall|j: int| 0 <= j < r0.len() ==> (#[trigger] fwd[r0[j] as int]) is Some && r0[j] < a.len(),
        reachable(a, r0, i),
    ensures
        0 <= i < a.len(),
        fwd[i] is Some,
{
    let p = choose|p: Seq<usize>| #[trigger] is_path(a, r0, p) && p.last() == i;
    lemma_path_copied(a, r0, cur, to, origin, fwd, fset, p, p.len() - 1);
}

proof fn lemma_path_copied<T>(
    a: Seq<Option<Object<T>>>,
    r0: Seq<usize>,
    cur: Seq<Option<Object<T>>>,
    to: Seq<Option<Object<T>>>,
    origin: Seq<usize>,
    fwd: Seq<Option<usize>>,
    fset: Set<int>,
    p: Seq<usize>,
    k: int,
)
    requires
        copying(a, r0, cur, to, origin, fwd, to.len() as int, fset),
        forall|j: int| 0 <= j < r0.len() ==> (#[trigger] fwd[r0[j] as int]) is Some && r0[j] < a.len(),
        is_path(a, r0, p),
        0 <= k < p.len(),
    ensures
        0 <= p[k] < a.len(),
        fwd[p[k] as int] is Some,
    decreases k,
{
    assert(live(a, p[k] as int));
    if k == 0 {
        let j = choose|j: int| 0 <= j < r0.len() && r0[j] == p[0];
        assert(fwd[r0[j] as int] is Some);
    } else {
        lemma_path_copied(a, r0, cur, to, origin, fwd, fset, p, k - 1);
        let x = p[k - 1] as int;
        let m = fwd[x]->0 as int;
        assert(points_to(a, x, p[k] as int));
        assert(origin[m] == x);
        let c = to[m];
        let o = a[x];
        assert(renumbered(o->0.refs@, c->0.refs@, origin));
        let q = choose|q: int| 0 <= q < o->0.refs@.len() && o->0.refs@[q] == p[k];
        assert(c->0.refs@[q] < origin.len() && origin[c->0.refs@[q] as int] == o->0.refs@[q]);
        let m2 = c->0.refs@[q] as int;
        assert(fwd[origin[m2] as int] == Some(m2 as usize));
    }
}

impl<T> SemiSpace<T> {
    /// Copies what `roots` reach into a fresh space and makes it current:
    /// the copies are numbered from zero, every reference and root is
    /// renumbered to the copy, weak referents that are not copied are
    /// cleared, and weak cells that are not copied leave the registry. The
    /// payloads of the objects left behind are dropped, which finalizes them.
    #[verifier::spinoff_prover]
    #[verifier::rlimit(100)]
    pub fn collect(&mut self, roots: &mut Vec<usize>)
        requires
            old(self).wf(),
            forall|j: int| 0 <= j < old(roots)@.len() ==> #[trigger] old(roots)@[j] < old(self).slots().len(),
        ensures
            final(self).wf(),
            exists|back: Seq<usize>| copied(old(self).slots(), old(roots)@, old(self).weak_cells(),
                final(self).slots(), final(roots)@, final(self).weak_cells(), back),
            final(self).spec_semispace_size() == old(self).spec_semispace_size(),
            final(self).spec_used() == live_bytes(final(self).slots()),
    {
        let ghost a = self.objects@;
        let ghost r0 = roots@;
        let n = self.objects.len();
        let mut fwd: Vec<Option<usize>> = Vec::new();
        let mut i: usize = 0;
        while i < n
            invariant
                i <= n,
                fwd@.len() == i,
                forall|x: int| 0 <= x < i ==> (#[trigger] fwd@[x]) is None,
            decreases n - i,
        {
            fwd.push(None);
            i += 1;
        }
        let mut to: Vec<Option<Object<T>>> = Vec::new();
        let mut origin: Vec<usize> = Vec::new();
        let mut used: usize = 0;
        let ghost mut fset: Set<int> = Set::empty();
        proof {
            assert(fset.len() == 0);
            assert(live_bytes(to@) == 0);
        }
        let mut j: usize = 0;
        while j < roots.len()
            invariant
                self.wf() || true,
                copying(a, r0, self.objects@, to@, origin@, fwd@, 0, fset),
                forall|x: int| 0 <= x < a.len() ==> (#[trigger] a[x]) is Some,
                forall|x: int, y: int| #[trigger] points_to(a, x, y) ==> 0 <= y < a.len(),
                live_bytes(a) <= usize::MAX,
                used == live_bytes(to@),
                a.len() == n,
                r0.len() == roots@.len(),
                j <= roots@.len(),
                forall|x: int| 0 <= x < r0.len() ==> #[trigger] r0[x] < a.len(),
                forall|x: int| 0 <= x < j ==> #[trigger] roots@[x] < to@.len() && origin@[roots@[x] as int] == r0[x]
                    && fwd@[r0[x] as int] == Some(roots@[x]),
                forall|x: int| j <= x < r0.len() ==> #[trigger] roots@[x] == r0[x],
                self.weak_refs@ == old(self).weak_refs@,
                self.semispace_size == old(self).semispace_size,
                self.used == old(self).used,
            decreases r0.len() - j,
        {
            let id = roots[j];
            proof {
                lemma_root_reachable(a, r0, j as int);
            }
            let ghost before_fwd = fwd@;
            let ghost before_origin = origin@;
            let ghost before_roots = roots@;
            let ghost before_to_len = to@.len();
            let (k, Ghost(f2)) = self.copy_object(&mut to, &mut origin, &mut fwd, id, &mut used,
                Ghost(a), Ghost(r0), Ghost(0), Ghost(fset));
            proof {
                fset = f2;
            }
            roots.set(j, k);
            proof {
                assert forall|x: int| 0 <= x < j + 1 implies #[trigger] roots@[x] < to@.len() && origin@[roots@[x] as int] == r0[x]
                    && fwd@[r0[x] as int] == Some(roots@[x]) by {
                    if x < j {
                        assert(before_roots[x] == roots@[x]);
                        assert(before_roots[x] < before_to_len && before_origin[before_roots[x] as int] == r0[x]
                            && before_fwd[r0[x] as int] == Some(before_roots[x]));
                        assert(origin@.take(before_origin.len() as int) == before_origin);
                        assert(origin@[roots@[x] as int] == before_origin[roots@[x] as int]);
                    }
                }
                assert forall|x: int| j + 1 <= x < r0.len() implies #[trigger] roots@[x] == r0[x] by {
                    assert(before_roots[x] == roots@[x]);
                }
            }
            j += 1;
        }
        let mut scan: usize = 0;
        while scan < to.len()
            invariant
                copying(a, r0, self.objects@, to@, origin@, fwd@, scan as int, fset),
                forall|x: int| 0 <= x < a.len() ==> (#[trigger] a[x]) is Some,
                forall|x: int, y: int| #[trigger] points_to(a, x, y) ==> 0 <= y < a.len(),
                live_bytes(a) <= usize::MAX,
                used == live_bytes(to@),
                a.len() == n,
                r0.len() == roots@.len(),
                forall|x: int| 0 <= x < r0.len() ==> #[trigger] roots@[x] < to@.len() && origin@[roots@[x] as int] == r0[x]
                    && fwd@[r0[x] as int] == Some(roots@[x]),
                forall|x: int| 0 <= x < r0.len() ==> #[trigger] r0[x] < a.len(),
                self.weak_refs@ == old(self).weak_refs@,
                self.semispace_size == old(self).semispace_size,
                self.used == old(self).used,
            decreases a.len() - scan,
        {
            proof {
                lemma_int_range(0, a.len() as int);
                assert(fset.subset_of(set_int_range(0, a.len() as int)));
                lemma_len_subset(fset, set_int_range(0, a.len() as int));
            }
            let ghost x = origin@[scan as int] as int;
            let ghost o = a[x];
            let nrefs = match &to[scan] {
                Some(c) => c.refs.len(),
                None => 0,
            };
            let mut new_refs: Vec<usize> = Vec::new();
            let mut q: usize = 0;
            while q < nrefs
                invariant
                    copying(a, r0, self.objects@, to@, origin@, fwd@, scan as int, fset),
                    scan < to@.len(),
                    x == origin@[scan as int],
                    o == a[x],
                    nrefs == o->0.refs@.len(),
                    to@[scan as int]->0.refs@ == o->0.refs@,
                    q <= nrefs,
                    renumbered(o->0.refs@.take(q as int), new_refs@, origin@),
                    reachable(a, r0, x),
                    forall|z: int| 0 <= z < a.len() ==> (#[trigger] a[z]) is Some,
                    forall|z: int, y: int| #[trigger] points_to(a, z, y) ==> 0 <= y < a.len(),
                    live_bytes(a) <= usize::MAX,
                    used == live_bytes(to@),
                    a.len() == n,
                    r0.len() == roots@.len(),
                    forall|z: int| 0 <= z < r0.len() ==> #[trigger] roots@[z] < to@.len() && origin@[roots@[z] as int] == r0[z]
                        && fwd@[r0[z] as int] == Some(roots@[z]),
                    forall|z: int| 0 <= z < r0.len() ==> #[trigger] r0[z] < a.len(),
                    self.weak_refs@ == old(self).weak_refs@,
                    self.semispace_size == old(self).semispace_size,
                    self.used == old(self).used,
                decreases nrefs - q,
            {
                let r = match &to[scan] {
                    Some(c) => c.refs[q],
                    None => 0,
                };
                proof {
                    assert(o->0.refs@.contains(r));
                    assert(points_to(a, x, r as int));
                    let path = choose|path: Seq<usize>| #[trigger] is_path(a, r0, path) && path.last() == x;
                    lemma_path_extend(a, r0, path, r);
                }
                let ghost before_origin = origin@;
                let ghost before_to = to@;
                let (k, Ghost(f2)) = self.copy_object(&mut to, &mut origin, &mut fwd, r, &mut used,
                    Ghost(a), Ghost(r0), Ghost(scan as int), Ghost(fset));
                proof {
                    fset = f2;
                    assert(to@[scan as int] == before_to[scan as int]);
                }
                new_refs.push(k);
                proof {
                    assert forall|p: int| 0 <= p < new_refs@.len() implies #[trigger] new_refs@[p] < origin@.len()
                        && origin@[new_refs@[p] as int] == o->0.refs@.take(q + 1)[p] by {
                        if p < q {
                            assert(origin@.take(before_origin.len() as int) == before_origin);
                            assert(origin@[new_refs@[p] as int] == before_origin[new_refs@[p] as int]);
                        }
                    }
                    assert forall|z: int| 0 <= z < r0.len() implies #[trigger] roots@[z] < to@.len() && origin@[roots@[z] as int] == r0[z]
                        && fwd@[r0[z] as int] == Some(roots@[z]) by {
                        assert(origin@.take(before_origin.len() as int) == before_origin);
                        assert(origin@[roots@[z] as int] == before_origin[roots@[z] as int]);
                    }
                }
                q += 1;
            }
            proof {
                assert(o->0.refs@.take(nrefs as int) =~= o->0.refs@);
            }
            let ghost before_to = to@;
            match &mut to[scan] {
                Some(c) => {
                    c.refs = new_refs;
                },
                None => {},
            }
            proof {
                assert forall|k2: int| 0 <= k2 < to@.len() implies {
                    let o2 = a[origin@[k2] as int];
                    let c2 = #[trigger] to@[k2];
                    &&& o2 is Some
                    &&& c2 is Some
                    &&& c2->0.size == o2->0.size
                    &&& c2->0.color == o2->0.color
                    &&& c2->0.value == o2->0.value
                    &&& c2->0.weak_target == o2->0.weak_target
                    &&& (k2 >= scan + 1 ==> c2->0.refs@ == o2->0.refs@)
                    &&& (k2 < scan + 1 ==> renumbered(o2->0.refs@, c2->0.refs@, origin@))
                } by {
                    if k2 != scan {
                        assert(to@[k2] == before_to[k2]);
                    }
                }
                assert forall|k2: int| 0 <= k2 < before_to.len() implies (#[trigger] before_to[k2] is Some) == (to@[k2] is Some) by {
                    if k2 != scan {
                        assert(to@[k2] == before_to[k2]);
                    }
                }
                assert forall|k2: int| #[trigger] live(before_to, k2) implies to@[k2]->0.size == before_to[k2]->0.size by {
                    if k2 != scan {
                        assert(to@[k2] == before_to[k2]);
                    }
                }
                crate::heap::lemma_live_bytes_same(before_to, to@);
            }
            scan += 1;
        }
        // every object the roots reach is copied
        proof {
            assert forall|z: int| 0 <= z < r0.len() implies (#[trigger] fwd@[r0[z] as int]) is Some && r0[z] < a.len() by {
                assert(roots@[z] < to@.len() && fwd@[r0[z] as int] == Some(roots@[z]));
            }
            assert forall|x: int| 0 <= x < a.len() implies ((#[trigger] fwd@[x]) is Some <==> reachable(a, r0, x)) by {
                if reachable(a, r0, x) {
                    lemma_all_reachable_copied(a, r0, self.objects@, to@, origin@, fwd@, fset, x);
                }
            }
        }
        // renumber the weak referents of the copies
        proof {
            assert forall|z: int| 0 <= z < old(self).weak_refs@.len() implies #[trigger] old(self).weak_refs@[z] < a.len() by {
                assert(old(self).weak_cells()[z] == old(self).weak_refs@[z]);
            }
        }
        let mut k: usize = 0;
        while k < to.len()
            invariant
                copying(a, r0, self.objects@, to@, origin@, fwd@, to@.len() as int, fset) || true,
                to@.len() == origin@.len(),
                fwd@.len() == a.len(),
                forall|z: int| 0 <= z < a.len() ==> (#[trigger] a[z]) is Some,
                forall|z: int| #[trigger] live(a, z) && a[z]->0.weak_target is Some ==> a[z]->0.weak_target->0 < a.len(),
                forall|x: int| 0 <= x < a.len() ==> ((#[trigger] fwd@[x]) is Some <==> reachable(a, r0, x)),
                forall|x: int| 0 <= x < a.len() && (#[trigger] fwd@[x]) is Some ==> fwd@[x]->0 < to@.len() && origin@[fwd@[x]->0 as int] == x,
                forall|k2: int| 0 <= k2 < to@.len() ==> #[trigger] origin@[k2] < a.len(),
                k <= to@.len(),
                self.weak_refs@ == old(self).weak_refs@,
                self.semispace_size == old(self).semispace_size,
                forall|z: int| 0 <= z < old(self).weak_refs@.len() ==> #[trigger] old(self).weak_refs@[z] < a.len(),
                live_bytes(a) == old(self).used,
                old(self).used <= old(self).semispace_size,
                used == live_bytes(to@),
                r0.len() == roots@.len(),
                forall|z: int| 0 <= z < r0.len() ==> #[trigger] roots@[z] < to@.len() && origin@[roots@[z] as int] == r0[z],
                forall|k1: int, k2: int| 0 <= k1 < origin@.len() && 0 <= k2 < origin@.len()
                    && #[trigger] origin@[k1] == #[trigger] origin@[k2] ==> k1 == k2,
                forall|k2: int| 0 <= k2 < origin@.len() ==> reachable(a, r0, #[trigger] origin@[k2] as int),
                forall|k2: int| 0 <= k2 < to@.len() ==> {
                    let o2 = a[origin@[k2] as int];
                    let c2 = #[trigger] to@[k2];
                    &&& o2 is Some
                    &&& c2 is Some
                    &&& c2->0.size == o2->0.size
                    &&& c2->0.color == o2->0.color
                    &&& c2->0.value == o2->0.value
                    &&& renumbered(o2->0.refs@, c2->0.refs@, origin@)
                    &&& (k2 >= k ==> c2->0.weak_target == o2->0.weak_target)
                    &&& (k2 < k ==> copy_of(o2, c2, origin@, reachable_set(a, r0)))
                },
            decreases to@.len() - k,
        {
            let target = match &to[k] {
                Some(c) => c.weak_target,
                None => None,
            };
            match target {
                Some(t) => {
                    proof {
                        assert(live(a, origin@[k as int] as int));
                    }
                    let nt = fwd[t];
                    let ghost before_to = to@;
                    match &mut to[k] {
                        Some(c) => {
                            c.weak_target = nt;
                        },
                        None => {},
                    }
                    proof {
                        assert forall|k2: int| 0 <= k2 < to@.len() implies {
                            let o2 = a[origin@[k2] as int];
                            let c2 = #[trigger] to@[k2];
                            &&& o2 is Some
                            &&& c2 is Some
                            &&& c2->0.size == o2->0.size
                            &&& c2->0.color == o2->0.color
                            &&& c2->0.value == o2->0.value
                            &&& renumbered(o2->0.refs@, c2->0.refs@, origin@)
                            &&& (k2 >= k + 1 ==> c2->0.weak_target == o2->0.weak_target)
                            &&& (k2 < k + 1 ==> copy_of(o2, c2, origin@, reachable_set(a, r0)))
                        } by {
                            if k2 != k {
                                assert(to@[k2] == before_to[k2]);
                            } else {
                                let o2 = a[origin@[k2] as int];
                                let c2 = to@[k2];
                                assert(renumbered(o2->0.refs@, c2->0.refs@, origin@));
                                assert(reachable_set(a, r0)(t) == reachable(a, r0, t as int));
                            }
                        }
                        assert forall|k2: int| 0 <= k2 < before_to.len() implies (#[trigger] before_to[k2] is Some) == (to@[k2] is Some) by {
                            if k2 != k {
                                assert(to@[k2] == before_to[k2]);
                            }
                        }
                        assert forall|k2: int| #[trigger] live(before_to, k2) implies to@[k2]->0.size == before_to[k2]->0.size by {
                            if k2 != k {
                                assert(to@[k2] == before_to[k2]);
                            }
                        }
                        crate::heap::lemma_live_bytes_same(before_to, to@);
                    }
                },
                None => {
                    proof {
                        let o2 = a[origin@[k as int] as int];
                        let c2 = to@[k as int];
                        assert(renumbered(o2->0.refs@, c2->0.refs@, origin@));
                    }
                },
            }
            k += 1;
        }
        // the registry keeps the copied weak cells, renumbered
        let ghost wa = self.weak_refs@;
        assert(wa == old(self).weak_refs@);
        let ghost pred = |w: usize| reachable(a, r0, w as int);
        let mut new_weak: Vec<usize> = Vec::new();
        let mut q: usize = 0;
        while q < self.weak_refs.len()
            invariant
                wa == self.weak_refs@,
                q <= wa.len(),
                fwd@.len() == a.len(),
                forall|z: int| 0 <= z < wa.len() ==> #[trigger] wa[z] < a.len(),
                forall|x: int| 0 <= x < a.len() ==> ((#[trigger] fwd@[x]) is Some <==> reachable(a, r0, x)),
                forall|x: int| 0 <= x < a.len() && (#[trigger] fwd@[x]) is Some ==> fwd@[x]->0 < origin@.len() && origin@[fwd@[x]->0 as int] == x,
                forall|z: int| 0 <= z < new_weak@.len() ==> #[trigger] new_weak@[z] < origin@.len(),
                new_weak@.map_values(|k2: usize| origin@[k2 as int]) == wa.take(q as int).filter(pred),
                pred == (|w: usize| reachable(a, r0, w as int)),
            decreases wa.len() - q,
        {
            let w = self.weak_refs[q];
            proof {
                wa.take(q as int).lemma_filter_push(w, pred);
                assert(wa.take(q + 1) =~= wa.take(q as int).push(w));
                assert(pred(w) == reachable(a, r0, w as int));
            }
            match fwd[w] {
                Some(nw) => {
                    let ghost before = new_weak@;
                    new_weak.push(nw);
                    proof {
                        assert(new_weak@.map_values(|k2: usize| origin@[k2 as int])
                            =~= before.map_values(|k2: usize| origin@[k2 as int]).push(w));
                    }
                },
                None => {},
            }
            q += 1;
        }
        proof {
            assert(wa.take(wa.len() as int) =~= wa);
            lemma_copies_bytes(a, to@, origin@);
        }
        self.objects = to;
        self.weak_refs = new_weak;
        self.used = used;
        proof {
            let b = self.objects@;
            let back = origin@;
            assert forall|x: int| #[trigger] reachable(a, r0, x) implies back.contains(x as usize) by {
                crate::heap::lemma_reachable_live(a, r0, x);
                assert(fwd@[x] is Some);
                let m = fwd@[x]->0 as int;
                assert(back[m] == x);
            }
            assert forall|kk: int| 0 <= kk < b.len() implies copy_of(a[back[kk] as int], #[trigger] b[kk], back, reachable_set(a, r0)) by {
                assert(to@[kk] == b[kk]);
            }
            assert(self.weak_refs@.map_values(|k2: usize| back[k2 as int]) == wa.filter(|w: usize| reachable(a, r0, w as int)));
            assert(copied(a, r0, wa, b, roots@, self.weak_refs@, origin@));
            assert(a == old(self).slots());
            assert(wa == old(self).weak_cells());
            assert(copied(old(self).slots(), old(roots)@, old(self).weak_cells(), self.slots(), roots@, self.weak_cells(), origin@));
            assert forall|x: int, y: int| #[trigger] points_to(b, x, y) implies 0 <= y < b.len() by {
                let c2 = b[x];
                let o2 = a[origin@[x] as int];
                assert(renumbered(o2->0.refs@, c2->0.refs@, origin@));
                let pidx = choose|pidx: int| 0 <= pidx < c2->0.refs@.len() && c2->0.refs@[pidx] == y as usize;
            }
        }
    }
}


/// Size of the header in front of every object.
pub const HEADER_SIZE: usize = 16;

/// Bytes an object with `size` payload bytes takes with its header, rounded
/// up to whole words.
pub open spec fn object_size(size: int) -> int {
    crate::align::spec_align_up(size + HEADER_SIZE, 8)
}

proof fn lemma_push_bytes<T>(s: Seq<Option<Object<T>>>, o: Object<T>)
    ensures
        live_bytes(s.push(Some(o))) == live_bytes(s) + o.size,
{
    assert(s.push(Some(o)).drop_last() =~= s);
}

impl<T> SemiSpace<T> {
    /// The new object holding `value` with references `refs` and a payload of
    /// `size` bytes, when it fits in the current space.
    fn bump(&mut self, value: T, refs: Vec<usize>, size: usize) -> (r: Option<usize>)
        requires
            old(self).wf(),
            forall|j: int| 0 <= j < refs@.len() ==> #[trigger] refs@[j] < old(self).slots().len(),
            size + HEADER_SIZE + 8 <= usize::MAX,
        ensures
            final(self).wf(),
            final(self).weak_cells() == old(self).weak_cells(),
            final(self).spec_semispace_size() == old(self).spec_semispace_size(),
            old(self).spec_used() + object_size(size as int) <= old(self).spec_semispace_size() ==> {
                &&& r == Some(old(self).slots().len() as usize)
                &&& final(self).slots() == old(self).slots().push(Some(Object {
                    color: 0, size: object_size(size as int) as usize, refs, weak_target: None, value: Some(value) }))
            },
            old(self).spec_used() + object_size(size as int) > old(self).spec_semispace_size() ==> r is None
                && final(self).slots() == old(self).slots(),
    {
        proof {
            crate::align::lemma_eight_is_power_of_two();
        }
        let osize = crate::align::round_up(size + HEADER_SIZE, 8);
        if osize > self.semispace_size - self.used {
            return None;
        }
        let id = self.objects.len();
        let ghost before = self.objects@;
        let o = Object { color: 0, size: osize, refs, weak_target: None, value: Some(value) };
        proof {
            lemma_push_bytes(before, o);
        }
        self.objects.push(Some(o));
        self.used = self.used + osize;
        proof {
            let objs = self.objects@;
            assert forall|i: int, j: int| #[trigger] points_to(objs, i, j) implies 0 <= j < objs.len() by {
                if i < before.len() {
                    assert(objs[i] == before[i]);
                    assert(points_to(before, i, j));
                } else {
                    let p = choose|p: int| 0 <= p < objs[i]->0.refs@.len() && objs[i]->0.refs@[p] == j as usize;
                }
            }
            assert forall|i: int| #[trigger] live(objs, i) && objs[i]->0.weak_target is Some
                implies objs[i]->0.weak_target->0 < objs.len() by {
                if i < before.len() {
                    assert(objs[i] == before[i]);
                    assert(live(before, i));
                }
            }
            assert forall|i: int| 0 <= i < objs.len() implies (#[trigger] objs[i]) is Some by {
                if i < before.len() {
                    assert(objs[i] == before[i]);
                }
            }
            assert forall|k: int| 0 <= k < self.weak_cells().len() implies #[trigger] self.weak_cells()[k] < objs.len() by {
                assert(old(self).weak_cells()[k] < before.len());
            }
            assert(self.spec_used() == live_bytes(objs));
            assert(self.spec_used() <= self.spec_semispace_size());
        }
        Some(id)
    }

    /// Allocates an object holding `value` with references `refs` and a
    /// payload of `size` bytes. When the current space is full, a collection
    /// from `roots` and `refs` runs first, renumbering both; returns `None`
    /// when the object still does not fit.
    pub fn alloc_inline(&mut self, roots: &mut Vec<usize>, value: T, refs: Vec<usize>, size: usize) -> (r: Option<usize>)
        requires
            old(self).wf(),
            forall|j: int| 0 <= j < refs@.len() ==> #[trigger] refs@[j] < old(self).slots().len(),
            forall|j: int| 0 <= j < old(roots)@.len() ==> #[trigger] old(roots)@[j] < old(self).slots().len(),
            size + HEADER_SIZE + 8 <= usize::MAX,
            old(roots)@.len() + refs@.len() <= usize::MAX,
        ensures
            final(self).wf(),
            final(self).spec_semispace_size() == old(self).spec_semispace_size(),
            old(self).spec_used() + object_size(size as int) <= old(self).spec_semispace_size() ==> {
                &&& r == Some(old(self).slots().len() as usize)
                &&& final(roots)@ == old(roots)@
                &&& final(self).weak_cells() == old(self).weak_cells()
                &&& final(self).slots() == old(self).slots().push(Some(Object {
                    color: 0, size: object_size(size as int) as usize, refs, weak_target: None, value: Some(value) }))
            },
            old(self).spec_used() + object_size(size as int) > old(self).spec_semispace_size() ==>
                exists|back: Seq<usize>, mid: Seq<Option<Object<T>>>, new_refs: Seq<usize>| {
                    &&& copied(old(self).slots(), old(roots)@ + refs@, old(self).weak_cells(),
                        mid, final(roots)@ + new_refs, final(self).weak_cells(), back)
                    &&& final(roots)@.len() == old(roots)@.len()
                    &&& (r is Some ==> {
                        &&& r == Some(mid.len() as usize)
                        &&& final(self).slots().len() == mid.len() + 1
                        &&& final(self).slots().drop_last() == mid
                        &&& final(self).slots().last()->0.refs@ == new_refs
                        &&& final(self).slots().last()->0.value == Some(value)
                        &&& final(self).slots().last()->0.size == object_size(size as int)
                    })
                    &&& (r is None ==> final(self).slots() == mid
                        && live_bytes(mid) + object_size(size as int) > old(self).spec_semispace_size())
                },
    {
        proof {
            crate::align::lemma_eight_is_power_of_two();
        }
        let osize = crate::align::round_up(size + HEADER_SIZE, 8);
        if osize <= self.semispace_size - self.used {
            return self.bump(value, refs, size);
        }
        let ghost r0 = roots@;
        let ghost a = self.objects@;
        let ghost w0 = self.weak_refs@;
        let nroots = roots.len();
        let ghost refs0 = refs@;
        let mut refs = refs;
        roots.append(&mut refs);
        proof {
            assert forall|j: int| 0 <= j < roots@.len() implies #[trigger] roots@[j] < a.len() by {
                if j >= r0.len() {
                    assert(roots@[j] == old(roots)@.len() as int + 0 - old(roots)@.len() as int + roots@[j]);
                }
            }
        }
        let ghost combined = roots@;
        self.collect(roots);
        let ghost full = roots@;
        let new_refs = roots.split_off(nroots);
        let ghost mid = self.objects@;
        let ghost after = roots@ + new_refs@;
        proof {
            assert(after =~= full);
        }
        let ghost w1 = self.weak_refs@;
        let ghost nr = new_refs@;
        let ghost ra = roots@;
        let ghost used_mid = self.used;
        let r = self.bump(value, new_refs, size);
        proof {
            assert(combined =~= old(roots)@ + refs0);
            let bk = choose|back: Seq<usize>| copied(a, combined, w0, mid, after, w1, back);
            assert(copied(old(self).slots(), old(roots)@ + refs0, old(self).weak_cells(), mid, ra + nr, w1, bk));
            assert(ra == roots@);
            assert(w1 == self.weak_cells());
            assert(copied(old(self).slots(), old(roots)@ + refs0, old(self).weak_cells(), mid, roots@ + nr, self.weak_cells(), bk));
            if r is Some {
                assert(self.slots().drop_last() =~= mid);
            }
        }
        r
    }
}


/// Payload size of a weak cell: one reference.
pub const WEAK_CELL_SIZE: usize = 8;

impl<T> SemiSpace<T> {
    /// Allocates a weak cell referring to `target` and registers it, when it
    /// fits in the current space.
    pub fn allocate_weak(&mut self, target: usize) -> (r: Option<usize>)
        requires
            old(self).wf(),
            target < old(self).slots().len(),
        ensures
            final(self).wf(),
            final(self).spec_semispace_size() == old(self).spec_semispace_size(),
            old(self).spec_used() + object_size(WEAK_CELL_SIZE as int) <= old(self).spec_semispace_size() ==> {
                &&& r == Some(old(self).slots().len() as usize)
                &&& final(self).slots().len() == old(self).slots().len() + 1
                &&& final(self).slots().drop_last() == old(self).slots()
                &&& final(self).slots().last()->0.weak_target == Some(target)
                &&& final(self).slots().last()->0.refs@.len() == 0
                &&& final(self).slots().last()->0.value is None
                &&& final(self).slots().last()->0.size == object_size(WEAK_CELL_SIZE as int) as usize
                &&& final(self).slots().last()->0.color == 0
                &&& final(self).spec_used() == old(self).spec_used() + object_size(WEAK_CELL_SIZE as int)
                &&& final(self).weak_cells() == old(self).weak_cells().push(old(self).slots().len() as usize)
            },
            old(self).spec_used() + object_size(WEAK_CELL_SIZE as int) > old(self).spec_semispace_size() ==> r is None
                && final(self).slots() == old(self).slots() && final(self).weak_cells() == old(self).weak_cells(),
    {
        proof {
            crate::align::lemma_eight_is_power_of_two();
        }
        let osize = crate::align::round_up(WEAK_CELL_SIZE + HEADER_SIZE, 8);
        if osize > self.semispace_size - self.used {
            return None;
        }
        let id = self.objects.len();
        let ghost before = self.objects@;
        let o = Object { color: 0, size: osize, refs: Vec::new(), weak_target: Some(target), value: None };
        proof {
            lemma_push_bytes(before, o);
        }
        self.objects.push(Some(o));
        self.weak_refs.push(id);
        self.used = self.used + osize;
        proof {
            let objs = self.objects@;
            assert forall|i: int, j: int| #[trigger] points_to(objs, i, j) implies 0 <= j < objs.len() by {
                if i < before.len() {
                    assert(objs[i] == before[i]);
                    assert(points_to(before, i, j));
                }
            }
            assert forall|i: int| #[trigger] live(objs, i) && objs[i]->0.weak_target is Some
                implies objs[i]->0.weak_target->0 < objs.len() by {
                if i < before.len() {
                    assert(objs[i] == before[i]);
                    assert(live(before, i));
                }
            }
            assert forall|i: int| 0 <= i < objs.len() implies (#[trigger] objs[i]) is Some by {
                if i < before.len() {
                    assert(objs[i] == before[i]);
                }
            }
            assert forall|k: int| 0 <= k < self.weak_cells().len() implies #[trigger] self.weak_cells()[k] < objs.len() by {
                if k < old(self).weak_cells().len() {
                    assert(old(self).weak_cells()[k] < before.len());
                }
            }
            assert(objs.drop_last() =~= before);
        }
        Some(id)
    }

    /// The referent of weak cell `weak`, or `None` once it has been cleared.
    pub fn upgrade(&self, weak: usize) -> (r: Option<usize>)
        requires
            weak < self.slots().len(),
            self.wf(),
        ensures
            r == self.slots()[weak as int]->0.weak_target,
    {
        match &self.objects[weak] {
            Some(o) => o.weak_target,
            None => None,
        }
    }

    /// The payload of object `id`, or `None` when there is no such object or
    /// it is a weak cell.
    pub fn get(&self, id: usize) -> (r: Option<&T>)
        ensures
            r == (if live(self.slots(), id as int) {
                match self.slots()[id as int]->0.value {
                    Some(v) => Some(&v),
                    None => None,
                }
            } else {
                None
            }),
    {
        if id < self.objects.len() {
            match &self.objects[id] {
                Some(o) => match &o.value {
                    Some(v) => Some(v),
                    None => None,
                },
                None => None,
            }
        } else {
            None
        }
    }

    /// Number of objects in the current space.
    pub fn len(&self) -> (r: usize)
        ensures
            r == self.slots().len(),
    {
        self.objects.len()
    }

    /// Bytes in use in the current space.
    pub fn used(&self) -> (r: usize)
        ensures
            r == self.spec_used(),
    {
        self.used
    }
}

/// A second collection from the same roots copies every object: after the
/// first, every object is reachable.
pub proof fn lemma_everything_reachable_after_collect<T>(
    a: Seq<Option<Object<T>>>, roots: Seq<usize>, weak: Seq<usize>,
    b: Seq<Option<Object<T>>>, new_roots: Seq<usize>, new_weak: Seq<usize>, back: Seq<usize>, k: int,
)
    requires
        copied(a, roots, weak, b, new_roots, new_weak, back),
        forall|i: int, j: int| #[trigger] points_to(a, i, j) ==> live(a, j),
        b.len() <= usize::MAX,
        0 <= k < b.len(),
    ensures
        reachable(b, new_roots, k),
{
    let x = back[k] as int;
    let p = choose|p: Seq<usize>| #[trigger] is_path(a, roots, p) && p.last() == x;
    // each object of the path has a copy
    assert forall|m: int| 0 <= m < p.len() implies #[trigger] back.contains(p[m]) by {
        let q = p.take(m + 1);
        assert forall|z: int| 0 <= z < q.len() implies live(a, #[trigger] q[z] as int) by {
            assert(q[z] == p[z]);
        }
        assert forall|z: int| 0 <= z < q.len() - 1 implies points_to(a, #[trigger] q[z] as int, q[z + 1] as int) by {
            assert(q[z] == p[z]);
            assert(q[z + 1] == p[z + 1]);
        }
        assert(is_path(a, roots, q));
        assert(q.last() == p[m]);
        assert(reachable(a, roots, p[m] as int));
    }
    let f = |i: usize| choose|c: int| 0 <= c < back.len() && back[c] == i;
    let q = Seq::new(p.len(), |m: int| f(p[m]) as usize);
    assert forall|m: int| 0 <= m < p.len() implies 0 <= #[trigger] f(p[m]) < back.len() && back[f(p[m])] == p[m] by {
        assert(back.contains(p[m]));
    }
    assert forall|m: int| 0 <= m < q.len() implies live(b, #[trigger] q[m] as int) by {
        assert(0 <= f(p[m]) < back.len());
    }
    assert forall|m: int| 0 <= m < q.len() - 1 implies points_to(b, #[trigger] q[m] as int, q[m + 1] as int) by {
        let c = f(p[m]);
        let c2 = f(p[m + 1]);
        assert(0 <= c < back.len() && back[c] == p[m]);
        assert(0 <= c2 < back.len() && back[c2] == p[m + 1]);
        assert(points_to(a, p[m] as int, p[m + 1] as int));
        let o = a[back[c] as int];
        let qi = choose|qi: int| 0 <= qi < o->0.refs@.len() && o->0.refs@[qi] == p[m + 1];
        assert(copy_of(a[back[c] as int], b[c], back, reachable_set(a, roots)));
        let y = b[c]->0.refs@[qi];
        assert(y < back.len() && back[y as int] == o->0.refs@[qi]);
        assert(back[y as int] == back[c2]);
        assert(y as int == c2);
        assert(b[c]->0.refs@[qi] == c2 as usize);
        assert(b[c]->0.refs@.contains(c2 as usize));
        assert(q[m] as int == c);
        assert(q[m + 1] as int == c2);
        assert(live(b, c));
    }
    // the path starts at a root
    let j = choose|j: int| 0 <= j < roots.len() && roots[j] == p[0];
    assert(new_roots[j] < b.len() && back[new_roots[j] as int] == roots[j]);
    assert(0 <= f(p[0]) < back.len() && back[f(p[0])] == p[0]);
    assert(q[0] == new_roots[j]);
    assert(is_path(b, new_roots, q));
    let last = f(p[p.len() - 1]);
    assert(0 <= last < back.len() && back[last] == p[p.len() - 1]);
    assert(back[last] == back[k]);
    assert(last == k);
    assert(q.last() == k);
}

} // verus!
