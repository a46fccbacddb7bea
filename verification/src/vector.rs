//! A growable vector with an explicit capacity, laid out like the heap's
//! vector storage: a length, a capacity and the elements.
use vstd::prelude::*;
use vstd::layout::size_of;
use vstd::std_specs::cmp::PartialEqSpec;

verus! {

/// Capacity the storage grows to when it is full: a first allocation of 8
/// elements for byte-sized elements, 4 for elements up to 1 KiB and 1 for
/// larger ones, and twice the capacity afterwards.
pub open spec fn spec_next_capacity(elem_size: nat, capacity: nat) -> nat {
    if capacity == 0 {
        if elem_size == 1 {
            8
        } else if 2 <= elem_size <= 1024 {
            4
        } else {
            1
        }
    } else {
        2 * capacity
    }
}

/// The capacity that the storage of `T` elements grows to from `capacity`.
pub fn next_capacity<T>(capacity: usize) -> (r: usize)
    requires
        capacity <= usize::MAX / 2,
    ensures
        r == spec_next_capacity(size_of::<T>(), capacity as nat),
{
    let elem_size = core::mem::size_of::<T>();
    if capacity == 0 {
        return if elem_size == 1 {
            8
        } else if 2 <= elem_size && elem_size <= 1024 {
            4
        } else {
            1
        };
    }
    2 * capacity
}

/// A vector of `T` with an explicit capacity.
pub struct Vector<T> {
    data: Vec<T>,
    capacity: usize,
}

impl<T> View for Vector<T> {
    type V = Seq<T>;

    closed spec fn view(&self) -> Seq<T> {
        self.data@
    }
}

impl<T> Vector<T> {
    /// The capacity of the storage.
    pub closed spec fn spec_capacity(&self) -> nat {
        self.capacity as nat
    }

    /// The elements fit in the storage.
    pub open spec fn wf(&self) -> bool {
        self@.len() <= self.spec_capacity()
    }

    /// An empty vector with no storage.
    pub fn new() -> (v: Self)
        ensures
            v.wf(),
            v@ == Seq::<T>::empty(),
            v.spec_capacity() == 0,
    {
        Vector { data: Vec::new(), capacity: 0 }
    }

    /// An empty vector whose storage holds `capacity` elements.
    pub fn with_capacity(capacity: usize) -> (v: Self)
        ensures
            v.wf(),
            v@ == Seq::<T>::empty(),
            v.spec_capacity() == capacity,
    {
        Vector { data: Vec::new(), capacity }
    }

    /// Number of elements the storage holds.
    pub fn capacity(&self) -> (r: usize)
        ensures
            r == self.spec_capacity(),
    {
        self.capacity
    }

    /// Number of elements.
    pub fn len(&self) -> (r: usize)
        ensures
            r == self@.len(),
    {
        self.data.len()
    }

    /// Whether the vector has no elements.
    pub fn is_empty(&self) -> (r: bool)
        ensures
            r == (self@.len() == 0),
    {
        self.data.len() == 0
    }

    /// The elements as a slice.
    pub fn as_slice(&self) -> (r: &[T])
        ensures
            r@ == self@,
    {
        self.data.as_slice()
    }

    /// Element `index`.
    pub fn at(&self, index: usize) -> (r: &T)
        requires
            index < self@.len(),
        ensures
            *r == self@[index as int],
    {
        &self.data[index]
    }

    /// Moves the elements to a storage of `capacity` elements.
    fn grow(&mut self, capacity: usize)
        requires
            old(self)@.len() <= capacity,
        ensures
            final(self)@ == old(self)@,
            final(self).spec_capacity() == capacity,
            final(self).wf(),
    {
        if capacity == self.capacity {
            return;
        }
        self.capacity = capacity;
    }
}

/// The elements of `s` whose flag in `keep` is set, in order.
pub open spec fn filter_by<T>(s: Seq<T>, keep: Seq<bool>) -> Seq<T>
    decreases s.len(),
{
    if s.len() == 0 {
        Seq::empty()
    } else if keep[s.len() - 1] {
        filter_by(s.drop_last(), keep).push(s.last())
    } else {
        filter_by(s.drop_last(), keep)
    }
}

/// `filter_by` only reads the flags of the elements it is given.
pub proof fn lemma_filter_by_prefix<T>(s: Seq<T>, keep: Seq<bool>)
    requires
        keep.len() >= s.len(),
    ensures
        filter_by(s, keep) == filter_by(s, keep.take(s.len() as int)),
    decreases s.len(),
{
    if s.len() > 0 {
        lemma_filter_by_prefix(s.drop_last(), keep);
        lemma_filter_by_prefix(s.drop_last(), keep.take(s.len() as int));
        assert(keep.take(s.len() as int).take(s.len() - 1) =~= keep.take(s.len() - 1));
    }
}

/// Replacing the last selected element replaces the last element of the
/// selection.
pub proof fn lemma_filter_by_replace_last<T>(s: Seq<T>, keep: Seq<bool>, p: int, v: T)
    requires
        0 <= p < s.len(),
        keep.len() >= s.len(),
        keep[p],
        forall|q: int| p < q < s.len() ==> !#[trigger] keep[q],
    ensures
        filter_by(s.update(p, v), keep) == filter_by(s, keep).drop_last().push(v),
        filter_by(s, keep).len() > 0,
    decreases s.len(),
{
    let u = s.update(p, v);
    assert(u.drop_last() =~= (if p == s.len() - 1 { s.drop_last() } else { s.drop_last().update(p, v) }));
    if p == s.len() - 1 {
        assert(filter_by(s, keep) == filter_by(s.drop_last(), keep).push(s.last()));
        assert(filter_by(s, keep).drop_last() =~= filter_by(s.drop_last(), keep));
    } else {
        lemma_filter_by_replace_last(s.drop_last(), keep, p, v);
    }
}

/// Selecting every element selects the whole sequence.
pub proof fn lemma_filter_by_all<T>(s: Seq<T>, keep: Seq<bool>)
    requires
        keep.len() >= s.len(),
        forall|i: int| 0 <= i < s.len() ==> #[trigger] keep[i],
    ensures
        filter_by(s, keep) == s,
    decreases s.len(),
{
    if s.len() > 0 {
        lemma_filter_by_all(s.drop_last(), keep);
        assert(s.drop_last().push(s.last()) =~= s);
    }
}

/// Filtering never lengthens a sequence.
pub proof fn lemma_filter_by_len<T>(s: Seq<T>, keep: Seq<bool>)
    ensures
        filter_by(s, keep).len() <= s.len(),
    decreases s.len(),
{
    if s.len() > 0 {
        lemma_filter_by_len(s.drop_last(), keep);
    }
}

impl<T> Vector<T> {
    /// Keeps the elements for which `f` returns true, in their order.
    pub fn retain<F: Fn(&T) -> bool>(&mut self, f: F)
        requires
            old(self).wf(),
            forall|x: &T| #[trigger] f.requires((x,)),
        ensures
            final(self).wf(),
            final(self).spec_capacity() == old(self).spec_capacity(),
            exists|keep: Seq<bool>|
                #![trigger filter_by(old(self)@, keep)]
                keep.len() == old(self)@.len()
                && (forall|i: int| 0 <= i < keep.len() ==> f.ensures((&old(self)@[i],), #[trigger] keep[i]))
                && final(self)@ == filter_by(old(self)@, keep),
    {
        let ghost orig = self.data@;
        let mut rest: Vec<T> = Vec::new();
        std::mem::swap(&mut rest, &mut self.data);
        let mut kept: Vec<T> = Vec::new();
        let ghost mut keep: Seq<bool> = Seq::empty();
        for x in it: rest.into_iter()
            invariant
                it.seq() == orig,
                keep.len() == it.index(),
                forall|i: int| 0 <= i < keep.len() ==> f.ensures((&orig[i],), #[trigger] keep[i]),
                kept@ == filter_by(orig.take(keep.len() as int), keep),
                forall|x: &T| #[trigger] f.requires((x,)),
        {
            let ghost i = keep.len();
            let ghost old_keep = keep;
            proof {
                assert(x == orig[i as int]);
            }
            let b = f(&x);
            proof {
                keep = keep.push(b);
                assert(orig.take(i as int + 1).drop_last() =~= orig.take(i as int));
                assert(orig.take(i as int + 1).last() == x);
                lemma_filter_by_prefix(orig.take(i as int), keep);
                assert(keep.take(i as int) =~= old_keep);
            }
            if b {
                kept.push(x);
            }
        }
        self.data = kept;
        proof {
            assert(keep.len() == orig.len());
            assert(orig.take(orig.len() as int) =~= orig);
            lemma_filter_by_len(orig, keep);
            assert(self.data@ == filter_by(orig, keep));
            assert(orig == old(self)@);
            assert(filter_by(old(self)@, keep) == self@);
            assert(forall|i: int| 0 <= i < keep.len() ==> f.ensures((&old(self)@[i],), #[trigger] keep[i]));
        }
    }
}

impl<T> Vector<T> {
    /// Keeps the elements for which `f` returns true, in their order; `f` may
    /// modify each element it is shown.
    pub fn retain_mut<F: FnMut(&mut T) -> bool>(&mut self, mut f: F)
        requires
            old(self).wf(),
            forall|x: &mut T| #[trigger] f.requires((x,)),
        ensures
            final(self).wf(),
            final(self).spec_capacity() == old(self).spec_capacity(),
            exists|keep: Seq<bool>, vals: Seq<T>, refs: Seq<&mut T>|
                #![trigger filter_by(vals, keep), refs.len()]
                keep.len() == old(self)@.len() && vals.len() == old(self)@.len() && refs.len() == old(self)@.len()
                && (forall|i: int| #![trigger refs[i]] 0 <= i < keep.len() ==>
                    *refs[i] == old(self)@[i] && *final(refs[i]) == vals[i] && f.ensures((refs[i],), keep[i]))
                && final(self)@ == filter_by(vals, keep),
    {
        let ghost orig = self.data@;
        let mut rest: Vec<T> = Vec::new();
        std::mem::swap(&mut rest, &mut self.data);
        let mut kept: Vec<T> = Vec::new();
        let ghost mut keep: Seq<bool> = Seq::empty();
        let ghost mut vals: Seq<T> = Seq::empty();
        let ghost f0 = f;
        assert(Seq::<&mut T>::empty().len() == keep.len());
        for x in it: rest.into_iter()
            invariant
                it.seq() == orig,
                keep.len() == it.index(),
                vals.len() == it.index(),
                kept@ == filter_by(vals, keep),
                f == f0,
                forall|x: &mut T| #[trigger] f.requires((x,)),
                exists|refs: Seq<&mut T>| #![trigger refs.len()] refs.len() == keep.len() && forall|k: int| #![trigger refs[k]] 0 <= k < keep.len() ==>
                    *refs[k] == orig[k] && *final(refs[k]) == vals[k] && f.ensures((refs[k],), keep[k]),
        {
            let ghost i = keep.len();
            let ghost old_keep = keep;
            let ghost old_vals = vals;
            let mut y = x;
            let b = f(&mut y);
            proof {
                assert(exists|r: &mut T| *r == orig[i as int] && *final(r) == y && f.ensures((r,), b));
                let r0 = choose|r: &mut T| *r == orig[i as int] && *final(r) == y && f.ensures((r,), b);
                let refs0 = choose|refs: Seq<&mut T>| #![trigger refs.len()] refs.len() == keep.len() && forall|k: int| #![trigger refs[k]] 0 <= k < keep.len() ==>
                    *refs[k] == orig[k] && *final(refs[k]) == vals[k] && f.ensures((refs[k],), keep[k]);
                keep = keep.push(b);
                vals = vals.push(y);
                let refs1 = refs0.push(r0);
                assert forall|k: int| #![trigger refs1[k]] 0 <= k < keep.len() implies
                    *refs1[k] == orig[k] && *final(refs1[k]) == vals[k] && f.ensures((refs1[k],), keep[k]) by {
                    if k < i {
                        assert(refs1[k] == refs0[k]);
                        assert(old_vals[k] == vals[k] && old_keep[k] == keep[k]);
                    } else {
                        assert(vals[k] == y && keep[k] == b);
                    }
                }
                assert(refs1.len() == keep.len());
                assert(vals.drop_last() =~= old_vals);
                lemma_filter_by_prefix(old_vals, keep);
                assert(keep.take(i as int) =~= old_keep);
            }
            if b {
                kept.push(y);
            }
        }
        self.data = kept;
        proof {
            lemma_filter_by_len(vals, keep);
            assert(orig == old(self)@);
            assert(filter_by(vals, keep) == self@);
            let refs0 = choose|refs: Seq<&mut T>| #![trigger refs.len()] refs.len() == keep.len() && forall|k: int| #![trigger refs[k]] 0 <= k < keep.len() ==>
                *refs[k] == orig[k] && *final(refs[k]) == vals[k] && f.ensures((refs[k],), keep[k]);
            assert(keep.len() == old(self)@.len() && vals.len() == old(self)@.len() && refs0.len() == keep.len());
            assert(final(self)@ == filter_by(vals, keep));
        }
    }
}

/// The capacity reached from `capacity` by growing until `total` elements fit.
pub open spec fn spec_grow_to(elem_size: nat, capacity: nat, total: nat) -> nat
    decreases (if capacity >= total { 0 } else { total - capacity }),
{
    if capacity >= total {
        capacity
    } else {
        spec_grow_to(elem_size, spec_next_capacity(elem_size, capacity), total)
    }
}

/// Growing overshoots `total` at most twofold, past the first allocation.
pub proof fn lemma_grow_to_at_most(elem_size: nat, capacity: nat, total: nat)
    ensures
        spec_grow_to(elem_size, capacity, total) <= capacity
            || spec_grow_to(elem_size, capacity, total) <= 8
            || spec_grow_to(elem_size, capacity, total) <= 2 * total,
    decreases (if capacity >= total { 0 } else { total - capacity }),
{
    if capacity < total {
        lemma_grow_to_at_most(elem_size, spec_next_capacity(elem_size, capacity), total);
    }
}

/// The capacity after reserving room for `total` elements in a storage of
/// `capacity` elements: unchanged when they fit, else grown step by step.
pub open spec fn spec_reserve_capacity(elem_size: nat, capacity: nat, total: nat) -> nat {
    if total <= capacity {
        capacity
    } else {
        spec_grow_to(elem_size, spec_next_capacity(elem_size, capacity), total)
    }
}

/// Growing stops at the first capacity that holds `total` elements.
pub proof fn lemma_grow_to_bounds(elem_size: nat, capacity: nat, total: nat)
    requires
        total <= usize::MAX / 2,
        capacity <= usize::MAX,
    ensures
        spec_grow_to(elem_size, capacity, total) >= total,
        spec_grow_to(elem_size, capacity, total) >= capacity,
        spec_grow_to(elem_size, capacity, total) <= usize::MAX,
    decreases (if capacity >= total { 0 } else { total - capacity }),
{
    if capacity < total {
        let next = spec_next_capacity(elem_size, capacity);
        if next < total {
            lemma_grow_to_bounds(elem_size, next, total);
        }
    }
}

impl<T> Vector<T> {
    /// Makes room for `additional` more elements: when they do not fit, the
    /// capacity grows step by step (see [next_capacity]) until they do.
    pub fn try_reserve(&mut self, additional: usize)
        requires
            old(self).wf(),
            old(self)@.len() + additional <= usize::MAX / 2,
            old(self).spec_capacity() <= usize::MAX / 2,
        ensures
            final(self).wf(),
            final(self)@ == old(self)@,
            final(self).spec_capacity() == spec_reserve_capacity(size_of::<T>(), old(self).spec_capacity(), (old(self)@.len() + additional) as nat),
    {
        let capacity = self.capacity;
        let total_required = self.data.len().saturating_add(additional);
        if total_required <= capacity {
            return;
        }
        let mut new_capacity = next_capacity::<T>(capacity);
        while new_capacity < total_required
            invariant
                total_required <= usize::MAX / 2,
                spec_grow_to(size_of::<T>(), new_capacity as nat, total_required as nat)
                    == spec_grow_to(size_of::<T>(), spec_next_capacity(size_of::<T>(), capacity as nat), total_required as nat),
            decreases (if new_capacity >= total_required { 0 } else { total_required - new_capacity }),
        {
            new_capacity = next_capacity::<T>(new_capacity);
        }
        proof {
            lemma_grow_to_bounds(size_of::<T>(), new_capacity as nat, total_required as nat);
        }
        self.grow(new_capacity);
    }

    /// Same as [Vector::try_reserve].
    pub fn reserve(&mut self, additional: usize)
        requires
            old(self).wf(),
            old(self)@.len() + additional <= usize::MAX / 2,
            old(self).spec_capacity() <= usize::MAX / 2,
        ensures
            final(self).wf(),
            final(self)@ == old(self)@,
            final(self).spec_capacity() == spec_reserve_capacity(size_of::<T>(), old(self).spec_capacity(), (old(self)@.len() + additional) as nat),
    {
        self.try_reserve(additional)
    }

    /// Makes the capacity exactly `len + additional` unless it already holds
    /// that many elements.
    pub fn reserve_exact(&mut self, additional: usize)
        requires
            old(self).wf(),
            old(self)@.len() + additional <= usize::MAX,
        ensures
            final(self).wf(),
            final(self)@ == old(self)@,
            final(self).spec_capacity() == (if old(self).spec_capacity() >= old(self)@.len() + additional {
                old(self).spec_capacity()
            } else {
                (old(self)@.len() + additional) as nat
            }),
    {
        let capacity = self.capacity;
        let total_required = self.data.len() + additional;
        if capacity >= total_required {
            return;
        }
        self.grow(total_required);
    }

    /// Appends `value`, first growing the storage to [next_capacity] when it is full.
    pub fn push(&mut self, value: T)
        requires
            old(self).wf(),
            old(self).spec_capacity() <= usize::MAX / 2,
        ensures
            final(self).wf(),
            final(self)@ == old(self)@.push(value),
            final(self).spec_capacity() == (if old(self)@.len() == old(self).spec_capacity() {
                spec_next_capacity(size_of::<T>(), old(self).spec_capacity())
            } else {
                old(self).spec_capacity()
            }),
    {
        let len = self.data.len();
        let cap = self.capacity;
        if len == cap {
            self.grow(next_capacity::<T>(cap));
        }
        self.data.push(value);
    }

    /// Removes the last element and returns it, or `None` when empty.
    pub fn pop(&mut self) -> (r: Option<T>)
        requires
            old(self).wf(),
        ensures
            final(self).wf(),
            final(self).spec_capacity() == old(self).spec_capacity(),
            old(self)@.len() == 0 ==> r is None && final(self)@ == old(self)@,
            old(self)@.len() > 0 ==> r == Some(old(self)@.last()) && final(self)@ == old(self)@.drop_last(),
    {
        self.data.pop()
    }

    /// Removes element `index` and returns it; the last element takes its place.
    pub fn swap_remove(&mut self, index: usize) -> (r: T)
        requires
            old(self).wf(),
            index < old(self)@.len(),
        ensures
            final(self).wf(),
            final(self).spec_capacity() == old(self).spec_capacity(),
            r == old(self)@[index as int],
            final(self)@ == old(self)@.update(index as int, old(self)@.last()).drop_last(),
    {
        self.data.swap_remove(index)
    }

    /// Removes element `index` and returns it; the elements after it move
    /// down by one.
    pub fn remove(&mut self, index: usize) -> (r: T)
        requires
            old(self).wf(),
            index < old(self)@.len(),
        ensures
            final(self).wf(),
            final(self).spec_capacity() == old(self).spec_capacity(),
            r == old(self)@[index as int],
            final(self)@ == old(self)@.remove(index as int),
    {
        self.data.remove(index)
    }

    /// Inserts `element` at `index`, moving the later elements up by one; a
    /// full storage first makes room for one more element.
    pub fn insert(&mut self, index: usize, element: T)
        requires
            old(self).wf(),
            index <= old(self)@.len(),
            old(self)@.len() + 1 <= usize::MAX / 2,
            old(self).spec_capacity() <= usize::MAX / 2,
        ensures
            final(self).wf(),
            final(self)@ == old(self)@.insert(index as int, element),
            final(self).spec_capacity() == (if old(self)@.len() == old(self).spec_capacity() {
                spec_reserve_capacity(size_of::<T>(), old(self).spec_capacity(), (old(self)@.len() + 1) as nat)
            } else {
                old(self).spec_capacity()
            }),
    {
        let len = self.data.len();
        if len == self.capacity {
            self.reserve(1);
            proof {
                let es = size_of::<T>();
                lemma_grow_to_bounds(es, spec_next_capacity(es, old(self).spec_capacity()), (len + 1) as nat);
            }
        }
        self.data.insert(index, element);
    }

    /// Keeps the first `len` elements; no effect when there are not more.
    pub fn truncate(&mut self, len: usize)
        requires
            old(self).wf(),
        ensures
            final(self).wf(),
            final(self).spec_capacity() == old(self).spec_capacity(),
            final(self)@ == (if len >= old(self)@.len() {
                old(self)@
            } else {
                old(self)@.take(len as int)
            }),
    {
        if len >= self.data.len() {
            return;
        }
        self.data.truncate(len);
    }

    /// Removes every element; the capacity stays.
    pub fn clear(&mut self)
        requires
            old(self).wf(),
        ensures
            final(self).wf(),
            final(self).spec_capacity() == old(self).spec_capacity(),
            final(self)@ == Seq::<T>::empty(),
    {
        self.truncate(0);
        proof {
            assert(self@ =~= Seq::<T>::empty());
        }
    }

    /// Makes the capacity equal to the length.
    pub fn shrink_to_fit(&mut self)
        requires
            old(self).wf(),
        ensures
            final(self).wf(),
            final(self)@ == old(self)@,
            final(self).spec_capacity() == old(self)@.len(),
    {
        let len = self.data.len();
        if len == self.capacity {
            return;
        }
        self.grow(len);
    }

    /// Lowers the capacity to `min_capacity`, or to the length when that is
    /// larger.
    pub fn shrink_to(&mut self, min_capacity: usize)
        requires
            old(self).wf(),
            min_capacity < old(self)@.len() || old(self).spec_capacity() >= min_capacity,
        ensures
            final(self).wf(),
            final(self)@ == old(self)@,
            final(self).spec_capacity() == (if min_capacity < old(self)@.len() {
                old(self)@.len()
            } else {
                min_capacity as nat
            }),
    {
        let len = self.data.len();
        let capacity = self.capacity;
        if min_capacity < len {
            self.shrink_to_fit();
            return;
        }
        if capacity == min_capacity {
            return;
        }
        self.grow(min_capacity);
    }

    /// Moves every element of `other` to the end of `self`; `other` becomes
    /// empty and keeps its capacity.
    pub fn append(&mut self, other: &mut Vector<T>)
        requires
            old(self).wf(),
            old(other).wf(),
            old(self)@.len() + old(other)@.len() <= usize::MAX / 2,
            old(self).spec_capacity() <= usize::MAX / 2,
        ensures
            final(self).wf(),
            final(other).wf(),
            final(self)@ == old(self)@ + old(other)@,
            final(other)@ == Seq::<T>::empty(),
            final(other).spec_capacity() == old(other).spec_capacity(),
            final(self).spec_capacity() == (if old(other)@.len() == 0 {
                old(self).spec_capacity()
            } else {
                spec_reserve_capacity(size_of::<T>(), old(self).spec_capacity(), (old(self)@.len() + old(other)@.len()) as nat)
            }),
    {
        if other.data.len() == 0 {
            proof {
                assert(old(self)@ + old(other)@ =~= old(self)@);
            }
            return;
        }
        let other_len = other.data.len();
        self.reserve(other_len);
        proof {
            let es = size_of::<T>();
            let total = (old(self)@.len() + other_len) as nat;
            if total > old(self).spec_capacity() {
                lemma_grow_to_bounds(es, spec_next_capacity(es, old(self).spec_capacity()), total);
            }
        }
        self.data.append(&mut other.data);
    }

    /// Splits off the elements from `at` on into a new vector; both vectors
    /// end with the original capacity.
    pub fn split_off(&mut self, at: usize) -> (other: Self)
        requires
            old(self).wf(),
            at <= old(self)@.len(),
        ensures
            final(self).wf(),
            other.wf(),
            final(self)@ == old(self)@.take(at as int),
            other@ == old(self)@.skip(at as int),
            final(self).spec_capacity() == old(self).spec_capacity(),
            other.spec_capacity() == old(self).spec_capacity(),
    {
        let len = self.data.len();
        if len == 0 {
            let other = if self.capacity > 0 {
                Self::with_capacity(self.capacity)
            } else {
                Self::new()
            };
            proof {
                assert(old(self)@.take(at as int) =~= old(self)@);
                assert(old(self)@.skip(at as int) =~= Seq::<T>::empty());
            }
            return other;
        }
        if at == 0 {
            let orig_cap = self.capacity;
            let mut other = Self::new();
            std::mem::swap(&mut other, self);
            self.reserve_exact(orig_cap);
            proof {
                assert(old(self)@.take(0) =~= Seq::<T>::empty());
                assert(old(self)@.skip(0) =~= old(self)@);
            }
            return other;
        }
        let mut other = Self::with_capacity(self.capacity);
        let tail = self.data.split_off(at);
        other.data = tail;
        other
    }
}

/// `s` with every element dropped that `same` relates to the last element kept
/// before it; the first element is always kept.
pub open spec fn dedup_spec<T>(s: Seq<T>, same: spec_fn(T, T) -> bool) -> Seq<T>
    decreases s.len(),
{
    if s.len() <= 1 {
        s
    } else {
        let d = dedup_spec(s.drop_last(), same);
        if same(s.last(), d.last()) {
            d
        } else {
            d.push(s.last())
        }
    }
}

/// In a deduplication by a closure, the value of the last kept element once
/// element `j` has been handled. `trace[j]` holds, for the call on element
/// `j > 0`, the element after the call, the last kept element before it and
/// the last kept element after it; element 0 is never shown to the closure.
pub open spec fn last_kept_value<T>(first: T, keep: Seq<bool>, trace: Seq<(T, T, T)>, j: int) -> T {
    if j == 0 {
        first
    } else if keep[j] {
        trace[j].0
    } else {
        trace[j].2
    }
}

/// In a deduplication by a closure over `n` elements, the final value of
/// kept element `j`: what the last call that showed it to the closure left.
pub open spec fn settled_value<T>(first: T, keep: Seq<bool>, trace: Seq<(T, T, T)>, n: int, j: int) -> T
    decreases n - j,
{
    if j + 1 >= n {
        last_kept_value(first, keep, trace, j)
    } else if keep[j + 1] {
        trace[j + 1].2
    } else {
        settled_value(first, keep, trace, n, j + 1)
    }
}

/// `trace` and `vals` are consistent with a deduplication of elements whose
/// first is `first`: each call was shown the last kept element as the calls
/// before it left it, and each kept element ends as the last call showing it
/// left it.
pub open spec fn dedup_trace<T>(first: T, keep: Seq<bool>, trace: Seq<(T, T, T)>, vals: Seq<T>) -> bool {
    &&& forall|i: int| 1 <= i < keep.len() ==> (#[trigger] trace[i]).1 == last_kept_value(first, keep, trace, i - 1)
    &&& forall|j: int| 0 <= j < keep.len() && #[trigger] keep[j] ==> vals[j] == settled_value(first, keep, trace, keep.len() as int, j)
}

/// The final value of an element does not depend on elements past the next
/// kept one.
proof fn lemma_settled_stable<T>(first: T, keep: Seq<bool>, trace: Seq<(T, T, T)>, n: int, n2: int, j: int, k: int)
    requires
        0 <= j < k < n <= n2,
        keep[k],
    ensures
        settled_value(first, keep, trace, n, j) == settled_value(first, keep, trace, n2, j),
    decreases k - j,
{
    if !keep[j + 1] {
        lemma_settled_stable(first, keep, trace, n, n2, j + 1, k);
    }
}

/// When the elements after `j` up to the kept element `m` are all dropped,
/// element `j` ends as the call on `m` left it.
proof fn lemma_settled_at_next<T>(first: T, keep: Seq<bool>, trace: Seq<(T, T, T)>, n: int, j: int, m: int)
    requires
        0 <= j < m < n,
        keep[m],
        forall|q: int| j < q < m ==> !#[trigger] keep[q],
    ensures
        settled_value(first, keep, trace, n, j) == trace[m].2,
    decreases m - j,
{
    if j + 1 < m {
        assert(!keep[j + 1]);
        lemma_settled_at_next(first, keep, trace, n, j + 1, m);
    }
}

/// The final value of an element reads only the flags and calls from it on.
proof fn lemma_settled_agree<T>(first: T, keep: Seq<bool>, trace: Seq<(T, T, T)>, keep2: Seq<bool>, trace2: Seq<(T, T, T)>, n: int, j: int)
    requires
        0 <= j < n,
        keep.len() >= n,
        forall|q: int| j <= q < n ==> #[trigger] keep2[q] == keep[q] && trace2[q] == trace[q],
    ensures
        settled_value(first, keep, trace, n, j) == settled_value(first, keep2, trace2, n, j),
    decreases n - j,
{
    if j + 1 < n {
        assert(keep2[j + 1] == keep[j + 1] && trace2[j + 1] == trace[j + 1]);
        lemma_settled_agree(first, keep, trace, keep2, trace2, n, j + 1);
    } else {
        assert(keep2[j] == keep[j] && trace2[j] == trace[j]);
    }
}

/// When every element after `j` is dropped, element `j` ends as the last
/// kept value after the last element.
proof fn lemma_settled_at_end<T>(first: T, keep: Seq<bool>, trace: Seq<(T, T, T)>, n: int, j: int)
    requires
        0 <= j < n,
        forall|q: int| j < q < n ==> !#[trigger] keep[q],
    ensures
        settled_value(first, keep, trace, n, j) == last_kept_value(first, keep, trace, n - 1),
    decreases n - j,
{
    if j + 1 < n {
        assert(!keep[j + 1]);
        lemma_settled_at_end(first, keep, trace, n, j + 1);
    }
}

/// Deduplication keeps a nonempty sequence nonempty and never lengthens it.
pub proof fn lemma_dedup_len<T>(s: Seq<T>, same: spec_fn(T, T) -> bool)
    ensures
        dedup_spec(s, same).len() <= s.len(),
        s.len() > 0 ==> dedup_spec(s, same).len() > 0,
    decreases s.len(),
{
    if s.len() > 1 {
        lemma_dedup_len(s.drop_last(), same);
    }
}

/// Equality as `T`'s `PartialEq` specifies it.
pub open spec fn spec_eq<T: PartialEq>() -> spec_fn(T, T) -> bool {
    |a: T, b: T| a.eq_spec(&b)
}

impl<T> Vector<T> {
    /// Removes consecutive elements that compare equal to the last element
    /// kept before them.
    pub fn dedup(&mut self) where T: PartialEq
        requires
            old(self).wf(),
        ensures
            final(self).wf(),
            final(self).spec_capacity() == old(self).spec_capacity(),
            final(self)@.len() <= old(self)@.len(),
            T::obeys_eq_spec() ==> final(self)@ == dedup_spec(old(self)@, spec_eq::<T>()),
    {
        let ghost orig = self.data@;
        if self.data.len() < 2 {
            return;
        }
        let mut rest: Vec<T> = Vec::new();
        std::mem::swap(&mut rest, &mut self.data);
        let mut kept: Vec<T> = Vec::new();
        for x in it: rest.into_iter()
            invariant
                it.seq() == orig,
                orig.len() >= 2,
                T::obeys_eq_spec() ==> kept@ == dedup_spec(orig.take(it.index() as int), spec_eq::<T>()),
                kept@.len() <= it.index(),
                it.index() > 0 ==> kept@.len() > 0,
        {
            let ghost i = it.index();
            proof {
                assert(orig.take(i as int + 1).drop_last() =~= orig.take(i as int));
                assert(orig.take(i as int + 1).last() == x);
                if i == 1 {
                    assert(orig.take(1).len() == 1);
                }
            }
            let drop_it = if kept.len() > 0 {
                x == kept[kept.len() - 1]
            } else {
                false
            };
            if !drop_it {
                kept.push(x);
            }
        }
        self.data = kept;
        proof {
            assert(orig.take(orig.len() as int) =~= orig);
        }
    }

    /// Removes consecutive elements for which `same(element, last kept)`
    /// holds; `same` may modify both. What is left is the first element and,
    /// in order, the others that `same` did not match, as `same` left them.
    pub fn dedup_by<F: FnMut(&mut T, &mut T) -> bool>(&mut self, mut same: F)
        requires
            old(self).wf(),
            forall|x: &mut T, y: &mut T| #[trigger] same.requires((x, y)),
        ensures
            final(self).wf(),
            final(self).spec_capacity() == old(self).spec_capacity(),
            final(self)@.len() <= old(self)@.len(),
            old(self)@.len() > 0 ==> final(self)@.len() > 0,
            old(self)@.len() > 0 ==> exists|keep: Seq<bool>, vals: Seq<T>, trace: Seq<(T, T, T)>, refs: Seq<(&mut T, &mut T)>|
                #![trigger filter_by(vals, keep), trace.len(), refs.len()]
                keep.len() == old(self)@.len() && vals.len() == old(self)@.len()
                && trace.len() == old(self)@.len() && refs.len() + 1 == old(self)@.len()
                && keep[0]
                && (forall|k: int| #![trigger refs[k]] 0 <= k < refs.len() ==> {
                    &&& *refs[k].0 == old(self)@[k + 1]
                    &&& *final(refs[k].0) == trace[k + 1].0
                    &&& *refs[k].1 == trace[k + 1].1
                    &&& *final(refs[k].1) == trace[k + 1].2
                    &&& same.ensures((refs[k].0, refs[k].1), !keep[k + 1])
                })
                && dedup_trace(old(self)@[0], keep, trace, vals)
                && final(self)@ == filter_by(vals, keep),
            old(self)@.len() == 0 ==> final(self)@ == old(self)@,
    {
        let ghost orig = self.data@;
        if self.data.len() < 2 {
            proof {
                if orig.len() == 1 {
                    let keep = seq![true];
                    let trace = seq![(orig[0], orig[0], orig[0])];
                    let refs: Seq<(&mut T, &mut T)> = Seq::empty();
                    assert(refs.len() + 1 == orig.len());
                    assert(trace.len() == 1);
                    lemma_filter_by_all(orig, keep);
                    assert(filter_by(orig, keep) == self@);
                    assert(dedup_trace(orig[0], keep, trace, orig));
                }
            }
            return;
        }
        let mut rest: Vec<T> = Vec::new();
        std::mem::swap(&mut rest, &mut self.data);
        let mut kept: Vec<T> = Vec::new();
        let ghost mut keep: Seq<bool> = Seq::empty();
        let ghost mut vals: Seq<T> = Seq::empty();
        let ghost mut trace: Seq<(T, T, T)> = Seq::empty();
        let ghost mut last_kept: int = 0;
        let ghost first = orig[0];
        let ghost f0 = same;
        let ghost no_refs: Seq<(&mut T, &mut T)> = Seq::empty();
        assert(no_refs.len() == 0);
        for x in it: rest.into_iter()
            invariant
                it.seq() == orig,
                orig.len() >= 2,
                first == orig[0],
                same == f0,
                keep.len() == it.index(),
                vals.len() == it.index(),
                trace.len() == it.index(),
                kept@ == filter_by(vals, keep),
                it.index() > 0 ==> keep[0] && 0 <= last_kept < it.index() && keep[last_kept],
                it.index() > 0 ==> forall|q: int| last_kept < q < it.index() ==> !#[trigger] keep[q],
                it.index() > 0 ==> vals[last_kept] == last_kept_value(first, keep, trace, it.index() - 1),
                forall|j: int| 0 <= j < last_kept && #[trigger] keep[j] ==> vals[j] == settled_value(first, keep, trace, it.index() as int, j),
                forall|i: int| 1 <= i < keep.len() ==> (#[trigger] trace[i]).1 == last_kept_value(first, keep, trace, i - 1),
                kept@.len() <= it.index(),
                it.index() > 0 ==> kept@.len() > 0,
                forall|x: &mut T, y: &mut T| #[trigger] same.requires((x, y)),
                exists|refs: Seq<(&mut T, &mut T)>| #![trigger refs.len()] refs.len() == (if keep.len() > 0 { keep.len() - 1 } else { 0 })
                    && forall|k: int| #![trigger refs[k]] 0 <= k < refs.len() ==> {
                        &&& *refs[k].0 == orig[k + 1]
                        &&& *final(refs[k].0) == trace[k + 1].0
                        &&& *refs[k].1 == trace[k + 1].1
                        &&& *final(refs[k].1) == trace[k + 1].2
                        &&& same.ensures((refs[k].0, refs[k].1), !keep[k + 1])
                    },
        {
            let ghost i = keep.len() as int;
            let ghost old_keep = keep;
            let ghost old_vals = vals;
            let ghost old_trace = trace;
            let ghost old_lk = last_kept;
            let mut cur = x;
            if kept.len() == 0 {
                kept.push(cur);
                proof {
                    let refs0 = choose|refs: Seq<(&mut T, &mut T)>| #![trigger refs.len()] refs.len() == (if old_keep.len() > 0 { old_keep.len() - 1 } else { 0 })
                        && forall|k: int| #![trigger refs[k]] 0 <= k < refs.len() ==> {
                            &&& *refs[k].0 == orig[k + 1]
                            &&& *final(refs[k].0) == old_trace[k + 1].0
                            &&& *refs[k].1 == old_trace[k + 1].1
                            &&& *final(refs[k].1) == old_trace[k + 1].2
                            &&& same.ensures((refs[k].0, refs[k].1), !old_keep[k + 1])
                        };
                    keep = keep.push(true);
                    vals = vals.push(cur);
                    trace = trace.push((cur, cur, cur));
                    last_kept = i;
                    lemma_filter_by_len(old_vals, old_keep);
                    assert(i == 0);
                    assert(vals.drop_last() =~= old_vals);
                    assert(filter_by(old_vals, keep) =~= Seq::<T>::empty());
                    assert(filter_by(vals, keep) =~= seq![cur]);
                    assert(kept@ =~= seq![cur]);
                    assert(refs0.len() == 0);
                }
            } else {
                let mut last = kept.pop().unwrap();
                let ghost cur0 = cur;
                let ghost last0 = last;
                let matches = same(&mut cur, &mut last);
                proof {
                    assert(exists|r1: &mut T, r2: &mut T| *r1 == cur0 && *final(r1) == cur && *r2 == last0
                        && *final(r2) == last && same.ensures((r1, r2), matches));
                }
                kept.push(last);
                proof {
                    let (r1, r2) = choose|r1: &mut T, r2: &mut T| *r1 == cur0 && *final(r1) == cur && *r2 == last0
                        && *final(r2) == last && same.ensures((r1, r2), matches);
                    let refs0 = choose|refs: Seq<(&mut T, &mut T)>| #![trigger refs.len()] refs.len() == (if old_keep.len() > 0 { old_keep.len() - 1 } else { 0 })
                        && forall|k: int| #![trigger refs[k]] 0 <= k < refs.len() ==> {
                            &&& *refs[k].0 == orig[k + 1]
                            &&& *final(refs[k].0) == old_trace[k + 1].0
                            &&& *refs[k].1 == old_trace[k + 1].1
                            &&& *final(refs[k].1) == old_trace[k + 1].2
                            &&& same.ensures((refs[k].0, refs[k].1), !old_keep[k + 1])
                        };
                    lemma_filter_by_replace_last(old_vals, old_keep, last_kept, last);
                    lemma_filter_by_replace_last(old_vals, old_keep, last_kept, old_vals[old_lk]);
                    assert(old_vals.update(old_lk, old_vals[old_lk]) =~= old_vals);
                    assert(last0 == old_vals[old_lk]);
                    keep = keep.push(!matches);
                    trace = trace.push((cur, last0, last));
                    vals = old_vals.update(last_kept, last).push(cur);
                    let refs1 = refs0.push((r1, r2));
                    assert forall|k: int| #![trigger refs1[k]] 0 <= k < refs1.len() implies {
                        &&& *refs1[k].0 == orig[k + 1]
                        &&& *final(refs1[k].0) == trace[k + 1].0
                        &&& *refs1[k].1 == trace[k + 1].1
                        &&& *final(refs1[k].1) == trace[k + 1].2
                        &&& same.ensures((refs1[k].0, refs1[k].1), !keep[k + 1])
                    } by {
                        if k + 1 < i {
                            assert(refs1[k] == refs0[k]);
                            assert(trace[k + 1] == old_trace[k + 1] && keep[k + 1] == old_keep[k + 1]);
                        } else {
                            assert(cur0 == orig[i]);
                        }
                    }
                    assert(refs1.len() == keep.len() - 1);
                    assert(vals.drop_last() =~= old_vals.update(last_kept, last));
                    lemma_filter_by_prefix(old_vals.update(last_kept, last), keep);
                    assert(keep.take(i) =~= old_keep);
                    lemma_filter_by_len(old_vals, old_keep);
                    assert(filter_by(vals.drop_last(), keep) == filter_by(old_vals, old_keep).drop_last().push(last));
                    assert(kept@ == filter_by(old_vals, old_keep).drop_last().push(last));
                    assert forall|k: int| 1 <= k < keep.len() implies (#[trigger] trace[k]).1 == last_kept_value(first, keep, trace, k - 1) by {
                        if k < i {
                            assert(trace[k] == old_trace[k]);
                        }
                        assert(last_kept_value(first, keep, trace, k - 1) == last_kept_value(first, old_keep, old_trace, k - 1));
                    }
                    assert forall|j: int| 0 <= j < old_lk && #[trigger] keep[j] implies vals[j] == settled_value(first, keep, trace, i + 1, j) by {
                        assert(keep[j] == old_keep[j] && vals[j] == old_vals[j]);
                        lemma_settled_stable(first, keep, trace, i, i + 1, j, old_lk);
                        lemma_settled_stable(first, old_keep, old_trace, i, i, j, old_lk);
                        assert forall|q: int| j <= q < i implies #[trigger] keep[q] == old_keep[q] && trace[q] == old_trace[q] by {}
                        lemma_settled_agree(first, old_keep, old_trace, keep, trace, i, j);
                    }
                    if !matches {
                        last_kept = i;
                        lemma_settled_at_next(first, keep, trace, i + 1, old_lk, i);
                    }
                }
                if !matches {
                    kept.push(cur);
                }
                proof {
                    assert(vals.last() == cur);
                    assert(keep[i] == !matches);
                    assert(filter_by(vals, keep) == (if !matches { filter_by(vals.drop_last(), keep).push(cur) } else { filter_by(vals.drop_last(), keep) }));
                }
            }
        }
        self.data = kept;
        proof {
            let n = orig.len() as int;
            assert(keep.len() == n);
            lemma_settled_at_end(first, keep, trace, n, last_kept);
            assert forall|j: int| 0 <= j < keep.len() && #[trigger] keep[j] implies vals[j] == settled_value(first, keep, trace, keep.len() as int, j) by {
                if j > last_kept {
                    assert(!keep[j]);
                }
            }
            assert(dedup_trace(orig[0], keep, trace, vals));
            let refs0 = choose|refs: Seq<(&mut T, &mut T)>| #![trigger refs.len()] refs.len() == (if keep.len() > 0 { keep.len() - 1 } else { 0 })
                && forall|k: int| #![trigger refs[k]] 0 <= k < refs.len() ==> {
                    &&& *refs[k].0 == orig[k + 1]
                    &&& *final(refs[k].0) == trace[k + 1].0
                    &&& *refs[k].1 == trace[k + 1].1
                    &&& *final(refs[k].1) == trace[k + 1].2
                    &&& same.ensures((refs[k].0, refs[k].1), !keep[k + 1])
                };
            assert(trace.len() == n && refs0.len() + 1 == n);
        }
    }

    /// Removes consecutive elements whose key equals the key of the last
    /// element kept; `key` may modify the elements it reads. What is left is
    /// the first element and, in order, the others whose key differed, as
    /// `key` left them.
    pub fn dedup_by_key<K: PartialEq, F: FnMut(&mut T) -> K>(&mut self, mut key: F)
        requires
            old(self).wf(),
            forall|x: &mut T| #[trigger] key.requires((x,)),
        ensures
            final(self).wf(),
            final(self).spec_capacity() == old(self).spec_capacity(),
            final(self)@.len() <= old(self)@.len(),
            old(self)@.len() > 0 ==> final(self)@.len() > 0,
            old(self)@.len() > 0 ==> exists|keep: Seq<bool>, vals: Seq<T>, trace: Seq<(T, T, T)>, refs: Seq<(&mut T, &mut T)>, keys: Seq<(K, K)>|
                #![trigger filter_by(vals, keep), trace.len(), refs.len(), keys.len()]
                keep.len() == old(self)@.len() && vals.len() == old(self)@.len()
                && trace.len() == old(self)@.len() && refs.len() + 1 == old(self)@.len() && keys.len() == refs.len()
                && keep[0]
                && (forall|k: int| #![trigger refs[k]] 0 <= k < refs.len() ==> {
                    &&& *refs[k].0 == old(self)@[k + 1]
                    &&& *final(refs[k].0) == trace[k + 1].0
                    &&& *refs[k].1 == trace[k + 1].1
                    &&& *final(refs[k].1) == trace[k + 1].2
                    &&& key.ensures((refs[k].0,), keys[k].0)
                    &&& key.ensures((refs[k].1,), keys[k].1)
                    &&& K::obeys_eq_spec() ==> (!keep[k + 1] == keys[k].0.eq_spec(&keys[k].1))
                })
                && dedup_trace(old(self)@[0], keep, trace, vals)
                && final(self)@ == filter_by(vals, keep),
            old(self)@.len() == 0 ==> final(self)@ == old(self)@,
    {
        let ghost orig = self.data@;
        if self.data.len() < 2 {
            proof {
                if orig.len() == 1 {
                    let keep = seq![true];
                    let trace = seq![(orig[0], orig[0], orig[0])];
                    let refs: Seq<(&mut T, &mut T)> = Seq::empty();
                    let keys: Seq<(K, K)> = Seq::empty();
                    assert(refs.len() + 1 == orig.len() && keys.len() == 0);
                    assert(trace.len() == 1);
                    lemma_filter_by_all(orig, keep);
                    assert(filter_by(orig, keep) == self@);
                    assert(dedup_trace(orig[0], keep, trace, orig));
                }
            }
            return;
        }
        let mut rest: Vec<T> = Vec::new();
        std::mem::swap(&mut rest, &mut self.data);
        let mut kept: Vec<T> = Vec::new();
        let ghost mut keep: Seq<bool> = Seq::empty();
        let ghost mut vals: Seq<T> = Seq::empty();
        let ghost mut trace: Seq<(T, T, T)> = Seq::empty();
        let ghost mut last_kept: int = 0;
        let ghost first = orig[0];
        let ghost f0 = key;
        let ghost no_refs: Seq<(&mut T, &mut T)> = Seq::empty();
        let ghost no_keys: Seq<(K, K)> = Seq::empty();
        assert(no_refs.len() == 0 && no_keys.len() == 0);
        for x in it: rest.into_iter()
            invariant
                it.seq() == orig,
                orig.len() >= 2,
                first == orig[0],
                key == f0,
                keep.len() == it.index(),
                vals.len() == it.index(),
                trace.len() == it.index(),
                kept@ == filter_by(vals, keep),
                it.index() > 0 ==> keep[0] && 0 <= last_kept < it.index() && keep[last_kept],
                it.index() > 0 ==> forall|q: int| last_kept < q < it.index() ==> !#[trigger] keep[q],
                it.index() > 0 ==> vals[last_kept] == last_kept_value(first, keep, trace, it.index() - 1),
                forall|j: int| 0 <= j < last_kept && #[trigger] keep[j] ==> vals[j] == settled_value(first, keep, trace, it.index() as int, j),
                forall|i: int| 1 <= i < keep.len() ==> (#[trigger] trace[i]).1 == last_kept_value(first, keep, trace, i - 1),
                kept@.len() <= it.index(),
                it.index() > 0 ==> kept@.len() > 0,
                forall|x: &mut T| #[trigger] key.requires((x,)),
                exists|refs: Seq<(&mut T, &mut T)>, keys: Seq<(K, K)>| #![trigger refs.len(), keys.len()] keys.len() == refs.len()
                    && refs.len() == (if keep.len() > 0 { keep.len() - 1 } else { 0 })
                    && forall|k: int| #![trigger refs[k]] 0 <= k < refs.len() ==> {
                        &&& *refs[k].0 == orig[k + 1]
                        &&& *final(refs[k].0) == trace[k + 1].0
                        &&& *refs[k].1 == trace[k + 1].1
                        &&& *final(refs[k].1) == trace[k + 1].2
                        &&& key.ensures((refs[k].0,), keys[k].0)
                        &&& key.ensures((refs[k].1,), keys[k].1)
                        &&& K::obeys_eq_spec() ==> (!keep[k + 1] == keys[k].0.eq_spec(&keys[k].1))
                    },
        {
            let ghost i = keep.len() as int;
            let ghost old_keep = keep;
            let ghost old_vals = vals;
            let ghost old_trace = trace;
            let ghost old_lk = last_kept;
            let mut cur = x;
            if kept.len() == 0 {
                kept.push(cur);
                proof {
                    let (refs0, keys0) = choose|refs: Seq<(&mut T, &mut T)>, keys: Seq<(K, K)>| #![trigger refs.len(), keys.len()] keys.len() == refs.len()
                        && refs.len() == (if old_keep.len() > 0 { old_keep.len() - 1 } else { 0 })
                        && forall|k: int| #![trigger refs[k]] 0 <= k < refs.len() ==> {
                            &&& *refs[k].0 == orig[k + 1]
                            &&& *final(refs[k].0) == old_trace[k + 1].0
                            &&& *refs[k].1 == old_trace[k + 1].1
                            &&& *final(refs[k].1) == old_trace[k + 1].2
                            &&& key.ensures((refs[k].0,), keys[k].0)
                            &&& key.ensures((refs[k].1,), keys[k].1)
                            &&& K::obeys_eq_spec() ==> (!old_keep[k + 1] == keys[k].0.eq_spec(&keys[k].1))
                        };
                    keep = keep.push(true);
                    vals = vals.push(cur);
                    trace = trace.push((cur, cur, cur));
                    last_kept = i;
                    lemma_filter_by_len(old_vals, old_keep);
                    assert(i == 0);
                    assert(vals.drop_last() =~= old_vals);
                    assert(filter_by(old_vals, keep) =~= Seq::<T>::empty());
                    assert(filter_by(vals, keep) =~= seq![cur]);
                    assert(kept@ =~= seq![cur]);
                    assert(refs0.len() == 0 && keys0.len() == 0);
                }
            } else {
                let mut last = kept.pop().unwrap();
                let ghost cur0 = cur;
                let ghost last0 = last;
                let ka = key(&mut cur);
                let kb = key(&mut last);
                let matches = ka == kb;
                proof {
                    assert(exists|r1: &mut T| *r1 == cur0 && *final(r1) == cur && key.ensures((r1,), ka));
                    assert(exists|r2: &mut T| *r2 == last0 && *final(r2) == last && key.ensures((r2,), kb));
                }
                kept.push(last);
                proof {
                    let r1 = choose|r1: &mut T| *r1 == cur0 && *final(r1) == cur && key.ensures((r1,), ka);
                    let r2 = choose|r2: &mut T| *r2 == last0 && *final(r2) == last && key.ensures((r2,), kb);
                    let (refs0, keys0) = choose|refs: Seq<(&mut T, &mut T)>, keys: Seq<(K, K)>| #![trigger refs.len(), keys.len()] keys.len() == refs.len()
                        && refs.len() == (if old_keep.len() > 0 { old_keep.len() - 1 } else { 0 })
                        && forall|k: int| #![trigger refs[k]] 0 <= k < refs.len() ==> {
                            &&& *refs[k].0 == orig[k + 1]
                            &&& *final(refs[k].0) == old_trace[k + 1].0
                            &&& *refs[k].1 == old_trace[k + 1].1
                            &&& *final(refs[k].1) == old_trace[k + 1].2
                            &&& key.ensures((refs[k].0,), keys[k].0)
                            &&& key.ensures((refs[k].1,), keys[k].1)
                            &&& K::obeys_eq_spec() ==> (!old_keep[k + 1] == keys[k].0.eq_spec(&keys[k].1))
                        };
                    lemma_filter_by_replace_last(old_vals, old_keep, last_kept, last);
                    lemma_filter_by_replace_last(old_vals, old_keep, last_kept, old_vals[old_lk]);
                    assert(old_vals.update(old_lk, old_vals[old_lk]) =~= old_vals);
                    assert(last0 == old_vals[old_lk]);
                    keep = keep.push(!matches);
                    trace = trace.push((cur, last0, last));
                    vals = old_vals.update(last_kept, last).push(cur);
                    let refs1 = refs0.push((r1, r2));
                    let keys1 = keys0.push((ka, kb));
                    assert forall|k: int| #![trigger refs1[k]] 0 <= k < refs1.len() implies {
                        &&& *refs1[k].0 == orig[k + 1]
                        &&& *final(refs1[k].0) == trace[k + 1].0
                        &&& *refs1[k].1 == trace[k + 1].1
                        &&& *final(refs1[k].1) == trace[k + 1].2
                        &&& key.ensures((refs1[k].0,), keys1[k].0)
                        &&& key.ensures((refs1[k].1,), keys1[k].1)
                        &&& K::obeys_eq_spec() ==> (!keep[k + 1] == keys1[k].0.eq_spec(&keys1[k].1))
                    } by {
                        if k + 1 < i {
                            assert(refs1[k] == refs0[k] && keys1[k] == keys0[k]);
                            assert(trace[k + 1] == old_trace[k + 1] && keep[k + 1] == old_keep[k + 1]);
                        } else {
                            assert(cur0 == orig[i]);
                        }
                    }
                    assert(refs1.len() == keep.len() - 1 && keys1.len() == refs1.len());
                    assert(vals.drop_last() =~= old_vals.update(last_kept, last));
                    lemma_filter_by_prefix(old_vals.update(last_kept, last), keep);
                    assert(keep.take(i) =~= old_keep);
                    lemma_filter_by_len(old_vals, old_keep);
                    assert(filter_by(vals.drop_last(), keep) == filter_by(old_vals, old_keep).drop_last().push(last));
                    assert(kept@ == filter_by(old_vals, old_keep).drop_last().push(last));
                    assert forall|k: int| 1 <= k < keep.len() implies (#[trigger] trace[k]).1 == last_kept_value(first, keep, trace, k - 1) by {
                        if k < i {
                            assert(trace[k] == old_trace[k]);
                        }
                        assert(last_kept_value(first, keep, trace, k - 1) == last_kept_value(first, old_keep, old_trace, k - 1));
                    }
                    assert forall|j: int| 0 <= j < old_lk && #[trigger] keep[j] implies vals[j] == settled_value(first, keep, trace, i + 1, j) by {
                        assert(keep[j] == old_keep[j] && vals[j] == old_vals[j]);
                        lemma_settled_stable(first, keep, trace, i, i + 1, j, old_lk);
                        lemma_settled_stable(first, old_keep, old_trace, i, i, j, old_lk);
                        assert forall|q: int| j <= q < i implies #[trigger] keep[q] == old_keep[q] && trace[q] == old_trace[q] by {}
                        lemma_settled_agree(first, old_keep, old_trace, keep, trace, i, j);
                    }
                    if !matches {
                        last_kept = i;
                        lemma_settled_at_next(first, keep, trace, i + 1, old_lk, i);
                    }
                }
                if !matches {
                    kept.push(cur);
                }
                proof {
                    assert(vals.last() == cur);
                    assert(keep[i] == !matches);
                    assert(filter_by(vals, keep) == (if !matches { filter_by(vals.drop_last(), keep).push(cur) } else { filter_by(vals.drop_last(), keep) }));
                }
            }
        }
        self.data = kept;
        proof {
            let n = orig.len() as int;
            assert(keep.len() == n);
            lemma_settled_at_end(first, keep, trace, n, last_kept);
            assert forall|j: int| 0 <= j < keep.len() && #[trigger] keep[j] implies vals[j] == settled_value(first, keep, trace, keep.len() as int, j) by {
                if j > last_kept {
                    assert(!keep[j]);
                }
            }
            assert(dedup_trace(orig[0], keep, trace, vals));
            let (refs0, keys0) = choose|refs: Seq<(&mut T, &mut T)>, keys: Seq<(K, K)>| #![trigger refs.len(), keys.len()] keys.len() == refs.len()
                        && refs.len() == (if keep.len() > 0 { keep.len() - 1 } else { 0 })
                && forall|k: int| #![trigger refs[k]] 0 <= k < refs.len() ==> {
                    &&& *refs[k].0 == orig[k + 1]
                    &&& *final(refs[k].0) == trace[k + 1].0
                    &&& *refs[k].1 == trace[k + 1].1
                    &&& *final(refs[k].1) == trace[k + 1].2
                    &&& key.ensures((refs[k].0,), keys[k].0)
                    &&& key.ensures((refs[k].1,), keys[k].1)
                    &&& K::obeys_eq_spec() ==> (!keep[k + 1] == keys[k].0.eq_spec(&keys[k].1))
                };
            assert(trace.len() == n && refs0.len() + 1 == n && keys0.len() == refs0.len());
        }
    }

}

impl<T> Vector<T> {
    /// Mutable access to element `index`.
    pub fn at_mut(&mut self, index: usize) -> (r: &mut T)
        requires
            old(self).wf(),
            index < old(self)@.len(),
        ensures
            *r == old(self)@[index as int],
            final(self)@ == old(self)@.update(index as int, *final(r)),
            final(self).spec_capacity() == old(self).spec_capacity(),
            final(self).wf(),
    {
        &mut self.data[index]
    }

    /// Resizes to `new_len` elements: longer vectors are cut, shorter ones are
    /// filled with clones of `value` after room is reserved.
    pub fn resize(&mut self, new_len: usize, value: T) where T: Clone
        requires
            old(self).wf(),
            new_len <= usize::MAX / 2,
            old(self).spec_capacity() <= usize::MAX / 2,
        ensures
            final(self).wf(),
            final(self)@.len() == new_len,
            new_len <= old(self)@.len() ==> final(self)@ == old(self)@.take(new_len as int),
            new_len <= old(self)@.len() ==> final(self).spec_capacity() == old(self).spec_capacity(),
            new_len > old(self)@.len() ==> {
                &&& final(self)@.take(old(self)@.len() as int) == old(self)@
                &&& forall|i: int| old(self)@.len() <= i < new_len ==> cloned(value, #[trigger] final(self)@[i])
                &&& final(self).spec_capacity() == spec_reserve_capacity(size_of::<T>(), old(self).spec_capacity(), new_len as nat)
            },
    {
        let len = self.data.len();
        if new_len == len {
            proof {
                assert(old(self)@.take(new_len as int) =~= old(self)@);
            }
            return;
        }
        if new_len < len {
            self.truncate(new_len);
            return;
        }
        let num_elems = new_len - len;
        self.reserve(num_elems);
        proof {
            let es = size_of::<T>();
            if new_len > old(self).spec_capacity() {
                lemma_grow_to_bounds(es, spec_next_capacity(es, old(self).spec_capacity()), new_len as nat);
            }
        }
        let ghost cap = self.capacity;
        let mut k: usize = 0;
        while k < num_elems
            invariant
                0 <= k <= num_elems,
                num_elems == new_len - len,
                len == old(self)@.len(),
                self.data@.len() == len + k,
                self.capacity == cap,
                cap >= new_len,
                cap == spec_reserve_capacity(size_of::<T>(), old(self).spec_capacity(), new_len as nat),
                self.data@.take(len as int) == old(self)@,
                forall|i: int| len <= i < len + k ==> cloned(value, #[trigger] self.data@[i]),
            decreases num_elems - k,
        {
            let v = value.clone();
            let ghost before = self.data@;
            self.data.push(v);
            proof {
                assert(self.data@.take(len as int) =~= before.take(len as int));
                assert(self.data@[len + k] == v);
            }
            k = k + 1;
        }
    }

    /// Resizes to `new_len` elements: longer vectors are cut, shorter ones are
    /// filled with values produced by `f` after room is reserved.
    pub fn resize_with<F: FnMut() -> T>(&mut self, new_len: usize, mut f: F)
        requires
            old(self).wf(),
            new_len <= usize::MAX / 2,
            old(self).spec_capacity() <= usize::MAX / 2,
            f.requires(()),
        ensures
            final(self).wf(),
            final(self)@.len() == new_len,
            new_len <= old(self)@.len() ==> final(self)@ == old(self)@.take(new_len as int),
            new_len <= old(self)@.len() ==> final(self).spec_capacity() == old(self).spec_capacity(),
            new_len > old(self)@.len() ==> {
                &&& final(self)@.take(old(self)@.len() as int) == old(self)@
                &&& final(self).spec_capacity() == spec_reserve_capacity(size_of::<T>(), old(self).spec_capacity(), new_len as nat)
                &&& forall|i: int| old(self)@.len() <= i < new_len ==> f.ensures((), #[trigger] final(self)@[i])
            },
    {
        let len = self.data.len();
        if new_len == len {
            proof {
                assert(old(self)@.take(new_len as int) =~= old(self)@);
            }
            return;
        }
        if new_len < len {
            self.truncate(new_len);
            return;
        }
        let num_elems = new_len - len;
        self.reserve(num_elems);
        proof {
            let es = size_of::<T>();
            if new_len > old(self).spec_capacity() {
                lemma_grow_to_bounds(es, spec_next_capacity(es, old(self).spec_capacity()), new_len as nat);
            }
        }
        let ghost cap = self.capacity;
        let ghost f0 = f;
        let mut k: usize = 0;
        while k < num_elems
            invariant
                f == f0,
                forall|i: int| len <= i < len + k ==> f0.ensures((), #[trigger] self.data@[i]),
                0 <= k <= num_elems,
                num_elems == new_len - len,
                len == old(self)@.len(),
                self.data@.len() == len + k,
                self.capacity == cap,
                cap >= new_len,
                cap == spec_reserve_capacity(size_of::<T>(), old(self).spec_capacity(), new_len as nat),
                self.data@.take(len as int) == old(self)@,
                f.requires(()),
            decreases num_elems - k,
        {
            let v = f();
            let ghost before = self.data@;
            self.data.push(v);
            proof {
                assert(forall|i: int| len <= i < len + k ==> before[i] == self.data@[i]);
                assert(self.data@.take(len as int) =~= before.take(len as int));
                assert(self.data@[len + k] == v);
            }
            k = k + 1;
        }
    }

    /// Appends clones of the elements of `slice`, after reserving room for them.
    pub fn extend_from_slice(&mut self, slice: &[T]) where T: Clone
        requires
            old(self).wf(),
            old(self)@.len() + slice@.len() <= usize::MAX / 2,
            old(self).spec_capacity() <= usize::MAX / 2,
        ensures
            final(self).wf(),
            final(self)@.len() == old(self)@.len() + slice@.len(),
            final(self)@.take(old(self)@.len() as int) == old(self)@,
            forall|i: int| 0 <= i < slice@.len() ==> cloned(slice@[i], #[trigger] final(self)@[old(self)@.len() + i]),
            final(self).spec_capacity() == spec_reserve_capacity(size_of::<T>(), old(self).spec_capacity(), (old(self)@.len() + slice@.len()) as nat),
    {
        let len = self.data.len();
        self.reserve(slice.len());
        proof {
            let es = size_of::<T>();
            let total = (len + slice@.len()) as nat;
            if total > old(self).spec_capacity() {
                lemma_grow_to_bounds(es, spec_next_capacity(es, old(self).spec_capacity()), total);
            }
        }
        let mut k: usize = 0;
        while k < slice.len()
            invariant
                0 <= k <= slice@.len(),
                len == old(self)@.len(),
                self.data@.len() == len + k,
                self.capacity == spec_reserve_capacity(size_of::<T>(), old(self).spec_capacity(), (old(self)@.len() + slice@.len()) as nat),
                self.capacity >= len + slice@.len(),
                self.data@.take(len as int) == old(self)@,
                forall|i: int| 0 <= i < k ==> cloned(slice@[i], #[trigger] self.data@[len + i]),
            decreases slice@.len() - k,
        {
            let v = slice[k].clone();
            let ghost before = self.data@;
            self.data.push(v);
            proof {
                assert(self.data@.take(len as int) =~= before.take(len as int));
                assert forall|i: int| 0 <= i < k + 1 implies cloned(slice@[i], #[trigger] self.data@[len + i]) by {
                    if i < k {
                        assert(self.data@[len + i] == before[len + i]);
                    }
                }
            }
            k = k + 1;
        }
    }

    /// Whether `other` has as many elements as `self` and each equals the
    /// one at its index.
    pub fn eq(&self, other: &Self) -> (r: bool) where T: PartialEq
        ensures
            T::obeys_eq_spec() ==> r == (self@.len() == other@.len()
                && forall|i: int| 0 <= i < self@.len() ==> (#[trigger] self@[i]).eq_spec(&other@[i])),
    {
        if self.data.len() != other.data.len() {
            return false;
        }
        let len = self.data.len();
        let mut i: usize = 0;
        while i < len
            invariant
                0 <= i <= len,
                len == self@.len(),
                len == other@.len(),
                T::obeys_eq_spec() ==> forall|j: int| 0 <= j < i ==> (#[trigger] self@[j]).eq_spec(&other@[j]),
            decreases len - i,
        {
            if !(self.data[i] == other.data[i]) {
                return false;
            }
            i = i + 1;
        }
        true
    }

    /// Removes and returns the first element equal to `item`, or `None`.
    pub fn remove_item(&mut self, item: &T) -> (r: Option<T>) where T: PartialEq
        requires
            old(self).wf(),
        ensures
            final(self).wf(),
            final(self).spec_capacity() == old(self).spec_capacity(),
            T::obeys_eq_spec() ==> match r {
                None => final(self)@ == old(self)@ && forall|i: int| 0 <= i < old(self)@.len() ==> !(#[trigger] old(self)@[i]).eq_spec(item),
                Some(x) => exists|i: int| 0 <= i < old(self)@.len() && x == old(self)@[i] && (#[trigger] old(self)@[i]).eq_spec(item)
                    && final(self)@ == old(self)@.remove(i)
                    && forall|j: int| 0 <= j < i ==> !(#[trigger] old(self)@[j]).eq_spec(item),
            },
    {
        let len = self.data.len();
        let mut i: usize = 0;
        while i < len
            invariant
                0 <= i <= len,
                len == self.data@.len(),
                self.data@ == old(self)@,
                self.capacity == old(self).capacity,
                old(self).wf(),
                T::obeys_eq_spec() ==> forall|j: int| 0 <= j < i ==> !(#[trigger] old(self)@[j]).eq_spec(item),
            decreases len - i,
        {
            if self.data[i] == *item {
                let x = self.data.remove(i);
                return Some(x);
            }
            i = i + 1;
        }
        None
    }
}

} // verus!

verus! {

/// Pushing a value and popping gives the value back and the vector as it was.
pub proof fn lemma_push_then_pop<T>(v: Seq<T>, x: T)
    ensures
        v.push(x).len() > 0,
        v.push(x).last() == x,
        v.push(x).drop_last() == v,
{
    assert(v.push(x).drop_last() =~= v);
}

/// Inserting a value at `i` and removing element `i` gives the value back and
/// the vector as it was.
pub proof fn lemma_insert_then_remove<T>(v: Seq<T>, i: int, x: T)
    requires
        0 <= i <= v.len(),
    ensures
        v.insert(i, x)[i] == x,
        v.insert(i, x).remove(i) == v,
{
    assert(v.insert(i, x).remove(i) =~= v);
}

/// Splitting a vector at `at` and appending the split-off tail gives the
/// vector back.
pub proof fn lemma_split_off_then_append<T>(v: Seq<T>, at: int)
    requires
        0 <= at <= v.len(),
    ensures
        v.take(at) + v.skip(at) == v,
{
    assert(v.take(at) + v.skip(at) =~= v);
}

/// Truncating keeps the first elements in order.
pub proof fn lemma_truncate_keeps_prefix<T>(v: Seq<T>, len: int, i: int)
    requires
        0 <= i < len <= v.len(),
    ensures
        v.take(len)[i] == v[i],
{
}

} // verus!
