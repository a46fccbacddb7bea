//! A chained hash map from `i32` keys, and a hash set built on it.
//!
//! Each entry keeps the hash it was inserted under; an entry lives in the
//! bucket given by its hash modulo the number of buckets. The map is viewed
//! as a map from (hash, key) pairs to values: the hash of a key comes from
//! the map's `ahash` hash builder, whose results this library does not
//! state, so the map's contracts speak of the hashes its calls produced.
use vstd::prelude::*;

verus! {

/// The hash and key of an entry.
pub type Slot = (u64, i32);

struct Entry<V> {
    key: i32,
    value: V,
    hash: u64,
}

impl<V> Entry<V> {
    spec fn slot(&self) -> Slot {
        (self.hash, self.key)
    }
}

/// The bucket of a hash in a table of `cap` buckets.
pub open spec fn bucket_of(hash: u64, cap: int) -> int {
    hash as int % cap
}

spec fn bucket_holds<V>(bucket: Seq<Entry<V>>, s: Slot) -> bool {
    exists|i: int| 0 <= i < bucket.len() && #[trigger] bucket[i].slot() == s
}

/// The buckets of a map together with the number of entries.
struct Table<V> {
    buckets: Vec<Vec<Entry<V>>>,
    len: usize,
    contents: Ghost<Map<Slot, V>>,
}

impl<V> Table<V> {
    spec fn cap(&self) -> int {
        self.buckets@.len() as int
    }

    spec fn wf(&self) -> bool {
        let cap = self.cap();
        let m = self.contents@;
        &&& cap > 0
        &&& m.dom().finite()
        &&& self.len == m.dom().len()
        &&& forall|b: int, i: int| 0 <= b < cap && 0 <= i < self.buckets@[b]@.len() ==> {
            let e = #[trigger] self.buckets@[b]@[i];
            &&& bucket_of(e.hash, cap) == b
            &&& m.contains_key(e.slot())
            &&& m[e.slot()] == e.value
        }
        &&& forall|b: int, i: int, j: int| 0 <= b < cap && 0 <= i < self.buckets@[b]@.len()
            && 0 <= j < self.buckets@[b]@.len() && i != j
            ==> (#[trigger] self.buckets@[b]@[i]).slot() != (#[trigger] self.buckets@[b]@[j]).slot()
        &&& forall|s: Slot| #[trigger] m.contains_key(s) ==> bucket_holds(self.buckets@[bucket_of(s.0, cap)]@, s)
    }

    /// A table of `cap` empty buckets.
    fn new(cap: usize) -> (t: Self)
        requires
            cap > 0,
        ensures
            t.wf(),
            t.cap() == cap,
            t.contents@ == Map::<Slot, V>::empty(),
    {
        let mut buckets: Vec<Vec<Entry<V>>> = Vec::new();
        let mut i: usize = 0;
        while i < cap
            invariant
                i <= cap,
                buckets@.len() == i,
                forall|b: int| 0 <= b < i ==> (#[trigger] buckets@[b])@.len() == 0,
            decreases cap - i,
        {
            buckets.push(Vec::new());
            i += 1;
        }
        let t = Table { buckets, len: 0, contents: Ghost(Map::empty()) };
        proof {
            assert(t.contents@.dom() =~= Set::<Slot>::empty());
        }
        t
    }

    /// The bucket of `hash`.
    fn position(&self, hash: u64) -> (b: usize)
        requires
            self.wf(),
        ensures
            b == bucket_of(hash, self.cap()),
            b < self.cap(),
    {
        let cap = self.buckets.len();
        (hash % (cap as u64)) as usize
    }

    /// The index in bucket `b` of the entry for `slot`, if there is one.
    fn find(&self, b: usize, hash: u64, key: i32) -> (r: Option<usize>)
        requires
            self.wf(),
            b == bucket_of(hash, self.cap()),
        ensures
            r matches Some(i) ==> i < self.buckets@[b as int]@.len() && self.buckets@[b as int]@[i as int].slot() == (hash, key),
            r is None ==> !self.contents@.contains_key((hash, key)),
    {
        let bucket = &self.buckets[b];
        let mut i: usize = 0;
        while i < bucket.len()
            invariant
                self.wf(),
                b == bucket_of(hash, self.cap()),
                bucket == &self.buckets@[b as int],
                i <= bucket@.len(),
                forall|j: int| 0 <= j < i ==> (#[trigger] bucket@[j]).slot() != (hash, key),
            decreases bucket@.len() - i,
        {
            if bucket[i].hash == hash && bucket[i].key == key {
                return Some(i);
            }
            i += 1;
        }
        None
    }

    /// Adds an entry for a slot that the table does not hold.
    fn push_new_entry(&mut self, e: Entry<V>)
        requires
            old(self).wf(),
            !old(self).contents@.contains_key(e.slot()),
            old(self).len < usize::MAX,
        ensures
            final(self).wf(),
            final(self).cap() == old(self).cap(),
            final(self).contents@ == old(self).contents@.insert(e.slot(), e.value),
    {
        let ghost s = e.slot();
        let ghost v = e.value;
        let b = self.position(e.hash);
        let ghost old_bucket = self.buckets@[b as int]@;
        self.buckets[b].push(e);
        self.len = self.len + 1;
        proof {
            let cap = self.cap();
            self.contents@ = self.contents@.insert(s, v);
            let m = self.contents@;
            assert forall|bb: int, i: int| 0 <= bb < cap && 0 <= i < self.buckets@[bb]@.len() implies {
                let e2 = #[trigger] self.buckets@[bb]@[i];
                &&& bucket_of(e2.hash, cap) == bb
                &&& m.contains_key(e2.slot())
                &&& m[e2.slot()] == e2.value
            } by {
                if bb == b && i == old_bucket.len() {
                } else {
                    assert(self.buckets@[bb]@[i] == old(self).buckets@[bb]@[i]);
                }
            }
            assert forall|bb: int, i: int, j: int| 0 <= bb < cap && 0 <= i < self.buckets@[bb]@.len()
                && 0 <= j < self.buckets@[bb]@.len() && i != j
                implies (#[trigger] self.buckets@[bb]@[i]).slot() != (#[trigger] self.buckets@[bb]@[j]).slot() by {
                if bb == b {
                    if i == old_bucket.len() {
                        assert(self.buckets@[bb]@[j] == old_bucket[j]);
                        assert(old(self).contents@.contains_key(old_bucket[j].slot()));
                    } else if j == old_bucket.len() {
                        assert(self.buckets@[bb]@[i] == old_bucket[i]);
                        assert(old(self).contents@.contains_key(old_bucket[i].slot()));
                    } else {
                        assert(self.buckets@[bb]@[i] == old_bucket[i]);
                        assert(self.buckets@[bb]@[j] == old_bucket[j]);
                    }
                } else {
                    assert(self.buckets@[bb]@[i] == old(self).buckets@[bb]@[i]);
                    assert(self.buckets@[bb]@[j] == old(self).buckets@[bb]@[j]);
                }
            }
            assert forall|s2: Slot| #[trigger] m.contains_key(s2) implies bucket_holds(self.buckets@[bucket_of(s2.0, cap)]@, s2) by {
                if s2 == s {
                    assert(self.buckets@[b as int]@[old_bucket.len() as int].slot() == s);
                } else {
                    assert(old(self).contents@.contains_key(s2));
                    let bb = bucket_of(s2.0, cap);
                    let w = choose|i: int| 0 <= i < old(self).buckets@[bb]@.len() && #[trigger] old(self).buckets@[bb]@[i].slot() == s2;
                    assert(self.buckets@[bb]@[w] == old(self).buckets@[bb]@[w]);
                }
            }
            assert(m.dom() =~= old(self).contents@.dom().insert(s));
        }
    }
}


impl<V> Table<V> {
    /// Removes entry `i` of bucket `b`.
    fn remove_at(&mut self, b: usize, i: usize) -> (e: Entry<V>)
        requires
            old(self).wf(),
            b < old(self).cap(),
            i < old(self).buckets@[b as int]@.len(),
        ensures
            final(self).wf(),
            final(self).cap() == old(self).cap(),
            e == old(self).buckets@[b as int]@[i as int],
            old(self).contents@.contains_key(e.slot()),
            old(self).contents@[e.slot()] == e.value,
            final(self).contents@ == old(self).contents@.remove(e.slot()),
            final(self).buckets@[b as int]@.len() == old(self).buckets@[b as int]@.len() - 1,
            final(self).len + 1 == old(self).len,
    {
        let ghost old_bucket = self.buckets@[b as int]@;
        let e = self.buckets[b].remove(i);
        proof {
            let cap = self.cap();
            let s = e.slot();
            assert(old_bucket[i as int] == e);
            assert(self.contents@.contains_key(s));
            self.contents@ = self.contents@.remove(s);
            let m = self.contents@;
            let nb = self.buckets@[b as int]@;
            assert(nb =~= old_bucket.remove(i as int));
            assert forall|bb: int, k: int| 0 <= bb < cap && 0 <= k < self.buckets@[bb]@.len() implies {
                let e2 = #[trigger] self.buckets@[bb]@[k];
                &&& bucket_of(e2.hash, cap) == bb
                &&& m.contains_key(e2.slot())
                &&& m[e2.slot()] == e2.value
            } by {
                if bb == b {
                    let ok = if k < i { k } else { k + 1 };
                    assert(self.buckets@[bb]@[k] == old_bucket[ok]);
                    assert(ok != i);
                    assert(old(self).buckets@[bb]@[ok] == old_bucket[ok]);
                } else {
                    assert(self.buckets@[bb]@[k] == old(self).buckets@[bb]@[k]);
                }
            }
            assert forall|bb: int, k: int, j: int| 0 <= bb < cap && 0 <= k < self.buckets@[bb]@.len()
                && 0 <= j < self.buckets@[bb]@.len() && k != j
                implies (#[trigger] self.buckets@[bb]@[k]).slot() != (#[trigger] self.buckets@[bb]@[j]).slot() by {
                if bb == b {
                    let ok = if k < i { k } else { k + 1 };
                    let oj = if j < i { j } else { j + 1 };
                    assert(self.buckets@[bb]@[k] == old(self).buckets@[bb]@[ok]);
                    assert(self.buckets@[bb]@[j] == old(self).buckets@[bb]@[oj]);
                } else {
                    assert(self.buckets@[bb]@[k] == old(self).buckets@[bb]@[k]);
                    assert(self.buckets@[bb]@[j] == old(self).buckets@[bb]@[j]);
                }
            }
            assert forall|s2: Slot| #[trigger] m.contains_key(s2) implies bucket_holds(self.buckets@[bucket_of(s2.0, cap)]@, s2) by {
                assert(old(self).contents@.contains_key(s2));
                let bb = bucket_of(s2.0, cap);
                let w = choose|k: int| 0 <= k < old(self).buckets@[bb]@.len() && #[trigger] old(self).buckets@[bb]@[k].slot() == s2;
                if bb == b {
                    assert(w != i);
                    let nw = if w < i { w } else { w - 1 };
                    assert(self.buckets@[bb]@[nw] == old_bucket[w]);
                } else {
                    assert(self.buckets@[bb]@[w] == old(self).buckets@[bb]@[w]);
                }
            }
            assert(m.dom() =~= old(self).contents@.dom().remove(s));
        }
        self.len = self.len - 1;
        e
    }

    /// Replaces the value of entry `i` of bucket `b`.
    fn set_value(&mut self, b: usize, i: usize, value: V)
        requires
            old(self).wf(),
            b < old(self).cap(),
            i < old(self).buckets@[b as int]@.len(),
        ensures
            final(self).wf(),
            final(self).cap() == old(self).cap(),
            final(self).contents@ == old(self).contents@.insert(old(self).buckets@[b as int]@[i as int].slot(), value),
    {
        let ghost s = self.buckets@[b as int]@[i as int].slot();
        let ghost v = value;
        let ghost old_bucket = self.buckets@[b as int]@;
        self.buckets[b][i].value = value;
        proof {
            let cap = self.cap();
            self.contents@ = self.contents@.insert(s, v);
            let m = self.contents@;
            assert forall|bb: int, k: int| 0 <= bb < cap && 0 <= k < self.buckets@[bb]@.len() implies {
                let e2 = #[trigger] self.buckets@[bb]@[k];
                &&& bucket_of(e2.hash, cap) == bb
                &&& m.contains_key(e2.slot())
                &&& m[e2.slot()] == e2.value
            } by {
                if bb == b && k == i {
                } else if bb == b {
                    assert(self.buckets@[bb]@[k] == old_bucket[k]);
                    assert(old_bucket[k].slot() != s);
                } else {
                    assert(self.buckets@[bb]@[k] == old(self).buckets@[bb]@[k]);
                    assert(old(self).buckets@[bb]@[k].slot() != s);
                }
            }
            assert forall|bb: int, k: int, j: int| 0 <= bb < cap && 0 <= k < self.buckets@[bb]@.len()
                && 0 <= j < self.buckets@[bb]@.len() && k != j
                implies (#[trigger] self.buckets@[bb]@[k]).slot() != (#[trigger] self.buckets@[bb]@[j]).slot() by {
                assert(self.buckets@[bb]@[k].slot() == old(self).buckets@[bb]@[k].slot());
                assert(self.buckets@[bb]@[j].slot() == old(self).buckets@[bb]@[j].slot());
            }
            assert forall|s2: Slot| #[trigger] m.contains_key(s2) implies bucket_holds(self.buckets@[bucket_of(s2.0, cap)]@, s2) by {
                assert(old(self).contents@.contains_key(s2));
                let bb = bucket_of(s2.0, cap);
                let w = choose|k: int| 0 <= k < old(self).buckets@[bb]@.len() && #[trigger] old(self).buckets@[bb]@[k].slot() == s2;
                assert(self.buckets@[bb]@[w].slot() == old(self).buckets@[bb]@[w].slot());
            }
            assert(m.dom() =~= old(self).contents@.dom());
        }
    }

    /// Moves every entry into a table of `new_cap` buckets, each to the
    /// bucket of its hash there.
    fn rehash(&mut self, new_cap: usize)
        requires
            old(self).wf(),
            new_cap > 0,
        ensures
            final(self).wf(),
            final(self).cap() == new_cap,
            final(self).contents@ == old(self).contents@,
    {
        let mut fresh: Table<V> = Table::new(new_cap);
        let ghost orig = self.contents@;
        let cap = self.buckets.len();
        let mut b: usize = 0;
        while b < cap
            invariant
                self.wf(),
                fresh.wf(),
                self.cap() == cap,
                fresh.cap() == new_cap,
                b <= cap,
                forall|bb: int| 0 <= bb < b ==> (#[trigger] self.buckets@[bb])@.len() == 0,
                self.contents@.dom().disjoint(fresh.contents@.dom()),
                orig == self.contents@.union_prefer_right(fresh.contents@),
                orig.dom().finite(),
                orig.dom().len() <= usize::MAX,
                self.len + fresh.len == orig.dom().len(),
            decreases cap - b,
        {
            while self.buckets[b].len() > 0
                invariant
                    self.wf(),
                    fresh.wf(),
                    self.cap() == cap,
                    fresh.cap() == new_cap,
                    b < cap,
                    forall|bb: int| 0 <= bb < b ==> (#[trigger] self.buckets@[bb])@.len() == 0,
                    self.contents@.dom().disjoint(fresh.contents@.dom()),
                    orig == self.contents@.union_prefer_right(fresh.contents@),
                    orig.dom().finite(),
                    orig.dom().len() <= usize::MAX,
                    self.len + fresh.len == orig.dom().len(),
                decreases self.buckets@[b as int]@.len(),
            {
                let last = self.buckets[b].len() - 1;
                let ghost before = self.buckets@;
                let e = self.remove_at(b, last);
                proof {
                    assert forall|bb: int| 0 <= bb < b implies (#[trigger] self.buckets@[bb])@.len() == 0 by {
                        assert(self.buckets@[bb]@.len() == 0) by {
                            if self.buckets@[bb]@.len() > 0 {
                                assert(self.contents@.contains_key(self.buckets@[bb]@[0].slot()));
                                assert(old(self).buckets@.len() == cap);
                            }
                        }
                    }
                    assert(!fresh.contents@.contains_key(e.slot()));
                    assert(fresh.len < usize::MAX);
                }
                fresh.push_new_entry(e);
                proof {
                    assert(self.contents@.dom().disjoint(fresh.contents@.dom()));
                    assert(orig =~= self.contents@.union_prefer_right(fresh.contents@));
                }
            }
            b += 1;
        }
        proof {
            assert(self.contents@.dom() =~= Set::<Slot>::empty()) by {
                assert forall|s2: Slot| !#[trigger] self.contents@.contains_key(s2) by {
                    if self.contents@.contains_key(s2) {
                        let bb = bucket_of(s2.0, cap as int);
                        let w = choose|k: int| 0 <= k < self.buckets@[bb]@.len() && #[trigger] self.buckets@[bb]@[k].slot() == s2;
                    }
                }
            }
            assert(orig =~= fresh.contents@);
        }
        *self = fresh;
    }
}


#[verifier::external_type_specification]
#[verifier::external_body]
pub struct ExRandomState(ahash::RandomState);

/// A hash builder with fresh random keys, made by `ahash::RandomState::new`.
/// Nothing is stated of the keys it picks.
#[verifier::external_body]
fn new_random_state() -> ahash::RandomState {
    ahash::RandomState::new()
}

/// The hash of `val` under `hash_builder`, computed by
/// `ahash::RandomState::hash_one`. Nothing is stated of the result: it
/// depends on the builder's keys, which may be random, and on the machine.
#[verifier::external_body]
pub(crate) fn make_hash(hash_builder: &ahash::RandomState, val: i32) -> u64 {
    hash_builder.hash_one(val)
}


/// `entries` lists the entries of `m` by key and value, each once, in some
/// order.
pub open spec fn lists_entries<V>(m: Map<Slot, V>, entries: Seq<(i32, &V)>) -> bool {
    exists|slots: Seq<Slot>| {
        &&& #[trigger] slots.len() == entries.len()
        &&& slots.no_duplicates()
        &&& forall|s: Slot| m.contains_key(s) <==> slots.contains(s)
        &&& forall|k: int| 0 <= k < slots.len() ==> slots[k].1 == entries[k].0 && *entries[k].1 == m[slots[k]]
    }
}

/// `keys` lists the keys of the members of `s`, each member once, in some
/// order.
pub open spec fn lists_members(s: Set<Slot>, keys: Seq<i32>) -> bool {
    exists|slots: Seq<Slot>| {
        &&& #[trigger] slots.len() == keys.len()
        &&& slots.no_duplicates()
        &&& forall|x: Slot| s.contains(x) <==> slots.contains(x)
        &&& forall|k: int| 0 <= k < slots.len() ==> slots[k].1 == keys[k]
    }
}

/// A chained hash map from `i32` keys to values, hashed with `ahash`.
pub struct HashMap<V> {
    hash_builder: ahash::RandomState,
    table: Table<V>,
}

impl<V> View for HashMap<V> {
    type V = Map<Slot, V>;

    /// The entries by their hash and key.
    closed spec fn view(&self) -> Map<Slot, V> {
        self.table.contents@
    }
}

impl<V> HashMap<V> {
    /// The table is well formed.
    pub closed spec fn wf(&self) -> bool {
        self.table.wf()
    }

    /// The number of buckets.
    pub closed spec fn spec_capacity(&self) -> nat {
        self.table.buckets@.len()
    }

    /// The hash builder that keys are hashed with.
    pub closed spec fn spec_hash_builder(&self) -> ahash::RandomState {
        self.hash_builder
    }

    /// A well-formed map holds finitely many entries.
    pub proof fn lemma_wf_finite(&self)
        requires
            self.wf(),
        ensures
            self@.dom().finite(),
    {
    }

    /// An empty map with four buckets and a random hash builder.
    pub fn new() -> (m: Self)
        ensures
            m.wf(),
            m@ == Map::<Slot, V>::empty(),
            m.spec_capacity() == 4,
    {
        Self::with_hasher(new_random_state())
    }

    /// An empty map with `capacity` buckets, or four when `capacity` is zero,
    /// and a random hash builder.
    pub fn with_capacity(capacity: usize) -> (m: Self)
        ensures
            m.wf(),
            m@ == Map::<Slot, V>::empty(),
            m.spec_capacity() == (if capacity < 1 { 4 } else { capacity }),
    {
        Self::with_capacity_and_hasher(capacity, new_random_state())
    }

    /// An empty map with `capacity` buckets, or four when `capacity` is zero,
    /// hashing with `hash_builder`.
    pub fn with_capacity_and_hasher(capacity: usize, hash_builder: ahash::RandomState) -> (m: Self)
        ensures
            m.wf(),
            m@ == Map::<Slot, V>::empty(),
            m.spec_capacity() == (if capacity < 1 { 4 } else { capacity }),
            m.spec_hash_builder() == hash_builder,
    {
        let capacity = if capacity < 1 { 4 } else { capacity };
        HashMap { hash_builder, table: Table::new(capacity) }
    }

    /// An empty map with four buckets, hashing with `hash_builder`.
    pub fn with_hasher(hash_builder: ahash::RandomState) -> (m: Self)
        ensures
            m.wf(),
            m@ == Map::<Slot, V>::empty(),
            m.spec_capacity() == 4,
            m.spec_hash_builder() == hash_builder,
    {
        HashMap { hash_builder, table: Table::new(4) }
    }

    /// Number of entries.
    pub fn len(&self) -> (r: usize)
        requires
            self.wf(),
        ensures
            r == self@.len(),
    {
        self.table.len
    }

    /// Whether the map has no entry.
    pub fn is_empty(&self) -> (r: bool)
        requires
            self.wf(),
        ensures
            r == (self@.len() == 0),
    {
        self.table.len == 0
    }

    /// Number of buckets.
    pub fn capacity(&self) -> (r: usize)
        ensures
            r == self.spec_capacity(),
    {
        self.table.buckets.len()
    }

    /// Inserts `value` under `key` with hash `hash`; an entry with the same
    /// hash and key gets the new value. A new entry first doubles the buckets
    /// when the map holds three quarters of its bucket count or more.
    /// Returns whether the entry is new.
    pub fn insert_hashed(&mut self, hash: u64, key: i32, value: V) -> (r: bool)
        requires
            old(self).wf(),
            old(self)@.len() < usize::MAX,
            old(self).spec_capacity() <= usize::MAX / 2,
        ensures
            final(self).wf(),
            final(self)@ == old(self)@.insert((hash, key), value),
            r == !old(self)@.contains_key((hash, key)),
            final(self)@.len() == old(self)@.len() + (if r { 1int } else { 0int }),
            final(self).spec_capacity() == (if r && old(self)@.len() >= old(self).spec_capacity() * 3 / 4 {
                old(self).spec_capacity() * 2 } else { old(self).spec_capacity() }),
    {
        proof {
            lemma_insert_len(self@, hash, key, value);
        }
        let mut position = self.table.position(hash);
        match self.table.find(position, hash, key) {
            Some(i) => {
                self.table.set_value(position, i, value);
                return false;
            },
            None => {},
        }
        self.insert_slow(position, hash, key, value);
        true
    }

    fn insert_slow(&mut self, position: usize, hash: u64, key: i32, value: V)
        requires
            old(self).wf(),
            old(self)@.len() < usize::MAX,
            old(self).spec_capacity() <= usize::MAX / 2,
            !old(self)@.contains_key((hash, key)),
            position == bucket_of(hash, old(self).spec_capacity() as int),
        ensures
            final(self).wf(),
            final(self)@ == old(self)@.insert((hash, key), value),
            final(self).spec_capacity() == (if old(self)@.len() >= old(self).spec_capacity() * 3 / 4 {
                old(self).spec_capacity() * 2 } else { old(self).spec_capacity() }),
    {
        let cap = self.table.buckets.len();
        let threshold = cap / 4 * 3 + cap % 4 * 3 / 4;
        proof {
            vstd::arithmetic::div_mod::lemma_fundamental_div_mod(cap as int, 4);
            let q = cap as int / 4;
            let r = cap as int % 4;
            assert(threshold == (cap as int) * 3 / 4) by (nonlinear_arith)
                requires cap == 4 * q + r, 0 <= r < 4, threshold == q * 3 + r * 3 / 4;
        }
        if self.table.len >= threshold {
            self.table.rehash(cap * 2);
        }
        self.table.push_new_entry(Entry { hash, value, key });
    }

    /// The value under `key` with hash `hash`, if any.
    pub fn get_hashed(&self, hash: u64, key: i32) -> (r: Option<&V>)
        requires
            self.wf(),
        ensures
            r == (if self@.contains_key((hash, key)) { Some(&self@[(hash, key)]) } else { None }),
    {
        let position = self.table.position(hash);
        match self.table.find(position, hash, key) {
            Some(i) => Some(&self.table.buckets[position][i].value),
            None => None,
        }
    }

    /// The entries by key and value, bucket by bucket.
    pub fn iter(&self) -> (r: Vec<(i32, &V)>)
        requires
            self.wf(),
        ensures
            lists_entries(self@, r@),
    {
        let ghost m = self.table.contents@;
        let mut r: Vec<(i32, &V)> = Vec::new();
        let ghost mut slots: Seq<Slot> = Seq::empty();
        let cap = self.table.buckets.len();
        let mut b: usize = 0;
        while b < cap
            invariant
                self.wf(),
                m == self.table.contents@,
                cap == self.table.buckets@.len(),
                b <= cap,
                slots.len() == r@.len(),
                slots.no_duplicates(),
                forall|k: int| 0 <= k < slots.len() ==> (#[trigger] slots[k]).1 == r@[k].0 && *r@[k].1 == m[slots[k]]
                    && m.contains_key(slots[k]) && bucket_of(slots[k].0, cap as int) < b,
                forall|s: Slot| #[trigger] m.contains_key(s) && bucket_of(s.0, cap as int) < b ==> slots.contains(s),
            decreases cap - b,
        {
            let bucket = &self.table.buckets[b];
            let ghost base = slots.len();
            let mut i: usize = 0;
            while i < bucket.len()
                invariant
                    self.wf(),
                    m == self.table.contents@,
                    cap == self.table.buckets@.len(),
                    b < cap,
                    bucket == &self.table.buckets@[b as int],
                    i <= bucket@.len(),
                    base <= slots.len(),
                    slots.len() == r@.len(),
                    slots.len() == base + i,
                    slots.no_duplicates(),
                    forall|k: int| 0 <= k < slots.len() ==> (#[trigger] slots[k]).1 == r@[k].0 && *r@[k].1 == m[slots[k]]
                        && m.contains_key(slots[k]),
                    forall|k: int| 0 <= k < base ==> bucket_of((#[trigger] slots[k]).0, cap as int) < b,
                    forall|k: int| base <= k < slots.len() ==> #[trigger] slots[k] == bucket@[k - base].slot(),
                    forall|s: Slot| #[trigger] m.contains_key(s) && bucket_of(s.0, cap as int) < b ==> slots.contains(s),
                decreases bucket@.len() - i,
            {
                let e = &bucket[i];
                r.push((e.key, &e.value));
                proof {
                    let sl = e.slot();
                    assert(bucket_of(sl.0, cap as int) == b);
                    assert(!slots.contains(sl)) by {
                        if slots.contains(sl) {
                            let k = choose|k: int| 0 <= k < slots.len() && slots[k] == sl;
                            if k >= base {
                                assert(bucket@[k - base].slot() == sl);
                            }
                        }
                    }
                    let old_slots = slots;
                    slots = slots.push(sl);
                    assert forall|k: int| 0 <= k < slots.len() implies (#[trigger] slots[k]).1 == r@[k].0 && *r@[k].1 == m[slots[k]]
                        && m.contains_key(slots[k]) by {
                        if k < old_slots.len() {
                            assert(slots[k] == old_slots[k]);
                        }
                    }
                    assert forall|s: Slot| #[trigger] m.contains_key(s) && bucket_of(s.0, cap as int) < b implies slots.contains(s) by {
                        assert(old_slots.contains(s));
                        let k = choose|k: int| 0 <= k < old_slots.len() && old_slots[k] == s;
                        assert(slots[k] == s);
                    }
                    assert forall|k: int| base <= k < slots.len() implies #[trigger] slots[k] == bucket@[k - base].slot() by {
                        if k < old_slots.len() {
                            assert(slots[k] == old_slots[k]);
                        }
                    }
                    assert forall|k: int| 0 <= k < base implies bucket_of((#[trigger] slots[k]).0, cap as int) < b by {
                        assert(slots[k] == old_slots[k]);
                    }
                }
                i += 1;
            }
            proof {
                assert forall|k: int| 0 <= k < slots.len() implies bucket_of((#[trigger] slots[k]).0, cap as int) < b + 1 by {
                    if k >= base {
                        assert(slots[k] == bucket@[k - base].slot());
                    }
                }
                assert forall|s: Slot| #[trigger] m.contains_key(s) && bucket_of(s.0, cap as int) < b + 1 implies slots.contains(s) by {
                    if bucket_of(s.0, cap as int) == b {
                        assert(bucket_holds(self.table.buckets@[b as int]@, s));
                        let j = choose|j: int| 0 <= j < bucket@.len() && #[trigger] bucket@[j].slot() == s;
                        assert(slots[base + j] == s);
                    }
                }
            }
            b += 1;
        }
        proof {
            assert forall|s: Slot| m.contains_key(s) <==> slots.contains(s) by {
                if slots.contains(s) {
                    let k = choose|k: int| 0 <= k < slots.len() && slots[k] == s;
                }
                if m.contains_key(s) {
                    assert(bucket_of(s.0, cap as int) < cap);
                }
            }
        }
        r
    }

    /// Whether there is an entry for `key` with hash `hash`.
    pub fn contains_key_hashed(&self, hash: u64, key: i32) -> (r: bool)
        requires
            self.wf(),
        ensures
            r == self@.contains_key((hash, key)),
    {
        let position = self.table.position(hash);
        match self.table.find(position, hash, key) {
            Some(_) => true,
            None => false,
        }
    }

    /// Removes the entry for `key` with hash `hash`; returns whether there was one.
    pub fn remove_hashed(&mut self, hash: u64, key: i32) -> (r: bool)
        requires
            old(self).wf(),
        ensures
            final(self).wf(),
            final(self)@ == old(self)@.remove((hash, key)),
            r == old(self)@.contains_key((hash, key)),
            final(self).spec_capacity() == old(self).spec_capacity(),
    {
        let position = self.table.position(hash);
        match self.table.find(position, hash, key) {
            Some(i) => {
                let _ = self.table.remove_at(position, i);
                true
            },
            None => {
                proof {
                    assert(self.table.contents@.remove((hash, key)) =~= self.table.contents@);
                }
                false
            },
        }
    }

    /// Inserts `value` under `key`, hashed with the map's hash builder;
    /// returns whether the entry is new.
    pub fn insert(&mut self, key: i32, value: V) -> (r: bool)
        requires
            old(self).wf(),
            old(self)@.len() < usize::MAX,
            old(self).spec_capacity() <= usize::MAX / 2,
        ensures
            final(self).wf(),
            final(self)@.len() == old(self)@.len() + (if r { 1int } else { 0int }),
            exists|hash: u64| {
                &&& final(self)@ == old(self)@.insert((hash, key), value)
                &&& r == !old(self)@.contains_key((hash, key))
            },
    {
        let hash = make_hash(&self.hash_builder, key);
        self.insert_hashed(hash, key, value)
    }

    /// The value under `key`, hashed with the map's hash builder, if any.
    pub fn get(&self, key: &i32) -> (r: Option<&V>)
        requires
            self.wf(),
        ensures
            exists|hash: u64| r == (if self@.contains_key((hash, *key)) { Some(&self@[(hash, *key)]) } else { None }),
    {
        let hash = make_hash(&self.hash_builder, *key);
        self.get_hashed(hash, *key)
    }

    /// Whether there is an entry under `key`, hashed with the map's hash builder.
    pub fn contains_key(&self, key: &i32) -> (r: bool)
        requires
            self.wf(),
        ensures
            exists|hash: u64| r == self@.contains_key((hash, *key)),
    {
        let hash = make_hash(&self.hash_builder, *key);
        self.contains_key_hashed(hash, *key)
    }

    /// Removes the entry under `key`, hashed with the map's hash builder;
    /// returns whether there was one.
    pub fn remove(&mut self, key: &i32) -> (r: bool)
        requires
            old(self).wf(),
        ensures
            final(self).wf(),
            exists|hash: u64| {
                &&& final(self)@ == old(self)@.remove((hash, *key))
                &&& r == old(self)@.contains_key((hash, *key))
            },
    {
        let hash = make_hash(&self.hash_builder, *key);
        self.remove_hashed(hash, *key)
    }
}

/// A hash set of `i32` keys, built on [HashMap].
pub struct HashSet {
    map: HashMap<()>,
}

impl View for HashSet {
    type V = Set<Slot>;

    /// The members by their hash and key.
    closed spec fn view(&self) -> Set<Slot> {
        self.map@.dom()
    }
}

impl HashSet {
    /// The underlying map is well formed.
    pub closed spec fn wf(&self) -> bool {
        self.map.wf()
    }

    /// The number of buckets.
    pub closed spec fn spec_capacity(&self) -> nat {
        self.map.spec_capacity()
    }

    /// The hash builder that keys are hashed with.
    pub closed spec fn spec_hash_builder(&self) -> ahash::RandomState {
        self.map.spec_hash_builder()
    }

    /// A well-formed set holds finitely many members.
    pub proof fn lemma_wf_finite(&self)
        requires
            self.wf(),
        ensures
            self@.finite(),
    {
    }

    /// An empty set with four buckets and a random hash builder.
    pub fn new() -> (s: Self)
        ensures
            s.wf(),
            s@ == Set::<Slot>::empty(),
            s.spec_capacity() == 4,
    {
        let s = HashSet { map: HashMap::new() };
        proof {
            assert(s@ =~= Set::<Slot>::empty());
        }
        s
    }

    /// An empty set with `capacity` buckets, or four when `capacity` is zero,
    /// and a random hash builder.
    pub fn with_capacity(capacity: usize) -> (s: Self)
        ensures
            s.wf(),
            s@ == Set::<Slot>::empty(),
            s.spec_capacity() == (if capacity < 1 { 4 } else { capacity }),
    {
        let s = HashSet { map: HashMap::with_capacity(capacity) };
        proof {
            assert(s@ =~= Set::<Slot>::empty());
        }
        s
    }

    /// An empty set with `capacity` buckets, or four when `capacity` is zero,
    /// hashing with `hash_builder`.
    pub fn with_capacity_and_hasher(capacity: usize, hash_builder: ahash::RandomState) -> (s: Self)
        ensures
            s.wf(),
            s@ == Set::<Slot>::empty(),
            s.spec_capacity() == (if capacity < 1 { 4 } else { capacity }),
            s.spec_hash_builder() == hash_builder,
    {
        let s = HashSet { map: HashMap::with_capacity_and_hasher(capacity, hash_builder) };
        proof {
            assert(s@ =~= Set::<Slot>::empty());
        }
        s
    }

    /// An empty set with four buckets, hashing with `hash_builder`.
    pub fn with_hasher(hash_builder: ahash::RandomState) -> (s: Self)
        ensures
            s.wf(),
            s@ == Set::<Slot>::empty(),
            s.spec_capacity() == 4,
            s.spec_hash_builder() == hash_builder,
    {
        let s = HashSet { map: HashMap::with_hasher(hash_builder) };
        proof {
            assert(s@ =~= Set::<Slot>::empty());
        }
        s
    }

    /// Adds `key`; returns whether it was not there.
    pub fn insert(&mut self, key: i32) -> (r: bool)
        requires
            old(self).wf(),
            old(self)@.len() < usize::MAX,
            old(self).spec_capacity() <= usize::MAX / 2,
        ensures
            final(self).wf(),
            final(self)@.len() == old(self)@.len() + (if r { 1int } else { 0int }),
            exists|hash: u64| {
                &&& final(self)@ == old(self)@.insert((hash, key))
                &&& r == !old(self)@.contains((hash, key))
            },
    {
        let hash = make_hash(&self.map.hash_builder, key);
        let r = self.map.insert_hashed(hash, key, ());
        proof {
            assert(self@ =~= old(self)@.insert((hash, key)));
        }
        r
    }

    /// The keys of the members, bucket by bucket.
    pub fn iter(&self) -> (r: Vec<i32>)
        requires
            self.wf(),
        ensures
            lists_members(self@, r@),
    {
        let entries = self.map.iter();
        let ghost m = self.map@;
        let ghost slots = choose|slots: Seq<Slot>| {
            &&& #[trigger] slots.len() == entries@.len()
            &&& slots.no_duplicates()
            &&& forall|s: Slot| m.contains_key(s) <==> slots.contains(s)
            &&& forall|k: int| 0 <= k < slots.len() ==> slots[k].1 == entries@[k].0 && *entries@[k].1 == m[slots[k]]
        };
        let mut r: Vec<i32> = Vec::new();
        let mut i: usize = 0;
        while i < entries.len()
            invariant
                i <= entries@.len(),
                r@.len() == i,
                forall|k: int| 0 <= k < i ==> r@[k] == entries@[k].0,
            decreases entries@.len() - i,
        {
            r.push(entries[i].0);
            i += 1;
        }
        proof {
            assert forall|k: int| 0 <= k < slots.len() implies slots[k].1 == r@[k] by {}
            assert forall|x: Slot| self@.contains(x) <==> slots.contains(x) by {}
        }
        r
    }

    /// Whether `key` is in the set.
    pub fn contains(&self, key: &i32) -> (r: bool)
        requires
            self.wf(),
        ensures
            exists|hash: u64| r == self@.contains((hash, *key)),
    {
        let hash = make_hash(&self.map.hash_builder, *key);
        let r = self.map.contains_key_hashed(hash, *key);
        assert(r == self@.contains((hash, *key)));
        r
    }

    /// Removes `key`; returns whether it was there.
    pub fn remove(&mut self, key: &i32) -> (r: bool)
        requires
            old(self).wf(),
        ensures
            final(self).wf(),
            exists|hash: u64| {
                &&& final(self)@ == old(self)@.remove((hash, *key))
                &&& r == old(self)@.contains((hash, *key))
            },
    {
        let hash = make_hash(&self.map.hash_builder, *key);
        let r = self.map.remove_hashed(hash, *key);
        proof {
            assert(self@ =~= old(self)@.remove((hash, *key)));
        }
        r
    }

    /// Number of members.
    pub fn len(&self) -> (r: usize)
        requires
            self.wf(),
        ensures
            r == self@.len(),
    {
        self.map.len()
    }

    /// Whether the set has no member.
    pub fn is_empty(&self) -> (r: bool)
        requires
            self.wf(),
        ensures
            r == (self@.len() == 0),
    {
        self.map.is_empty()
    }
}

} // verus!

verus! {

/// A read after a write under the same hash and key gives the written value:
/// after an insertion into a well-formed map, a lookup under that hash and
/// key finds the value inserted, every other entry is as it was, and the map
/// grew by one exactly when the insertion reported a new entry.
pub proof fn lemma_insert_then_get<V>(h0: HashMap<V>, h1: HashMap<V>, hash: u64, key: i32, value: V, r: bool, other: Slot)
    requires
        h0.wf(),
        h1@ == h0@.insert((hash, key), value),
        r == !h0@.contains_key((hash, key)),
    ensures
        h1@.contains_key((hash, key)),
        h1@[(hash, key)] == value,
        h1@.len() == h0@.len() + (if r { 1int } else { 0int }),
        other != (hash, key) ==> h1@.contains_key(other) == h0@.contains_key(other),
        other != (hash, key) && h0@.contains_key(other) ==> h1@[other] == h0@[other],
{
    h0.lemma_wf_finite();
    lemma_insert_len(h0@, hash, key, value);
}

/// Removing an entry from a well-formed map leaves no entry under its hash
/// and key and every other entry as it was; the map shrank by one exactly
/// when the removal reported that the entry was there.
pub proof fn lemma_remove_then_contains<V>(h0: HashMap<V>, h1: HashMap<V>, hash: u64, key: i32, r: bool, other: Slot)
    requires
        h0.wf(),
        h1@ == h0@.remove((hash, key)),
        r == h0@.contains_key((hash, key)),
    ensures
        !h1@.contains_key((hash, key)),
        h1@.len() == h0@.len() - (if r { 1int } else { 0int }),
        other != (hash, key) ==> h1@.contains_key(other) == h0@.contains_key(other),
        other != (hash, key) && h0@.contains_key(other) ==> h1@[other] == h0@[other],
{
    h0.lemma_wf_finite();
    if !r {
        assert(h0@.remove((hash, key)) =~= h0@);
    }
}

/// Inserting a new entry adds one to the length; writing an existing one
/// keeps it.
proof fn lemma_insert_len<V>(m: Map<Slot, V>, hash: u64, key: i32, value: V)
    requires
        m.dom().finite(),
    ensures
        m.insert((hash, key), value).len() == (if m.contains_key((hash, key)) { m.len() } else { m.len() + 1 }),
{
    if m.contains_key((hash, key)) {
        assert(m.insert((hash, key), value).dom() =~= m.dom());
    }
}

} // verus!
