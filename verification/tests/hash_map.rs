use comet::hash_map::{HashMap, HashSet};

#[test]
fn test_insert() {
    let mut m: HashMap<i32> = HashMap::new();

    assert_eq!(m.len(), 0);
    assert!(m.insert(1, 2));
    assert_eq!(m.len(), 1);
    assert!(m.insert(2, 4));
    assert_eq!(m.len(), 2);
    assert_eq!(*m.get(&1).unwrap(), 2);
    assert_eq!(*m.get(&2).unwrap(), 4);
}

#[test]
fn test_lots_of_insertions() {
    let mut m: HashMap<i32> = HashMap::new();
    // Try this a few times to make sure we never screw up the hashmap's
    // internal state.
    for _ in 0..10 {
        assert!(m.is_empty());

        for i in 1..1001 {
            assert!(m.insert(i, i));

            for j in 1..=i {
                let r = m.get(&j);
                assert_eq!(r, Some(&j));
            }

            for j in i + 1..1001 {
                let r = m.get(&j);
                assert_eq!(r, None);
            }
        }

        for i in 1001..2001 {
            assert!(!m.contains_key(&i));
        }

        // remove forwards
        for i in 1..1001 {
            assert!(m.remove(&i));

            for j in 1..=i {
                assert!(!m.contains_key(&j));
            }

            for j in i + 1..1001 {
                assert!(m.contains_key(&j));
            }
        }

        for i in 1..1001 {
            assert!(!m.contains_key(&i));
        }

        for i in 1..1001 {
            assert!(m.insert(i, i));
        }

        // remove backwards
        for i in (1..1001).rev() {
            assert!(m.remove(&i));

            for j in i..1001 {
                assert!(!m.contains_key(&j));
            }

            for j in 1..i {
                assert!(m.contains_key(&j));
            }
        }
    }
}

#[test]
fn insert_overwrites_existing_key() {
    let mut m: HashMap<&str> = HashMap::new();
    assert!(m.insert(7, "a"));
    assert!(!m.insert(7, "b"));
    assert_eq!(m.len(), 1);
    assert_eq!(m.get(&7), Some(&"b"));
}

#[test]
fn remove_missing_key_is_false() {
    let mut m: HashMap<i32> = HashMap::new();
    assert!(!m.remove(&3));
    assert!(m.insert(3, 30));
    assert!(m.remove(&3));
    assert!(!m.remove(&3));
    assert!(m.is_empty());
}

#[test]
fn capacity_doubles_at_three_quarters() {
    let mut m: HashMap<u8> = HashMap::with_capacity(0);
    assert_eq!(m.capacity(), 4);
    assert!(m.insert(1, 1));
    assert!(m.insert(2, 2));
    assert!(m.insert(3, 3));
    assert_eq!(m.capacity(), 4);
    // three entries reach three quarters of four buckets: the next new entry doubles them
    assert!(m.insert(4, 4));
    assert_eq!(m.capacity(), 8);
    // overwriting never grows the table
    assert!(!m.insert(4, 40));
    assert_eq!(m.capacity(), 8);
    for k in 1..5 {
        assert!(m.contains_key(&k));
    }
}

#[test]
fn hashed_entries_are_kept_apart_by_hash() {
    let mut m: HashMap<i32> = HashMap::with_capacity(3);
    assert!(m.insert_hashed(5, 1, 10));
    assert!(m.insert_hashed(8, 1, 20));
    assert_eq!(m.get_hashed(5, 1), Some(&10));
    assert_eq!(m.get_hashed(8, 1), Some(&20));
    assert!(m.remove_hashed(5, 1));
    assert!(!m.contains_key_hashed(5, 1));
    assert!(m.contains_key_hashed(8, 1));
    assert_eq!(m.len(), 1);
}

#[test]
fn with_seeded_hasher_finds_keys() {
    let state = ahash::RandomState::with_seeds(1, 2, 3, 4);
    let mut m: HashMap<u64> = HashMap::with_capacity_and_hasher(16, state);
    for k in 0..100 {
        assert!(m.insert(k, (k as u64) * 3));
    }
    for k in 0..100 {
        assert_eq!(m.get(&k), Some(&((k as u64) * 3)));
    }
    assert_eq!(m.len(), 100);
}

#[test]
fn hash_set_membership() {
    let mut s = HashSet::with_hasher(ahash::RandomState::new());
    assert!(s.is_empty());
    assert!(s.insert(10));
    assert!(!s.insert(10));
    assert!(s.insert(-4));
    assert_eq!(s.len(), 2);
    assert!(s.contains(&10));
    assert!(!s.contains(&11));
    assert!(s.remove(&10));
    assert!(!s.contains(&10));
    assert_eq!(s.len(), 1);
}

#[test]
fn hash_set_with_capacity_starts_empty() {
    let s = HashSet::with_capacity_and_hasher(0, ahash::RandomState::with_seeds(9, 8, 7, 6));
    assert_eq!(s.len(), 0);
}

#[test]
fn iter_lists_every_entry_once() {
    let mut map: HashMap<i32> = HashMap::new();
    for k in 0..10 {
        map.insert(k, 2 * k);
    }
    map.insert(3, 33);
    let mut entries: Vec<(i32, i32)> = map.iter().into_iter().map(|(k, v)| (k, *v)).collect();
    entries.sort();
    let mut expected: Vec<(i32, i32)> = (0..10).map(|k| (k, 2 * k)).collect();
    expected[3] = (3, 33);
    assert_eq!(entries, expected);
}

#[test]
fn set_iter_lists_every_member_once() {
    let mut set = HashSet::with_hasher(ahash::RandomState::new());
    set.insert(5);
    set.insert(7);
    set.insert(5);
    let mut keys = set.iter();
    keys.sort();
    assert_eq!(keys, vec![5, 7]);
}

#[test]
fn hash_set_constructors_start_empty() {
    let mut s = comet::hash_map::HashSet::new();
    assert!(s.is_empty());
    assert!(s.insert(3));
    assert!(!s.insert(3));
    assert_eq!(s.len(), 1);
    let t = comet::hash_map::HashSet::with_capacity(0);
    assert_eq!(t.len(), 0);
}
