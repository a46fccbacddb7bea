use comet::vector::{Vector, next_capacity};

#[test]
fn push_pop_round_trip() {
    let mut v: Vector<u32> = Vector::new();
    assert!(v.is_empty());
    v.push(1);
    v.push(2);
    assert_eq!(v.len(), 2);
    assert_eq!(v.pop(), Some(2));
    assert_eq!(v.as_slice(), &[1]);
    assert_eq!(v.pop(), Some(1));
    assert_eq!(v.pop(), None);
}

#[test]
fn capacity_grows_from_next_capacity() {
    let mut v: Vector<u64> = Vector::new();
    v.push(9);
    assert_eq!(v.capacity(), next_capacity::<u64>(0));
    assert_eq!(next_capacity::<u64>(0), 4);
    assert_eq!(next_capacity::<u8>(0), 8);
    assert_eq!(next_capacity::<u8>(8), 16);
}

#[test]
fn insert_remove_round_trip() {
    let mut v: Vector<char> = Vector::with_capacity(4);
    v.push('a');
    v.push('c');
    v.insert(1, 'b');
    assert_eq!(v.as_slice(), &['a', 'b', 'c']);
    assert_eq!(v.remove(1), 'b');
    assert_eq!(v.as_slice(), &['a', 'c']);
    assert_eq!(v.swap_remove(0), 'a');
    assert_eq!(v.as_slice(), &['c']);
}

#[test]
fn split_off_then_append_restores() {
    let mut v: Vector<i32> = Vector::new();
    for i in 0..6 {
        v.push(i);
    }
    let mut tail = v.split_off(4);
    assert_eq!(v.as_slice(), &[0, 1, 2, 3]);
    assert_eq!(tail.as_slice(), &[4, 5]);
    v.append(&mut tail);
    assert_eq!(v.as_slice(), &[0, 1, 2, 3, 4, 5]);
    assert!(tail.is_empty());
}

#[test]
fn retain_and_dedup() {
    let mut v: Vector<i32> = Vector::new();
    for x in [1, 1, 2, 3, 3, 3, 4, 4] {
        v.push(x);
    }
    v.dedup();
    assert_eq!(v.as_slice(), &[1, 2, 3, 4]);
    v.retain(|x: &i32| *x % 2 == 0);
    assert_eq!(v.as_slice(), &[2, 4]);
    v.truncate(1);
    assert_eq!(v.as_slice(), &[2]);
    v.clear();
    assert!(v.is_empty());
}

#[test]
fn resize_fills_with_clones() {
    let mut v: Vector<u8> = Vector::new();
    v.resize(3, 7);
    assert_eq!(v.as_slice(), &[7, 7, 7]);
    v.resize(1, 0);
    assert_eq!(v.as_slice(), &[7]);
    v.extend_from_slice(&[1, 2]);
    assert_eq!(v.as_slice(), &[7, 1, 2]);
    assert_eq!(v.remove_item(&1), Some(1));
    assert_eq!(v.remove_item(&9), None);
    assert_eq!(*v.at(1), 2);
}

#[test]
fn vectors_equal_elementwise() {
    let mut a: Vector<u32> = Vector::new();
    let mut b: Vector<u32> = Vector::with_capacity(10);
    a.push(1);
    a.push(2);
    b.push(1);
    assert!(!a.eq(&b));
    b.push(2);
    assert!(a.eq(&b));
    b.push(3);
    assert!(!a.eq(&b));
}

#[test]
fn retain_mut_keeps_what_the_closure_accepts() {
    let mut v: Vector<i32> = Vector::new();
    for x in 1..=5 {
        v.push(x);
    }
    v.retain_mut(|x| *x % 2 == 0);
    assert_eq!(v.as_slice(), &[2, 4]);
    assert_eq!(v.len(), 2);
}

#[test]
fn retain_mut_keeps_the_values_the_closure_left() {
    let mut v: Vector<i32> = Vector::new();
    for x in 1..=4 {
        v.push(x);
    }
    v.retain_mut(|x| {
        *x *= 10;
        *x > 15
    });
    assert_eq!(v.as_slice(), &[20, 30, 40]);
}

#[test]
fn dedup_by_drops_adjacent_matches_only() {
    let mut v: Vector<i32> = Vector::new();
    for x in [1, 1, 2, 3, 3, 3, 1] {
        v.push(x);
    }
    v.dedup_by(|a, b| a == b);
    assert_eq!(v.as_slice(), &[1, 2, 3, 1]);
    assert_eq!(v.len(), 4);
}

#[test]
fn dedup_by_compares_with_the_last_kept_element() {
    let mut v: Vector<i32> = Vector::new();
    for x in [10, 11, 12, 20, 21] {
        v.push(x);
    }
    // an element goes when it is within one of the last element kept
    v.dedup_by(|a, b| (*a - *b).abs() <= 1);
    assert_eq!(v.as_slice(), &[10, 12, 20]);
}

#[test]
fn dedup_by_key_drops_runs_of_equal_keys() {
    let mut v: Vector<i32> = Vector::new();
    for x in [10, 20, 21, 30, 20] {
        v.push(x);
    }
    v.dedup_by_key(|x| *x / 10);
    assert_eq!(v.as_slice(), &[10, 20, 30, 20]);
}

#[test]
fn resize_with_fills_with_the_closure_results() {
    let mut v: Vector<u32> = Vector::new();
    v.push(7);
    let mut next = 0;
    v.resize_with(4, || {
        next += 1;
        next
    });
    assert_eq!(v.as_slice(), &[7, 1, 2, 3]);
    v.resize_with(2, || 99);
    assert_eq!(v.as_slice(), &[7, 1]);
}
