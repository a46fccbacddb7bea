use comet::heap::{Heap, CollectionScope};

#[test]
fn heap_weak_refs() {
    let mut heap: Heap<i32> = Heap::new(1 * 1024 * 1024, usize::MAX);

    let value = heap.allocate(42, Vec::new(), 4);
    let rooted = heap.allocate(44, Vec::new(), 4);

    let weak1 = heap.allocate_weak(value);
    let weak2 = heap.allocate_weak(rooted);

    assert_eq!(*heap.get(heap.upgrade(weak1).unwrap()).unwrap(), 42);
    assert_eq!(*heap.get(heap.upgrade(weak2).unwrap()).unwrap(), 44);

    heap.collect_garbage(&vec![rooted, weak1, weak2]);

    assert!(heap.upgrade(weak1).is_none());
    assert_eq!(*heap.get(heap.upgrade(weak2).unwrap()).unwrap(), 44);
}

#[test]
fn collection_frees_only_unreachable_objects() {
    let mut heap: Heap<&str> = Heap::new(1024, usize::MAX);
    let leaf = heap.allocate("leaf", Vec::new(), 8);
    let root = heap.allocate("root", vec![leaf], 8);
    let garbage = heap.allocate("garbage", vec![leaf], 8);
    heap.collect_garbage(&vec![root]);
    assert!(heap.is_live(root));
    assert!(heap.is_live(leaf));
    assert!(!heap.is_live(garbage));
    assert_eq!(heap.get(garbage), None);
    assert_eq!(heap.get(leaf), Some(&"leaf"));
    assert_eq!(heap.total_gc_cycles_count(), 1);
    assert_eq!(heap.size_after_last_collect(), 16);
    assert_eq!(heap.bytes_allocated_this_cycle(), 0);
}

#[test]
fn second_collection_frees_nothing() {
    let mut heap: Heap<u32> = Heap::new(1024, usize::MAX);
    let a = heap.allocate(1, Vec::new(), 8);
    let b = heap.allocate(2, vec![a], 8);
    let c = heap.allocate(3, Vec::new(), 8);
    heap.collect_garbage(&vec![b]);
    let after_first = [heap.is_live(a), heap.is_live(b), heap.is_live(c)];
    heap.collect_garbage(&vec![b]);
    let after_second = [heap.is_live(a), heap.is_live(b), heap.is_live(c)];
    assert_eq!(after_first, [true, true, false]);
    assert_eq!(after_first, after_second);
    assert_eq!(heap.total_gc_cycles_count(), 2);
}

#[test]
fn allocation_rounds_to_granule() {
    let mut heap: Heap<u8> = Heap::new(1024, usize::MAX);
    let x = heap.allocate(7, Vec::new(), 5);
    assert_eq!(heap.get(x), Some(&7));
    assert_eq!(heap.bytes_allocated_this_cycle(), 8);
}

#[test]
fn deferred_collection_does_nothing() {
    let mut heap: Heap<u8> = Heap::new(1024, usize::MAX);
    let x = heap.allocate(1, Vec::new(), 8);
    let point = heap.defer();
    heap.collect_garbage(&Vec::new());
    assert!(heap.is_live(x));
    assert_eq!(heap.total_gc_cycles_count(), 0);
    heap.end_defer(point);
    heap.collect_garbage(&Vec::new());
    assert!(!heap.is_live(x));
    assert_eq!(heap.total_gc_cycles_count(), 1);
}

#[test]
fn weak_cell_keeps_reachable_referent() {
    let mut heap: Heap<i64> = Heap::new(1024, usize::MAX);
    let target = heap.allocate(-5, Vec::new(), 8);
    let weak = heap.allocate_weak(target);
    heap.collect_garbage(&vec![weak, target]);
    assert_eq!(heap.upgrade(weak), Some(target));
    heap.clear_weak(weak);
    assert_eq!(heap.upgrade(weak), None);
}

#[test]
fn collection_scope_is_copyable() {
    let s = CollectionScope::Full;
    let t = s;
    assert_eq!(s, t);
}
