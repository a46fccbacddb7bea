use comet::gc_base::AllocationSpace;
use comet::minimark::MiniMark;

const MB: usize = 1024 * 1024;

fn heap(nursery: usize) -> MiniMark<i32> {
    let floor = (nursery as f64 * 1.82) as usize;
    MiniMark::new(nursery, 64 * MB, floor, 512 * MB, 512 * MB)
}

#[test]
fn test_weak_refs() {
    let mut minimark = heap(1 * 1024 * 1024);

    let value = minimark.alloc_inline(42, Vec::new(), 4, AllocationSpace::New).unwrap();
    let rooted = minimark.alloc_inline(44, Vec::new(), 4, AllocationSpace::New).unwrap();

    let weak1 = minimark.allocate_weak(value).unwrap();
    let weak2 = minimark.allocate_weak(rooted).unwrap();

    assert_eq!(*minimark.get(minimark.upgrade(weak1).unwrap()).unwrap(), 42);
    assert_eq!(*minimark.get(minimark.upgrade(weak2).unwrap()).unwrap(), 44);

    minimark.collect(&vec![rooted, weak1, weak2]);

    assert!(minimark.upgrade(weak1).is_none());
    assert_eq!(*minimark.get(minimark.upgrade(weak2).unwrap()).unwrap(), 44);
}

#[test]
fn minor_promotes_reachable_and_frees_the_rest() {
    let mut mm = heap(MB);
    let leaf = mm.alloc_inline(1, Vec::new(), 8, AllocationSpace::New).unwrap();
    let root = mm.alloc_inline(2, vec![leaf], 8, AllocationSpace::New).unwrap();
    let garbage = mm.alloc_inline(3, vec![leaf], 8, AllocationSpace::New).unwrap();
    assert!(mm.is_young(leaf) && mm.is_young(root) && mm.is_young(garbage));
    let due = mm.minor(&vec![root]);
    assert!(!due);
    assert!(mm.is_live(root) && mm.is_live(leaf));
    assert!(!mm.is_live(garbage));
    assert!(!mm.is_young(root) && !mm.is_young(leaf));
    // each object takes 8 payload bytes plus a 16-byte header
    assert_eq!(mm.old_space_allocated(), 48);
    assert_eq!(mm.total_gc_cycles_count(), 1);
}

#[test]
fn second_minor_frees_nothing() {
    let mut mm = heap(MB);
    let a = mm.alloc_inline(1, Vec::new(), 8, AllocationSpace::New).unwrap();
    let b = mm.alloc_inline(2, Vec::new(), 8, AllocationSpace::New).unwrap();
    mm.minor(&vec![a]);
    let bytes = mm.old_space_allocated();
    mm.minor(&Vec::new());
    assert!(mm.is_live(a));
    assert!(!mm.is_live(b));
    assert_eq!(mm.old_space_allocated(), bytes);
}

#[test]
fn write_barrier_keeps_young_referent() {
    let mut mm = heap(MB);
    let old = mm.alloc_inline(1, Vec::new(), 8, AllocationSpace::Old).unwrap();
    let young = mm.alloc_inline(2, Vec::new(), 8, AllocationSpace::New).unwrap();
    assert!(!mm.is_young(old));
    assert!(mm.is_young(young));
    mm.write(old, vec![young]);
    mm.minor(&vec![old]);
    assert!(mm.is_live(young));
    assert_eq!(mm.get(young), Some(&2));
}

#[test]
fn major_frees_unreachable_old_objects() {
    let mut mm = heap(MB);
    let keep = mm.alloc_inline(1, Vec::new(), 8, AllocationSpace::Old).unwrap();
    let drop = mm.alloc_inline(2, Vec::new(), 8, AllocationSpace::Old).unwrap();
    assert_eq!(mm.old_space_allocated(), 48);
    let total = mm.full_collection(&vec![keep]);
    assert!(mm.is_live(keep));
    assert!(!mm.is_live(drop));
    assert_eq!(total, 24);
    assert_eq!(mm.total_gc_cycles_count(), 2);
}

#[test]
fn nursery_full_refuses_allocation() {
    let mut mm = heap(64);
    assert!(mm.alloc_inline(1, Vec::new(), 16, AllocationSpace::New).is_some());
    assert!(mm.alloc_inline(2, Vec::new(), 16, AllocationSpace::New).is_some());
    assert!(mm.alloc_inline(3, Vec::new(), 16, AllocationSpace::New).is_none());
}

#[test]
fn threshold_is_clamped() {
    let mut mm = heap(MB);
    mm.set_major_threshold_from(10, 1000 * MB);
    assert!(!mm.is_out_of_memory_on_allocation(64 * MB, false));
    assert!(mm.is_out_of_memory_on_allocation(64 * MB + 1, false));
    mm.set_major_threshold_from(900 * MB, 100 * MB);
    assert!(!mm.is_out_of_memory_on_allocation(100 * MB, false));
}

#[test]
fn out_of_memory_grows_threshold_until_limit() {
    let mut mm = heap(MB);
    assert!(!mm.is_out_of_memory_on_allocation(100 * MB, true));
    assert!(!mm.is_out_of_memory_on_allocation(100 * MB, false));
    assert!(mm.is_out_of_memory_on_allocation(512 * MB + 1, true));
}

#[test]
fn second_major_frees_nothing() {
    let mut mm = heap(MB);
    let a = mm.alloc_inline(1, Vec::new(), 8, AllocationSpace::Old).unwrap();
    let b = mm.alloc_inline(2, vec![a], 8, AllocationSpace::Old).unwrap();
    let c = mm.alloc_inline(3, Vec::new(), 8, AllocationSpace::Old).unwrap();
    let first = mm.full_collection(&vec![b]);
    let live_first = [mm.is_live(a), mm.is_live(b), mm.is_live(c)];
    let second = mm.full_collection(&vec![b]);
    let live_second = [mm.is_live(a), mm.is_live(b), mm.is_live(c)];
    assert_eq!(live_first, [true, true, false]);
    assert_eq!(live_first, live_second);
    assert_eq!(first, second);
    assert_eq!(first, 48);
}
