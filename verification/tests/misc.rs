use comet::align::{align_down, is_aligned, round_down, round_up};
use comet::allocation_config::AllocationConfig;
use comet::bump_pointer_space::BumpPointerSpace;
use comet::fnv::fnv1a_hash_32;
use comet::gc_base::{AllocationSpace, BrooksPointer, GCInfoIndex, NoReadBarrier};
use comet::header::HeapObjectHeader;
use comet::size_classes::{
    build_size_class_table, index_to_size_class, insert_sorted_unique, size_class_to_index, size_classes,
};
use comet::tlab::SimpleTLAB;

#[test]
fn alignment_helpers() {
    assert_eq!(round_up(13, 8), 16);
    assert_eq!(round_up(16, 8), 16);
    assert_eq!(round_down(13, 8), 8);
    assert_eq!(align_down(4097, 4096), 4096);
    assert!(is_aligned(64, 16));
    assert!(!is_aligned(65, 16));
}

#[test]
fn fnv1a_known_values() {
    assert_eq!(fnv1a_hash_32(b"", None), 0x811c9dc5);
    assert_eq!(fnv1a_hash_32(b"a", None), 0xe40c292c);
    assert_eq!(fnv1a_hash_32(b"foobar", None), 0xbf9cf968);
    // a limit of zero or past the end hashes the whole slice
    assert_eq!(fnv1a_hash_32(b"foobar", Some(0)), 0xbf9cf968);
    assert_eq!(fnv1a_hash_32(b"foobar", Some(99)), 0xbf9cf968);
    assert_eq!(fnv1a_hash_32(b"abc", Some(1)), 0xe40c292c);
}

#[test]
fn header_size_and_mark_bit() {
    let mut h = HeapObjectHeader::new(5);
    assert_eq!(h.get_size(), 0);
    assert!(!h.is_free());
    h.set_size(48);
    assert_eq!(h.get_size(), 48);
    h.set_size(50);
    assert_eq!(h.get_size(), 48);
    assert!(h.set_marked());
    assert!(!h.set_marked());
    assert!(h.is_marked());
    assert_eq!(h.get_size(), 48);
    assert_eq!(h.get_gc_info_index(), 5);
    assert!(HeapObjectHeader::new(0).is_free());
}

#[test]
fn size_class_indexing() {
    assert_eq!(size_class_to_index(0), 0);
    assert_eq!(size_class_to_index(1), 1);
    assert_eq!(size_class_to_index(16), 1);
    assert_eq!(size_class_to_index(17), 2);
    assert_eq!(index_to_size_class(5), 80);
}

#[test]
fn size_classes_are_sorted_without_repeats() {
    let payload = 16 * 1024 - 64;
    let approx: Vec<usize> = vec![80, 112, 156, 219, 307, 430, 602, 843, 1180, 1652, 2313, 3238, 4533, 6346, 8885];
    let classes = size_classes(&approx, payload);
    for w in classes.windows(2) {
        assert!(w[0] < w[1]);
    }
    assert_eq!(&classes[..4], &[16, 32, 48, 64]);
    assert!(classes.contains(&80));
    assert!(classes.contains(&256));
    assert!(classes.iter().all(|c| c % 16 == 0 && *c <= (payload / 2) & !15));
}

#[test]
fn size_class_table_maps_steps_to_classes() {
    let table = build_size_class_table(&[16, 48, 112], 10);
    assert_eq!(table, vec![16, 48, 112, 48, 64, 80, 96, 112, 128, 144]);
}

#[test]
fn sorted_insertion() {
    let mut v = vec![1, 5, 9];
    insert_sorted_unique(&mut v, 6);
    insert_sorted_unique(&mut v, 5);
    insert_sorted_unique(&mut v, 0);
    assert_eq!(v, vec![0, 1, 5, 6, 9]);
}

#[test]
fn tlab_bumps_header_and_payload() {
    let mut t = SimpleTLAB::create();
    assert_eq!(t.allocate(8), None);
    assert!(!t.refill(0));
    assert!(t.refill(4096));
    assert_eq!(t.allocate(8), Some(4096));
    // 8 payload bytes and a 16-byte header take 24 bytes
    assert_eq!(t.allocate(1), Some(4120));
    assert_eq!(t.tlab_cursor, 4120 + 24);
    assert_eq!(t.allocate(40000), None);
    assert!(t.can_thread_local_allocate(8192));
    assert!(!t.can_thread_local_allocate(8193));
    t.reset();
    assert_eq!(t.allocate(8), None);
}

#[test]
fn bump_pointer_space_allocates_until_full() {
    let mut s = BumpPointerSpace::new(1000, 100);
    assert!(s.contains(1000));
    assert!(!s.contains(1100));
    assert_eq!(s.bump_alloc(60), 1000);
    assert_eq!(s.bump_alloc(60), 0);
    assert_eq!(s.bump_alloc(40), 1060);
    s.reset();
    assert_eq!(s.bump_alloc(100), 1000);
}

#[test]
fn allocation_config_thresholds() {
    let mut c = AllocationConfig::new(2, 100);
    assert!(!c.allocation_threshold_exceeded());
    c.increment_allocations();
    c.increment_allocations();
    assert!(c.allocation_threshold_exceeded());
    assert!(!c.update_after_collection(Some(4), None));
    assert_eq!(c.threshold, 4);
    assert_eq!(c.large_threshold, 100);
    assert_eq!(c.block_allocations, 0);
    c.increment_large_allocations(100);
    assert!(c.allocation_threshold_exceeded());
}

#[test]
fn read_barriers() {
    assert_eq!(NoReadBarrier::read_barrier(77), 77);
    assert_eq!(BrooksPointer::read_barrier(88), 88);
    assert!(AllocationSpace::New < AllocationSpace::Large);
    assert_eq!(GCInfoIndex(3), GCInfoIndex(3));
}

#[test]
fn weak_ref_reads_its_cell_until_cleared() {
    let mut heap: comet::heap::Heap<i32> = comet::heap::Heap::new(1 << 20, 1 << 20);
    let a = heap.allocate(5, vec![], 8);
    let cell = heap.allocate_weak(a);
    let w = comet::heap::WeakRef::new(cell);
    assert_eq!(w.upgrade(&heap), Some(a));
    heap.collect_garbage(&vec![cell]);
    assert_eq!(w.upgrade(&heap), None);
}

#[test]
fn fresh_bump_space_allocates_at_its_start() {
    let mut s = comet::bump_pointer_space::BumpPointerSpace::new(1000, 64);
    assert!(s.contains(1000));
    assert!(!s.contains(1064));
    assert_eq!(s.bump_alloc(16), 1000);
    assert_eq!(s.bump_alloc(64), 0);
    assert_eq!(s.bump_alloc(48), 1016);
}

#[test]
fn global_heap_size_classes() {
    let approx = [80, 112, 156, 219, 307, 430, 602, 843, 1180, 1652, 2314, 3239, 4535, 6349, 8889];
    let classes = comet::size_classes::generate_size_classes(&approx, 16384 - 64);
    assert_eq!(
        classes,
        vec![16, 32, 48, 64, 80, 112, 160, 224, 256, 320, 432, 624, 848, 1248, 1808, 2320, 3264, 5440, 8160]
    );
}

#[test]
fn global_heap_step_table_gives_the_first_covering_class() {
    let table = comet::size_classes::build_step_size_table(&[16, 48, 112], 10);
    assert_eq!(table, vec![16, 16, 48, 48, 112, 112, 112, 112, 128, 144]);
}

#[test]
fn cleared_weak_ref_reads_none_in_every_copy() {
    let mut heap: comet::heap::Heap<i32> = comet::heap::Heap::new(1 << 20, 1 << 20);
    let a = heap.allocate(5, vec![], 8);
    let cell = heap.allocate_weak(a);
    let w = comet::heap::WeakRef::new(cell);
    let copy = w;
    w.clear(&mut heap);
    assert_eq!(w.upgrade(&heap), None);
    assert_eq!(copy.upgrade(&heap), None);
    heap.collect_garbage(&vec![a, cell]);
    assert_eq!(copy.upgrade(&heap), None);
}

#[test]
fn requested_heap_sizes_under_a_mebibyte_fall_back_to_the_default() {
    assert_eq!(comet::heap::configured_heap_size(None), comet::heap::DEFAULT_HEAP_SIZE);
    assert_eq!(comet::heap::configured_heap_size(Some(1024)), 1 << 30);
    assert_eq!(comet::heap::configured_heap_size(Some(1 << 20)), 1 << 20);
    assert_eq!(comet::heap::configured_heap_size(Some(64 << 20)), 64 << 20);
}
