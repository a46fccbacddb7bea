use comet::immix::{CHUNK_SIZE, IMMIX_LINE_SIZE};
use comet::immix_heap::Immix;
use comet::immix_space::ImmixSpace;

const BASE: usize = 64 * CHUNK_SIZE;

fn fresh() -> Immix<u32> {
    Immix::new(ImmixSpace::new(BASE, CHUNK_SIZE, CHUNK_SIZE, 100, 1000))
}

#[test]
fn immix_collection_keeps_what_the_roots_reach() {
    let mut h = fresh();
    let a = h.alloc_inline(1, vec![], 8).unwrap();
    let b = h.alloc_inline(2, vec![], 8).unwrap();
    let c = h.alloc_inline(3, vec![a], 8).unwrap();
    assert_eq!((a, b, c), (0, 1, 2));
    let live = h.collect(&vec![c]);
    assert!(h.is_live(a));
    assert!(!h.is_live(b));
    assert!(h.is_live(c));
    assert_eq!(h.get(a), Some(&1));
    assert_eq!(h.get(b), None);
    assert_eq!(h.total_gc_cycles_count(), 1);
    // every survivor sits in the first object line of the first block
    assert_eq!(live, IMMIX_LINE_SIZE);
    assert_eq!(h.bytes_allocated(), live);
}

#[test]
fn immix_collection_clears_dead_weak_referents() {
    let mut h = fresh();
    let a = h.alloc_inline(1, vec![], 8).unwrap();
    let b = h.alloc_inline(2, vec![], 8).unwrap();
    let wa = h.allocate_weak(a).unwrap();
    let wb = h.allocate_weak(b).unwrap();
    let dropped = h.allocate_weak(a).unwrap();
    h.collect(&vec![a, wa, wb]);
    assert_eq!(h.upgrade(wa), Some(a));
    assert_eq!(h.upgrade(wb), None);
    assert!(!h.is_live(b));
    assert!(!h.is_live(dropped));
}

#[test]
fn immix_collection_with_no_roots_frees_every_line() {
    let mut h = fresh();
    h.alloc_inline(1, vec![], 8).unwrap();
    h.alloc_inline(2, vec![], 300).unwrap();
    assert_eq!(h.collect(&vec![]), 0);
    assert!(!h.is_live(0));
    assert!(!h.is_live(1));
    // a second collection finds nothing more to free
    assert_eq!(h.collect(&vec![]), 0);
    assert_eq!(h.total_gc_cycles_count(), 2);
}

#[test]
fn immix_target_footprint_is_clamped_to_the_heap_limits() {
    let mut h = fresh();
    h.set_target_footprint_from(50);
    assert_eq!(h.target_footprint(), 100);
    h.set_target_footprint_from(500);
    assert_eq!(h.target_footprint(), 500);
    h.set_target_footprint_from(5000);
    assert_eq!(h.target_footprint(), 1000);
}

#[test]
fn instantiated_immix_starts_empty() {
    let mut h: Immix<u8> = comet::immix_heap::instantiate_immix(BASE, CHUNK_SIZE + 1, 0, 100, 1000);
    assert_eq!(h.total_gc_cycles_count(), 0);
    assert_eq!(h.bytes_allocated(), 0);
    assert_eq!(h.target_footprint(), 100);
    assert!(!h.is_live(0));
    // a clean block would pass the target footprint of 100 bytes
    assert_eq!(h.alloc_inline(7, vec![], 1), None);
    assert!(!h.is_live(0));
}
