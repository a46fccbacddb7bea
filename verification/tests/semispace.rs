use comet::semispace::SemiSpace;

#[test]
fn copying_collection_renumbers_survivors() {
    let mut h: SemiSpace<&str> = SemiSpace::new(4096);
    let mut roots: Vec<usize> = Vec::new();
    let dead = h.alloc_inline(&mut roots, "dead", Vec::new(), 8).unwrap();
    let leaf = h.alloc_inline(&mut roots, "leaf", Vec::new(), 8).unwrap();
    let root = h.alloc_inline(&mut roots, "root", vec![leaf], 8).unwrap();
    assert_eq!((dead, leaf, root), (0, 1, 2));
    assert_eq!(h.used(), 3 * 24);
    let mut roots = vec![root];
    h.collect(&mut roots);
    assert_eq!(h.len(), 2);
    assert_eq!(h.used(), 2 * 24);
    // the root is copied first, then what it references
    assert_eq!(roots, vec![0]);
    assert_eq!(h.get(0), Some(&"root"));
    assert_eq!(h.get(1), Some(&"leaf"));
}

#[test]
fn weak_referents_survive_only_when_reachable() {
    let mut h: SemiSpace<i32> = SemiSpace::new(1 << 20);
    let mut roots: Vec<usize> = Vec::new();
    let value = h.alloc_inline(&mut roots, 42, Vec::new(), 4).unwrap();
    let rooted = h.alloc_inline(&mut roots, 44, Vec::new(), 4).unwrap();
    let weak1 = h.allocate_weak(value).unwrap();
    let weak2 = h.allocate_weak(rooted).unwrap();
    assert_eq!(h.get(h.upgrade(weak1).unwrap()), Some(&42));
    let mut roots = vec![rooted, weak1, weak2];
    h.collect(&mut roots);
    let (rooted, weak1, weak2) = (roots[0], roots[1], roots[2]);
    assert_eq!(h.upgrade(weak1), None);
    assert_eq!(h.upgrade(weak2), Some(rooted));
    assert_eq!(h.get(rooted), Some(&44));
    assert_eq!(h.len(), 3);
}

#[test]
fn allocation_collects_when_the_space_is_full() {
    // room for two objects of 24 bytes
    let mut h: SemiSpace<u8> = SemiSpace::new(48);
    let mut roots: Vec<usize> = Vec::new();
    let a = h.alloc_inline(&mut roots, 1, Vec::new(), 8).unwrap();
    let _b = h.alloc_inline(&mut roots, 2, Vec::new(), 8).unwrap();
    roots.push(a);
    // the third allocation collects: the unrooted object goes away
    let c = h.alloc_inline(&mut roots, 3, Vec::new(), 8).unwrap();
    assert_eq!(roots, vec![0]);
    assert_eq!(c, 1);
    assert_eq!(h.get(0), Some(&1));
    assert_eq!(h.get(1), Some(&3));
    // now both objects are rooted and nothing more fits
    roots.push(c);
    assert_eq!(h.alloc_inline(&mut roots, 4, Vec::new(), 8), None);
    assert_eq!(h.len(), 2);
}

#[test]
fn references_of_a_new_object_are_renumbered_by_the_collection() {
    let mut h: SemiSpace<char> = SemiSpace::new(48);
    let mut roots: Vec<usize> = Vec::new();
    let _garbage = h.alloc_inline(&mut roots, 'g', Vec::new(), 8).unwrap();
    let kept = h.alloc_inline(&mut roots, 'k', Vec::new(), 8).unwrap();
    let parent = h.alloc_inline(&mut roots, 'p', vec![kept], 8).unwrap();
    assert_eq!(parent, 1);
    assert_eq!(h.get(0), Some(&'k'));
    assert_eq!(h.get(1), Some(&'p'));
}
