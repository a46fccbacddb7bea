use comet::space::{ContinuousSpace, MallocSpace};

#[test]
fn continuous_space_addresses() {
    let mut s = ContinuousSpace::new("old", 0x1000, 0x1800, 0x3000);
    assert_eq!(s.get_name(), "old");
    assert_eq!(s.size(), 0x800);
    assert_eq!(s.capacity(), 0x2000);
    assert!(s.has_address(0x1000));
    assert!(s.has_address(0x2fff));
    assert!(!s.has_address(0x3000));
    assert!(!s.has_address(0xfff));
    s.set_end(0x2000);
    assert_eq!(s.size(), 0x1000);
    assert!(s.is_continuous_space());
}

#[test]
fn create_mem_map_rounds_to_pages() {
    let sizes = MallocSpace::create_mem_map(8192, 4096, 10000, 20000);
    assert_eq!(sizes.initial_size, 8192);
    assert_eq!(sizes.growth_limit, 12288);
    assert_eq!(sizes.capacity, 20480);
}

#[test]
fn growth_limit_pulls_the_end_back() {
    let mut m = MallocSpace::new("malloc", 1 << 20, 0x10000, 0x10000 + 50000, 0x10000 + (1 << 20), 1 << 20, true, 4096, 4096);
    m.set_growth_limit(10000);
    assert_eq!(m.capacity(), 12288);
    let end = m.morecore(0);
    assert_eq!(end, 0x10000 + 12288);
    assert_eq!(m.morecore(100), 0x10000 + 12288);
    assert_eq!(m.morecore(-100), 0x10000 + 12388);
    assert_eq!(m.morecore(0), 0x10000 + 12288);
    m.clear_growth_limit();
    assert_eq!(m.capacity(), 1 << 20);
    m.disable_moving_objects();
    assert!(!m.can_move_objects());
    assert_eq!(m.non_growth_limit_capacity(), 1 << 20);
}
