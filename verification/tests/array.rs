use comet::array::{Array, FixedArray};

#[test]
fn array_of_defaults() {
    let a: Array<u64> = Array::new_with_default(4);
    assert_eq!(a.len(), 4);
    assert_eq!(a.as_slice(), &[0u64, 0, 0, 0][..]);
    assert_eq!(a.allocation_size(), 4 * 8 + 8);
}

#[test]
fn array_from_slice_and_update() {
    let mut a = Array::from_slice([1u32, 2, 3]);
    assert_eq!(*a.at(1), 2);
    *a.at_mut(1) = 20;
    assert_eq!(a.as_slice(), &[1u32, 20, 3][..]);
    assert_eq!(a.allocation_size(), 3 * 4 + 8);
}

#[test]
fn fixed_array_copies_its_elements() {
    let init = [5u16, 6, 7, 8, 9];
    let f = FixedArray::new(&init);
    assert_eq!(f.len(), 5);
    assert_eq!(f.as_ref(), &init[..]);
    assert_eq!(f.allocation_size(), 5 * 2 + 16);
}
