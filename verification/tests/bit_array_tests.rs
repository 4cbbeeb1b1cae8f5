use aoc_toolkit::bit_array::BitArray;

#[test]
fn bit_array_set_get() {
    let mut b = BitArray::new(100);
    assert_eq!(b.capacity(), 128);
    for i in 0..128 {
        assert!(!b.get(i));
    }
    assert!(!b.set(5, true));
    assert!(b.get(5));
    assert!(b.set(5, true));
    assert!(b.set(5, false));
    assert!(!b.get(5));
    b.set(64, true);
    b.set(127, true);
    assert!(b.get(64) && b.get(127) && !b.get(63));
}

#[test]
fn bit_array_copy_from() {
    let mut a = BitArray::new(64);
    let mut b = BitArray::new(128);
    b.set(100, true);
    a.copy_from(&b);
    assert_eq!(a.capacity(), 128);
    assert!(a.get(100));
    assert!(!a.get(99));
}
