use aoc_toolkit::iter_pairs::IterPairs;

#[test]
fn pairs_iter() {
    let v = vec![1, 2, 3];
    let mut iter = v.pairs();
    assert_eq!(iter.next(), Some((1, 2)));
    assert_eq!(iter.next(), Some((2, 3)));
    assert_eq!(iter.next(), None);
}

#[test]
fn pairs_slice() {
    let v = vec![1, 2, 3];
    let mut iter = (&v).pairs();
    assert_eq!(iter.next(), Some((1, 2)));
    assert_eq!(iter.next(), Some((2, 3)));
    assert_eq!(iter.next(), None);
}
