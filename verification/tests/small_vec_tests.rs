use aoc_toolkit::small_vec::SmallVec;

#[derive(Debug, PartialEq)]
enum TestEnum {
    A,
    B,
    C,
    D,
}

fn enc(v: TestEnum) -> u64 {
    match v {
        TestEnum::A => 0,
        TestEnum::B => 1,
        TestEnum::C => 2,
        TestEnum::D => 3,
    }
}

fn dec(v: u64) -> TestEnum {
    match v {
        0 => TestEnum::A,
        1 => TestEnum::B,
        2 => TestEnum::C,
        3 => TestEnum::D,
        _ => panic!("{v:?} is an invalid TestEnum"),
    }
}

fn expect(array: &SmallVec<u16, 2>, buffer: u16, len: u8) {
    assert_eq!(
        array.buffer(),
        buffer,
        "Expected array.buffer() to be {:08b}, got {:08b}",
        buffer,
        array.buffer()
    );
    assert_eq!(
        array.len(),
        len,
        "Expected array.len() to be {}, got {}",
        len,
        array.len()
    );
}

#[test]
fn small_vec() {
    let mut array: SmallVec<u16, 2> = SmallVec::new();

    expect(&array, 0b00000000, 0);

    array.push(enc(TestEnum::A));
    expect(&array, 0b00000000, 1);

    array.push(enc(TestEnum::B));
    expect(&array, 0b00000100, 2);

    array.push(enc(TestEnum::C));
    expect(&array, 0b00100100, 3);

    array.push(enc(TestEnum::D));
    expect(&array, 0b11100100, 4);

    assert_eq!(array.pop().map(dec), Some(TestEnum::D));
    expect(&array, 0b00100100, 3);
    assert_eq!(array.pop().map(dec), Some(TestEnum::C));
    expect(&array, 0b00000100, 2);
    assert_eq!(array.pop().map(dec), Some(TestEnum::B));
    expect(&array, 0b00000000, 1);
    assert_eq!(array.pop().map(dec), Some(TestEnum::A));
    expect(&array, 0b00000000, 0);
    assert_eq!(array.pop().map(dec), None);
    expect(&array, 0b00000000, 0);
}

#[test]
fn small_vec_iter() {
    let mut array: SmallVec<u16, 2> = SmallVec::new();
    array.push(enc(TestEnum::A));
    array.push(enc(TestEnum::B));
    array.push(enc(TestEnum::C));
    array.push(enc(TestEnum::D));

    for _ in 0..2 {
        let mut iter = array.iter();
        assert_eq!(iter.next().map(dec), Some(TestEnum::A));
        assert_eq!(iter.next().map(dec), Some(TestEnum::B));
        assert_eq!(iter.next().map(dec), Some(TestEnum::C));
        assert_eq!(iter.next().map(dec), Some(TestEnum::D));
        assert_eq!(iter.next().map(dec), None);
        assert_eq!(iter.next().map(dec), None);
    }

    for _ in 0..2 {
        let mut iter = array.iter();
        assert_eq!(iter.next_back().map(dec), Some(TestEnum::D));
        assert_eq!(iter.next_back().map(dec), Some(TestEnum::C));
        assert_eq!(iter.next_back().map(dec), Some(TestEnum::B));
        assert_eq!(iter.next_back().map(dec), Some(TestEnum::A));
        assert_eq!(iter.next_back().map(dec), None);
        assert_eq!(iter.next_back().map(dec), None);
    }

    let mut iter = array.iter();
    assert_eq!(iter.next().map(dec), Some(TestEnum::A));
    assert_eq!(iter.next_back().map(dec), Some(TestEnum::D));
    assert_eq!(iter.next().map(dec), Some(TestEnum::B));
    assert_eq!(iter.next_back().map(dec), Some(TestEnum::C));
    assert_eq!(iter.next().map(dec), None);
    assert_eq!(iter.next().map(dec), None);
}

#[test]
fn small_vec_capacity() {
    let array: SmallVec<u16, 1> = SmallVec::new();
    assert_eq!(array.capacity(), 13);

    let array: SmallVec<u16, 2> = SmallVec::new();
    assert_eq!(array.capacity(), 6);

    let array: SmallVec<u32, 3> = SmallVec::new();
    assert_eq!(array.capacity(), 9);
}
