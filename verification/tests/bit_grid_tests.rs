use aoc_toolkit::bit_grid::{BitGrid, BitGridConst};

#[test]
fn bit_grid() {
    let mut grid: BitGrid = BitGrid::new();
    let mut set_bits = std::collections::BTreeSet::new();

    println!("Checking to see if a new grid doesn't have any bits set");
    for y in 0..10 {
        for x in -10..10 {
            assert!(!grid.bit_is_set(x, y));
        }
    }

    println!("Checking to see if a clearing bits in a new grid doesn't resize the grid");
    for y in 0..10 {
        for x in -10..10 {
            grid.clear_bit(x, y)
        }
    }
    assert!(grid.grid.is_empty(), "Grid should still be empty");

    grid.set_bit(100, 100);
    set_bits.insert((100, 100));
    println!(
        "grid.len():{}  min:{:?}  max:{:?}  min_set:{:?}  max_set:{:?}  width:{}",
        grid.grid.len(),
        grid.min,
        grid.max,
        grid.min_set,
        grid.max_set,
        grid.width
    );
    assert_eq!(grid.grid.len(), 21);
    assert_eq!(grid.width, 64);
    assert_eq!(grid.min, (64, 90));
    assert_eq!(grid.max, (127, 110));
    assert_eq!(grid.min_set, (100, 100));
    assert_eq!(grid.max_set, (100, 100));

    println!("Check for resize in the -y dir");
    for i in 1..=10 {
        grid.set_bit(100, 100 - i);
        set_bits.insert((100, 100 - i));
    }
    assert_eq!(grid.grid.len(), 21);
    assert_eq!(grid.width, 64);
    assert_eq!(grid.min, (64, 90));
    assert_eq!(grid.max, (127, 110));
    assert_eq!(grid.min_set, (100, 90));
    assert_eq!(grid.max_set, (100, 100));

    // One more will resize
    grid.set_bit(100, 89);
    set_bits.insert((100, 89));
    assert_eq!(grid.grid.len(), 32);
    assert_eq!(grid.width, 64);
    assert_eq!(grid.min, (64, 79));
    assert_eq!(grid.max, (127, 110));
    assert_eq!(grid.min_set, (100, 89));
    assert_eq!(grid.max_set, (100, 100));

    println!("Check for resize in the +y dir");
    for i in 1..=10 {
        grid.set_bit(100, 100 + i);
        set_bits.insert((100, 100 + i));
    }
    assert_eq!(grid.grid.len(), 32);
    assert_eq!(grid.width, 64);
    assert_eq!(grid.min, (64, 79));
    assert_eq!(grid.max, (127, 110));
    assert_eq!(grid.min_set, (100, 89));
    assert_eq!(grid.max_set, (100, 110));

    // One more will resize
    grid.set_bit(100, 111);
    set_bits.insert((100, 111));

    println!(
        "grid.len():{}  min:{:?}  max:{:?}  min_set:{:?}  max_set:{:?}  width:{}",
        grid.grid.len(),
        grid.min,
        grid.max,
        grid.min_set,
        grid.max_set,
        grid.width
    );
    assert_eq!(grid.grid.len(), 43);
    assert_eq!(grid.width, 64);
    assert_eq!(grid.min, (64, 79));
    assert_eq!(grid.max, (127, 121));
    assert_eq!(grid.min_set, (100, 89));
    assert_eq!(grid.max_set, (100, 111));

    // Should still not resize
    grid.clear_bit(0, 100);
    assert_eq!(grid.grid.len(), 43);
    assert_eq!(grid.width, 64);
    assert_eq!(grid.min, (64, 79));
    assert_eq!(grid.max, (127, 121));
    assert_eq!(grid.min_set, (100, 89));
    assert_eq!(grid.max_set, (100, 111));

    // This will resize in the -x
    grid.set_bit(0, 100);
    set_bits.insert((0, 100));
    println!(
        "grid.len():{}  min:{:?}  max:{:?}  min_set:{:?}  max_set:{:?}  width:{}",
        grid.grid.len(),
        grid.min,
        grid.max,
        grid.min_set,
        grid.max_set,
        grid.width
    );
    assert_eq!(grid.grid.len(), 129);
    assert_eq!(grid.width, 192);
    assert_eq!(grid.min, (-64, 79));
    assert_eq!(grid.max, (127, 121));
    assert_eq!(grid.min_set, (0, 89));
    assert_eq!(grid.max_set, (100, 111));

    // This will resize in the +x
    grid.set_bit(255, 100);
    set_bits.insert((255, 100));
    println!(
        "grid.len():{}  min:{:?}  max:{:?}  min_set:{:?}  max_set:{:?}  width:{}",
        grid.grid.len(),
        grid.min,
        grid.max,
        grid.min_set,
        grid.max_set,
        grid.width
    );
    assert_eq!(grid.grid.len(), 258);
    assert_eq!(grid.width, 384);
    assert_eq!(grid.min, (-64, 79));
    assert_eq!(grid.max, (319, 121));
    assert_eq!(grid.min_set, (0, 89));
    assert_eq!(grid.max_set, (255, 111));

    // Scan to see if the set_bits and grid agree
    for y in grid.min.1..=grid.max.1 {
        for x in grid.min.0..=grid.max.0 {
            assert_eq!(grid.bit_is_set(x, y), set_bits.contains(&(x, y)));
        }
    }

    // Clear a bit and recheck set_bits and grid
    grid.clear_bit(100, 100);
    set_bits.remove(&(100, 100));
    for y in grid.min.1..=grid.max.1 {
        for x in grid.min.0..=grid.max.0 {
            assert_eq!(grid.bit_is_set(x, y), set_bits.contains(&(x, y)));
        }
    }
    assert_eq!(grid.grid.len(), 258);
    assert_eq!(grid.width, 384);
    assert_eq!(grid.min, (-64, 79));
    assert_eq!(grid.max, (319, 121));
    assert_eq!(grid.min_set, (0, 89));
    assert_eq!(grid.max_set, (255, 111));
}

fn min_max(i: i8) -> (i8, i8) {
    let min = (i >> 6) << 6;
    let max = ((i >> 6) << 6) + usize::BITS as i8 - 1;
    println!("{i} {min} {max}  {i:0b} {min:0b} {max:0b}");
    (min, max)
}

#[test]
fn test_min_max() {
    assert_eq!(min_max(0), (0, 63));
    assert_eq!(min_max(1), (0, 63));
    assert_eq!(min_max(-1), (-64, -1));
}

#[test]
fn bit_grid_const() {
    let mut g = BitGridConst::new(-64, -10, 128, 20);
    assert!(!g.bit_is_set(0, 0));
    g.set_bit(0, 0);
    g.set_bit(1, -1);
    g.set_bit(-1, 1);
    assert!(g.bit_is_set(0, 0));
    // bits 6..8 the row above, 3..5 the cell's row, 0..2 the row below
    assert_eq!(g.get_surround(0, 0), (1 << 8) | (1 << 4) | 1);
    g.clear_bit(0, 0);
    assert!(!g.bit_is_set(0, 0));
    g.clear();
    assert!(!g.bit_is_set(1, -1) && !g.bit_is_set(-1, 1));
}

#[test]
fn bit_grid_surround_and_count() {
    let mut grid: BitGrid = BitGrid::new();
    grid.set_bit(5, 5);
    grid.set_bit(4, 4);
    grid.set_bit(6, 6);
    assert_eq!(grid.count_set(), 3);
    let s = grid.get_surround(5, 5);
    // neighbor above-left and below-right, plus the center itself
    assert_eq!(s, (1 << 6) | (1 << 4) | (1 << 2));
    grid.clear();
    assert_eq!(grid.count_set(), 0);
}
