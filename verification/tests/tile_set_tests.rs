use aoc_toolkit::tile_set::{Point, Tile, TileSet};

#[test]
fn tile_basic() {
    let t = Tile::new(Point::new(0, 0), Point::new(3, 1));
    assert_eq!(t.area(), 8);
    assert_eq!(Point::new(0, 0).manhattan_dist(&Point::new(3, 4)), 7);
}

#[test]
fn tile_overlap() {
    let a = Tile::new(Point::new(0, 0), Point::new(4, 4));
    let b = Tile::new(Point::new(3, 3), Point::new(6, 6));
    let o = a.overlaps(&b).expect("tiles overlap");
    assert_eq!(o, Tile::new(Point::new(3, 3), Point::new(4, 4)));
    let c = Tile::new(Point::new(5, 0), Point::new(6, 2));
    assert!(a.overlaps(&c).is_none());
}

#[test]
fn tile_overlap_remaining() {
    let a = Tile::new(Point::new(0, 0), Point::new(4, 4));
    let b = Tile::new(Point::new(1, 1), Point::new(3, 3));
    let rem = a.overlap_remaining(&b).expect("tiles overlap");
    let total: i64 = rem.iter().map(|t| t.area()).sum();
    assert_eq!(total, a.area() - b.area());
    let c = Tile::new(Point::new(9, 9), Point::new(10, 10));
    assert!(a.overlap_remaining(&c).is_none());
}

#[test]
fn tile_set_disjoint_absorb() {
    let mut ts = TileSet::new();
    ts.add_tile(Tile::new(Point::new(0, 0), Point::new(4, 4)));
    ts.add_tile(Tile::new(Point::new(2, 2), Point::new(6, 6)));
    // total area must count the overlapping square once
    let total: i64 = ts.iter().iter().map(|t| t.area()).sum();
    assert_eq!(total, 25 + 25 - 9);
    // no two stored tiles overlap
    let tiles = ts.iter();
    for i in 0..tiles.len() {
        for j in (i + 1)..tiles.len() {
            assert!(tiles[i].overlaps(&tiles[j]).is_none());
        }
    }
}

fn covers(ts: &TileSet, x: i64, y: i64) -> bool {
    ts.iter()
        .iter()
        .any(|t| t.overlaps(&Tile::new(Point::new(x, y), Point::new(x, y))).is_some())
}

#[test]
fn tile_set_add_covers_every_cell() {
    let mut ts = TileSet::new();
    ts.add_tile(Tile::new(Point::new(0, 0), Point::new(4, 4)));
    ts.add_tile(Tile::new(Point::new(2, 2), Point::new(6, 6)));
    for x in 0..=6 {
        for y in 0..=6 {
            let in_a = (0..=4).contains(&x) && (0..=4).contains(&y);
            let in_b = (2..=6).contains(&x) && (2..=6).contains(&y);
            assert_eq!(covers(&ts, x, y), in_a || in_b, "cell ({x}, {y})");
        }
    }
}

#[test]
fn tile_set_remove_tile() {
    let mut ts = TileSet::new();
    ts.add_tile(Tile::new(Point::new(0, 0), Point::new(3, 3)));
    ts.remove_tile(Tile::new(Point::new(1, 1), Point::new(2, 2)));
    let total: i64 = ts.iter().iter().map(|t| t.area()).sum();
    assert_eq!(total, 16 - 4);
    for x in 0..=3 {
        for y in 0..=3 {
            let hole = (1..=2).contains(&x) && (1..=2).contains(&y);
            assert_eq!(covers(&ts, x, y), !hole, "cell ({x}, {y})");
        }
    }
    // removing everything leaves nothing covered
    ts.remove_tile(Tile::new(Point::new(-10, -10), Point::new(10, 10)));
    let rest: i64 = ts.iter().iter().map(|t| t.area()).sum();
    assert_eq!(rest, 0);
}
