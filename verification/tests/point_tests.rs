use aoc_toolkit::point::{Point2D, Point3D};

fn all_directions_2d() -> Vec<Point2D> {
    let mut directions = Vec::new();
    for y in -1..=1 {
        for x in -1..=1 {
            if y == 0 && x == 0 {
                continue;
            }
            directions.push(Point2D::new(x, y));
        }
    }
    directions
}

fn is_cardinal_2d(p: &Point2D) -> bool {
    p.x == 0 || p.y == 0
}

fn is_diagonal_2d(p: &Point2D) -> bool {
    !is_cardinal_2d(p)
}

#[test]
fn point_2d_test_all_directions() {
    let p = Point2D::new(0, 0);
    let directions = all_directions_2d();
    let p_neighbors = p.all_neighbors();

    assert_eq!(directions.len(), p_neighbors.len());
    directions.iter().zip(p_neighbors.iter()).for_each(|(d, n)| {
        println!("neighbor: {n:?}  direction: {d:?}");
        assert_eq!(n, d);
    });
}

#[test]
fn point_2d_test_cardinal() {
    let p = Point2D::new(0, 0);
    let directions: Vec<Point2D> = all_directions_2d()
        .iter()
        .copied()
        .filter(is_cardinal_2d)
        .collect();
    let p_neighbors = p.cardinal_neighbors();

    assert_eq!(directions.len(), p_neighbors.len());
    directions.iter().zip(p_neighbors.iter()).for_each(|(d, n)| {
        println!("neighbor: {n:?}  direction: {d:?}");
        assert_eq!(n, d);
    });
}

#[test]
fn point_2d_test_diagonal() {
    let p = Point2D::new(0, 0);
    let directions: Vec<Point2D> = all_directions_2d()
        .iter()
        .copied()
        .filter(is_diagonal_2d)
        .collect();
    let p_neighbors = p.diagonal_neighbors();

    assert_eq!(directions.len(), p_neighbors.len());
    directions.iter().zip(p_neighbors.iter()).for_each(|(d, n)| {
        println!("neighbor: {n:?}  direction: {d:?}");
        assert_eq!(n, d);
    });
}

fn all_directions_3d() -> Vec<Point3D> {
    let mut directions = Vec::new();
    for z in -1..=1 {
        for y in -1..=1 {
            for x in -1..=1 {
                if z == 0 && y == 0 && x == 0 {
                    continue;
                }
                directions.push(Point3D::new(x, y, z));
            }
        }
    }
    directions
}

fn is_cardinal_3d(p: &Point3D) -> bool {
    (p.x == 0 && (p.y == 0 || p.z == 0)) || (p.y == 0 && p.z == 0)
}

fn is_diagonal_3d(p: &Point3D) -> bool {
    !is_cardinal_3d(p)
}

#[test]
fn point_3d_test_all_directions() {
    let p = Point3D::new(0, 0, 0);
    let directions = all_directions_3d();
    let p_neighbors = p.all_neighbors();

    assert_eq!(directions.len(), p_neighbors.len());
    directions.iter().zip(p_neighbors.iter()).for_each(|(d, n)| {
        println!("neighbor: {n:?}  direction: {d:?}");
        assert_eq!(n, d);
    });
}

#[test]
fn point_3d_test_cardinal() {
    let p = Point3D::new(0, 0, 0);
    let directions: Vec<Point3D> = all_directions_3d()
        .iter()
        .copied()
        .filter(is_cardinal_3d)
        .collect();
    let p_neighbors = p.cardinal_neighbors();

    assert_eq!(directions.len(), p_neighbors.len());
    directions.iter().zip(p_neighbors.iter()).for_each(|(d, n)| {
        println!("neighbor: {n:?}  direction: {d:?}");
        assert_eq!(n, d);
    });
}

#[test]
fn point_3d_test_diagonal() {
    let p = Point3D::new(0, 0, 0);
    let directions: Vec<Point3D> = all_directions_3d()
        .iter()
        .copied()
        .filter(is_diagonal_3d)
        .collect();
    let p_neighbors = p.diagonal_neighbors();

    assert_eq!(directions.len(), p_neighbors.len());
    directions.iter().zip(p_neighbors.iter()).for_each(|(d, n)| {
        println!("neighbor: {n:?}  direction: {d:?}");
        assert_eq!(n, d);
    });
}

#[test]
fn point_distances() {
    let a = Point2D::new(3, -4);
    let b = Point2D::new(-1, 2);
    assert_eq!(a.manhattan_dist(&b), 10);
    let c = Point3D::new(1, 2, 3);
    let d = Point3D::new(-1, 5, 0);
    assert_eq!(c.manhattan_dist(&d), 8);
    assert_eq!(a.scale(2), Point2D::new(6, -8));
}
