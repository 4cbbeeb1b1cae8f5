//! A point on a two-dimensional integer grid, with its neighborhood
//! helpers.

use vstd::prelude::*;

verus! {

/// The absolute value of a mathematical integer.
pub open spec fn abs_int(a: int) -> int {
    if a < 0 {
        -a
    } else {
        a
    }
}

#[derive(Clone, Copy, Debug, Hash, PartialEq, Eq, Structural)]
pub struct Point2D {
    pub x: i64,
    pub y: i64,
}

impl Point2D {
    pub fn new(x: i64, y: i64) -> (r: Self)
        ensures
            r == (Point2D { x, y }),
    {
        Point2D { x, y }
    }

    /// The taxicab distance between two points.
    pub fn manhattan_dist(&self, rhs: &Self) -> (r: i64)
        requires
            -i64::MAX <= self.x - rhs.x <= i64::MAX,
            -i64::MAX <= self.y - rhs.y <= i64::MAX,
            abs_int(self.x - rhs.x) + abs_int(self.y - rhs.y) <= i64::MAX,
        ensures
            r == abs_int(self.x - rhs.x) + abs_int(self.y - rhs.y),
    {
        let dx = if self.x >= rhs.x {
            self.x - rhs.x
        } else {
            rhs.x - self.x
        };
        let dy = if self.y >= rhs.y {
            self.y - rhs.y
        } else {
            rhs.y - self.y
        };
        dx + dy
    }

    /// The four orthogonal neighbors, in reading order: up, left,
    /// right, down.  Coordinates wrap at the integer boundaries.
    pub fn cardinal_neighbors(&self) -> (r: [Self; 4])
        ensures
            r@ =~= seq![
                Point2D { x: self.x, y: self.y.wrapping_sub(1) },
                Point2D { x: self.x.wrapping_sub(1), y: self.y },
                Point2D { x: self.x.wrapping_add(1), y: self.y },
                Point2D { x: self.x, y: self.y.wrapping_add(1) },
            ],
    {
        [
            Self { x: self.x, y: self.y.wrapping_sub(1) },
            Self { x: self.x.wrapping_sub(1), y: self.y },
            Self { x: self.x.wrapping_add(1), y: self.y },
            Self { x: self.x, y: self.y.wrapping_add(1) },
        ]
    }

    /// The four diagonal neighbors, in reading order.
    pub fn diagonal_neighbors(&self) -> (r: [Self; 4])
        ensures
            r@ =~= seq![
                Point2D { x: self.x.wrapping_sub(1), y: self.y.wrapping_sub(1) },
                Point2D { x: self.x.wrapping_add(1), y: self.y.wrapping_sub(1) },
                Point2D { x: self.x.wrapping_sub(1), y: self.y.wrapping_add(1) },
                Point2D { x: self.x.wrapping_add(1), y: self.y.wrapping_add(1) },
            ],
    {
        [
            Self { x: self.x.wrapping_sub(1), y: self.y.wrapping_sub(1) },
            Self { x: self.x.wrapping_add(1), y: self.y.wrapping_sub(1) },
            Self { x: self.x.wrapping_sub(1), y: self.y.wrapping_add(1) },
            Self { x: self.x.wrapping_add(1), y: self.y.wrapping_add(1) },
        ]
    }

    /// All eight neighbors, in reading order.
    pub fn all_neighbors(&self) -> (r: [Self; 8])
        ensures
            r@ =~= seq![
                Point2D { x: self.x.wrapping_sub(1), y: self.y.wrapping_sub(1) },
                Point2D { x: self.x, y: self.y.wrapping_sub(1) },
                Point2D { x: self.x.wrapping_add(1), y: self.y.wrapping_sub(1) },
                Point2D { x: self.x.wrapping_sub(1), y: self.y },
                Point2D { x: self.x.wrapping_add(1), y: self.y },
                Point2D { x: self.x.wrapping_sub(1), y: self.y.wrapping_add(1) },
                Point2D { x: self.x, y: self.y.wrapping_add(1) },
                Point2D { x: self.x.wrapping_add(1), y: self.y.wrapping_add(1) },
            ],
    {
        [
            Self { x: self.x.wrapping_sub(1), y: self.y.wrapping_sub(1) },
            Self { x: self.x, y: self.y.wrapping_sub(1) },
            Self { x: self.x.wrapping_add(1), y: self.y.wrapping_sub(1) },
            Self { x: self.x.wrapping_sub(1), y: self.y },
            Self { x: self.x.wrapping_add(1), y: self.y },
            Self { x: self.x.wrapping_sub(1), y: self.y.wrapping_add(1) },
            Self { x: self.x, y: self.y.wrapping_add(1) },
            Self { x: self.x.wrapping_add(1), y: self.y.wrapping_add(1) },
        ]
    }

    /// Both coordinates multiplied by `v`.
    pub fn scale(&self, v: i64) -> (r: Self)
        requires
            i64::MIN <= self.x * v <= i64::MAX,
            i64::MIN <= self.y * v <= i64::MAX,
        ensures
            r == (Point2D { x: (self.x * v) as i64, y: (self.y * v) as i64 }),
    {
        Self { x: self.x * v, y: self.y * v }
    }
}

} // verus!
