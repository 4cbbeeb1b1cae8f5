//! A point on a three-dimensional integer grid, with its neighborhood
//! helpers.

use crate::point::point_2d::abs_int;
use vstd::prelude::*;

verus! {

#[derive(Clone, Copy, Debug, Hash, PartialEq, Eq, Structural)]
pub struct Point3D {
    pub x: i64,
    pub y: i64,
    pub z: i64,
}

/// The 26 offsets around a cell, in reading order (z, then y, then x),
/// with the center left out.
pub open spec fn all_offsets() -> Seq<(int, int, int)> {
    seq![
        (-1, -1, -1), (0, -1, -1), (1, -1, -1),
        (-1, 0, -1), (0, 0, -1), (1, 0, -1),
        (-1, 1, -1), (0, 1, -1), (1, 1, -1),
        (-1, -1, 0), (0, -1, 0), (1, -1, 0),
        (-1, 0, 0), (1, 0, 0),
        (-1, 1, 0), (0, 1, 0), (1, 1, 0),
        (-1, -1, 1), (0, -1, 1), (1, -1, 1),
        (-1, 0, 1), (0, 0, 1), (1, 0, 1),
        (-1, 1, 1), (0, 1, 1), (1, 1, 1),
    ]
}

/// The point `p` moved by an offset, with wrapping arithmetic.
pub open spec fn moved(p: Point3D, d: (int, int, int)) -> Point3D {
    Point3D {
        x: if d.0 < 0 {
            p.x.wrapping_sub(1)
        } else if d.0 > 0 {
            p.x.wrapping_add(1)
        } else {
            p.x
        },
        y: if d.1 < 0 {
            p.y.wrapping_sub(1)
        } else if d.1 > 0 {
            p.y.wrapping_add(1)
        } else {
            p.y
        },
        z: if d.2 < 0 {
            p.z.wrapping_sub(1)
        } else if d.2 > 0 {
            p.z.wrapping_add(1)
        } else {
            p.z
        },
    }
}

impl Point3D {
    pub fn new(x: i64, y: i64, z: i64) -> (r: Self)
        ensures
            r == (Point3D { x, y, z }),
    {
        Point3D { x, y, z }
    }

    /// The taxicab distance between two points.
    pub fn manhattan_dist(&self, rhs: &Self) -> (r: i64)
        requires
            -i64::MAX <= self.x - rhs.x <= i64::MAX,
            -i64::MAX <= self.y - rhs.y <= i64::MAX,
            -i64::MAX <= self.z - rhs.z <= i64::MAX,
            abs_int(self.x - rhs.x) + abs_int(self.y - rhs.y) + abs_int(self.z - rhs.z)
                <= i64::MAX,
        ensures
            r == abs_int(self.x - rhs.x) + abs_int(self.y - rhs.y) + abs_int(self.z - rhs.z),
    {
        let dx = if self.x >= rhs.x {
            self.x - rhs.x
        } else {
            rhs.x - self.x
        };
        let dy = if self.y >= rhs.y {
            self.y - rhs.y
        } else {
            rhs.y - self.y
        };
        let dz = if self.z >= rhs.z {
            self.z - rhs.z
        } else {
            rhs.z - self.z
        };
        dx + dy + dz
    }

    /// The six orthogonal neighbors, in reading order.
    pub fn cardinal_neighbors(&self) -> (r: [Self; 6])
        ensures
            r@ =~= Seq::new(6, |i: int| moved(*self, cardinal_offsets()[i])),
    {
        let x0 = self.x.wrapping_sub(1);
        let x1 = self.x;
        let x2 = self.x.wrapping_add(1);
        let y0 = self.y.wrapping_sub(1);
        let y1 = self.y;
        let y2 = self.y.wrapping_add(1);
        let z0 = self.z.wrapping_sub(1);
        let z1 = self.z;
        let z2 = self.z.wrapping_add(1);
        [
            Self { x: x1, y: y1, z: z0 },
            Self { x: x1, y: y0, z: z1 },
            Self { x: x0, y: y1, z: z1 },
            Self { x: x2, y: y1, z: z1 },
            Self { x: x1, y: y2, z: z1 },
            Self { x: x1, y: y1, z: z2 },
        ]
    }

    /// The twenty neighbors that share no face with the cell, in
    /// reading order.
    pub fn diagonal_neighbors(&self) -> (r: [Self; 20])
        ensures
            r@ =~= Seq::new(20, |i: int| moved(*self, diagonal_offsets()[i])),
    {
        let x0 = self.x.wrapping_sub(1);
        let x1 = self.x;
        let x2 = self.x.wrapping_add(1);
        let y0 = self.y.wrapping_sub(1);
        let y1 = self.y;
        let y2 = self.y.wrapping_add(1);
        let z0 = self.z.wrapping_sub(1);
        let z1 = self.z;
        let z2 = self.z.wrapping_add(1);
        [
            Self { x: x0, y: y0, z: z0 },
            Self { x: x1, y: y0, z: z0 },
            Self { x: x2, y: y0, z: z0 },
            Self { x: x0, y: y1, z: z0 },
            Self { x: x2, y: y1, z: z0 },
            Self { x: x0, y: y2, z: z0 },
            Self { x: x1, y: y2, z: z0 },
            Self { x: x2, y: y2, z: z0 },
            Self { x: x0, y: y0, z: z1 },
            Self { x: x2, y: y0, z: z1 },
            Self { x: x0, y: y2, z: z1 },
            Self { x: x2, y: y2, z: z1 },
            Self { x: x0, y: y0, z: z2 },
            Self { x: x1, y: y0, z: z2 },
            Self { x: x2, y: y0, z: z2 },
            Self { x: x0, y: y1, z: z2 },
            Self { x: x2, y: y1, z: z2 },
            Self { x: x0, y: y2, z: z2 },
            Self { x: x1, y: y2, z: z2 },
            Self { x: x2, y: y2, z: z2 },
        ]
    }

    /// All 26 neighbors, in reading order.
    pub fn all_neighbors(&self) -> (r: [Self; 26])
        ensures
            r@ =~= Seq::new(26, |i: int| moved(*self, all_offsets()[i])),
    {
        let x0 = self.x.wrapping_sub(1);
        let x1 = self.x;
        let x2 = self.x.wrapping_add(1);
        let y0 = self.y.wrapping_sub(1);
        let y1 = self.y;
        let y2 = self.y.wrapping_add(1);
        let z0 = self.z.wrapping_sub(1);
        let z1 = self.z;
        let z2 = self.z.wrapping_add(1);
        [
            Self { x: x0, y: y0, z: z0 },
            Self { x: x1, y: y0, z: z0 },
            Self { x: x2, y: y0, z: z0 },
            Self { x: x0, y: y1, z: z0 },
            Self { x: x1, y: y1, z: z0 },
            Self { x: x2, y: y1, z: z0 },
            Self { x: x0, y: y2, z: z0 },
            Self { x: x1, y: y2, z: z0 },
            Self { x: x2, y: y2, z: z0 },
            Self { x: x0, y: y0, z: z1 },
            Self { x: x1, y: y0, z: z1 },
            Self { x: x2, y: y0, z: z1 },
            Self { x: x0, y: y1, z: z1 },
            Self { x: x2, y: y1, z: z1 },
            Self { x: x0, y: y2, z: z1 },
            Self { x: x1, y: y2, z: z1 },
            Self { x: x2, y: y2, z: z1 },
            Self { x: x0, y: y0, z: z2 },
            Self { x: x1, y: y0, z: z2 },
            Self { x: x2, y: y0, z: z2 },
            Self { x: x0, y: y1, z: z2 },
            Self { x: x1, y: y1, z: z2 },
            Self { x: x2, y: y1, z: z2 },
            Self { x: x0, y: y2, z: z2 },
            Self { x: x1, y: y2, z: z2 },
            Self { x: x2, y: y2, z: z2 },
        ]
    }

    /// All coordinates multiplied by `v`.
    pub fn scale(&self, v: i64) -> (r: Self)
        requires
            i64::MIN <= self.x * v <= i64::MAX,
            i64::MIN <= self.y * v <= i64::MAX,
            i64::MIN <= self.z * v <= i64::MAX,
        ensures
            r == (Point3D {
                x: (self.x * v) as i64,
                y: (self.y * v) as i64,
                z: (self.z * v) as i64,
            }),
    {
        Self { x: self.x * v, y: self.y * v, z: self.z * v }
    }
}

/// The six orthogonal offsets, in reading order.
pub open spec fn cardinal_offsets() -> Seq<(int, int, int)> {
    seq![(0, 0, -1), (0, -1, 0), (-1, 0, 0), (1, 0, 0), (0, 1, 0), (0, 0, 1)]
}

/// The twenty offsets that change at least two coordinates, in reading
/// order.
pub open spec fn diagonal_offsets() -> Seq<(int, int, int)> {
    seq![
        (-1, -1, -1), (0, -1, -1), (1, -1, -1),
        (-1, 0, -1), (1, 0, -1),
        (-1, 1, -1), (0, 1, -1), (1, 1, -1),
        (-1, -1, 0), (1, -1, 0),
        (-1, 1, 0), (1, 1, 0),
        (-1, -1, 1), (0, -1, 1), (1, -1, 1),
        (-1, 0, 1), (1, 0, 1),
        (-1, 1, 1), (0, 1, 1), (1, 1, 1),
    ]
}

} // verus!
