//! Points on two- and three-dimensional integer grids.

pub mod point_2d;
pub mod point_3d;

pub use point_2d::Point2D;
pub use point_3d::Point3D;
