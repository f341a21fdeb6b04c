//! Integer geometry for clustering cities whose positions are known only up
//! to a rectangle: points and rectangles on the plane.
pub mod coord;
pub mod rectangle;
pub mod union_find;
pub mod forest;
