//! Drawing an axis-parallel polygon that encloses many mackerels and few
//! sardines.
pub mod common;
pub mod coord;
pub mod kmeans;
pub mod polygon;
pub mod perimeter;
pub mod state;
