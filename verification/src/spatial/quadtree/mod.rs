//! A point quadtree over a two-dimensional integer grid.

pub mod prelude;
pub mod point_quadtree;
