//! Spatial index structures.

pub mod quadtree;
