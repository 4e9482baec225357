//! Tile storage and quadtree layout.
pub mod tilemap;
pub mod quadtree;
