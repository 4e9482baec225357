//! Verified core of a small 2D game framework: tile grids, quadtree layout, texture
//! atlases, draw-call bookkeeping and batching, animations, colour codes and the glyph
//! cache.
pub mod geom;
pub mod graphics;
