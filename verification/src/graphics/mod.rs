//! The graphics layer: atlas manifests, the draw queue and texture batching, draw order,
//! animations, colour codes, the glyph cache, textures and window settings, and gamepad
//! matching.
pub mod manifest_text;
pub mod atlas;
pub mod draw_queue;
pub mod batch;
pub mod animation;
pub mod color;
pub mod draw_order;
pub mod glyph_pixels;
pub mod texture;
pub mod scaling;
pub mod gamepads;
