# quicksilver

The integer core of a small 2D game framework, written in Verus and verified: every
function in `src/` carries a contract that Verus proves.

- `src/geom/tilemap.rs` — tiles and the flat grid that stores them.
- `src/geom/quadtree.rs` — the node layout of a quadtree and the nodes that queries and
  collision checks visit.
- `src/graphics/manifest_text.rs`, `src/graphics/atlas.rs` — the libgdx / spine texture
  atlas manifest: lines, `name: value` pairs, items, numbers; pages and regions; grouping
  regions into images and animations.
- `src/graphics/draw_queue.rs` — elements, vertex indices, state-change lists, their
  merge and the draw ranges of a flush.
- `src/graphics/batch.rs` — texture batching of triangles and polygon fans.
- `src/graphics/draw_order.rs` — the order of draw calls of equal depth.
- `src/graphics/animation.rs` — frame timing of animations.
- `src/graphics/color.rs` — hexadecimal colour codes.
- `src/graphics/glyph_pixels.rs` — glyph pixels for the glyph cache, and what text layout
  does when caching fails.
- `src/graphics/texture.rs`, `src/graphics/scaling.rs` — texture handles, pixel formats
  and scaling settings.
- `src/graphics/gamepads.rs` — matching the gamepads of one update with the next.

`app/` holds what Verus does not check: `f32` geometry and colours, reading atlas files,
uploading glyphs with `golem`, text layout with `elefont`, and serialisable copies of
library types. `tests/` runs the library on concrete values.
