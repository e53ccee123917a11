# placehold

Placeholder images rendered locally: a solid, checkered or striped
background with the image's size (or a custom label) drawn in the centre with
the public-domain `font8x8` bitmap font.

The library under `src/` is written in Verus; every function carries a
contract that Verus proves.

- `size.rs` — `Size`, the size limits and `parse_size` ("WxH" or "N").
- `color.rs` — `Rgba`, `parse_color` (3, 4, 6 or 8 hex digits) and
  `alt_color`, the shade used by the patterns.
- `naming.rs` — default output file names and output extensions.
- `label.rs` — splitting a label into lines.
- `glyph.rs` — glyph lookup in `font8x8`.
- `canvas.rs` — `Canvas`, the pixel buffer of the `image` crate, described
  by a map from positions to RGBA values.
- `draw.rs` — drawing a (shadowed, multi-line) label.
- `render.rs` — solid, checkerboard and diagonal backgrounds, rounded
  corners and borders.
- `shape.rs` — the rounded-rectangle test.
- `laws.rs` — properties of the library as a whole.

The automatic label scale and the gradient background are computed in
floating point, which Verus does not reason about; they live in the command
line program under `app/`, which hands the fitted scale to the library.
