# guiltty

Pixel-level 2D drawing for terminals that speak the kitty graphics protocol, written in
Verus: every drawing routine carries a contract over a mathematical model of the canvas,
and the contracts are proved.

- `src/` is the verified library:
  - `geometry`, `canvas`: colors, points, rectangles; the RGBA8 canvas and its grid of
    write-version tiles (`region_version`), modelled by `CanvasView`.
  - `shape`, `line`, `polygon`, `draw`: filled rectangles, ellipses, triangles and
    even-odd polygons, clipped Bresenham lines and open paths, and `draw_shape`.
  - `text`: the built-in 3x5 font and `draw_text`.
  - `bitmap`, `sprite`: bitmaps (decoded with the `image` crate) and sprites that save the
    pixels they cover and restore them on the next draw, refusing when something else drew
    there in between.
  - `backend`, `kitty`: the `Backend` trait and the kitty encoder (built on `kittage`).
  - `ids`, `grid`, `error`: identifiers, grid arithmetic, the error type.
- `app/` holds what touches the outside world: reading image files, writing frames to a
  terminal, and `Display` for the error types.
- `tests/` exercises the library on concrete values.
