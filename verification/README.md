# threedee

A small software rasterizer: a spinning unit cube, or a mesh read from a
Wavefront OBJ file, drawn with SDL2 and painted from the farthest triangle to
the nearest.

- `src/` is the verified library:
  - `text`: lines and white-space tokens of a text;
  - `number`: the integer and floating-point tokens of the OBJ format;
  - `obj`: reading an OBJ mesh (`v` and `f` lines);
  - `obj_laws`: what reading depends on (only the tokens of `v` and `f` lines)
    and reading a text piece by piece;
  - `cube`: the unit cube with integer corners, wound to face outward;
  - `painter`: comparing depths as `f64`s do, and the painter's order (with `pdqsort`);
  - `input`: window events, environment switches and the aspect ratio.
- `app/main.rs` is the program: SDL2 window and events, the floating-point
  projection and shading, and file and environment access.
- `tests/` holds the library's tests.

Settings come from the environment (or a `.env` file): `USE_OBJ`, `OBJ_FILE`,
`RASTERIZE`, `DRAW_WIREFRAME` (switches that are on unless set to something
other than `1`), `DISTANCE` and `THETA`.
