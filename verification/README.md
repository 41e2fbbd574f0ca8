# mctocs_rust

The mesh-building core of a converter from Minecraft structures to
Counter-Strike 2 (Source 2) maps, verified with Verus.

## Layout

- `src/names.rs` — block base names and material names.
- `src/greedy.rs` — face culling and greedy merging of block faces into
  rectangles, slice by slice, for each of the six face directions.
- `src/fxmap.rs` — the Fx-hashed maps the half-edge builder keeps, behind
  wrappers whose contracts speak of each map's contents.
- `src/halfedge.rs` — the half-edge topology of a list of faces: shared
  vertices, twin pairing, boundary twins, non-manifold vertex splitting and
  boundary linking.
- `src/kv2.rs` — a KeyValues2 text writer whose methods state the exact
  text they append.
- `src/vmap.rs` — the polygon-mesh block of a map: index arrays, materials
  and data streams, with each face's material chosen by name.
- `app/lib.rs` — the Python extension module: the floating-point geometry
  (coordinate rounding and conversion, texture coordinates, tangents,
  number formatting) and the conversions between Python values and the
  library's inputs.
- `tests/` — tests of the library on concrete meshes and grids.
