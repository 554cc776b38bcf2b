# sg_wasm

Stained-glass panel generation: an image is covered with a hatch pattern,
each cell takes the nearest palette colour of the image under it, and the
panel is either rasterised as a flat preview or extruded into glass prisms
and lead frames and written out as a binary glTF (GLB) file.

`src/` is the verified library (Verus). It holds the integer and byte-level
logic of the pipeline:

- `glb` – binary buffer layout (little-endian words, buffer views,
  accessors, primitives) and GLB container framing;
- `mesh` – the triangle-soup mesh and the face plans of prism and
  lead-frame extrusion;
- `palette` – flat RGB palettes, image sampling, nearest-colour assignment;
- `raster` – preview background and span painting;
- `geom` – Sutherland–Hodgman case analysis, winding normalisation,
  pattern names;
- `merge` – the bucket grid and the decision to merge same-coloured cells;
- `kmeans` – the deterministic random source and cluster count.

`app/` is the WebAssembly-facing shell: the `wasm_bindgen` entry points,
all floating-point geometry (tessellation, clipping coordinates, insets,
normals, k-means centroids) and the JSON document of the GLB file
(serde_json). `tests/` exercises the library.
