# personal_site

The "words as rocks in a stream" WebGPU page, split in two:

- `src/` — the verified library (Verus). Everything the renderer decides on
  integers and bytes, each function with a contract proved by Verus:
  - `thinning` — Zhang-Suen thinning of a binary mask to its skeleton;
  - `distance` — the 8SSEDT two-sweep distance transform;
  - `stroke` — the ordered stroke-centreline trace of a word (threshold, thin,
    flood-fill into pieces, order them left to right, walk each piece);
  - `pixels` — red-channel extraction and RGBA packing of coverage layers;
  - `phrases` — the live phrase list with its baked fallback;
  - `layout` — the balanced two-line split of a phrase;
  - `rng` — the xorshift32 particle seeder;
  - `sizing` — texture and dispatch sizes;
  - `cycle` — the phrase cycle of the frame loop (hold, exit, enter);
  - `grid` — row-major index arithmetic used by the proofs.
  The `law_*` proof functions state properties that span calls (thinning is
  idempotent and unique, the trace visits every skeleton pixel once, …).
- `app/` — the browser program around it: canvas rasterisation, wgpu setup
  and shaders, the frame loop, gesture handling, and every floating-point
  computation, calling into the library for the verified parts.

`tests/` exercises the library on concrete rasters and lists.
