# wboit_demo

Integer core of a Gaussian-splat viewer that compares three transparency techniques:
sorted alpha blending, weighted blended OIT, and histogram-equalized WBOIT. Every
function in `src/` carries a contract that Verus proves.

Modules of the library:

- `ply`: scene file headers, element layout, the checks a scene file must pass, the
  messages for refused files, and the packed fields of compressed scenes.
- `splats`: counting sort of depth keys, reordering of per-splat arrays, and the
  bookkeeping of sort requests.
- `renderer`: render modes, the tiled depth histogram grid, the render cap, the mesh
  objects drawn, and the surface choices.
- `controls`: window events, key bindings and the viewer's switches.
- `bench` and `quality`: benchmark progress, screenshot names, scored modes and the
  seeded view stream.
- `mesh`: index buffers of the built-in meshes.
- `cli`: command-line arguments.

`app/` holds the program: reading files, floating-point decoding, camera maths, the
sorting thread and output. `tests/` runs the library on concrete inputs.
