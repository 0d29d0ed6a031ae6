# pathtracer

A physically based path tracer. The library (`src/`) holds the parts of the
renderer that do not depend on floating-point arithmetic, each with a contract
proved by Verus:

- `primitives`: choosing the nearer of two intersections (`min_intersection`),
  sweeping a list of hits for the nearest one (`nearest_hit`), and moving
  triangles and meshes by caller-supplied point and direction transforms.
- `triangle`, `triangle_mesh`: triangles and meshes over any point type, and
  their assembly from vertex and index lists.
- `bounding_volume_hierarchy`: the hierarchy over the scene's primitives — its
  construction (bucket counts, the split of a level, the shape of every node
  and the boxes around its children, stated by `built_from`), the traversal
  that finds the nearest hit and what it leaves unchanged, and the proof that,
  when the boxes given by the caller's bounds never hide a hit, pruning by
  boxes finds a hit exactly when a sweep over all primitives does, at the
  same distance.
- `pathtracer`: the layout of the image buffer and its division into chunks
  for the worker threads.
- `materials`, `gltf`: the mirror material and the loader's error type.

The program in `app/` supplies the geometry, shading, sampling, file input and
output and threads, all of which work on `f32` values, and calls the library
for the rest.
