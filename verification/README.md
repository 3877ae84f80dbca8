# foxtrot_mesh

The integer and topological core of a STEP-to-mesh triangulation and
thumbnail pipeline, verified with Verus.

`src/` holds the verified library:

- `mesh`, `model`: triangle meshes, combining and instancing them, winding
  flips, index lists; laws on combining (identity, associativity).
- `transform`, `traverse`, `cycles`, `maps`: the transform stack of an
  assembly, its roots and orientation, the walk from the roots that decides
  which solids are drawn under which chains of transforms, and the check
  that this walk ends (`ahash` maps behind trusted wrappers).
- `geometry`: which curve an edge follows and which surface a face lies
  on, with the errors for unsupported entities.
- `faces`, `contour`: the faces of a solid, the contours and constrained
  edges of a face, the Steiner-point retry rule.
- `batch`: layouts of the batched GPU pass (offsets, owners, transform
  slots, triangle replication, dispatch sizes).
- `stats`, `error`: counters (per face and per GPU batch) and error kinds.
- `files`: which files of the examples directory a batch run takes.
- `image`, `encode`: pixel work of the thumbnailer (texture readback,
  placeholder, channel swap, row flip, crop) and PNG output through the
  `png` crate.
- `mouse`: the viewer's mouse state machine.

`app/` holds the unverified glue: floating-point geometry (camera,
transforms, scaling), file output, and an error type with `Display`.
