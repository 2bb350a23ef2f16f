# rts

Game-state logic of a voxel real-time-strategy sandbox, written in Verus: every function in
`src/` carries a contract that Verus proves, and the laws the game relies on are stated as
proof functions.

## Layout

- `src/config.rs`: screen configuration and its defaults.
- `src/voxels.rs`: dense voxel boxes and the chunked terrain voxel map, kept in
  `building-blocks` storage behind small trusted wrappers.
- `src/chunks.rs`: render-chunk states and the super-chunk index used to find chunks near
  the camera.
- `src/terrain.rs`: the terrain: materials, generation, voxel edits, tiles placed and saved,
  mesh-job scheduling and ray casts.
- `src/tile.rs`, `src/tilesets.rs`: the tile text format (reading, writing, and the law that
  reading what was written gives the voxels back) and tileset bookkeeping.
- `src/mesh_parts.rs`: layout of a chunk mesh's parts in the shared vertex and index
  buffers.
- `src/upload.rs`: scheduling of GPU buffer uploads; every upload is answered exactly once.
- `src/dyn_mesh.rs`, `src/mesh_manager.rs`: dynamic meshes waiting for their buffers, and the
  manager that routes each upload answer to its mesh.
- `src/input.rs`, `src/ui.rs`: input state (keys, buttons, drags) and the decisions of the
  side panels.
- `tests/`: tests of the library on concrete values.
- `app/`: the command-line program: configuration and tile files (TOML and RON through
  serde), and height maps from floating-point Perlin noise.

## Collections

- Chunk states (by chunk point), the super-chunk index, the material table (by name) and the
  count of selected units by unit type are vectors with an invariant (distinct keys; no
  empty group), seen through map and set views. vstd's `HashMap` and `HashSet`
  specifications speak of the contents only for key types that obey vstd's hash-key model,
  which vstd establishes for integers and `bool`; for point triples, strings and the
  library's own enums with derived `Hash` and `Eq` it would have to be assumed, and without
  it nothing is proved about the contents, not even that a key just inserted is present. So
  hash maps are not used for them.
- Pending mesh-add requests are a vector ordered by request number.
- Upload ids to meshes use `HashMap<u64, usize>`: integer keys carry vstd's specification.
- A chunk mesh's parts are grouped by material in ascending order of material.

## Meshing

Greedy meshing of a chunk (building-blocks' `greedy_quads`) runs inside the mesh jobs, on
worker threads, over the padded voxel boxes that `Terrain::start_mesh_jobs` hands out. It
asks the voxel type to implement the mesh crate's voxel traits, which a type of the verified
library cannot carry, so the library leaves that call to the job runner. What the job's
quads become, the parts of the chunk's mesh grouped by material, is `plan_mesh_parts`, which
takes each quad's material as input; a job's result comes back through
`Terrain::finish_mesh_job`.
