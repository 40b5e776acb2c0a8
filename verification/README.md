# Adventure Quest voxel core

A verified library for a block-voxel game: chunk storage with occupancy, dirty,
visible and full-solid masks, a streamed world of chunks, seeded terrain generation,
face meshing (against the live world or a copied snapshot), block breaking and
placing, the chunk save format, and the client's decisions: menus and settings text
boxes, chunk budgets, mesh and generation job bookkeeping, and world loading.

The functions of `src/` state what they do in `requires`/`ensures` contracts, and the
laws that tie several of them together are proof functions beside them.

## Layout

- `src/coords.rs`: chunk and block coordinates.
- `src/voxels.rs`: 32×32×32 chunks, indexing, subchunk masks, world/chunk conversion.
- `src/block_config.rs`: block labels, opacity and texture atlas cells.
- `src/terrain.rs`: seeded terrain heights, caves and ores from noise samples.
- `src/world.rs`: the world of loaded chunks, edits and streaming boxes.
- `src/meshing.rs`: visible faces of chunks and subchunks, neighbor borders.
- `src/gameplay.rs`: the hotbar and what breaking and placing blocks do.
- `src/persistence.rs`: the binary chunk save format.
- `src/settings_file.rs`: the `key=value` settings file.
- `src/client.rs`: client options, settings values, input, streaming and the dirty-mesh queue.
- `src/menu.rs`: screens, menu clicks, keys and window events.
- `src/chunk_budget.rs`: unloading far chunks and keeping drawn meshes within budget.
- `src/jobs.rs`: pending worker jobs and what finished jobs do.
- `src/world_load.rs`: generating and meshing a world before play.
- `src/ordering.rs`: the stable sort used for chunk priorities.
- `src/glyphs.rs`: the 5×7 pixel font.
- `app/`: the command-line program: file I/O, floating-point noise, ray casts,
  collision and vertex data around the library.
