# pulsar_scenedb

The bookkeeping of a GPU-native scene database, verified with Verus.

A scene is kept on the CPU and mirrored to the device. The library decides what is kept where and
what has to be written; it never touches a device itself. It returns plain values: buffers to make,
ranges to upload, textures to bind. `app/` carries them out with wgpu and computes what is floating
point.

- `world`, `archetype`, `query`, `bundle`, `relation`: entities, their components, and walking them.
- `component`, `component_ref`, `component_methods`, `mut_guard`: components whose type is known at
  run time only, references to them, and guards that report writes.
- `change_journal`, `change_tracker`, `subscriptions`, `handle_ledger`: who learns of changes, and
  how often assets are referenced.
- `cell`: rows of a cell, whose handles survive compaction.
- `gpu/freelist`, `gpu/slot_allocator`, `gpu/region`, `gpu/byte_arena`: allocators.
- `gpu/dirty`, `gpu/runs`, `gpu/dynamic_buffer`, `gpu/dirty_tracked_scene_buffer`, `gpu/var_len_pool`,
  `gpu/interned_pool`: buffers and what of them has to be uploaded.
- `gpu/buffer_registry`, `gpu/system_binding`, `gpu/shared_buffers`, `gpu/column_map`: buffers by name.
- `gpu/cell_mirror`, `gpu/scene_store`, `gpu/device_writes`, `gpu/device_agreement`,
  `gpu/device_history`: the mirror of all cells, and what it makes true of the device.
- `gpu/world_mirror`: the mirror of components by entity.
- `gpu/grid`, `gpu/grid_executor`, `gpu/single`: which cells are resident where.
- `gpu/tier`, `gpu/tier_engine`, `gpu/tier_layout`: payloads on disk, in memory and on the device.

Each type has a view, a mathematical value that the contracts speak of, and each operation is a
function on it. Properties that span operations are public proof functions named `law_...`.

Locks and atomics are left to the caller: operations that change something take `&mut self`.
