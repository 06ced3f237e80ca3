use pulsar_scenedb::cell::{CellStorage, Handle};
use pulsar_scenedb::entity::ComponentId;
use pulsar_scenedb::gpu::buffer_registry::{BufferKey, MirrorMode, TypeKey};
use pulsar_scenedb::gpu::cell_mirror::FieldWrite;
use pulsar_scenedb::gpu::column_map::ColumnMap;
use pulsar_scenedb::gpu::device_writes::DeviceWrite;
use pulsar_scenedb::gpu::dirty_tracked_scene_buffer::DirtyTrackedSceneBuffer;
use pulsar_scenedb::gpu::dynamic_buffer::CapacityError;
use pulsar_scenedb::gpu::grid::{
    CellCoord, CellZones, Domain, GridConfig, StreamingBudget, StreamingGrid, Transition, WarmTierConfig,
};
use pulsar_scenedb::gpu::grid_executor::{
    execute_transitions, execute_transitions_with_ram, transition_action, RamHooks,
    TransitionAction, TransitionStats,
};
use pulsar_scenedb::gpu::placement::{structural_content_id, GpuHeavy, GpuRef};
use pulsar_scenedb::gpu::readback::{readback_len, row_range, ReadbackError};
use pulsar_scenedb::gpu::region::{RegionError, RegionPool};
use pulsar_scenedb::gpu::scatter_write::{scatter_dispatch, WORKGROUP_SIZE};
use pulsar_scenedb::gpu::scene_store::{
    cell_metadata_buffer_key, info_buffer_key, transform_buffer_key, BuiltinBuffers, BuiltinTypes,
    CellId, CellSlot, Phase, RegionClassConfig, SceneGpuConfig, SceneGpuStore,
};
use pulsar_scenedb::gpu::shared_buffers::{ElementDesc, ShareConflict, SharedKindTag};
use pulsar_scenedb::gpu::single::{Aabb, Single};
use pulsar_scenedb::gpu::world_mirror::{
    mirrored_fields, write_gpu_columns_at_row, GenerationMirror, GpuColumnDesc,
    GpuMirrorRegistration, GpuMirroredRows, MirrorRegistrations, MirroredField, DEFAULT_AUTO_REGISTER_CAPACITY,
};

const TRANSFORM: ComponentId = ComponentId(0);
const INFO: ComponentId = ComponentId(1);
const HEALTH: ComponentId = ComponentId(2);
const MANA: ComponentId = ComponentId(3);

const U32: ElementDesc = ElementDesc { element: TypeKey(32), size: 4 };

fn types() -> BuiltinTypes {
    BuiltinTypes {
        transform: TRANSFORM,
        transform_element: ElementDesc { element: TypeKey(1), size: 8 },
        info: INFO,
        info_element: ElementDesc { element: TypeKey(2), size: 4 },
        word: TypeKey(32),
        cell_metadata: TypeKey(3),
    }
}

fn buffers() -> BuiltinBuffers<&'static str> {
    BuiltinBuffers {
        transforms: "transforms",
        infos: "infos",
        generations: "generations",
        slot_mirror: "slots",
        cell_metadata: "metadata",
    }
}

fn config() -> SceneGpuConfig {
    SceneGpuConfig {
        classes: vec![
            RegionClassConfig { capacity: 4, max_resident_cells: 2 },
            RegionClassConfig { capacity: 8, max_resident_cells: 1 },
        ],
        tombstone_headroom: 2,
        max_cells_metadata: 16,
    }
}

fn store() -> SceneGpuStore<&'static str> {
    SceneGpuStore::new(&config(), types(), buffers())
}

fn new_cell() -> CellStorage {
    CellStorage::new(&[(TRANSFORM, 8), (INFO, 4)])
}

/// The contents of the device's buffers.
struct Device {
    columns: Vec<Vec<u8>>,
    slots: Vec<u32>,
    generations: Vec<u32>,
}

impl Device {
    fn new() -> Device {
        Device {
            columns: vec![vec![0; 16 * 8], vec![0; 16 * 4]],
            slots: vec![0; 16],
            generations: vec![0; 22],
        }
    }

    fn run(&mut self, writes: Vec<DeviceWrite>) {
        for write in writes {
            match write {
                DeviceWrite::Column(w) => {
                    let at = w.offset as usize;
                    self.columns[w.owner][at..at + w.bytes.len()].copy_from_slice(&w.bytes);
                }
                DeviceWrite::SlotMirror { row, slots } => {
                    let at = row as usize;
                    self.slots[at..at + slots.len()].copy_from_slice(&slots);
                }
                DeviceWrite::Generations { slot, generations } => {
                    let at = slot as usize;
                    self.generations[at..at + generations.len()].copy_from_slice(&generations);
                }
            }
        }
    }
}

/// One frame: what is done is retired, rows are moved up, and the device is brought up to date.
fn frame(
    store: &mut SceneGpuStore<&'static str>,
    slots: &mut Vec<CellSlot>,
    device: &mut Device,
    done: u64,
) -> u64 {
    let (writes, retired) = store.retire_all(slots, done);
    device.run(writes);
    store.compact_all(slots);
    let (writes, _) = store.sync_all(slots);
    device.run(writes);
    retired
}

#[test]
fn cells_hand_out_handles_and_keep_rows_dense() {
    let mut cell = new_cell();
    let a = cell.allocate();
    let b = cell.allocate();
    let c = cell.allocate();
    assert_eq!(cell.rows_in_use(), 3);
    cell.write_element(INFO, cell.row_of(c).unwrap(), &[9, 9, 9, 9]);
    let pending = cell.mark_pending_retire(a).unwrap();
    assert!(cell.is_row_pinned(pending.row));
    assert_eq!(cell.mark_pending_retire(a), None);
    cell.commit_retire(pending);
    assert_eq!(cell.row_of(a), None);
    assert_eq!(cell.compact_report(), vec![(2, 0)]);
    assert_eq!(cell.rows_in_use(), 2);
    assert_eq!(cell.row_of(c), Some(0));
    assert_eq!(cell.row_of(b), Some(1));
    assert_eq!(cell.column_raw_bytes(INFO).unwrap()[0..4], [9, 9, 9, 9]);
    assert_eq!(cell.column_size(TRANSFORM), Some(8));
    assert_eq!(cell.column_size(HEALTH), None);
    let again = cell.allocate();
    assert_eq!(again.index(), a.index());
    assert_ne!(again.generation(), a.generation());
    assert_eq!(cell.generations()[a.index() as usize], again.generation());
    assert_eq!(cell.slot_at(2), again.index());
}

#[test]
fn the_device_holds_what_the_cell_holds_after_a_frame() {
    let mut store = store();
    let mut device = Device::new();
    let mut cell = new_cell();
    let a = cell.allocate();
    let b = cell.allocate();
    let (id, writes) = store.register_cell(&cell, 1).unwrap();
    device.run(writes);
    let base = store.row_region_base(id) as usize;
    assert_eq!(base, 8);

    let (ok, write) = store.write_transform(id, &mut cell, b, vec![1, 2, 3, 4, 5, 6, 7, 8]);
    assert!(ok);
    device.run(write.into_iter().collect());
    assert!(store.write_instance_info(id, &mut cell, b, vec![7; 4]));
    let mut slots = vec![CellSlot { id, cell }];
    assert_eq!(frame(&mut store, &mut slots, &mut device, 0), 0);

    let row = base + slots[0].cell.row_of(b).unwrap() as usize;
    assert_eq!(device.columns[0][row * 8..row * 8 + 8], [1, 2, 3, 4, 5, 6, 7, 8]);
    assert_eq!(device.columns[1][row * 4..row * 4 + 4], [7; 4]);
    assert_eq!(device.slots[base..base + 2], [12 + a.index(), 12 + b.index()]);
}

#[test]
fn cells_are_mirrored_side_by_side_through_compaction() {
    let mut store = store();
    let mut device = Device::new();
    let mut slots = vec![];
    let mut handles = vec![];
    for (n, class) in [(0u8, 0), (1, 0), (2, 1)] {
        let mut cell = new_cell();
        let rows: Vec<Handle> = (0..3).map(|_| cell.allocate()).collect();
        let (id, writes) = store.register_cell(&cell, class).unwrap();
        device.run(writes);
        for (r, handle) in rows.iter().enumerate() {
            let value = 10 * n + r as u8;
            let (ok, write) = store.write_transform(id, &mut cell, *handle, vec![value; 8]);
            assert!(ok);
            device.run(write.into_iter().collect());
            assert!(store.write_instance_info(id, &mut cell, *handle, vec![value; 4]));
        }
        assert!(store.free_deferred(id, &mut cell, rows[0], 1));
        slots.push(CellSlot { id, cell });
        handles.push(rows);
    }
    frame(&mut store, &mut slots, &mut device, 0);
    frame(&mut store, &mut slots, &mut device, 1);
    let slot_bases = [0u32, 6, 12];
    for (n, slot) in slots.iter().enumerate() {
        let base = store.row_region_base(slot.id) as usize;
        assert_eq!(slot.cell.rows_in_use(), 2);
        assert_eq!(slot.cell.row_of(handles[n][0]), None);
        for r in 1..3 {
            let row = base + slot.cell.row_of(handles[n][r]).unwrap() as usize;
            let value = (10 * n + r) as u8;
            assert_eq!(device.columns[0][row * 8..row * 8 + 8], [value; 8]);
            assert_eq!(device.columns[1][row * 4..row * 4 + 4], [value; 4]);
            let global = slot_bases[n] + handles[n][r].index();
            assert_eq!(device.slots[row], global);
            assert_eq!(device.generations[global as usize], handles[n][r].generation());
        }
        let freed = slot_bases[n] + handles[n][0].index();
        assert_ne!(device.generations[freed as usize], handles[n][0].generation());
    }
}

#[test]
fn a_freed_row_stays_until_the_device_is_done_with_it() {
    let mut store = store();
    let mut device = Device::new();
    let mut cell = new_cell();
    let a = cell.allocate();
    let b = cell.allocate();
    let (id, writes) = store.register_cell(&cell, 0).unwrap();
    device.run(writes);
    assert!(store.write_instance_info(id, &mut cell, b, vec![5; 4]));
    assert!(store.free_deferred(id, &mut cell, a, 3));
    assert!(!store.free_deferred(id, &mut cell, a, 3));
    let mut slots = vec![CellSlot { id, cell }];
    assert_eq!(frame(&mut store, &mut slots, &mut device, 2), 0);
    assert_eq!(slots[0].cell.rows_in_use(), 2);
    assert_eq!(frame(&mut store, &mut slots, &mut device, 3), 1);
    assert_eq!(slots[0].cell.rows_in_use(), 1);
    assert_eq!(slots[0].cell.row_of(b), Some(0));
    let base = store.row_region_base(id) as usize;
    assert_eq!(device.columns[1][base * 4..base * 4 + 4], [5; 4]);
    assert_eq!(device.slots[base], b.index());
    assert_ne!(device.generations[a.index() as usize], a.generation());
    assert!(store.generation_write_count() > 0);
}

#[test]
fn stale_handles_write_nothing() {
    let mut store = store();
    let mut cell = new_cell();
    let _ = cell.allocate();
    let (id, _) = store.register_cell(&cell, 0).unwrap();
    let stale = Handle { index: 0, generation: 77 };
    let (ok, write) = store.write_transform(id, &mut cell, stale, vec![0; 8]);
    assert!(!ok && write.is_none());
    assert!(!store.write_instance_info(id, &mut cell, stale, vec![0; 4]));
    let fields = vec![FieldWrite { id: INFO, bytes: vec![1; 4] }];
    let (ok, write) = store.write_gpu(id, &mut cell, stale, &fields);
    assert!(!ok && write.is_none());
    assert!(!store.free_deferred(id, &mut cell, stale, 1));
}

#[test]
fn full_classes_refuse_another_cell_until_a_region_is_free() {
    let mut store = store();
    let mut cell = new_cell();
    let (first, _) = store.register_cell(&cell, 1).unwrap();
    assert_eq!(store.register_cell(&new_cell(), 1).err(), Some(RegionError::RowsExhausted));
    assert!(store.has_cell(first));
    store.unregister_cell(first, &mut cell, 5);
    assert!(!store.has_cell(first));
    assert_eq!(store.register_cell(&new_cell(), 1).err(), Some(RegionError::RowsExhausted));
    let mut none = vec![];
    let _ = store.retire_all(&mut none, 5);
    store.compact_all(&mut none);
    let _ = store.sync_all(&mut none);
    let (second, _) = store.register_cell(&new_cell(), 1).unwrap();
    assert_eq!(store.row_region_base(second), 8);
}

#[test]
fn a_rebuilt_store_uploads_every_cell_again() {
    let mut cell = new_cell();
    let a = cell.allocate();
    let row = cell.row_of(a).unwrap();
    cell.write_element(INFO, row, &[3; 4]);
    let cells = vec![(0, cell), (1, new_cell())];
    let (store, ids, writes) = SceneGpuStore::rebuild(&config(), types(), buffers(), &cells);
    let mut device = Device::new();
    device.run(writes);
    assert_eq!(ids.len(), 2);
    let base = store.row_region_base(ids[0]) as usize;
    assert_eq!(device.columns[1][base * 4..base * 4 + 4], [3; 4]);
    assert_eq!(store.row_region_base(ids[1]), 8);
    assert_eq!(device.slots[base], a.index());
    assert_eq!(device.generations[a.index() as usize], a.generation());
    assert_eq!(store.metadata_capacity(), 16);
    assert_eq!(store.transform_buffer(), "transforms");
    assert_eq!(store.instance_info_buffer(), "infos");
    assert_eq!(store.slot_mirror_buffer(), &"slots");
    assert_eq!(store.owner_count(), 2);
    assert_eq!(store.owner_allocation(1), ("infos", 64));
    assert_eq!(store.generation_buffer(), &"generations");
    assert_eq!(store.cell_metadata_buffer(), &"metadata");
}

#[test]
fn gated_compaction_leaves_cells_that_are_not_ready() {
    let mut store = store();
    let mut slots = vec![];
    let mut freed = vec![];
    for _ in 0..2 {
        let mut cell = new_cell();
        freed.push(cell.allocate());
        let _ = cell.allocate();
        let (id, _) = store.register_cell(&cell, 0).unwrap();
        assert!(store.free_deferred(id, &mut cell, freed[freed.len() - 1], 1));
        slots.push(CellSlot { id, cell });
    }
    let (_, retired) = store.retire_all(&mut slots, 1);
    assert_eq!(retired, 2);
    store.compact_all_gated(&mut slots, &vec![false, true]);
    assert_eq!(slots[0].cell.rows_in_use(), 2);
    assert_eq!(slots[1].cell.rows_in_use(), 1);
    let _ = store.sync_all(&mut slots);
}

#[test]
fn extents_count_rows_and_slots() {
    assert_eq!(config().extents(), Some((16, 22)));
    let mut too_many = config();
    too_many.classes[0].max_resident_cells = u32::MAX;
    assert_eq!(too_many.extents(), None);
    assert_eq!(SceneGpuConfig::default_headroom(), 64);
}

#[test]
fn builtin_buffers_are_listed_under_their_keys() {
    let mut store = store();
    assert_eq!(store.resolve_buffer(transform_buffer_key()).unwrap().0, "transforms");
    assert_eq!(store.resolve_buffer(info_buffer_key()).unwrap().0, "infos");
    assert_eq!(store.buffer_for_id(TRANSFORM), Some("transforms"));
    assert_eq!(store.buffer_for_id(HEALTH), None);
    assert!(store.is_registered(&vec![TRANSFORM, INFO]));
    assert!(store.is_registered(&vec![]));
    assert!(!store.is_registered(&vec![HEALTH, TRANSFORM]));
    assert!(store.resolve_buffer(BufferKey::of("nothing")).is_none());
    assert!(store.resolve_buffer_handle(BufferKey::of("nothing")).is_none());
    assert_eq!(store.resolve_buffer_handle(info_buffer_key()).unwrap().epoch, 0);
    let listed = store.buffer_registry().resolve(cell_metadata_buffer_key());
    assert_eq!(listed.unwrap().buffer, "metadata");
    assert_eq!(store.buffer_registry().len(), 5);
}

fn with_columns() -> SceneGpuStore<&'static str> {
    let mut store = store();
    let key = BufferKey::of("health");
    store.register_dirty_tracked_gpu_buffer(
        HEALTH,
        U32,
        4,
        1024,
        key,
        MirrorMode::DirtyTracked,
        || "health",
    );
    let key = BufferKey::of("mana");
    store.register_growable_gpu_buffer(MANA, U32, 4, 16, key, MirrorMode::Once, || "mana");
    store
}

#[test]
fn columns_of_one_key_share_one_buffer() {
    let mut store = with_columns();
    let other = ComponentId(9);
    let key = BufferKey::of("health");
    store.register_dirty_tracked_gpu_buffer(
        other,
        U32,
        4,
        1024,
        key,
        MirrorMode::DirtyTracked,
        || panic!("made twice"),
    );
    assert_eq!(store.buffer_key_for(other).unwrap().as_str(), "health");
    assert!(store.mark_gpu_row_dirty(other, 1, &[1, 2, 3, 4]));
    assert_eq!(store.read_dirty_tracked_row_bytes(HEALTH, 1), Some(vec![1, 2, 3, 4]));
}

#[test]
fn every_kind_of_disagreement_on_a_shared_buffer_is_named() {
    let store = with_columns();
    let key = BufferKey::of("health");
    let ask = |element, capacity, mode, tag| store.share_conflict(key, element, capacity, mode, tag);
    let d = MirrorMode::DirtyTracked;
    let tag = SharedKindTag::DirtyTracked;
    assert_eq!(ask(U32, 4, d, tag), None);
    assert_eq!(
        ask(U32, 4, d, SharedKindTag::Growable),
        Some(ShareConflict::Path { existing: tag, incoming: SharedKindTag::Growable })
    );
    assert_eq!(
        ask(ElementDesc { element: TypeKey(33), size: 4 }, 4, d, tag),
        Some(ShareConflict::ElementType { existing: TypeKey(32), incoming: TypeKey(33) })
    );
    assert_eq!(
        ask(ElementDesc { element: TypeKey(32), size: 8 }, 4, d, tag),
        Some(ShareConflict::ElementSize { existing: 4, incoming: 8 })
    );
    assert!(matches!(
        ask(U32, 4, MirrorMode::Once, tag),
        Some(ShareConflict::Access { .. }) | Some(ShareConflict::Mode { .. })
    ));
    let fixed = store.share_conflict(
        info_buffer_key(),
        ElementDesc { element: TypeKey(2), size: 4 },
        3,
        MirrorMode::DirtyTracked,
        SharedKindTag::Fixed,
    );
    assert_eq!(fixed, Some(ShareConflict::Capacity { existing: 16, incoming: 3 }));
}

#[test]
fn marked_rows_are_flushed_once() {
    let mut store = with_columns();
    assert!(store.mark_gpu_row_dirty(HEALTH, 6, &[1, 2, 3, 4]));
    assert!(!store.mark_gpu_row_dirty(MANA, 6, &[1, 2, 3, 4]));
    let before = store.dirty_tracked_epoch_for_id(HEALTH).unwrap();
    let (plans, stats) = store.flush_gpu_mirror();
    assert_eq!(stats.bytes, 4);
    assert_eq!(stats.ranges, 1);
    let plan = plans.iter().find(|(_, p)| !p.uploads.is_empty()).unwrap();
    assert_eq!(plan.1.grown_to, Some(8));
    assert_ne!(store.dirty_tracked_epoch_for_id(HEALTH), Some(before));
    let (_, stats) = store.flush_gpu_mirror();
    assert_eq!(stats.bytes, 0);
}

#[test]
fn growable_columns_grow_on_demand_and_refuse_past_their_limit() {
    let mut store = with_columns();
    assert!(store.write_row_bytes(MANA, &[1; 4], 2).is_none());
    let write = store.write_row_bytes(INFO, &[1; 4], 2).unwrap();
    assert_eq!(write.offset, 8);
    assert_eq!(write.bytes, vec![1; 4]);
    let grown = store.write_row_bytes_growing(MANA, &[2; 4], 5).unwrap().unwrap();
    assert_eq!(grown.grown_to, Some(8));
    assert_eq!(grown.write.offset, 20);
    assert_eq!(store.growable_capacity_for_id(MANA), Some(8));
    assert!(store.growable_epoch_for_id(MANA).is_some());
    assert_eq!(store.growable_capacity_for_id(HEALTH), None);
    let refused = store.write_row_bytes_growing(MANA, &[2; 4], 16).unwrap();
    assert_eq!(refused.err(), Some(CapacityError { requested: 17, limit: 16 }));
    assert!(store.write_row_bytes_growing(ComponentId(50), &[2; 4], 0).is_none());
}

#[test]
fn reserving_and_shrinking_the_world_mirror() {
    let mut store = with_columns();
    assert_eq!(store.reserve_world_mirror_capacity(12), Ok(()));
    assert_eq!(store.growable_capacity_for_id(MANA), Some(12));
    assert!(store.reserve_world_mirror_capacity(2000).is_err());
    store.shrink_world_mirror_to_fit(6);
    assert!(store.growable_capacity_for_id(MANA).unwrap() <= 12);
}

#[test]
fn fields_uploaded_once_are_skipped_on_later_writes() {
    let mut store = with_columns();
    let fields = || {
        vec![
            MirroredField { id: HEALTH, mode: MirrorMode::DirtyTracked, bytes: vec![1; 4] },
            MirroredField { id: MANA, mode: MirrorMode::Once, bytes: vec![2; 4] },
        ]
    };
    let writes = write_gpu_columns_at_row(&mut store, 1, &fields(), true);
    assert_eq!(writes.len(), 1);
    assert_eq!(writes[0].write.bytes, vec![2; 4]);
    let mut later = fields();
    later[0].bytes = vec![9; 4];
    assert!(write_gpu_columns_at_row(&mut store, 1, &later, false).is_empty());
    assert_eq!(store.read_dirty_tracked_row_bytes(HEALTH, 1), Some(vec![9; 4]));
}

#[test]
fn mirrored_fields_are_cut_out_of_the_component() {
    let column = |field, field_offset, upload| GpuColumnDesc {
        field,
        field_offset,
        field_size: 4,
        mode: MirrorMode::Once,
        buffer_name: "field",
        upload,
    };
    let doubled = |own: &Vec<u8>| own.iter().map(|b| 2 * b).collect::<Vec<u8>>();
    let columns = vec![column(HEALTH, 4, None), column(MANA, 0, Some(doubled))];
    let fields = mirrored_fields(&columns, &[1, 2, 3, 4, 5, 6, 7, 8]);
    assert_eq!(fields[0].id, HEALTH);
    assert_eq!(fields[0].bytes, vec![5, 6, 7, 8]);
    assert_eq!(fields[1].id, MANA);
    assert_eq!(fields[1].bytes, vec![2, 4, 6, 8]);
    assert_eq!(fields[1].mode, MirrorMode::Once);
}

#[test]
fn var_len_pools_are_found_by_key_and_element() {
    let mut store = store();
    let key = BufferKey::of("children");
    let at = store.register_var_len_gpu_pool(key, U32, 4, 64);
    assert_eq!(store.register_var_len_gpu_pool(key, U32, 4, 64), at);
    assert_eq!(store.var_len_pool(key, TypeKey(32)), Some(at));
    assert_eq!(store.var_len_pool(key, TypeKey(33)), None);
    assert_eq!(store.var_len_pool(BufferKey::of("other"), TypeKey(32)), None);
    let _ = store.var_len_pool_mut(at);
}

#[test]
fn column_maps_keep_the_last_binding() {
    let mut map = ColumnMap::new();
    map.bind(HEALTH, 4);
    map.bind(MANA, 5);
    map.bind(HEALTH, 6);
    assert_eq!(map.get(HEALTH), Some(6));
    assert_eq!(map.get(INFO), None);
    assert_eq!(map.len(), 2);
    assert_eq!(map.at(1), (MANA, 5));
}

#[test]
fn regions_come_back_when_the_device_is_done() {
    let mut pool = RegionPool::new(10, 4, 2);
    assert_eq!(pool.region_size(), 4);
    let a = pool.acquire().unwrap();
    let b = pool.acquire().unwrap();
    assert_eq!(pool.region_start(a), 10);
    assert_eq!(pool.region_start(b), 14);
    assert_eq!(pool.acquire(), None);
    pool.free_pinned(a, 7);
    pool.drain_completed(6);
    assert_eq!(pool.free_count(), 0);
    pool.drain_completed(7);
    assert_eq!(pool.acquire(), Some(a));
}

#[test]
fn empty_regions_are_told_apart_by_number() {
    let mut pool = RegionPool::new(10, 0, 3);
    let a = pool.acquire().unwrap();
    let b = pool.acquire().unwrap();
    assert_ne!(a, b);
    assert_eq!(pool.region_start(a), 10);
    assert_eq!(pool.region_start(b), 10);
    pool.free_pinned(b, 1);
    assert_eq!(pool.free_count(), 1);
    pool.drain_completed(1);
    assert_eq!(pool.free_count(), 2);
    assert_eq!(pool.acquire(), Some(b));
}

#[test]
fn a_class_without_rows_holds_several_empty_cells() {
    let cfg = SceneGpuConfig {
        classes: vec![
            RegionClassConfig { capacity: 0, max_resident_cells: 3 },
            RegionClassConfig { capacity: 4, max_resident_cells: 1 },
        ],
        tombstone_headroom: 0,
        max_cells_metadata: 4,
    };
    assert_eq!(cfg.extents(), Some((4, 4)));
    let mut store = SceneGpuStore::new(&cfg, types(), buffers());
    let mut ids = Vec::new();
    for _ in 0..3 {
        assert!(store.holds_cell(&new_cell(), 0));
        let (id, writes) = store.register_cell(&new_cell(), 0).unwrap();
        assert!(writes.is_empty(), "there is no slot to stamp");
        assert_eq!(store.row_region_base(id), 0);
        ids.push(id);
    }
    assert!(matches!(store.register_cell(&new_cell(), 0), Err(RegionError::RowsExhausted)));
    let mut cell = new_cell();
    let _ = cell.allocate();
    assert!(!store.holds_cell(&cell, 0));
    assert_eq!(store.ids_left(), u32::MAX - 3, "a refusal takes no id");
    let (other, _) = store.register_cell(&cell, 1).unwrap();
    assert_eq!(store.row_region_base(other), 0);
    store.unregister_cell(ids[1], &mut new_cell(), 5);
    assert_eq!(store.free_regions(0), 0);
    let _ = store.retire_all(&mut vec![], 5);
    assert_eq!(store.free_regions(0), 1);
    assert!(store.has_cell(ids[0]) && !store.has_cell(ids[1]) && store.has_cell(ids[2]));
}

#[test]
fn a_store_tells_what_it_would_accept() {
    let mut store = store();
    assert_eq!(store.class_count(), 2);
    assert_eq!(store.free_regions(0), 2);
    assert_eq!(store.phase(), Phase::Write);
    let mut cell = new_cell();
    let a = cell.allocate();
    let (id, _) = store.register_cell(&cell, 0).unwrap();
    assert_eq!(store.free_regions(0), 1);
    assert_eq!(store.newest_serial(id), None);
    assert!(store.free_deferred(id, &mut cell, a, 3));
    assert_eq!(store.newest_serial(id), Some(3));
    assert!(store.covers_cell(id, &cell, 3));
    for _ in 0..4 {
        let _ = cell.allocate();
    }
    assert!(!store.covers_cell(id, &cell, 3), "five rows in a region of four");
    assert!(!store.holds_cell(&cell, 0));
    assert!(store.holds_cell(&cell, 1));
    let key = cell_metadata_buffer_key();
    assert!(store.registry_conflict(key, U32, MirrorMode::DirtyTracked).is_some());
    assert!(store.share_conflict(key, U32, 4, MirrorMode::DirtyTracked, SharedKindTag::Fixed).is_none());
    let new = BufferKey::of("mana");
    assert!(store.registry_conflict(new, U32, MirrorMode::DirtyTracked).is_none());
}

#[test]
fn a_column_of_empty_elements_can_be_registered() {
    let mut store = store();
    let key = BufferKey::of("tags");
    let empty = ElementDesc { element: TypeKey(40), size: 0 };
    store.register_gpu_buffer(HEALTH, empty, 12, key, MirrorMode::DirtyTracked, || "tags");
    assert!(store.buffer_key_for(HEALTH).is_some_and(|bound| bound.same(key)));
    assert_eq!(store.buffer_for_id(HEALTH), Some("tags"));
    let mut cell = new_cell();
    let handle = cell.allocate();
    let (id, _) = store.register_cell(&cell, 0).unwrap();
    let mut device = Device::new();
    let (written, stamp) = store.write_transform(id, &mut cell, handle, vec![7; 8]);
    assert!(written);
    device.run(stamp.into_iter().collect());
    let mut slots = vec![CellSlot { id, cell }];
    let retired = frame(&mut store, &mut slots, &mut device, 0);
    assert_eq!(retired, 0);
    assert_eq!(&device.columns[0][..8], &[7; 8]);
}

#[test]
fn a_cell_with_two_columns_of_one_buffer_is_not_held() {
    let mut store = store();
    let key = BufferKey::of("pool");
    store.register_gpu_buffer(HEALTH, U32, 12, key, MirrorMode::DirtyTracked, || "pool");
    store.register_gpu_buffer(MANA, U32, 12, key, MirrorMode::DirtyTracked, || "pool");
    assert!(store.holds_cell(&CellStorage::new(&[(HEALTH, 4)]), 0));
    assert!(!store.holds_cell(&CellStorage::new(&[(HEALTH, 4), (MANA, 4)]), 0));
}

#[test]
fn a_refused_reservation_leaves_more_rows_than_can_be_flushed() {
    let mut buffer = DirtyTrackedSceneBuffer::new(4, 16, 64);
    assert!(buffer.can_flush());
    assert_eq!(buffer.reserve(64), Ok(Some(64)));
    assert!(buffer.can_flush());
    assert_eq!(buffer.reserve(65), Err(CapacityError { requested: 65, limit: 64 }));
    assert!(!buffer.can_flush());

    let mut store = store();
    let key = BufferKey::of("pool");
    store.register_dirty_tracked_gpu_buffer(
        HEALTH,
        U32,
        4,
        8,
        key,
        MirrorMode::DirtyTracked,
        || "pool",
    );
    assert!(store.can_flush());
    assert!(store.reserve_world_mirror_capacity(9).is_err());
    assert!(!store.can_flush());
}

#[test]
fn a_tracked_buffer_shrinks_only_when_asked_for_less() {
    let mut buffer = DirtyTrackedSceneBuffer::new(4, 16, 64);
    buffer.mark_dirty(2, &[1; 4]);
    let _ = buffer.flush();
    assert!(!buffer.shrink_to_fit(16));
    assert!(buffer.shrink_to_fit(4));
    assert_eq!(buffer.capacity(), 4);
    assert_eq!(buffer.read_row_bytes(2), Some(vec![1; 4]));
    assert_eq!(buffer.reserve(65), Err(CapacityError { requested: 65, limit: 64 }));
    assert_eq!(buffer.elem_size(), 4);
}

#[test]
fn a_type_with_a_submitted_registration_is_found_by_its_component_id() {
    let mut registrations: MirrorRegistrations<u32> = MirrorRegistrations::new();
    let id = ComponentId(0);
    registrations.submit(GpuMirrorRegistration { component_id: id, dispatch: 1 });
    assert!(registrations.dispatch_for(id).is_some(), "it was submitted");
}

#[test]
fn a_type_with_no_registration_is_not_found() {
    let mut registrations: MirrorRegistrations<u32> = MirrorRegistrations::new();
    registrations.submit(GpuMirrorRegistration { component_id: ComponentId(0), dispatch: 1 });
    let id = ComponentId(1);
    assert!(registrations.dispatch_for(id).is_none());
}

#[test]
fn rows_are_seen_for_the_first_time_once() {
    let mut rows = GpuMirroredRows::new();
    assert!(rows.mark_first_time(3));
    assert!(!rows.mark_first_time(3));
    assert!(rows.mark_first_time(1));
    assert!(rows.clear(3));
    assert!(!rows.clear(3));
    assert!(!rows.clear(100));
    assert!(rows.mark_first_time(3));
}

#[test]
fn generations_are_uploaded_for_mirrored_rows_only() {
    let mut mirror = GenerationMirror::new(DEFAULT_AUTO_REGISTER_CAPACITY);
    mirror.note_despawn(4, 9);
    assert_eq!(mirror.flush().stats.bytes, 0);
    mirror.note_gpu_bearing_insert(4, 10);
    mirror.note_gpu_bearing_insert(4, 99);
    let plan = mirror.flush();
    assert_eq!(plan.stats.bytes, 4);
    assert_eq!(plan.uploads[0].offset, 16);
    assert_eq!(plan.uploads[0].bytes, 10u32.to_le_bytes());
    mirror.note_despawn(4, 11);
    assert_eq!(mirror.flush().uploads[0].bytes, 11u32.to_le_bytes());
    assert_eq!(mirror.flush().stats.bytes, 0);
    let _ = mirror.epoch();
}

#[test]
fn noting_what_is_known_needs_no_room() {
    let mut mirror = GenerationMirror::new(DEFAULT_AUTO_REGISTER_CAPACITY);
    mirror.note_despawn(u32::MAX, 1);
    assert_eq!(mirror.flush().stats.bytes, 0);
    mirror.note_gpu_bearing_insert(63, 1);
    mirror.note_gpu_bearing_insert(63, 2);
    let plan = mirror.flush();
    assert_eq!(plan.grown_to, None);
    assert_eq!(plan.uploads[0].offset, 252);
    assert_eq!(plan.uploads[0].bytes, 1u32.to_le_bytes());
}

/// The length to read, or the panic of a reader.
fn length_or_panic(start: u64, end: u64, size: u64) -> u64 {
    match readback_len(start, end, size) {
        Ok(len) => len,
        Err(error) => panic!("{}", error.describe()),
    }
}

#[test]
#[should_panic(expected = "exceeds buffer size")]
fn readback_bytes_rejects_an_out_of_bounds_range() {
    length_or_panic(0, 32, 16);
}

#[test]
#[should_panic(expected = "empty range")]
fn readback_bytes_rejects_an_empty_range() {
    length_or_panic(4, 4, 16);
}

#[test]
fn readback_ranges_are_checked() {
    assert_eq!(readback_len(4, 12, 64), Ok(8));
    assert_eq!(readback_len(0, 64, 64), Ok(64));
    let refused = |start, end, size| readback_len(start, end, size).unwrap_err();
    assert_eq!(refused(12, 4, 64), ReadbackError::Reversed);
    assert_eq!(refused(4, 4, 64), ReadbackError::Empty);
    let over = refused(60, 68, 64);
    assert_eq!(over, ReadbackError::OutOfBounds { start: 60, end: 68, size: 64 });
    assert_eq!(over.describe(), "readback_bytes: range 60..68 exceeds buffer size 64");
    assert_eq!(
        ReadbackError::Reversed.describe(),
        "readback_bytes: range end must not precede start"
    );
    assert_eq!(ReadbackError::Empty.describe(), "readback_bytes: empty range");
    assert_eq!(row_range(3, 16), (48, 64));
}

#[test]
fn scatter_passes_have_an_invocation_for_every_row() {
    assert!(scatter_dispatch(4, 0).is_none());
    let one = scatter_dispatch(4, 1).unwrap();
    assert_eq!(one.workgroups, 1);
    assert_eq!(one.params, vec![4, 0, 0, 0, 1, 0, 0, 0]);
    assert_eq!(scatter_dispatch(4, WORKGROUP_SIZE).unwrap().workgroups, 1);
    assert_eq!(scatter_dispatch(4, WORKGROUP_SIZE + 1).unwrap().workgroups, 2);
    assert_eq!(scatter_dispatch(1, u32::MAX).unwrap().workgroups, 0x400_0000);
}

#[test]
fn content_ids_are_two_lanes_of_a_byte_hash() {
    assert_eq!(structural_content_id(&[]).0, 0xcbf2_9ce4_8422_2325_6c62_272e_07bb_0142);
    assert_eq!(structural_content_id(b"a").0 >> 64, 0xaf63_dc4c_8601_ec8c);
    assert_ne!(structural_content_id(b"ab"), structural_content_id(b"ac"));
    assert_eq!(structural_content_id(b"ab"), structural_content_id(b"ab"));
}

#[test]
fn heavy_references_wrap_and_unwrap() {
    let heavy: GpuHeavy<u32> = GpuHeavy::from(5);
    assert_eq!(*heavy, 5);
    assert_eq!(heavy.into_inner(), 5);
    assert!(<u32 as GpuRef>::null().is_null());
    assert!(<i32 as GpuRef>::null().is_null());
    assert!(<u64 as GpuRef>::null().is_null());
    assert!(!7u64.is_null());
}

fn single(x: f32) -> Single {
    Single { bits: x.to_bits() }
}

fn grid(warm: bool) -> StreamingGrid {
    let cfg = GridConfig {
        cell_width: single(100.0),
        margin_radius: single(150.0),
        pad_fraction: single(0.1),
        hysteresis: single(20.0),
        warm: if warm {
            Some(WarmTierConfig {
                radius: single(300.0),
                pad_fraction: single(0.1),
                hysteresis: single(40.0),
            })
        } else {
            None
        },
    };
    let budget = StreamingBudget {
        vram_hlod_budget: u64::MAX,
        vram_geometry_budget: u64::MAX,
        max_materialized_cells: 1024,
        proxy_mesh_bytes: 1024,
        mean_cell_geometry_bytes: 1 << 20,
        ram_budget: u64::MAX,
        max_ram_cached_cells: 1024,
    };
    match StreamingGrid::new(cfg, budget, &vec![]) {
        Ok(grid) => grid,
        Err(e) => panic!("{e:?}"),
    }
}

/// Queues a transition to `to` by pinning the cell there.
fn queue(grid: &mut StreamingGrid, coord: CellCoord, to: Domain) {
    assert!(grid.pin(coord, to));
    let nowhere = Aabb { min: [single(0.0); 3], max: [single(0.0); 3] };
    let zones = (0..grid.cell_count())
        .map(|_| CellZones {
            inner_promote: nowhere,
            inner_demote: nowhere,
            margin_promote: nowhere,
            margin_demote: nowhere,
            warm_promote: nowhere,
            warm_demote: nowhere,
        })
        .collect();
    grid.classify(&zones, &vec![]);
}

/// A store in whose frame boundary retirements were carried out.
fn retired_store() -> SceneGpuStore<&'static str> {
    let mut store = store();
    let _ = store.retire_all(&mut vec![], 0);
    store
}

#[test]
fn only_cells_that_meet_a_free_region_have_to_fit() {
    let coords: Vec<CellCoord> = (0..3).map(|x| CellCoord { x, z: 0 }).collect();
    let mut grid = grid(false);
    for c in &coords {
        grid.materialize(*c);
    }
    let mut store = retired_store();
    let mut cells = vec![new_cell(), new_cell(), new_cell()];
    for _ in 0..9 {
        let _ = cells[1].allocate();
        let _ = cells[2].allocate();
    }
    assert!(!store.holds_cell(&cells[1], 1), "nine rows in a region of eight");
    assert!(grid.pin(coords[0], Domain::Inner));
    queue(&mut grid, coords[1], Domain::Inner);
    assert_eq!(grid.queued().len(), 2);
    let (stats, _) = execute_transitions(&mut grid, &mut store, &mut cells, |_| 1, 1);
    assert_eq!(stats.promoted, 1, "the first takes the one region of the class");
    assert_eq!(stats.declined, 1, "the second meets none, and the third is not queued");
    assert!(grid.queued().is_empty());
    assert_eq!(grid.gpu_id(coords[1]), None);
}

#[test]
fn promotions_and_demotions_are_what_the_grid_shows() {
    let coords: Vec<CellCoord> = (0..3).map(|x| CellCoord { x, z: 0 }).collect();
    let mut grid = grid(false);
    for c in &coords {
        grid.materialize(*c);
    }
    let mut store = retired_store();
    let mut cells = vec![new_cell(), new_cell(), new_cell()];
    let class = |_: CellCoord| 0usize;
    assert!(grid.pin(coords[0], Domain::Margin));
    queue(&mut grid, coords[1], Domain::Inner);
    let (stats, _) = execute_transitions(&mut grid, &mut store, &mut cells, class, 1);
    assert_eq!((stats.promoted, stats.demoted), (2, 0));
    assert!(grid.pin(coords[0], Domain::Outer));
    assert!(grid.pin(coords[1], Domain::Margin));
    queue(&mut grid, coords[2], Domain::Inner);
    let (stats, _) = execute_transitions(&mut grid, &mut store, &mut cells, class, 1);
    assert_eq!((stats.promoted, stats.demoted, stats.declined), (0, 1, 1));
    let resident: Vec<bool> = coords.iter().map(|c| grid.gpu_id(*c).is_some()).collect();
    assert_eq!(resident, vec![false, true, false]);
}

#[test]
fn executing_a_promotion_registers_the_cell_and_a_demotion_unregisters_it() {
    let c = CellCoord { x: 0, z: 0 };
    let mut grid = grid(false);
    grid.materialize(c);
    let mut store = retired_store();
    let mut cells = vec![new_cell()];
    let _ = cells[0].allocate();

    queue(&mut grid, c, Domain::Inner);
    let (stats, writes) = execute_transitions(&mut grid, &mut store, &mut cells, |_| 1, 1);
    assert_eq!(stats, TransitionStats { promoted: 1, ..TransitionStats::default() });
    assert!(!writes.is_empty());
    assert_eq!(grid.domain(c), Some(Domain::Inner));
    let id: CellId = grid.gpu_id(c).unwrap();
    assert_eq!(store.row_region_base(id), 8);

    queue(&mut grid, c, Domain::Outer);
    let (stats, writes) = execute_transitions(&mut grid, &mut store, &mut cells, |_| 1, 2);
    assert_eq!(stats, TransitionStats { demoted: 1, ..TransitionStats::default() });
    assert!(writes.is_empty());
    assert_eq!(grid.gpu_id(c), None);
    assert_eq!(grid.domain(c), Some(Domain::Outer));
}

#[test]
fn a_promotion_without_a_free_region_is_declined() {
    let a = CellCoord { x: 0, z: 0 };
    let b = CellCoord { x: 1, z: 0 };
    let mut grid = grid(false);
    grid.materialize(a);
    grid.materialize(b);
    let mut store = retired_store();
    let mut cells = vec![new_cell(), new_cell()];
    assert!(grid.pin(a, Domain::Inner));
    queue(&mut grid, b, Domain::Inner);
    let (stats, _) = execute_transitions(&mut grid, &mut store, &mut cells, |_| 1, 1);
    assert_eq!(stats.promoted, 1);
    assert_eq!(stats.declined, 1);
    assert_eq!(grid.domain(b), Some(Domain::Outer));
    assert_eq!(grid.gpu_id(b), None);
}

#[test]
fn ram_hooks_load_and_evict_warm_cells() {
    let c = CellCoord { x: 0, z: 0 };
    let mut grid = grid(true);
    grid.materialize(c);
    let mut store = retired_store();
    let mut cells = vec![new_cell()];
    let class = |_: CellCoord| 0usize;

    queue(&mut grid, c, Domain::Warm);
    let refusing = RamHooks { load: |_: CellCoord| false, evict: |_: CellCoord| {} };
    let (stats, _) =
        execute_transitions_with_ram(&mut grid, &mut store, &mut cells, class, Some(&refusing), 1);
    assert_eq!(stats, TransitionStats { ram_declined: 1, ..TransitionStats::default() });
    assert_eq!(grid.domain(c), Some(Domain::Outer));

    queue(&mut grid, c, Domain::Warm);
    let hooks = RamHooks { load: |_: CellCoord| true, evict: |_: CellCoord| {} };
    let (stats, _) =
        execute_transitions_with_ram(&mut grid, &mut store, &mut cells, class, Some(&hooks), 1);
    assert_eq!(stats, TransitionStats { warmed: 1, ..TransitionStats::default() });
    assert_eq!(grid.ram_cached(c), Some(true));

    queue(&mut grid, c, Domain::Outer);
    let (stats, _) =
        execute_transitions_with_ram(&mut grid, &mut store, &mut cells, class, Some(&hooks), 1);
    assert_eq!(stats, TransitionStats { cooled: 1, ..TransitionStats::default() });
    assert_eq!(grid.ram_cached(c), Some(false));
}

#[test]
fn hooks_are_called_for_the_cache_alone() {
    let c = CellCoord { x: 0, z: 0 };
    let mut grid = grid(true);
    grid.materialize(c);
    let mut store = retired_store();
    let mut cells = vec![new_cell()];
    let calls = std::cell::RefCell::new(Vec::new());
    let hooks = RamHooks {
        load: |c: CellCoord| {
            calls.borrow_mut().push(("load", c));
            true
        },
        evict: |c: CellCoord| calls.borrow_mut().push(("evict", c)),
    };
    let class = |c: CellCoord| {
        calls.borrow_mut().push(("class", c));
        0usize
    };
    let way = [
        (Domain::Warm, vec!["load"]),
        (Domain::Margin, vec!["class"]),
        (Domain::Inner, vec![]),
        (Domain::Margin, vec![]),
        (Domain::Warm, vec![]),
        (Domain::Outer, vec!["evict"]),
        (Domain::Inner, vec!["class"]),
        (Domain::Outer, vec![]),
    ];
    let mut serial = 0;
    for (to, expected) in way {
        serial += 1;
        queue(&mut grid, c, to);
        let (_, _) = execute_transitions_with_ram(
            &mut grid,
            &mut store,
            &mut cells,
            &class,
            Some(&hooks),
            serial,
        );
        assert_eq!(grid.domain(c), Some(to));
        assert_eq!(grid.gpu_id(c).is_some(), matches!(to, Domain::Margin | Domain::Inner));
        let expected: Vec<_> = expected.into_iter().map(|call| (call, c)).collect();
        assert_eq!(calls.take(), expected, "on the way to {to:?}");
    }
}

#[test]
fn each_transition_calls_for_one_action() {
    let c = CellCoord { x: 0, z: 0 };
    let mut grid = grid(true);
    grid.materialize(c);
    let t = |from, to| Transition { coord: c, from, to };
    assert_eq!(
        transition_action(&grid, t(Domain::Outer, Domain::Margin)),
        TransitionAction::Register
    );
    assert_eq!(transition_action(&grid, t(Domain::Outer, Domain::Warm)), TransitionAction::Load);
    assert_eq!(transition_action(&grid, t(Domain::Warm, Domain::Outer)), TransitionAction::Drop);
    let untracked = CellCoord { x: 9, z: 9 };
    let stray = Transition { coord: untracked, from: Domain::Outer, to: Domain::Margin };
    assert_eq!(transition_action(&grid, stray), TransitionAction::Drop);
    grid.commit_transition(t(Domain::Outer, Domain::Warm));
    assert_eq!(transition_action(&grid, t(Domain::Warm, Domain::Outer)), TransitionAction::Evict);
    grid.commit_transition(t(Domain::Warm, Domain::Margin));
    assert_eq!(transition_action(&grid, t(Domain::Margin, Domain::Inner)), TransitionAction::Commit);
    assert_eq!(
        transition_action(&grid, t(Domain::Margin, Domain::Warm)),
        TransitionAction::Unregister
    );
}
