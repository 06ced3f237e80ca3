//! The store of mirrored cells: size classes of regions in shared buffers, the cells registered in
//! them, and the stages of a frame boundary (retire, compact, sync).
//!
//! The store decides what the device is to do and returns it as writes; it never touches a device.
use crate::cell::{CellStorage, Handle};
use crate::entity::ComponentId;
use crate::gpu::buffer_registry::{
    BufferHandle, BufferKey, BufferRegistrationError, GpuBufferRegistry, MirrorMode, TypeKey,
};
use crate::gpu::cell_mirror::{CellMirror, FieldWrite, FixedColumn, Regions};
use crate::gpu::device_writes::{tally, DeviceWrite};
use crate::gpu::dirty_tracked_scene_buffer::{FlushPlan, SyncStats};
use crate::gpu::dynamic_buffer::CapacityError;
use crate::gpu::region::{RegionError, RegionPool};
use crate::gpu::shared_buffers::{
    ColumnWrite, ElementDesc, GrowingWrite, ShareConflict, SharedBuffers, SharedKindTag,
};
use crate::gpu::var_len_pool::VarLenGpuPool;
use crate::gpu::var_len_pools::VarLenPools;
use vstd::prelude::*;

verus! {

use crate::cell::CellState;
use crate::gpu::cell_mirror::{
    all_committed, carried_once, columns_ok, fields_fit, fields_written, registered_mirror,
    registration_writes, retire_fits, retired, MirrorState, QueuedRetire,
};
use crate::gpu::device_writes::{total_len, writes_of, WriteState};
use crate::gpu::region::{law_regions_do_not_overlap, RegionState};
use crate::gpu::buffer_registry::{
    entry_of, position, registered, BufferAccess, EntryKind, RegistryEntry,
};
use crate::gpu::column_map::target_of;
use crate::gpu::shared_buffers::{
    capped, column_accepted, column_registered, first_refusal, fixed_columns_of, flush_plans_of,
    has_owner, owner_at, refuses_reserve, reserved_until, total_bytes, total_ranges, BuffersState,
    KindState, OwnerState,
};
use crate::gpu::var_len_pools::{fresh_pool, has_pool, pool_at};

/// One size class: every cell of it gets a region of `capacity` rows, and at most
/// `max_resident_cells` such regions exist.
#[derive(Clone, Copy, Debug, PartialEq, Eq, Structural)]
pub struct RegionClassConfig {
    pub capacity: u32,
    pub max_resident_cells: u32,
}

/// The fixed capacities of a store.
#[derive(Debug)]
pub struct SceneGpuConfig {
    pub classes: Vec<RegionClassConfig>,
    /// Slots of each region beyond its rows, for slots that are retired but not reused yet.
    pub tombstone_headroom: u32,
    /// Records of the cell metadata buffer.
    pub max_cells_metadata: u32,
}

/// The rows of the first `n` classes.
pub open spec fn row_extent(classes: Seq<RegionClassConfig>, n: int) -> int
    decreases n,
{
    if n <= 0 {
        0
    } else {
        row_extent(classes, n - 1) + classes[n - 1].max_resident_cells * classes[n - 1].capacity
    }
}

/// The slots of the first `n` classes.
pub open spec fn slot_extent(classes: Seq<RegionClassConfig>, headroom: u32, n: int) -> int
    decreases n,
{
    if n <= 0 {
        0
    } else {
        slot_extent(classes, headroom, n - 1) + classes[n - 1].max_resident_cells * (
        classes[n - 1].capacity + headroom)
    }
}

proof fn lemma_extents_grow(classes: Seq<RegionClassConfig>, headroom: u32, a: int, b: int)
    requires
        0 <= a <= b <= classes.len(),
    ensures
        0 <= row_extent(classes, a) <= row_extent(classes, b),
        0 <= slot_extent(classes, headroom, a) <= slot_extent(classes, headroom, b),
    decreases b,
{
    if b > 0 {
        let class = classes[b - 1];
        lemma_extents_grow(
            classes,
            headroom,
            if a < b {
                a
            } else {
                b - 1
            },
            b - 1,
        );
        assert(0 <= class.max_resident_cells * class.capacity) by (nonlinear_arith);
        assert(0 <= class.max_resident_cells * (class.capacity + headroom)) by (nonlinear_arith);
    }
}

impl SceneGpuConfig {
    /// The headroom to use where nothing else is known.
    pub fn default_headroom() -> (headroom: u32)
        ensures
            headroom == 64,
    {
        64
    }

    /// The slots of every region can be counted.
    pub open spec fn classes_ok(&self) -> bool {
        forall|i: int|
            0 <= i < self.classes@.len() ==> (#[trigger] self.classes@[i]).capacity
                + self.tombstone_headroom <= u32::MAX
    }

    /// All rows and all slots can be counted.
    pub open spec fn fits(&self) -> bool {
        &&& row_extent(self.classes@, self.classes@.len() as int) <= u32::MAX
        &&& slot_extent(self.classes@, self.tombstone_headroom, self.classes@.len() as int)
            <= u32::MAX
    }

    /// The rows and slots of all classes. `None` if and only if they cannot be counted.
    pub fn extents(&self) -> (extents: Option<(u32, u32)>)
        ensures
            match extents {
                Some((rows, slots)) => {
                    &&& self.classes_ok()
                    &&& rows == row_extent(self.classes@, self.classes@.len() as int)
                    &&& slots == slot_extent(
                        self.classes@,
                        self.tombstone_headroom,
                        self.classes@.len() as int,
                    )
                },
                None => !(self.classes_ok() && self.fits()),
            },
    {
        let mut rows: u32 = 0;
        let mut slots: u32 = 0;
        let mut i: usize = 0;
        while i < self.classes.len()
            invariant
                i <= self.classes@.len(),
                rows == row_extent(self.classes@, i as int),
                slots == slot_extent(self.classes@, self.tombstone_headroom, i as int),
                forall|k: int|
                    0 <= k < i ==> (#[trigger] self.classes@[k]).capacity
                        + self.tombstone_headroom <= u32::MAX,
            decreases self.classes@.len() - i,
        {
            let class: RegionClassConfig = self.classes[i];
            if class.capacity > u32::MAX - self.tombstone_headroom {
                return None;
            }
            proof {
                lemma_extents_grow(
                    self.classes@,
                    self.tombstone_headroom,
                    i + 1,
                    self.classes@.len() as int,
                );
                lemma_u32_product(class.max_resident_cells as int, class.capacity as int);
                lemma_u32_product(
                    class.max_resident_cells as int,
                    class.capacity + self.tombstone_headroom,
                );
            }
            let more_rows: u64 = class.max_resident_cells as u64 * class.capacity as u64;
            let more_slots: u64 = class.max_resident_cells as u64 * (class.capacity
                + self.tombstone_headroom) as u64;
            if more_rows > (u32::MAX - rows) as u64 {
                return None;
            }
            if more_slots > (u32::MAX - slots) as u64 {
                return None;
            }
            rows = rows + more_rows as u32;
            slots = slots + more_slots as u32;
            i = i + 1;
        }
        Some((rows, slots))
    }
}

proof fn lemma_u32_product(a: int, b: int)
    by (nonlinear_arith)
    requires
        0 <= a <= u32::MAX,
        0 <= b <= u32::MAX,
    ensures
        0 <= a * b <= u64::MAX,
{
}

/// A registered cell. Ids are never reused.
#[derive(Clone, Copy, Debug, PartialEq, Eq, Hash, Structural)]
pub struct CellId {
    pub index: u32,
}

/// A cell with the id it is registered under.
#[derive(Debug)]
pub struct CellSlot {
    pub id: CellId,
    pub cell: CellStorage,
}

/// Where in a frame the store is.
#[derive(Clone, Copy, Debug, PartialEq, Eq, Structural)]
pub enum Phase {
    /// Cells may be written.
    Write,
    /// Retirements were carried out.
    Retired,
    /// Cells were compacted.
    Compacted,
}

/// The element types of the buffers every store has.
#[derive(Clone, Copy, Debug)]
pub struct BuiltinTypes {
    /// The column of transforms.
    pub transform: ComponentId,
    pub transform_element: ElementDesc,
    /// The column of instance records.
    pub info: ComponentId,
    pub info_element: ElementDesc,
    /// A 32-bit word.
    pub word: TypeKey,
    /// A record of the cell metadata buffer.
    pub cell_metadata: TypeKey,
}

/// The buffers every store has.
#[derive(Debug)]
pub struct BuiltinBuffers<B> {
    pub transforms: B,
    pub infos: B,
    pub generations: B,
    pub slot_mirror: B,
    pub cell_metadata: B,
}

/// The key of the transform buffer.
pub fn transform_buffer_key() -> (key: BufferKey)
    ensures
        key@ == "scenedb-instances"@,
{
    proof {
        reveal_strlit("scenedb-instances");
    }
    BufferKey::of("scenedb-instances")
}

/// The key of the instance record buffer.
pub fn info_buffer_key() -> (key: BufferKey)
    ensures
        key@ == "scenedb-instance-info"@,
{
    proof {
        reveal_strlit("scenedb-instance-info");
    }
    BufferKey::of("scenedb-instance-info")
}

/// The key of the generation buffer.
pub fn generation_buffer_key() -> (key: BufferKey)
    ensures
        key@ == "builtin_generation"@,
{
    proof {
        reveal_strlit("builtin_generation");
    }
    BufferKey::of("builtin_generation")
}

/// The key of the slot mirror.
pub fn slot_mirror_buffer_key() -> (key: BufferKey)
    ensures
        key@ == "builtin_slot_mirror"@,
{
    proof {
        reveal_strlit("builtin_slot_mirror");
    }
    BufferKey::of("builtin_slot_mirror")
}

/// The key of the cell metadata buffer.
pub fn cell_metadata_buffer_key() -> (key: BufferKey)
    ensures
        key@ == "builtin_cell_metadata"@,
{
    proof {
        reveal_strlit("builtin_cell_metadata");
    }
    BufferKey::of("builtin_cell_metadata")
}

/// What a store holds.
pub struct StoreState<B> {
    pub buffers: BuffersState<B>,
    pub row_pools: Seq<RegionState>,
    pub slot_pools: Seq<RegionState>,
    /// The cells by id; `None` once unregistered.
    pub cells: Seq<Option<MirrorState>>,
    pub phase: Phase,
    /// Generation writes so far.
    pub gen_writes: u64,
    pub types: BuiltinTypes,
    pub metadata_capacity: u32,
    /// The pools of variable-length rows.
    pub var_len: VarLenPools,
    /// The buffers that back no column.
    pub generations: B,
    pub slot_mirror: B,
    pub cell_metadata: B,
}

/// A mirror's regions are handed out to it by its class's pools.
pub open spec fn resident(
    row_pools: Seq<RegionState>,
    slot_pools: Seq<RegionState>,
    mirror: MirrorState,
) -> bool {
    &&& mirror.consistent()
    &&& mirror.class < row_pools.len()
    &&& row_pools[mirror.class as int].handed_out(mirror.regions.row)
    &&& slot_pools[mirror.class as int].handed_out(mirror.regions.slot)
    &&& mirror.row_base == row_pools[mirror.class as int].start_of(mirror.regions.row as int)
    &&& mirror.slot_base == slot_pools[mirror.class as int].start_of(mirror.regions.slot as int)
    &&& mirror.row_capacity == row_pools[mirror.class as int].size
    &&& mirror.slot_capacity == slot_pools[mirror.class as int].size
}

/// The pools lie one after the other.
pub open spec fn laid_out(pools: Seq<RegionState>) -> bool {
    forall|i: int, j: int|
        #![trigger pools[i], pools[j]]
        0 <= i < j < pools.len() ==> pools[i].base + pools[i].count * pools[i].size
            <= pools[j].base
}

/// Two mirrors have no region in common.
pub open spec fn apart(a: MirrorState, b: MirrorState) -> bool {
    a.class == b.class ==> a.regions.row != b.regions.row && a.regions.slot != b.regions.slot
}

/// Nothing but dirty rows, shadows and the queue differs.
pub open spec fn same_regions(a: MirrorState, b: MirrorState) -> bool {
    &&& a.class == b.class
    &&& a.regions == b.regions
    &&& a.row_base == b.row_base
    &&& a.slot_base == b.slot_base
    &&& a.row_capacity == b.row_capacity
    &&& a.slot_capacity == b.slot_capacity
}

impl<B> StoreState<B> {
    pub open spec fn is_live(self, id: CellId) -> bool {
        id.index < self.cells.len() && self.cells[id.index as int] is Some
    }

    /// The device side of a live cell.
    pub open spec fn mirror(self, id: CellId) -> MirrorState {
        self.cells[id.index as int]->0
    }

    /// Every live cell has a row region and a slot region of its class to itself.
    pub open spec fn consistent(self) -> bool {
        &&& self.buffers.consistent()
        &&& self.row_pools.len() == self.slot_pools.len()
        &&& laid_out(self.row_pools)
        &&& laid_out(self.slot_pools)
        &&& forall|i: int| 0 <= i < self.row_pools.len() ==> (#[trigger] self.row_pools[i]).consistent()
        &&& forall|i: int|
            0 <= i < self.slot_pools.len() ==> (#[trigger] self.slot_pools[i]).consistent()
        &&& self.cells.len() <= u32::MAX
        &&& forall|c: int|
            0 <= c < self.cells.len() && (#[trigger] self.cells[c]) is Some ==> resident(
                self.row_pools,
                self.slot_pools,
                self.cells[c]->0,
            )
        &&& forall|c: int, d: int|
            #![trigger self.cells[c], self.cells[d]]
            0 <= c < d < self.cells.len() && self.cells[c] is Some && self.cells[d] is Some
                ==> apart(self.cells[c]->0, self.cells[d]->0)
    }

    /// Why a cell of `class` gets no regions, if it does not.
    pub open spec fn register_error(self, class: int) -> Option<RegionError> {
        if self.row_pools[class].free.len() == 0 {
            Some(RegionError::RowsExhausted)
        } else if self.slot_pools[class].free.len() == 0 {
            Some(RegionError::SlotsExhausted)
        } else {
            None
        }
    }

    /// A cell fits the regions of `class` and carries no two columns of one buffer, and there is an
    /// id left for it.
    pub open spec fn holds(self, class: usize, cell: CellState) -> bool {
        &&& self.cells.len() < u32::MAX
        &&& carried_once(fixed_columns_of(self.buffers), cell)
        &&& cell.rows.len() <= self.row_pools[class as int].size
        &&& cell.generations.len() <= self.slot_pools[class as int].size
    }

    /// The device side of a cell about to be registered.
    pub open spec fn new_mirror(self, class: usize, cell: CellState) -> MirrorState {
        let regions = Regions {
            row: self.row_pools[class as int].free.last(),
            slot: self.slot_pools[class as int].free.last(),
        };
        registered_mirror(
            class,
            regions,
            self.row_pools[class as int].start_of(regions.row as int) as u32,
            self.slot_pools[class as int].start_of(regions.slot as int) as u32,
            self.row_pools[class as int].size,
            self.slot_pools[class as int].size,
            fixed_columns_of(self.buffers),
            cell,
        )
    }

    /// The store after a cell is registered.
    pub open spec fn after_register(self, class: usize, cell: CellState) -> StoreState<B> {
        StoreState {
            row_pools: self.row_pools.update(
                class as int,
                self.row_pools[class as int].after_take(),
            ),
            slot_pools: self.slot_pools.update(
                class as int,
                self.slot_pools[class as int].after_take(),
            ),
            cells: self.cells.push(Some(self.new_mirror(class, cell))),
            ..self
        }
    }

    /// The store after a cell is unregistered.
    pub open spec fn after_unregister(self, id: CellId, serial: u64) -> StoreState<B> {
        let mirror = self.mirror(id);
        let class = mirror.class as int;
        StoreState {
            row_pools: self.row_pools.update(
                class,
                self.row_pools[class].after_pin(mirror.regions.row, serial),
            ),
            slot_pools: self.slot_pools.update(
                class,
                self.slot_pools[class].after_pin(mirror.regions.slot, serial),
            ),
            cells: self.cells.update(id.index as int, None),
            ..self
        }
    }

    /// The store with another device side for a cell.
    pub open spec fn with_mirror(self, id: CellId, mirror: MirrorState) -> StoreState<B> {
        StoreState { cells: self.cells.update(id.index as int, Some(mirror)), ..self }
    }
}

/// A handle whose row may be written: it is current, and its retirement is not pending.
pub open spec fn writable(cell: CellState, handle: Handle) -> bool {
    cell.row_of(handle) matches Some(row) && !cell.rows[row as int].pinned
}

/// A counter of `n` after `more`; it wraps.
pub open spec fn counted(n: u64, more: int) -> u64 {
    ((n + more) % 0x1_0000_0000_0000_0000) as u64
}

/// A stage of the frame boundary.
#[derive(Debug)]
pub enum Stage {
    /// Carry out the retirements whose serials are at most `done`.
    Retire { done: u64 },
    /// Compact.
    Compact,
    /// Upload what is dirty, with the mirrored columns.
    Sync { columns: Vec<FixedColumn> },
}

/// What a stage makes of a cell.
pub struct StageOutcome {
    pub mirror: MirrorState,
    pub cell: CellState,
    pub writes: Seq<WriteState>,
    pub retired: nat,
}

/// What `stage` makes of a cell.
pub open spec fn staged(stage: Stage, mirror: MirrorState, cell: CellState) -> StageOutcome {
    match stage {
        Stage::Retire { done } => {
            let outcome = retired(mirror, cell, done);
            StageOutcome {
                mirror: outcome.mirror,
                cell: outcome.cell,
                writes: outcome.writes,
                retired: outcome.count,
            }
        },
        Stage::Compact => StageOutcome {
            mirror: mirror.moves_marked(cell.moves()),
            cell: cell.compacted(),
            writes: seq![],
            retired: 0,
        },
        Stage::Sync { columns } => StageOutcome {
            mirror: mirror.synced(columns@, cell),
            cell,
            writes: mirror.sync_writes(columns@, cell),
            retired: 0,
        },
    }
}

/// What `stage` needs of a cell.
pub open spec fn stage_fits(stage: Stage, mirror: MirrorState, cell: CellState) -> bool {
    &&& mirror.paired(cell)
    &&& match stage {
        Stage::Retire { done } => retire_fits(mirror, done),
        Stage::Compact => cell.rows.len() <= mirror.row_capacity,
        Stage::Sync { columns } => cell.rows.len() <= mirror.row_capacity && mirror.slots_fit(
            cell,
        ) && columns_ok(columns@) && mirror.masks_sized(columns@, cell),
    }
}

/// Cell `i` sits this boundary out.
pub open spec fn sits_out(ready: Seq<bool>, i: int) -> bool {
    0 <= i < ready.len() && !ready[i]
}

/// What a stage makes of the first `n` cells of a list.
pub struct Swept {
    pub cells: Seq<Option<MirrorState>>,
    pub writes: Seq<WriteState>,
    pub retired: nat,
}

/// What a stage makes of the first `n` cells of a list.
pub open spec fn swept(
    stage: Stage,
    ready: Seq<bool>,
    cells: Seq<Option<MirrorState>>,
    slots: Seq<CellSlot>,
    n: int,
) -> Swept
    decreases n,
{
    if n <= 0 {
        Swept { cells, writes: seq![], retired: 0 }
    } else {
        let front = swept(stage, ready, cells, slots, n - 1);
        if sits_out(ready, n - 1) {
            front
        } else {
            let at = slots[n - 1].id.index as int;
            let outcome = staged(stage, cells[at]->0, slots[n - 1].cell@);
            Swept {
                cells: front.cells.update(at, Some(outcome.mirror)),
                writes: front.writes + outcome.writes,
                retired: front.retired + outcome.retired,
            }
        }
    }
}

/// The cell of slot `i` after the stage.
pub open spec fn swept_cell(
    stage: Stage,
    ready: Seq<bool>,
    cells: Seq<Option<MirrorState>>,
    slots: Seq<CellSlot>,
    i: int,
) -> CellState {
    if sits_out(ready, i) {
        slots[i].cell@
    } else {
        staged(stage, cells[slots[i].id.index as int]->0, slots[i].cell@).cell
    }
}

/// The slots of a list name live cells, each once, with the storage they were registered with.
pub open spec fn slots_ok(cells: Seq<Option<MirrorState>>, slots: Seq<CellSlot>) -> bool {
    &&& forall|i: int|
        0 <= i < slots.len() ==> {
            &&& (#[trigger] slots[i]).id.index < cells.len()
            &&& cells[slots[i].id.index as int] is Some
            &&& slots[i].cell.wf()
            &&& (cells[slots[i].id.index as int]->0).paired(slots[i].cell@)
        }
    &&& forall|i: int, j: int|
        #![trigger slots[i], slots[j]]
        0 <= i < j < slots.len() ==> slots[i].id != slots[j].id
}

/// A store of mirrored cells.
pub struct SceneGpuStore<B> {
    buffers: SharedBuffers<B>,
    row_pools: Vec<RegionPool>,
    slot_pools: Vec<RegionPool>,
    cells: Vec<Option<CellMirror>>,
    phase: Phase,
    gen_writes: u64,
    types: BuiltinTypes,
    metadata_capacity: u32,
    var_len: VarLenPools,
    generations: B,
    slot_mirror: B,
    cell_metadata: B,
}

/// What the pools hold.
pub open spec fn pool_states(pools: Seq<RegionPool>) -> Seq<RegionState> {
    Seq::new(pools.len(), |i: int| pools[i]@)
}

/// What the cells hold.
pub open spec fn cell_states(cells: Seq<Option<CellMirror>>) -> Seq<Option<MirrorState>> {
    Seq::new(
        cells.len(),
        |c: int|
            match cells[c] {
                Some(mirror) => Some(mirror@),
                None => None,
            },
    )
}

impl<B> View for SceneGpuStore<B> {
    type V = StoreState<B>;

    closed spec fn view(&self) -> StoreState<B> {
        StoreState {
            buffers: self.buffers@,
            row_pools: pool_states(self.row_pools@),
            slot_pools: pool_states(self.slot_pools@),
            cells: cell_states(self.cells@),
            phase: self.phase,
            gen_writes: self.gen_writes,
            types: self.types,
            metadata_capacity: self.metadata_capacity,
            var_len: self.var_len,
            generations: self.generations,
            slot_mirror: self.slot_mirror,
            cell_metadata: self.cell_metadata,
        }
    }
}

impl<B: Clone> SceneGpuStore<B> {
    /// The invariant every operation keeps.
    pub closed spec fn wf(&self) -> bool {
        &&& self@.consistent()
        &&& self.buffers.wf()
        &&& self.var_len.wf()
        &&& forall|i: int| 0 <= i < self.row_pools@.len() ==> (#[trigger] self.row_pools@[i]).wf()
        &&& forall|i: int|
            0 <= i < self.slot_pools@.len() ==> (#[trigger] self.slot_pools@[i]).wf()
        &&& forall|c: int|
            0 <= c < self.cells@.len() && (#[trigger] self.cells@[c]) is Some ==> (
            self.cells@[c]->0).wf()
    }

    /// The invariant gives a consistent state.
    pub proof fn lemma_wf(&self)
        requires
            self.wf(),
        ensures
            self@.consistent(),
    {
    }

    /// A store of the given capacities, with the buffers every store has.
    pub fn new(cfg: &SceneGpuConfig, types: BuiltinTypes, buffers: BuiltinBuffers<B>) -> (store:
        Self)
        requires
            cfg.classes_ok(),
            cfg.fits(),
            types_ok(types, row_extent(cfg.classes@, cfg.classes@.len() as int)),
        ensures
            store.wf(),
            fresh_store(store@, cfg, types, buffers),
    {
        let (rows, _slots) = match cfg.extents() {
            Some(extents) => extents,
            None => {
                assert(false);
                (0, 0)
            },
        };
        let headroom: u32 = cfg.tombstone_headroom;
        let mut row_pools: Vec<RegionPool> = Vec::new();
        let mut slot_pools: Vec<RegionPool> = Vec::new();
        let mut row_offset: u32 = 0;
        let mut slot_offset: u32 = 0;
        let mut i: usize = 0;
        while i < cfg.classes.len()
            invariant
                i <= cfg.classes@.len(),
                cfg.classes_ok(),
                cfg.fits(),
                headroom == cfg.tombstone_headroom,
                row_offset == row_extent(cfg.classes@, i as int),
                slot_offset == slot_extent(cfg.classes@, headroom, i as int),
                row_pools@.len() == i,
                slot_pools@.len() == i,
                forall|k: int|
                    0 <= k < i ==> (#[trigger] row_pools@[k]).wf() && row_pools@[k]@
                        == fresh_row_pool(cfg.classes@, k),
                forall|k: int|
                    0 <= k < i ==> (#[trigger] slot_pools@[k]).wf() && slot_pools@[k]@
                        == fresh_slot_pool(cfg.classes@, headroom, k),
            decreases cfg.classes@.len() - i,
        {
            let class: RegionClassConfig = cfg.classes[i];
            let size: u32 = class.capacity;
            proof {
                assert(cfg.classes@[i as int] == class);
                lemma_extents_grow(cfg.classes@, headroom, i + 1, cfg.classes@.len() as int);
                lemma_u32_product(class.max_resident_cells as int, size as int);
                lemma_u32_product(class.max_resident_cells as int, size + headroom);
            }
            let slot_size: u32 = size + headroom;
            let row_pool = RegionPool::new(row_offset, size, class.max_resident_cells);
            let slot_pool = RegionPool::new(slot_offset, slot_size, class.max_resident_cells);
            proof {
                assert(row_pool@ =~= fresh_row_pool(cfg.classes@, i as int));
                assert(slot_pool@ =~= fresh_slot_pool(cfg.classes@, headroom, i as int));
            }
            row_pools.push(row_pool);
            slot_pools.push(slot_pool);
            let more_rows: u64 = class.max_resident_cells as u64 * size as u64;
            let more_slots: u64 = class.max_resident_cells as u64 * slot_size as u64;
            row_offset = row_offset + more_rows as u32;
            slot_offset = slot_offset + more_slots as u32;
            i = i + 1;
        }
        let mut shared: SharedBuffers<B> = SharedBuffers::new();
        proof {
            reveal_strlit("scenedb-instances");
            reveal_strlit("scenedb-instance-info");
            reveal_strlit("builtin_generation");
            reveal_strlit("builtin_slot_mirror");
            reveal_strlit("builtin_cell_metadata");
        }
        let key0 = transform_buffer_key();
        let key1 = info_buffer_key();
        let key2 = generation_buffer_key();
        let key3 = slot_mirror_buffer_key();
        let key4 = cell_metadata_buffer_key();
        proof {
            assert(key0@.len() == 17 && key1@.len() == 21 && key2@.len() == 18 && key3@.len() == 19
                && key4@.len() == 21);
            assert(key1@[0] == 's' && key4@[0] == 'b');
        }
        shared.register_new(
            types.transform,
            types.transform_element,
            rows,
            rows,
            key0,
            MirrorMode::DirtyTracked,
            SharedKindTag::Fixed,
            buffers.transforms,
        );
        let ghost one = shared@;
        proof {
            assert(one.registry.len() == 1 && one.registry[0].key == key0);
            assert(one.owners.len() == 1 && one.owners[0].key == key0);
            assert(!has_owner(one.owners, key1@));
            assert(!registered(one.registry, key1@));
        }
        shared.register_new(
            types.info,
            types.info_element,
            rows,
            rows,
            key1,
            MirrorMode::DirtyTracked,
            SharedKindTag::Fixed,
            buffers.infos,
        );
        let ghost two = shared@;
        proof {
            assert(two.registry.len() == 2 && two.registry[0] == one.registry[0]
                && two.registry[1].key == key1);
            assert(one.fixed =~= seq![(types.transform, 0usize)]);
            assert(one.columns =~= seq![(types.transform, 0usize)]);
            assert(two.fixed =~= seq![(types.transform, 0usize), (types.info, 1usize)]) by {
                assert(!crate::gpu::column_map::is_bound(one.fixed, types.info));
            }
            assert(two.columns =~= seq![(types.transform, 0usize), (types.info, 1usize)]) by {
                assert(!crate::gpu::column_map::is_bound(one.columns, types.info));
            }
            assert(!registered(two.registry, key2@));
        }
        let word = ElementDesc { element: types.word, size: 4 };
        let generations: B = buffers.generations;
        let slot_mirror: B = buffers.slot_mirror;
        let cell_metadata: B = buffers.cell_metadata;
        let listed: B = generations.clone();
        let ghost listed2 = listed;
        let _ = shared.register_builtin(key2, word, listed, MirrorMode::DirtyTracked);
        let ghost three = shared@;
        proof {
            assert(three.registry.len() == 3 && three.registry[0] == one.registry[0]
                && three.registry[1] == two.registry[1] && three.registry[2].key == key2);
            assert(!registered(three.registry, key3@));
        }
        let listed: B = slot_mirror.clone();
        let ghost listed3 = listed;
        let _ = shared.register_builtin(key3, word, listed, MirrorMode::DirtyTracked);
        let ghost four = shared@;
        proof {
            assert(four.registry.len() == 4 && four.registry[0] == one.registry[0]
                && four.registry[1] == two.registry[1] && four.registry[2] == three.registry[2]
                && four.registry[3].key == key3);
            assert(!registered(four.registry, key4@));
        }
        let listed: B = cell_metadata.clone();
        let ghost listed4 = listed;
        let record = ElementDesc { element: types.cell_metadata, size: 8 };
        let _ = shared.register_builtin(key4, record, listed, MirrorMode::DirtyTracked);
        let store = SceneGpuStore {
            buffers: shared,
            row_pools,
            slot_pools,
            cells: Vec::new(),
            phase: Phase::Write,
            gen_writes: 0,
            types,
            metadata_capacity: cfg.max_cells_metadata,
            var_len: VarLenPools::new(),
            generations,
            slot_mirror,
            cell_metadata,
        };
        proof {
            store.buffers.lemma_wf();
            let state = store@;
            assert(state.buffers.registry[2].buffer == Some(listed2));
            assert(state.buffers.registry[3].buffer == Some(listed3));
            assert(state.buffers.registry[4].buffer == Some(listed4));
            assert(state.row_pools =~= fresh_row_pools(cfg.classes@));
            assert(state.slot_pools =~= fresh_slot_pools(cfg.classes@, headroom));
            lemma_fresh_layout(cfg.classes@, headroom);
            assert forall|i: int| 0 <= i < state.row_pools.len() implies (
            #[trigger] state.row_pools[i]).consistent() by {
                assert(row_pools@[i].wf());
            }
            assert forall|i: int| 0 <= i < state.slot_pools.len() implies (
            #[trigger] state.slot_pools[i]).consistent() by {
                assert(slot_pools@[i].wf());
            }
        }
        store
    }

    /// A store made anew from the cells alone, as after the loss of a device: every cell is
    /// registered, in order, and uploaded whole. No retirement may be pending in any cell. Returns
    /// the store, the ids and the writes.
    pub fn rebuild(
        cfg: &SceneGpuConfig,
        types: BuiltinTypes,
        buffers: BuiltinBuffers<B>,
        cells: &Vec<(usize, CellStorage)>,
    ) -> (r: (Self, Vec<CellId>, Vec<DeviceWrite>))
        requires
            cfg.classes_ok(),
            cfg.fits(),
            types_ok(types, row_extent(cfg.classes@, cfg.classes@.len() as int)),
            cells@.len() <= u32::MAX,
            rebuildable(cfg, cells@),
        ensures
            r.0.wf(),
            r.1@.len() == cells@.len(),
            forall|i: int| 0 <= i < r.1@.len() ==> (#[trigger] r.1@[i]).index == i,
            exists|fresh: StoreState<B>| #[trigger]
                fresh_store(fresh, cfg, types, buffers) && r.0@ == rebuilt(
                    fresh,
                    cells@,
                    cells@.len() as int,
                ) && writes_of(r.2@) == rebuild_writes(fresh, cells@, cells@.len() as int),
    {
        let mut store = SceneGpuStore::new(cfg, types, buffers);
        let ghost fresh = store@;
        let mut ids: Vec<CellId> = Vec::new();
        let mut writes: Vec<DeviceWrite> = Vec::new();
        let columns: Vec<FixedColumn> = store.buffers.fixed_columns();
        proof {
            store.buffers.lemma_wf();
            lemma_fixed_columns_ok(fresh.buffers);
            assert(writes_of(writes@) =~= seq![]);
            assert forall|c: int| 0 <= c < cfg.classes@.len() implies #[trigger] class_count(
                cells@,
                c,
                0,
            ) == 0 by {}
        }
        let mut i: usize = 0;
        while i < cells.len()
            invariant
                i <= cells@.len(),
                cells@.len() <= u32::MAX,
                cfg.classes_ok(),
                rebuildable(cfg, cells@),
                fresh_store(fresh, cfg, types, buffers),
                columns@ == fixed_columns_of(fresh.buffers),
                columns_ok(columns@),
                store.wf(),
                store@ == rebuilt(fresh, cells@, i as int),
                store@.buffers == fresh.buffers,
                store@.cells.len() == i,
                ids@.len() == i,
                forall|k: int| 0 <= k < i ==> (#[trigger] ids@[k]).index == k,
                writes_of(writes@) == rebuild_writes(fresh, cells@, i as int),
                store@.row_pools.len() == cfg.classes@.len(),
                store@.slot_pools.len() == cfg.classes@.len(),
                pools_left(cfg, store@, cells@, i as int),
            decreases cells@.len() - i,
        {
            let ghost before = store@;
            let class: usize = cells[i].0;
            let ghost at = class as int;
            proof {
                assert(cells@[i as int].0 < cfg.classes@.len());
                lemma_class_count(cells@, at, i + 1, cells@.len() as int);
                assert(class_count(cells@, at, i + 1) == class_count(cells@, at, i as int) + 1);
                lemma_builtins_carried_once(fresh, cfg, types, buffers, cells@[i as int].1@);
            }
            match store.register_cell(&cells[i].1, class) {
                Ok((id, registration)) => {
                    let mut registration = registration;
                    let ghost first = writes_of(registration@);
                    let ghost registered = store@;
                    let ghost already = writes_of(writes@);
                    let ghost cell = cells@[i as int].1@;
                    let ghost mirror = before.new_mirror(class, cell);
                    let ghost cells_old = store.cells@;
                    assert(registered.cells[i as int] == Some(mirror));
                    assert(cells_old[i as int] is Some);
                    match &mut store.cells[id.index as usize] {
                        Some(m) => {
                            m.refill(&columns, &cells[i].1, &mut registration);
                        },
                        None => {
                            assert(false);
                        },
                    }
                    proof {
                        let filled = mirror.refilled(cell);
                        (store.cells@[i as int]->0).lemma_wf();
                        assert(store@.cells =~= registered.with_mirror(id, filled).cells);
                        lemma_mirror_replaced(registered, id, filled);
                        lemma_cells_wf(cells_old, store.cells@, i as int);
                        assert(store@ == rebuilt(fresh, cells@, i + 1));
                        assert(writes_of(registration@) == first + mirror.refill_writes(
                            columns@,
                            cell,
                        ));
                        assert(pools_left(cfg, store@, cells@, i + 1)) by {
                            assert forall|c: int| 0 <= c < cfg.classes@.len() implies pool_left(
                                cfg,
                                store@,
                                c,
                                #[trigger] class_count(cells@, c, i + 1),
                            ) by {
                                lemma_class_count(cells@, c, 0, i as int);
                                let earlier = class_count(cells@, c, i as int);
                                assert(pool_left(cfg, before, c, earlier));
                            }
                        }
                    }
                    let ghost more = writes_of(registration@);
                    append_writes(&mut writes, registration);
                    assert(writes_of(writes@) =~= already + more);
                    assert(writes_of(writes@) =~= rebuild_writes(fresh, cells@, i + 1));
                    ids.push(id);
                },
                Err(_) => {
                    assert(false);
                },
            }
            i = i + 1;
        }
        assert(fresh_store(fresh, cfg, types, buffers));
        (store, ids, writes)
    }

    /// Registers a cell in a region of `class`. Pool exhaustion is an ordinary condition and
    /// reported, rows before slots; a cell that does not fit its class is not.
    pub fn register_cell(&mut self, cell: &CellStorage, class: usize) -> (r: Result<
        (CellId, Vec<DeviceWrite>),
        RegionError,
    >)
        requires
            old(self).wf(),
            cell.wf(),
            class < old(self)@.row_pools.len(),
            old(self)@.register_error(class as int) is None ==> old(self)@.holds(class, cell@),
        ensures
            final(self).wf(),
            match r {
                Ok((id, writes)) => {
                    &&& old(self)@.register_error(class as int) is None
                    &&& id.index == old(self)@.cells.len()
                    &&& final(self)@ == old(self)@.after_register(class, cell@)
                    &&& writes_of(writes@) == registration_writes(
                        old(self)@.new_mirror(class, cell@),
                        cell@,
                    )
                    &&& final(self)@.mirror(id).paired(cell@)
                },
                Err(e) => old(self)@.register_error(class as int) == Some(e) && final(self)@
                    == old(self)@,
            },
    {
        let ghost before = self@;
        proof {
            self.buffers.lemma_wf();
            assert(self.row_pools@[class as int].wf());
            assert(self.slot_pools@[class as int].wf());
            assert(before.row_pools[class as int] == self.row_pools@[class as int]@);
            assert(before.slot_pools[class as int] == self.slot_pools@[class as int]@);
        }
        if self.row_pools[class].free_count() == 0 {
            return Err(RegionError::RowsExhausted);
        }
        if self.slot_pools[class].free_count() == 0 {
            return Err(RegionError::SlotsExhausted);
        }
        let ghost row_pool = before.row_pools[class as int];
        let ghost slot_pool = before.slot_pools[class as int];
        let ghost rows_old = self.row_pools@;
        let ghost slots_old = self.slot_pools@;
        let row: u32 = match self.row_pools[class].acquire() {
            Some(at) => at,
            None => {
                assert(false);
                0
            },
        };
        let slot: u32 = match self.slot_pools[class].acquire() {
            Some(at) => at,
            None => {
                assert(false);
                0
            },
        };
        let row_base: u32 = self.row_pools[class].region_start(row);
        let slot_base: u32 = self.slot_pools[class].region_start(slot);
        let row_capacity: u32 = self.row_pools[class].region_size();
        let slot_capacity: u32 = self.slot_pools[class].region_size();
        let columns: Vec<FixedColumn> = self.buffers.fixed_columns();
        proof {
            lemma_fixed_columns_ok(before.buffers);
            lemma_region_bound(row_pool, row);
            lemma_region_bound(slot_pool, slot);
        }
        let (mirror, writes) = CellMirror::new(
            class,
            Regions { row, slot },
            row_base,
            slot_base,
            row_capacity,
            slot_capacity,
            &columns,
            cell,
        );
        let ghost cells_old = self.cells@;
        proof {
            mirror.lemma_wf();
        }
        let id = CellId { index: self.cells.len() as u32 };
        self.cells.push(Some(mirror));
        proof {
            assert(self@.row_pools =~= before.after_register(class, cell@).row_pools);
            assert(self@.slot_pools =~= before.after_register(class, cell@).slot_pools);
            assert(self@.cells =~= before.after_register(class, cell@).cells);
            assert(self@ == before.after_register(class, cell@));
            lemma_pools_taken(before.row_pools, class as int);
            lemma_pools_taken(before.slot_pools, class as int);
            lemma_registered(before, class, cell@);
            assert forall|i: int| 0 <= i < self.row_pools@.len() implies (
            #[trigger] self.row_pools@[i]).wf() by {
                assert(rows_old[i].wf());
            }
            assert forall|i: int| 0 <= i < self.slot_pools@.len() implies (
            #[trigger] self.slot_pools@[i]).wf() by {
                assert(slots_old[i].wf());
            }
            assert forall|c: int|
                0 <= c < self.cells@.len() && (#[trigger] self.cells@[c]) is Some implies (
            self.cells@[c]->0).wf() by {
                if c < cells_old.len() {
                    assert(cells_old[c] is Some);
                }
            }
        }
        Ok((id, writes))
    }

    /// Unregisters a cell: its queued retirements are committed at once, without a write, and its
    /// regions are free again once `last_serial` has completed.
    pub fn unregister_cell(&mut self, id: CellId, cell: &mut CellStorage, last_serial: u64)
        requires
            old(self).wf(),
            old(cell).wf(),
            old(self)@.is_live(id),
            old(self)@.mirror(id).paired(old(cell)@),
            old(self)@.mirror(id).pending.len() > 0 ==> old(self)@.mirror(
                id,
            ).pending.last().serial <= last_serial,
        ensures
            final(self).wf(),
            final(cell).wf(),
            final(self)@ == old(self)@.after_unregister(id, last_serial),
            final(cell)@ == all_committed(old(cell)@, old(self)@.mirror(id).pending),
    {
        let ghost before = self@;
        let at: usize = id.index as usize;
        let ghost cells_old = self.cells@;
        let ghost rows_old = self.row_pools@;
        let ghost slots_old = self.slot_pools@;
        assert(cells_old[at as int] is Some);
        assert(before.cells[at as int] is Some);
        assert(resident(before.row_pools, before.slot_pools, before.mirror(id)));
        let mirror: CellMirror = match self.cells[at].take() {
            Some(mirror) => mirror,
            None => {
                assert(false);
                return ;
            },
        };
        let class: usize = mirror.class();
        let regions: Regions = mirror.regions();
        mirror.commit_all(cell);
        proof {
            assert(rows_old[class as int].wf());
            assert(slots_old[class as int].wf());
            assert(before.row_pools[class as int] == rows_old[class as int]@);
            assert(before.slot_pools[class as int] == slots_old[class as int]@);
        }
        self.row_pools[class].free_pinned(regions.row, last_serial);
        self.slot_pools[class].free_pinned(regions.slot, last_serial);
        proof {
            let after = before.after_unregister(id, last_serial);
            assert(self@.row_pools =~= after.row_pools);
            assert(self@.slot_pools =~= after.slot_pools);
            assert(self@.cells =~= after.cells);
            assert(self@ == after);
            lemma_unregistered(before, id, last_serial);
            assert forall|i: int| 0 <= i < self.row_pools@.len() implies (
            #[trigger] self.row_pools@[i]).wf() by {
                assert(rows_old[i].wf());
            }
            assert forall|i: int| 0 <= i < self.slot_pools@.len() implies (
            #[trigger] self.slot_pools@[i]).wf() by {
                assert(slots_old[i].wf());
            }
            assert forall|c: int|
                0 <= c < self.cells@.len() && (#[trigger] self.cells@[c]) is Some implies (
            self.cells@[c]->0).wf() by {
                assert(cells_old[c] is Some);
            }
        }
    }

    /// Where in a frame the store is.
    pub fn phase(&self) -> (phase: Phase)
        ensures
            phase == self@.phase,
    {
        self.phase
    }

    /// How many classes of regions there are.
    pub fn class_count(&self) -> (n: usize)
        ensures
            n == self@.row_pools.len(),
    {
        self.row_pools.len()
    }

    /// How many more ids there are for cells; none is given twice.
    pub fn ids_left(&self) -> (n: u32)
        requires
            self.wf(),
        ensures
            n == u32::MAX - self@.cells.len(),
    {
        u32::MAX - self.cells.len() as u32
    }

    /// How many more cells of `class` can be registered.
    pub fn free_regions(&self, class: usize) -> (n: usize)
        requires
            self.wf(),
            class < self@.row_pools.len(),
        ensures
            n == 0 <==> self@.register_error(class as int) is Some,
            n == if self@.row_pools[class as int].free.len() <= self@.slot_pools[class as int].free.len() {
                self@.row_pools[class as int].free.len()
            } else {
                self@.slot_pools[class as int].free.len()
            },
    {
        let rows: usize = self.row_pools[class].free_count();
        let slots: usize = self.slot_pools[class].free_count();
        if rows <= slots {
            rows
        } else {
            slots
        }
    }

    /// Whether a cell fits the regions of `class` and carries no two columns of one buffer.
    pub fn holds_cell(&self, cell: &CellStorage, class: usize) -> (holds: bool)
        requires
            self.wf(),
            cell.wf(),
            class < self@.row_pools.len(),
        ensures
            holds == self@.holds(class, cell@),
    {
        if self.cells.len() >= u32::MAX as usize {
            return false;
        }
        if cell.rows_in_use() > self.row_pools[class].region_size() {
            return false;
        }
        if cell.generations().len() > self.slot_pools[class].region_size() as usize {
            return false;
        }
        let columns: Vec<FixedColumn> = self.buffers.fixed_columns();
        let mut j: usize = 0;
        while j < columns.len()
            invariant
                cell.wf(),
                columns@ == fixed_columns_of(self@.buffers),
                j <= columns@.len(),
                forall|a: int, b: int|
                    #![trigger columns@[a], columns@[b]]
                    0 <= a < b < j && cell@.has_column(columns@[a].0) && cell@.has_column(
                        columns@[b].0,
                    ) ==> columns@[a].1 != columns@[b].1,
            decreases columns@.len() - j,
        {
            if cell.column_size(columns[j].0).is_some() {
                let mut i: usize = 0;
                while i < j
                    invariant
                        cell.wf(),
                        columns@ == fixed_columns_of(self@.buffers),
                        i <= j < columns@.len(),
                        cell@.has_column(columns@[j as int].0),
                        forall|a: int|
                            0 <= a < i && cell@.has_column((#[trigger] columns@[a]).0)
                                ==> columns@[a].1 != columns@[j as int].1,
                    decreases j - i,
                {
                    if cell.column_size(columns[i].0).is_some() && columns[i].1 == columns[j].1 {
                        assert(!carried_once(columns@, cell@)) by {
                            assert(columns@[i as int].1 == columns@[j as int].1);
                        }
                        return false;
                    }
                    i = i + 1;
                }
            }
            j = j + 1;
        }
        true
    }

    /// The serial of the retirement of a cell that was queued last.
    pub fn newest_serial(&self, id: CellId) -> (serial: Option<u64>)
        requires
            self.wf(),
            self@.is_live(id),
        ensures
            serial == if self@.mirror(id).pending.len() > 0 {
                Some(self@.mirror(id).pending.last().serial)
            } else {
                None
            },
    {
        assert(self@.cells[id.index as int] is Some);
        match &self.cells[id.index as usize] {
            Some(mirror) => mirror.newest_serial(),
            None => {
                assert(false);
                None
            },
        }
    }

    /// Whether the rows and slots of a cell, and its retirements due at `done`, lie in its regions.
    pub fn covers_cell(&self, id: CellId, cell: &CellStorage, done: u64) -> (fits: bool)
        requires
            self.wf(),
            cell.wf(),
            self@.is_live(id),
        ensures
            fits == (cell@.rows.len() <= self@.mirror(id).row_capacity && self@.mirror(
                id,
            ).slots_fit(cell@) && retire_fits(self@.mirror(id), done)),
    {
        assert(self@.cells[id.index as int] is Some);
        assert(self.cells@[id.index as int] is Some);
        match &self.cells[id.index as usize] {
            Some(mirror) => mirror.covers(cell, done),
            None => {
                assert(false);
                false
            },
        }
    }

    /// Whether a cell is registered under `id`.
    pub fn has_cell(&self, id: CellId) -> (live: bool)
        requires
            self.wf(),
        ensures
            live == self@.is_live(id),
    {
        if (id.index as usize) < self.cells.len() {
            self.cells[id.index as usize].is_some()
        } else {
            false
        }
    }

    /// Where the row region of a cell starts.
    pub fn row_region_base(&self, id: CellId) -> (base: u32)
        requires
            self.wf(),
            self@.is_live(id),
        ensures
            base == self@.mirror(id).row_base,
    {
        assert(self@.cells[id.index as int] is Some);
        match &self.cells[id.index as usize] {
            Some(mirror) => mirror.row_base(),
            None => {
                assert(false);
                0
            },
        }
    }

    /// Marks a row of a column dirty, if the cell mirrors that column.
    pub fn mark_column_dirty(&mut self, id: CellId, component: ComponentId, row: u32)
        requires
            old(self).wf(),
            old(self)@.is_live(id),
            old(self)@.mirror(id).has_mask(component) ==> row < old(self)@.mirror(
                id,
            ).row_capacity,
        ensures
            final(self).wf(),
            final(self)@ == old(self)@.with_mirror(
                id,
                old(self)@.mirror(id).marked(component, row as int),
            ),
    {
        let ghost before = self@;
        let ghost cells_old = self.cells@;
        assert(before.cells[id.index as int] is Some);
        assert(cells_old[id.index as int] is Some);
        match &mut self.cells[id.index as usize] {
            Some(mirror) => mirror.mark_column_dirty(component, row),
            None => {
                assert(false);
            },
        }
        proof {
            (self.cells@[id.index as int]->0).lemma_wf();
            let mirror = before.mirror(id).marked(component, row as int);
            assert(self@.cells =~= before.with_mirror(id, mirror).cells);
            lemma_mirror_replaced(before, id, mirror);
            lemma_cells_wf(cells_old, self.cells@, id.index as int);
        }
    }

    /// Writes elements of the row of `handle` and marks them dirty; with `stamp`, also gives the
    /// device the slot's generation, unless it has it. False, and nothing written, if the handle is
    /// stale or its retirement is pending.
    fn write_row(
        &mut self,
        id: CellId,
        cell: &mut CellStorage,
        handle: Handle,
        fields: &Vec<FieldWrite>,
        stamp: bool,
    ) -> (r: (bool, Option<DeviceWrite>))
        requires
            old(self).wf(),
            old(cell).wf(),
            old(self)@.phase == Phase::Write,
            old(self)@.is_live(id),
            writable(old(cell)@, handle) ==> {
                &&& fields_fit(old(cell)@, fields@)
                &&& old(cell)@.row_of(handle)->0 < old(self)@.mirror(id).row_capacity
                &&& stamp ==> handle.index < old(self)@.mirror(id).slot_capacity
            },
        ensures
            final(self).wf(),
            final(cell).wf(),
            row_written(
                old(self)@,
                final(self)@,
                old(cell)@,
                final(cell)@,
                id,
                handle,
                fields@,
                stamp,
                r,
            ),
    {
        let ghost before = self@;
        let ghost start = cell@;
        let ghost cells_old = self.cells@;
        assert(before.cells[id.index as int] is Some);
        assert(cells_old[id.index as int] is Some);
        let row: u32 = match cell.row_of(handle) {
            Some(row) => row,
            None => return (false, None),
        };
        if cell.is_row_pinned(row) {
            return (false, None);
        }
        let mut write: Option<DeviceWrite> = None;
        match &mut self.cells[id.index as usize] {
            Some(mirror) => {
                mirror.write_fields(cell, row, fields);
                if stamp {
                    write = mirror.write_generation(handle.index, handle.generation);
                }
            },
            None => {
                assert(false);
            },
        }
        if write.is_some() {
            self.gen_writes = self.gen_writes.wrapping_add(1);
        }
        proof {
            (self.cells@[id.index as int]->0).lemma_wf();
            let marked = before.mirror(id).fields_marked(
                row as int,
                fields@,
                fields@.len() as int,
            );
            let mirror = if stamp {
                marked.stamped(handle.index, handle.generation)
            } else {
                marked
            };
            assert(self@.cells =~= before.with_mirror(id, mirror).cells);
            lemma_mirror_replaced(before, id, mirror);
            lemma_cells_wf(cells_old, self.cells@, id.index as int);
            assert(self@ == (StoreState {
                gen_writes: self@.gen_writes,
                ..before.with_mirror(id, mirror)
            }));
            if before.mirror(id).paired(start) {
                assert forall|i: int| 0 <= i < mirror.pending.len() implies cell@.awaits(
                    (#[trigger] mirror.pending[i]).pending,
                ) by {
                    assert(start.awaits(before.mirror(id).pending[i].pending));
                }
                assert(mirror.pending == before.mirror(id).pending);
                assert(mirror.paired(cell@)) by {
                    assert forall|i: int, j: int|
                        #![trigger mirror.pending[i], mirror.pending[j]]
                        0 <= i < j < mirror.pending.len() implies mirror.pending[i].pending.slot
                        != mirror.pending[j].pending.slot && mirror.pending[i].serial
                        <= mirror.pending[j].serial by {
                        assert(before.mirror(id).pending[i].pending.slot
                            != before.mirror(id).pending[j].pending.slot);
                    }
                }
            }
        }
        (true, write)
    }

    /// Writes the mirrored fields of a row and gives the device the slot's generation. False, and
    /// nothing written, if the handle is stale or its retirement is pending.
    pub fn write_gpu(
        &mut self,
        id: CellId,
        cell: &mut CellStorage,
        handle: Handle,
        fields: &Vec<FieldWrite>,
    ) -> (r: (bool, Option<DeviceWrite>))
        requires
            old(self).wf(),
            old(cell).wf(),
            old(self)@.phase == Phase::Write,
            old(self)@.is_live(id),
            writable(old(cell)@, handle) ==> {
                &&& fields_fit(old(cell)@, fields@)
                &&& old(cell)@.row_of(handle)->0 < old(self)@.mirror(id).row_capacity
                &&& handle.index < old(self)@.mirror(id).slot_capacity
            },
        ensures
            final(self).wf(),
            final(cell).wf(),
            row_written(
                old(self)@,
                final(self)@,
                old(cell)@,
                final(cell)@,
                id,
                handle,
                fields@,
                true,
                r,
            ),
    {
        self.write_row(id, cell, handle, fields, true)
    }

    /// Writes the transform of a row and gives the device the slot's generation. False, and nothing
    /// written, if the handle is stale or its retirement is pending.
    pub fn write_transform(
        &mut self,
        id: CellId,
        cell: &mut CellStorage,
        handle: Handle,
        transform: Vec<u8>,
    ) -> (r: (bool, Option<DeviceWrite>))
        requires
            old(self).wf(),
            old(cell).wf(),
            old(self)@.phase == Phase::Write,
            old(self)@.is_live(id),
            writable(old(cell)@, handle) ==> {
                &&& old(cell)@.has_column(old(self)@.types.transform)
                &&& transform@.len() == old(cell)@.column(old(self)@.types.transform).size
                &&& old(self)@.mirror(id).has_mask(old(self)@.types.transform)
                &&& old(cell)@.row_of(handle)->0 < old(self)@.mirror(id).row_capacity
                &&& handle.index < old(self)@.mirror(id).slot_capacity
            },
        ensures
            final(self).wf(),
            final(cell).wf(),
            exists|fields: Seq<FieldWrite>|
                #![trigger fields.len()]
                fields.len() == 1 && fields[0].id == old(self)@.types.transform
                    && fields[0].bytes@ == transform@ && row_written(
                    old(self)@,
                    final(self)@,
                    old(cell)@,
                    final(cell)@,
                    id,
                    handle,
                    fields,
                    true,
                    r,
                ),
    {
        let mut fields: Vec<FieldWrite> = Vec::new();
        fields.push(FieldWrite { id: self.types.transform, bytes: transform });
        let r = self.write_row(id, cell, handle, &fields, true);
        assert(fields@.len() == 1);
        r
    }

    /// Writes the instance record of a row; the generation is the transform's to stamp. False, and
    /// nothing written, if the handle is stale or its retirement is pending.
    pub fn write_instance_info(
        &mut self,
        id: CellId,
        cell: &mut CellStorage,
        handle: Handle,
        info: Vec<u8>,
    ) -> (r: bool)
        requires
            old(self).wf(),
            old(cell).wf(),
            old(self)@.phase == Phase::Write,
            old(self)@.is_live(id),
            writable(old(cell)@, handle) ==> {
                &&& old(cell)@.has_column(old(self)@.types.info)
                &&& info@.len() == old(cell)@.column(old(self)@.types.info).size
                &&& old(self)@.mirror(id).has_mask(old(self)@.types.info)
                &&& old(cell)@.row_of(handle)->0 < old(self)@.mirror(id).row_capacity
            },
        ensures
            final(self).wf(),
            final(cell).wf(),
            exists|fields: Seq<FieldWrite>|
                #![trigger fields.len()]
                fields.len() == 1 && fields[0].id == old(self)@.types.info && fields[0].bytes@
                    == info@ && row_written(
                    old(self)@,
                    final(self)@,
                    old(cell)@,
                    final(cell)@,
                    id,
                    handle,
                    fields,
                    false,
                    (r, None),
                ),
    {
        let mut fields: Vec<FieldWrite> = Vec::new();
        fields.push(FieldWrite { id: self.types.info, bytes: info });
        let (written, write) = self.write_row(id, cell, handle, &fields, false);
        assert(fields@.len() == 1);
        assert(write is None);
        written
    }

    /// Makes a row dead and queues its retirement until `serial` completes. False if the handle is
    /// stale or the row is not alive.
    pub fn free_deferred(
        &mut self,
        id: CellId,
        cell: &mut CellStorage,
        handle: Handle,
        serial: u64,
    ) -> (freed: bool)
        requires
            old(self).wf(),
            old(cell).wf(),
            old(self)@.phase == Phase::Write,
            old(self)@.is_live(id),
            old(self)@.mirror(id).paired(old(cell)@),
            old(cell)@.retirable(handle) && old(self)@.mirror(id).pending.len() > 0 ==> old(
                self,
            )@.mirror(id).pending.last().serial <= serial,
        ensures
            final(self).wf(),
            final(cell).wf(),
            freed == old(cell)@.retirable(handle),
            freed ==> final(cell)@ == old(cell)@.after_mark(handle) && final(self)@ == old(
                self,
            )@.with_mirror(
                id,
                old(self)@.mirror(id).queued(
                    QueuedRetire { pending: old(cell)@.pending_of(handle), serial },
                ),
            ),
            !freed ==> final(cell)@ == old(cell)@ && final(self)@ == old(self)@,
            final(self)@.mirror(id).paired(final(cell)@),
    {
        let ghost before = self@;
        let ghost cells_old = self.cells@;
        assert(before.cells[id.index as int] is Some);
        assert(cells_old[id.index as int] is Some);
        let freed: bool = match &mut self.cells[id.index as usize] {
            Some(mirror) => mirror.free_deferred(cell, handle, serial),
            None => {
                assert(false);
                false
            },
        };
        proof {
            (self.cells@[id.index as int]->0).lemma_wf();
            let mirror = self.cells@[id.index as int]->0@;
            assert(self@.cells =~= before.with_mirror(id, mirror).cells);
            if !freed {
                assert(self@.cells =~= before.cells);
            }
            lemma_mirror_replaced(before, id, mirror);
            lemma_cells_wf(cells_old, self.cells@, id.index as int);
        }
        freed
    }

    /// Runs a stage over the listed cells, but for those that sit out.
    fn sweep(&mut self, slots: &mut Vec<CellSlot>, stage: &Stage, ready: &Vec<bool>) -> (r: (
        Vec<DeviceWrite>,
        u64,
    ))
        requires
            old(self).wf(),
            slots_ok(old(self)@.cells, old(slots)@),
            forall|i: int|
                0 <= i < old(slots)@.len() && !sits_out(ready@, i) ==> stage_fits(
                    *stage,
                    old(self)@.mirror((#[trigger] old(slots)@[i]).id),
                    old(slots)@[i].cell@,
                ),
        ensures
            final(self).wf(),
            final(self)@ == (StoreState {
                cells: swept(
                    *stage,
                    ready@,
                    old(self)@.cells,
                    old(slots)@,
                    old(slots)@.len() as int,
                ).cells,
                ..old(self)@
            }),
            slots_swept(*stage, ready@, old(self)@.cells, old(slots)@, final(slots)@),
            slots_ok(final(self)@.cells, final(slots)@),
            ({
                let result = swept(
                    *stage,
                    ready@,
                    old(self)@.cells,
                    old(slots)@,
                    old(slots)@.len() as int,
                );
                &&& writes_of(r.0@) == result.writes
                &&& r.1 == capped(result.retired as int)
            }),
    {
        let ghost before = self@;
        let ghost given = slots@;
        let mut writes: Vec<DeviceWrite> = Vec::new();
        let mut total: u64 = 0;
        let mut i: usize = 0;
        assert(writes_of(writes@) =~= seq![]);
        while i < slots.len()
            invariant
                i <= slots@.len(),
                slots@.len() == given.len(),
                before.consistent(),
                slots_ok(before.cells, given),
                forall|k: int|
                    0 <= k < given.len() && !sits_out(ready@, k) ==> stage_fits(
                        *stage,
                        before.mirror((#[trigger] given[k]).id),
                        given[k].cell@,
                    ),
                self.wf(),
                self@ == (StoreState {
                    cells: swept(*stage, ready@, before.cells, given, i as int).cells,
                    ..before
                }),
                writes_of(writes@) == swept(
                    *stage,
                    ready@,
                    before.cells,
                    given,
                    i as int,
                ).writes,
                total == capped(
                    swept(*stage, ready@, before.cells, given, i as int).retired as int,
                ),
                forall|k: int|
                    0 <= k < slots@.len() ==> {
                        &&& (#[trigger] slots@[k]).id == given[k].id
                        &&& k < i ==> slots@[k].cell.wf() && slots@[k].cell@ == swept_cell(
                            *stage,
                            ready@,
                            before.cells,
                            given,
                            k,
                        )
                        &&& k >= i ==> slots@[k] == given[k]
                    },
                forall|k: int|
                    0 <= k < i ==> self@.is_live((#[trigger] slots@[k]).id) && self@.mirror(
                        slots@[k].id,
                    ).paired(slots@[k].cell@),
            decreases slots@.len() - i,
        {
            let ghost mid = self@;
            let ghost slots_old = slots@;
            let ghost cells_old = self.cells@;
            let id: CellId = slots[i].id;
            let ghost at = id.index as int;
            proof {
                assert(slots_old[i as int] == given[i as int]);
                assert(given[i as int].id.index < before.cells.len());
                lemma_swept_frame(*stage, ready@, before.cells, given, i as int, at);
                assert(mid.cells[at] == before.cells[at]);
                assert(cells_old[at] is Some);
                assert((cells_old[at]->0).wf());
            }
            let skip: bool = i < ready.len() && !ready[i];
            if !skip {
                let ghost mirror = before.mirror(id);
                let ghost cell = given[i as int].cell@;
                let ghost already = writes_of(writes@);
                assert(stage_fits(*stage, before.mirror(given[i as int].id), cell));
                let mut count: usize = 0;
                match &mut self.cells[id.index as usize] {
                    Some(m) => {
                        match stage {
                            Stage::Retire { done } => {
                                count = m.retire(&mut slots[i].cell, *done, &mut writes);
                            },
                            Stage::Compact => {
                                m.compact(&mut slots[i].cell);
                            },
                            Stage::Sync { columns } => {
                                m.sync(columns, &slots[i].cell, &mut writes);
                            },
                        }
                    },
                    None => {
                        assert(false);
                    },
                }
                let count_word: u64 = count as u64;
                total = total.saturating_add(count_word);
                proof {
                    let outcome = staged(*stage, mirror, cell);
                    (self.cells@[at]->0).lemma_wf();
                    assert(self.cells@[at]->0@ == outcome.mirror);
                    lemma_staged_regions(*stage, mirror, cell);
                    assert(writes_of(writes@) =~= already + outcome.writes);
                    let after = swept(*stage, ready@, before.cells, given, i + 1);
                    assert(self@.cells =~= after.cells);
                    lemma_mirror_replaced(mid, id, outcome.mirror);
                    assert(self@ == mid.with_mirror(id, outcome.mirror));
                    lemma_cells_wf(cells_old, self.cells@, at);
                    assert(outcome.mirror.paired(slots@[i as int].cell@));
                }
            }
            proof {
                assert forall|k: int| 0 <= k < i + 1 implies self@.is_live((#[trigger] slots@[k]).id)
                    && self@.mirror(slots@[k].id).paired(slots@[k].cell@) by {
                    if k < i {
                        assert(slots@[k] == slots_old[k]);
                        assert(given[k].id != given[i as int].id);
                        assert(slots_old[k].id.index != at);
                    } else if skip {
                        assert(self@.cells[at] == before.cells[at]);
                        assert((before.cells[at]->0).paired(given[k].cell@));
                    }
                }
            }
            i = i + 1;
        }
        proof {
            assert forall|k: int, j: int|
                #![trigger slots@[k], slots@[j]]
                0 <= k < j < slots@.len() implies slots@[k].id != slots@[j].id by {
                assert(given[k].id != given[j].id);
            }
        }
        (writes, total)
    }

    /// First stage of the frame boundary: in each listed cell, retirements whose serial is at most
    /// `done` give the device the slot's new generation and are then committed, up to the first
    /// that is not due. Then the regions whose serial has completed are free again. Returns the
    /// writes and how many rows were retired.
    pub fn retire_all(&mut self, slots: &mut Vec<CellSlot>, done: u64) -> (r: (
        Vec<DeviceWrite>,
        u64,
    ))
        requires
            old(self).wf(),
            old(self)@.phase == Phase::Write,
            slots_ok(old(self)@.cells, old(slots)@),
            forall|i: int|
                0 <= i < old(slots)@.len() ==> retire_fits(
                    old(self)@.mirror((#[trigger] old(slots)@[i]).id),
                    done,
                ),
        ensures
            final(self).wf(),
            slots_ok(final(self)@.cells, final(slots)@),
            ({
                let stage = Stage::Retire { done };
                let result = swept(
                    stage,
                    seq![],
                    old(self)@.cells,
                    old(slots)@,
                    old(slots)@.len() as int,
                );
                &&& slots_swept(stage, seq![], old(self)@.cells, old(slots)@, final(slots)@)
                &&& writes_of(r.0@) == result.writes
                &&& r.1 == capped(result.retired as int)
                &&& final(self)@ == (StoreState {
                    cells: result.cells,
                    phase: Phase::Retired,
                    gen_writes: counted(old(self)@.gen_writes, result.writes.len() as int),
                    row_pools: drained(old(self)@.row_pools, done),
                    slot_pools: drained(old(self)@.slot_pools, done),
                    ..old(self)@
                })
            }),
    {
        let ghost before = self@;
        let stage = Stage::Retire { done };
        let ready: Vec<bool> = Vec::new();
        proof {
            assert(ready@ =~= seq![]);
            assert forall|i: int|
                0 <= i < slots@.len() && !sits_out(ready@, i) implies stage_fits(
                stage,
                before.mirror((#[trigger] slots@[i]).id),
                slots@[i].cell@,
            ) by {
                assert(retire_fits(before.mirror(slots@[i].id), done));
            }
        }
        let (writes, count) = self.sweep(slots, &stage, &ready);
        let ghost mid = self@;
        let issued: u64 = writes.len() as u64;
        let ghost cells = self.cells@;
        self.gen_writes = self.gen_writes.wrapping_add(issued);
        self.phase = Phase::Retired;
        let mut i: usize = 0;
        while i < self.row_pools.len()
            invariant
                i <= self.row_pools@.len(),
                self.row_pools@.len() == self.slot_pools@.len(),
                self.row_pools@.len() == mid.row_pools.len(),
                mid.consistent(),
                self.cells@ == cells,
                self.buffers.wf(),
                self@ == (StoreState {
                    row_pools: self@.row_pools,
                    slot_pools: self@.slot_pools,
                    phase: Phase::Retired,
                    gen_writes: self@.gen_writes,
                    ..mid
                }),
                self@.gen_writes == counted(before.gen_writes, issued as int),
                forall|k: int|
                    0 <= k < self.row_pools@.len() ==> (#[trigger] self.row_pools@[k]).wf()
                        && self.row_pools@[k]@ == if k < i {
                        mid.row_pools[k].after_drain(done)
                    } else {
                        mid.row_pools[k]
                    },
                forall|k: int|
                    0 <= k < self.slot_pools@.len() ==> (#[trigger] self.slot_pools@[k]).wf()
                        && self.slot_pools@[k]@ == if k < i {
                        mid.slot_pools[k].after_drain(done)
                    } else {
                        mid.slot_pools[k]
                    },
                forall|k: int, at: u32|
                    #![trigger mid.row_pools[k].handed_out(at)]
                    0 <= k < i && mid.row_pools[k].handed_out(at) ==> mid.row_pools[k].after_drain(
                        done,
                    ).handed_out(at),
                forall|k: int, at: u32|
                    #![trigger mid.slot_pools[k].handed_out(at)]
                    0 <= k < i && mid.slot_pools[k].handed_out(at)
                        ==> mid.slot_pools[k].after_drain(done).handed_out(at),
            decreases self.row_pools@.len() - i,
        {
            let ghost rows_old = self.row_pools@;
            let ghost slots_old = self.slot_pools@;
            assert(rows_old[i as int].wf());
            assert(slots_old[i as int].wf());
            self.row_pools[i].drain_completed(done);
            self.slot_pools[i].drain_completed(done);
            proof {
                assert forall|k: int| 0 <= k < self.row_pools@.len() implies (
                #[trigger] self.row_pools@[k]).wf() && self.row_pools@[k]@ == if k < i + 1 {
                    mid.row_pools[k].after_drain(done)
                } else {
                    mid.row_pools[k]
                } by {
                    assert(rows_old[k].wf());
                }
                assert forall|k: int| 0 <= k < self.slot_pools@.len() implies (
                #[trigger] self.slot_pools@[k]).wf() && self.slot_pools@[k]@ == if k < i + 1 {
                    mid.slot_pools[k].after_drain(done)
                } else {
                    mid.slot_pools[k]
                } by {
                    assert(slots_old[k].wf());
                }
            }
            i = i + 1;
        }
        proof {
            assert(self@.row_pools =~= drained(before.row_pools, done));
            assert(self@.slot_pools =~= drained(before.slot_pools, done));
            lemma_drained(mid, self@, done);
        }
        (writes, count)
    }

    /// Second stage of the frame boundary: compacts the listed cells that are ready and marks every
    /// row that a move ended in. A cell beyond the end of `ready` is ready.
    pub fn compact_all_gated(&mut self, slots: &mut Vec<CellSlot>, ready: &Vec<bool>)
        requires
            old(self).wf(),
            old(self)@.phase == Phase::Retired,
            slots_ok(old(self)@.cells, old(slots)@),
            forall|i: int|
                0 <= i < old(slots)@.len() && !sits_out(ready@, i) ==> (#[trigger] old(
                    slots,
                )@[i]).cell@.rows.len() <= old(self)@.mirror(old(slots)@[i].id).row_capacity,
        ensures
            final(self).wf(),
            slots_ok(final(self)@.cells, final(slots)@),
            slots_swept(Stage::Compact, ready@, old(self)@.cells, old(slots)@, final(slots)@),
            final(self)@ == (StoreState {
                cells: swept(
                    Stage::Compact,
                    ready@,
                    old(self)@.cells,
                    old(slots)@,
                    old(slots)@.len() as int,
                ).cells,
                phase: Phase::Compacted,
                ..old(self)@
            }),
    {
        let ghost before = self@;
        let stage = Stage::Compact;
        proof {
            assert forall|i: int|
                0 <= i < slots@.len() && !sits_out(ready@, i) implies stage_fits(
                stage,
                before.mirror((#[trigger] slots@[i]).id),
                slots@[i].cell@,
            ) by {
                assert(slots@[i].cell@.rows.len() <= before.mirror(slots@[i].id).row_capacity);
            }
        }
        let (_writes, _count) = self.sweep(slots, &stage, ready);
        let ghost mid = self@;
        self.phase = Phase::Compacted;
        proof {
            assert(self@ == (StoreState { phase: Phase::Compacted, ..mid }));
            lemma_phase(mid, self@);
        }
    }

    /// Second stage of the frame boundary with every listed cell ready.
    pub fn compact_all(&mut self, slots: &mut Vec<CellSlot>)
        requires
            old(self).wf(),
            old(self)@.phase == Phase::Retired,
            slots_ok(old(self)@.cells, old(slots)@),
            forall|i: int|
                0 <= i < old(slots)@.len() ==> (#[trigger] old(slots)@[i]).cell@.rows.len() <= old(
                    self,
                )@.mirror(old(slots)@[i].id).row_capacity,
        ensures
            final(self).wf(),
            slots_ok(final(self)@.cells, final(slots)@),
            slots_swept(Stage::Compact, seq![], old(self)@.cells, old(slots)@, final(slots)@),
            final(self)@ == (StoreState {
                cells: swept(
                    Stage::Compact,
                    seq![],
                    old(self)@.cells,
                    old(slots)@,
                    old(slots)@.len() as int,
                ).cells,
                phase: Phase::Compacted,
                ..old(self)@
            }),
    {
        let ready: Vec<bool> = Vec::new();
        assert(ready@ =~= seq![]);
        self.compact_all_gated(slots, &ready)
    }

    /// Last stage of the frame boundary: asks the device for the dirty runs of every mirrored column
    /// of the listed cells and for every stale entry of the slot mirror. Returns the writes, and how
    /// much they are.
    pub fn sync_all(&mut self, slots: &mut Vec<CellSlot>) -> (r: (Vec<DeviceWrite>, SyncStats))
        requires
            old(self).wf(),
            old(self)@.phase == Phase::Compacted,
            slots_ok(old(self)@.cells, old(slots)@),
            forall|i: int|
                0 <= i < old(slots)@.len() ==> (#[trigger] old(slots)@[i]).cell@.rows.len() <= old(
                    self,
                )@.mirror(old(slots)@[i].id).row_capacity && old(self)@.mirror(
                    old(slots)@[i].id,
                ).slots_fit(old(slots)@[i].cell@) && old(self)@.mirror(
                    old(slots)@[i].id,
                ).masks_sized(fixed_columns_of(old(self)@.buffers), old(slots)@[i].cell@),
        ensures
            final(self).wf(),
            slots_ok(final(self)@.cells, final(slots)@),
            exists|columns: Vec<FixedColumn>|
                #![trigger columns@]
                columns@ == fixed_columns_of(old(self)@.buffers) && ({
                    let stage = Stage::Sync { columns };
                    let result = swept(
                        stage,
                        seq![],
                        old(self)@.cells,
                        old(slots)@,
                        old(slots)@.len() as int,
                    );
                    &&& slots_swept(stage, seq![], old(self)@.cells, old(slots)@, final(slots)@)
                    &&& writes_of(r.0@) == result.writes
                    &&& final(self)@ == (StoreState {
                        cells: result.cells,
                        phase: Phase::Write,
                        ..old(self)@
                    })
                }),
            r.1.ranges == capped(r.0@.len() as int),
            r.1.bytes == capped(total_len(writes_of(r.0@))),
    {
        let ghost before = self@;
        proof {
            self.buffers.lemma_wf();
            lemma_fixed_columns_ok(before.buffers);
        }
        let columns: Vec<FixedColumn> = self.buffers.fixed_columns();
        let ghost listed = columns;
        let stage = Stage::Sync { columns };
        let ready: Vec<bool> = Vec::new();
        proof {
            assert(ready@ =~= seq![]);
            assert forall|i: int|
                0 <= i < slots@.len() && !sits_out(ready@, i) implies stage_fits(
                stage,
                before.mirror((#[trigger] slots@[i]).id),
                slots@[i].cell@,
            ) by {
                assert(slots@[i].cell@.rows.len() <= before.mirror(slots@[i].id).row_capacity);
            }
        }
        let (writes, _count) = self.sweep(slots, &stage, &ready);
        let ghost mid = self@;
        self.phase = Phase::Write;
        proof {
            assert(self@ == (StoreState { phase: Phase::Write, ..mid }));
            lemma_phase(mid, self@);
            assert(listed@ == fixed_columns_of(before.buffers));
        }
        let stats: SyncStats = tally(&writes);
        (writes, stats)
    }

    /// Registers a column mirrored for cells: one buffer of fixed capacity for each key.
    pub fn register_gpu_buffer<F: FnOnce() -> B>(
        &mut self,
        id: ComponentId,
        element: ElementDesc,
        capacity: u32,
        key: BufferKey,
        mode: MirrorMode,
        create: F,
    )
        requires
            old(self).wf(),
            column_accepted(
                old(self)@.buffers,
                id,
                element,
                capacity,
                capacity,
                key,
                mode,
                SharedKindTag::Fixed,
                create,
            ),
        ensures
            final(self).wf(),
            final(self)@ == (StoreState { buffers: final(self)@.buffers, ..old(self)@ }),
            column_registered(
                old(self)@.buffers,
                final(self)@.buffers,
                id,
                element,
                capacity,
                capacity,
                key,
                mode,
                SharedKindTag::Fixed,
                create,
            ),
    {
        let ghost before = self@;
        self.buffers.register(
            id,
            element,
            capacity,
            capacity,
            key,
            mode,
            SharedKindTag::Fixed,
            create,
        );
        proof {
            self.buffers.lemma_wf();
            lemma_buffers_replaced(before, self@);
        }
    }

    /// Registers a column whose buffer grows on write, up to `limit` elements.
    pub fn register_growable_gpu_buffer<F: FnOnce() -> B>(
        &mut self,
        id: ComponentId,
        element: ElementDesc,
        initial_capacity: u32,
        limit: u32,
        key: BufferKey,
        mode: MirrorMode,
        create: F,
    )
        requires
            old(self).wf(),
            column_accepted(
                old(self)@.buffers,
                id,
                element,
                initial_capacity,
                limit,
                key,
                mode,
                SharedKindTag::Growable,
                create,
            ),
        ensures
            final(self).wf(),
            final(self)@ == (StoreState { buffers: final(self)@.buffers, ..old(self)@ }),
            column_registered(
                old(self)@.buffers,
                final(self)@.buffers,
                id,
                element,
                initial_capacity,
                limit,
                key,
                mode,
                SharedKindTag::Growable,
                create,
            ),
    {
        let ghost before = self@;
        self.buffers.register(
            id,
            element,
            initial_capacity,
            limit,
            key,
            mode,
            SharedKindTag::Growable,
            create,
        );
        proof {
            self.buffers.lemma_wf();
            lemma_buffers_replaced(before, self@);
        }
    }

    /// Registers a column whose writes are recorded and uploaded on flush.
    pub fn register_dirty_tracked_gpu_buffer<F: FnOnce() -> B>(
        &mut self,
        id: ComponentId,
        element: ElementDesc,
        initial_capacity: u32,
        limit: u32,
        key: BufferKey,
        mode: MirrorMode,
        create: F,
    )
        requires
            old(self).wf(),
            column_accepted(
                old(self)@.buffers,
                id,
                element,
                initial_capacity,
                limit,
                key,
                mode,
                SharedKindTag::DirtyTracked,
                create,
            ),
        ensures
            final(self).wf(),
            final(self)@ == (StoreState { buffers: final(self)@.buffers, ..old(self)@ }),
            column_registered(
                old(self)@.buffers,
                final(self)@.buffers,
                id,
                element,
                initial_capacity,
                limit,
                key,
                mode,
                SharedKindTag::DirtyTracked,
                create,
            ),
    {
        let ghost before = self@;
        self.buffers.register(
            id,
            element,
            initial_capacity,
            limit,
            key,
            mode,
            SharedKindTag::DirtyTracked,
            create,
        );
        proof {
            self.buffers.lemma_wf();
            lemma_buffers_replaced(before, self@);
        }
    }

    /// Registers a column whose device element stands behind a light handle: uploaded once, on flush.
    pub fn register_dirty_tracked_gpu_buffer_heavy<F: FnOnce() -> B>(
        &mut self,
        id: ComponentId,
        element: ElementDesc,
        initial_capacity: u32,
        limit: u32,
        key: BufferKey,
        create: F,
    )
        requires
            old(self).wf(),
            column_accepted(
                old(self)@.buffers,
                id,
                element,
                initial_capacity,
                limit,
                key,
                MirrorMode::Once,
                SharedKindTag::DirtyTracked,
                create,
            ),
        ensures
            final(self).wf(),
            final(self)@ == (StoreState { buffers: final(self)@.buffers, ..old(self)@ }),
            column_registered(
                old(self)@.buffers,
                final(self)@.buffers,
                id,
                element,
                initial_capacity,
                limit,
                key,
                MirrorMode::Once,
                SharedKindTag::DirtyTracked,
                create,
            ),
    {
        let ghost before = self@;
        self.buffers.register(
            id,
            element,
            initial_capacity,
            limit,
            key,
            MirrorMode::Once,
            SharedKindTag::DirtyTracked,
            create,
        );
        proof {
            self.buffers.lemma_wf();
            lemma_buffers_replaced(before, self@);
        }
    }

    /// Whether a type with these mirrored columns is registered: its first column tells, and a type
    /// without any has nothing to register.
    pub fn is_registered(&self, columns: &Vec<ComponentId>) -> (registered: bool)
        requires
            self.wf(),
        ensures
            registered == (columns@.len() == 0 || target_of(
                self@.buffers.columns,
                columns@[0],
            ) is Some),
    {
        if columns.len() == 0 {
            return true;
        }
        self.buffers.buffer_key_for(columns[0]).is_some()
    }

    /// The keyed registry every buffer of the store is listed in.
    pub fn buffer_registry(&self) -> (registry: &GpuBufferRegistry<B>)
        requires
            self.wf(),
        ensures
            registry@ == self@.buffers.registry,
            registry.wf(),
    {
        self.buffers.registry()
    }

    /// The buffer of the transforms.
    pub fn transform_buffer(&self) -> (buffer: B)
        requires
            self.wf(),
            target_of(self@.buffers.fixed, self@.types.transform) is Some,
        ensures
            cloned(
                self@.buffers.owners[target_of(
                    self@.buffers.fixed,
                    self@.types.transform,
                )->0 as int].buffer,
                buffer,
            ),
    {
        match self.buffers.buffer_for_id(self.types.transform) {
            Some(buffer) => buffer,
            None => {
                assert(false);
                self.generations.clone()
            },
        }
    }

    /// The buffer of the instance records.
    pub fn instance_info_buffer(&self) -> (buffer: B)
        requires
            self.wf(),
            target_of(self@.buffers.fixed, self@.types.info) is Some,
        ensures
            cloned(
                self@.buffers.owners[target_of(
                    self@.buffers.fixed,
                    self@.types.info,
                )->0 as int].buffer,
                buffer,
            ),
    {
        match self.buffers.buffer_for_id(self.types.info) {
            Some(buffer) => buffer,
            None => {
                assert(false);
                self.generations.clone()
            },
        }
    }

    /// The buffer of global slots by row.
    pub fn slot_mirror_buffer(&self) -> (buffer: &B)
        ensures
            *buffer == self@.slot_mirror,
    {
        &self.slot_mirror
    }

    /// The buffer of generations by global slot.
    pub fn generation_buffer(&self) -> (buffer: &B)
        ensures
            *buffer == self@.generations,
    {
        &self.generations
    }

    /// The buffer of records by cell.
    pub fn cell_metadata_buffer(&self) -> (buffer: &B)
        ensures
            *buffer == self@.cell_metadata,
    {
        &self.cell_metadata
    }

    /// The pool of variable-length rows of `key`, made on first use. Every declaration of a key has
    /// the same element type.
    pub fn register_var_len_gpu_pool(
        &mut self,
        key: BufferKey,
        element: ElementDesc,
        initial_capacity: u32,
        limit: u32,
    ) -> (at: usize)
        requires
            old(self).wf(),
            has_pool(old(self)@.var_len.names(), key@) ==> old(self)@.var_len.names()[pool_at(
                old(self)@.var_len.names(),
                key@,
            )].1 == element.element,
            !has_pool(old(self)@.var_len.names(), key@) ==> element.size > 0 && initial_capacity
                <= limit,
        ensures
            final(self).wf(),
            final(self)@ == (StoreState { var_len: final(self)@.var_len, ..old(self)@ }),
            has_pool(old(self)@.var_len.names(), key@) ==> at == pool_at(
                old(self)@.var_len.names(),
                key@,
            ) && final(self)@.var_len.names() == old(self)@.var_len.names()
                && final(self)@.var_len.pools() == old(self)@.var_len.pools(),
            !has_pool(old(self)@.var_len.names(), key@) ==> {
                &&& at == old(self)@.var_len.names().len()
                &&& final(self)@.var_len.names() == old(self)@.var_len.names().push(
                    (key, element.element),
                )
                &&& final(self)@.var_len.pools().len() == old(self)@.var_len.pools().len() + 1
                &&& final(self)@.var_len.pools().drop_last() == old(self)@.var_len.pools()
                &&& fresh_pool(
                    final(self)@.var_len.pools().last(),
                    element.size,
                    initial_capacity,
                    limit,
                )
            },
    {
        let ghost before = self@;
        let at: usize = self.var_len.register(
            key,
            element.element,
            element.size,
            initial_capacity,
            limit,
        );
        proof {
            lemma_var_len_replaced(before, self@);
        }
        at
    }

    /// A pool of variable-length rows, to read or write rows.
    pub fn var_len_pool_mut(&mut self, at: usize) -> (pool: &mut VarLenGpuPool)
        requires
            old(self).wf(),
            at < old(self)@.var_len.names().len(),
        ensures
            *pool == old(self)@.var_len.pools()[at as int],
            pool.wf(),
            final(self)@ == (StoreState { var_len: final(self)@.var_len, ..old(self)@ }),
            final(self)@.var_len.names() == old(self)@.var_len.names(),
            final(self)@.var_len.pools() == old(self)@.var_len.pools().update(
                at as int,
                *final(pool),
            ),
    {
        self.var_len.pool_mut(at)
    }

    /// The pool of variable-length rows of `key`, if it has one with elements of that type.
    pub fn var_len_pool(&self, key: BufferKey, element: TypeKey) -> (at: Option<usize>)
        requires
            self.wf(),
        ensures
            match at {
                Some(i) => has_pool(self@.var_len.names(), key@) && i == pool_at(
                    self@.var_len.names(),
                    key@,
                ) && i < self@.var_len.names().len() && self@.var_len.names()[i as int].1
                    == element,
                None => !(has_pool(self@.var_len.names(), key@) && self@.var_len.names()[pool_at(
                    self@.var_len.names(),
                    key@,
                )].1 == element),
            },
    {
        self.var_len.find(key, element)
    }

    /// What the keyed registry has against a new buffer of `key`, if anything.
    pub fn registry_conflict(&self, key: BufferKey, element: ElementDesc, mode: MirrorMode) -> (
    conflict: Option<BufferRegistrationError>)
        requires
            self.wf(),
        ensures
            conflict == self@.buffers.registry_conflict(key, element, mode),
    {
        self.buffers.registry_conflict(key, element, mode)
    }

    /// What an incoming declaration disagrees on with the buffer of its key, if anything.
    pub fn share_conflict(
        &self,
        key: BufferKey,
        element: ElementDesc,
        capacity: u32,
        mode: MirrorMode,
        tag: SharedKindTag,
    ) -> (conflict: Option<ShareConflict>)
        requires
            self.wf(),
        ensures
            conflict == self@.buffers.share_conflict(key, element, capacity, mode, tag),
    {
        self.buffers.share_conflict(key, element, capacity, mode, tag)
    }

    /// The buffer of `key` and how many elements it holds.
    pub fn resolve_buffer(&self, key: BufferKey) -> (found: Option<(B, u64)>)
        requires
            self.wf(),
            has_owner(self@.buffers.owners, key@) ==> self@.buffers.owners[owner_at(
                self@.buffers.owners,
                key@,
            )].element.size > 0,
        ensures
            match found {
                Some((buffer, count)) => {
                    &&& has_owner(self@.buffers.owners, key@)
                    &&& cloned(self@.buffers.owners[owner_at(self@.buffers.owners, key@)].buffer, buffer)
                    &&& count == self@.buffers.owners[owner_at(self@.buffers.owners, key@)].element_count()
                },
                None => !has_owner(self@.buffers.owners, key@),
            },
    {
        self.buffers.resolve_buffer(key)
    }

    /// The buffer of `key` with its current allocation epoch. The registry is brought up to date
    /// and answers.
    pub fn resolve_buffer_handle(&mut self, key: BufferKey) -> (handle: Option<BufferHandle<B>>)
        requires
            old(self).wf(),
        ensures
            final(self).wf(),
            final(self)@ == (StoreState { buffers: final(self)@.buffers, ..old(self)@ }),
            final(self)@.buffers.owners == old(self)@.buffers.owners,
            final(self)@.buffers.columns == old(self)@.buffers.columns,
            final(self)@.buffers.fixed == old(self)@.buffers.fixed,
            final(self)@.buffers.growable == old(self)@.buffers.growable,
            final(self)@.buffers.mirrored == old(self)@.buffers.mirrored,
            match handle {
                Some(h) => {
                    let owner = old(self)@.buffers.owners[owner_at(old(self)@.buffers.owners, key@)];
                    &&& has_owner(old(self)@.buffers.owners, key@)
                    &&& h.epoch == owner.epoch()
                    &&& exists|b: B| #[trigger]
                        cloned(owner.buffer, b) && cloned(b, h.buffer) && final(self)@.buffers.registry
                            == old(self)@.buffers.registry.update(
                            position(old(self)@.buffers.registry, key@),
                            RegistryEntry {
                                buffer: Some(b),
                                epoch: owner.epoch(),
                                ..entry_of(old(self)@.buffers.registry, key@)
                            },
                        )
                },
                None => !has_owner(old(self)@.buffers.owners, key@) && final(self)@.buffers.registry
                    == old(self)@.buffers.registry,
            },
    {
        let ghost before = self@;
        let r = self.buffers.resolve_buffer_handle(key);
        proof {
            self.buffers.lemma_wf();
            lemma_buffers_replaced(before, self@);
        }
        r
    }

    /// The key of the buffer a column is bound to.
    pub fn buffer_key_for(&self, id: ComponentId) -> (key: Option<BufferKey>)
        requires
            self.wf(),
        ensures
            key == match target_of(self@.buffers.columns, id) {
                Some(at) => Some(self@.buffers.owners[at as int].key),
                None => None,
            },
    {
        self.buffers.buffer_key_for(id)
    }

    /// The buffer of a column bound through the fixed path.
    pub fn buffer_for_id(&self, id: ComponentId) -> (buffer: Option<B>)
        requires
            self.wf(),
        ensures
            match buffer {
                Some(buffer) => target_of(self@.buffers.fixed, id) is Some && cloned(
                    self@.buffers.owners[target_of(self@.buffers.fixed, id)->0 as int].buffer,
                    buffer,
                ),
                None => target_of(self@.buffers.fixed, id) is None,
            },
    {
        self.buffers.buffer_for_id(id)
    }

    /// An unconditional write of `data` from `row` on, for a column of the fixed path. `None`, and
    /// no write, for any other column.
    pub fn write_row_bytes(&self, id: ComponentId, data: &[u8], row: u32) -> (write: Option<
        ColumnWrite,
    >)
        requires
            self.wf(),
        ensures
            match write {
                Some(w) => {
                    let at = target_of(self@.buffers.fixed, id);
                    &&& at == Some(w.owner)
                    &&& w.offset == row * self@.buffers.owners[w.owner as int].element.size
                    &&& w.bytes@ == data@
                },
                None => target_of(self@.buffers.fixed, id) is None,
            },
    {
        self.buffers.write_row_bytes(id, data, row)
    }

    /// A write of `data` as `row`, for a growable column, growing its buffer first if need be.
    /// `None`, and no write, for any other column. Refused if and only if the device cannot hold
    /// the row.
    pub fn write_row_bytes_growing(
        &mut self,
        id: ComponentId,
        data: &[u8],
        row: u32,
    ) -> (r: Option<Result<GrowingWrite, CapacityError>>)
        requires
            old(self).wf(),
        ensures
            final(self).wf(),
            final(self)@ == (StoreState { buffers: final(self)@.buffers, ..old(self)@ }),
            match target_of(old(self)@.buffers.growable, id) {
                None => r is None && final(self)@.buffers == old(self)@.buffers,
                Some(at) => {
                    let owner = old(self)@.buffers.owners[at as int];
                    let buf = owner.kind->Growable_0;
                    match r {
                        Some(Ok(w)) => {
                            &&& row + 1 <= buf.limit
                            &&& final(self)@.buffers == (BuffersState {
                                owners: old(self)@.buffers.owners.update(
                                    at as int,
                                    OwnerState {
                                        kind: KindState::Growable(buf.grown(row + 1)),
                                        ..owner
                                    },
                                ),
                                ..old(self)@.buffers
                            })
                            &&& w.grown_to == if row + 1 > buf.capacity {
                                Some(buf.grown(row + 1).capacity)
                            } else {
                                None
                            }
                            &&& w.write.owner == at
                            &&& w.write.offset == row * owner.element.size
                            &&& w.write.bytes@ == data@
                        },
                        Some(Err(e)) => {
                            &&& row + 1 > buf.limit
                            &&& final(self)@.buffers == old(self)@.buffers
                            &&& e == (CapacityError {
                                requested: (row + 1) as u64,
                                limit: buf.limit,
                            })
                        },
                        None => false,
                    }
                },
            },
    {
        let ghost before = self@;
        let outcome = self.buffers.write_row_bytes_growing(id, data, row);
        proof {
            self.buffers.lemma_wf();
            lemma_buffers_replaced(before, self@);
        }
        outcome
    }

    /// The epoch of a growable column's buffer.
    pub fn growable_epoch_for_id(&self, id: ComponentId) -> (epoch: Option<u64>)
        requires
            self.wf(),
        ensures
            epoch == match target_of(self@.buffers.growable, id) {
                Some(at) => Some(self@.buffers.owners[at as int].epoch()),
                None => None,
            },
    {
        self.buffers.growable_epoch_for_id(id)
    }

    /// The capacity of a growable column's buffer.
    pub fn growable_capacity_for_id(&self, id: ComponentId) -> (capacity: Option<u32>)
        requires
            self.wf(),
        ensures
            capacity == match target_of(self@.buffers.growable, id) {
                Some(at) => Some(self@.buffers.owners[at as int].element_count()),
                None => None,
            },
    {
        self.buffers.growable_capacity_for_id(id)
    }

    /// The epoch of a dirty-tracked column's buffer.
    pub fn dirty_tracked_epoch_for_id(&self, id: ComponentId) -> (epoch: Option<u64>)
        requires
            self.wf(),
        ensures
            epoch == match target_of(self@.buffers.mirrored, id) {
                Some(at) => Some(self@.buffers.owners[at as int].epoch()),
                None => None,
            },
    {
        self.buffers.dirty_tracked_epoch_for_id(id)
    }

    /// Records `data` as `row` of a dirty-tracked column; the upload waits for a flush. False, and
    /// no change, for any other column.
    pub fn mark_gpu_row_dirty(&mut self, id: ComponentId, row: u32, data: &[u8]) -> (marked: bool)
        requires
            old(self).wf(),
            target_of(old(self)@.buffers.mirrored, id) matches Some(at) ==> {
                let buf = old(self)@.buffers.owners[at as int].kind->DirtyTracked_0;
                &&& data@.len() == buf.size()
                &&& buf.rows_for(row as int) <= u32::MAX
                &&& buf.rows_for(row as int) * buf.size() <= usize::MAX
            },
        ensures
            final(self).wf(),
            final(self)@ == (StoreState { buffers: final(self)@.buffers, ..old(self)@ }),
            match target_of(old(self)@.buffers.mirrored, id) {
                Some(at) => marked && final(self)@.buffers == (BuffersState {
                    owners: old(self)@.buffers.owners.update(
                        at as int,
                        OwnerState {
                            kind: KindState::DirtyTracked(
                                old(self)@.buffers.owners[at as int].kind->DirtyTracked_0.recorded(
                                    row as int,
                                    data@,
                                ),
                            ),
                            ..old(self)@.buffers.owners[at as int]
                        },
                    ),
                    ..old(self)@.buffers
                }),
                None => !marked && final(self)@.buffers == old(self)@.buffers,
            },
    {
        let ghost before = self@;
        let r = self.buffers.mark_gpu_row_dirty(id, row, data);
        proof {
            self.buffers.lemma_wf();
            lemma_buffers_replaced(before, self@);
        }
        r
    }

    /// What was recorded for `row` of a dirty-tracked column: `None` for any other column, and for
    /// a row beyond what was ever recorded.
    pub fn read_dirty_tracked_row_bytes(&self, id: ComponentId, row: u32) -> (bytes: Option<
        Vec<u8>,
    >)
        requires
            self.wf(),
        ensures
            match target_of(self@.buffers.mirrored, id) {
                Some(at) => {
                    let buf = self@.buffers.owners[at as int].kind->DirtyTracked_0;
                    match bytes {
                        Some(bytes) => row < buf.dirty.len() && bytes@ == buf.row(row as int),
                        None => row >= buf.dirty.len(),
                    }
                },
                None => bytes is None,
            },
    {
        self.buffers.read_dirty_tracked_row_bytes(id, row)
    }

    /// Whether the device can hold the rows of every dirty-tracked buffer.
    pub fn can_flush(&self) -> (can: bool)
        requires
            self.wf(),
        ensures
            can == self@.buffers.can_flush(),
    {
        self.buffers.can_flush()
    }

    /// Asks the device for every marked row of every dirty-tracked buffer. Returns each buffer's
    /// plan with its index, and how much they write together.
    pub fn flush_gpu_mirror(&mut self) -> (r: (Vec<(usize, FlushPlan)>, SyncStats))
        requires
            old(self).wf(),
            old(self)@.buffers.can_flush(),
        ensures
            final(self).wf(),
            final(self)@ == (StoreState { buffers: final(self)@.buffers, ..old(self)@ }),
            final(self)@.buffers == (BuffersState {
                owners: Seq::new(
                    old(self)@.buffers.owners.len(),
                    |i: int| old(self)@.buffers.owners[i].flushed(),
                ),
                ..old(self)@.buffers
            }),
            flush_plans_of(r.0@, old(self)@.buffers.owners, old(self)@.buffers.owners.len() as int),
            r.1.ranges == capped(total_ranges(r.0@)),
            r.1.bytes == capped(total_bytes(r.0@)),
    {
        let ghost before = self@;
        let outcome = self.buffers.flush_gpu_mirror();
        proof {
            self.buffers.lemma_wf();
            lemma_buffers_replaced(before, self@);
        }
        outcome
    }

    /// Makes room for `n` rows in every buffer that grows, the growable ones first. Stops at the
    /// first that the device cannot hold; those before it keep what they were given.
    pub fn reserve_world_mirror_capacity(&mut self, n: u32) -> (r: Result<(), CapacityError>)
        requires
            old(self).wf(),
            old(self)@.buffers.can_shadow(n),
        ensures
            final(self).wf(),
            final(self)@ == (StoreState { buffers: final(self)@.buffers, ..old(self)@ }),
            match r {
                Ok(()) => {
                    &&& forall|i: int|
                        0 <= i < old(self)@.buffers.owners.len() ==> !refuses_reserve(
                            #[trigger] old(self)@.buffers.owners[i],
                            n,
                        )
                    &&& final(self)@.buffers == (BuffersState {
                        owners: Seq::new(
                            old(self)@.buffers.owners.len(),
                            |i: int| old(self)@.buffers.owners[i].reserved(n),
                        ),
                        ..old(self)@.buffers
                    })
                },
                Err(e) => exists|tag: SharedKindTag, i: int| #[trigger]
                    first_refusal(old(self)@.buffers.owners, n, tag, i) && final(self)@.buffers == (BuffersState {
                        owners: reserved_until(old(self)@.buffers.owners, n, tag, i),
                        ..old(self)@.buffers
                    }) && e == (CapacityError {
                        requested: n as u64,
                        limit: old(self)@.buffers.owners[i].limit(),
                    }),
            },
    {
        let ghost before = self@;
        let outcome = self.buffers.reserve_world_mirror_capacity(n);
        proof {
            self.buffers.lemma_wf();
            lemma_buffers_replaced(before, self@);
        }
        outcome
    }

    /// Cuts every buffer that grows to `target` rows.
    pub fn shrink_world_mirror_to_fit(&mut self, target: u32)
        requires
            old(self).wf(),
        ensures
            final(self).wf(),
            final(self)@ == (StoreState { buffers: final(self)@.buffers, ..old(self)@ }),
            final(self)@.buffers == (BuffersState {
                owners: Seq::new(
                    old(self)@.buffers.owners.len(),
                    |i: int| old(self)@.buffers.owners[i].shrunk(target),
                ),
                ..old(self)@.buffers
            }),
    {
        let ghost before = self@;
        self.buffers.shrink_world_mirror_to_fit(target);
        proof {
            self.buffers.lemma_wf();
            lemma_buffers_replaced(before, self@);
        }
    }

    /// How many column buffers there are.
    pub fn owner_count(&self) -> (n: usize)
        ensures
            n == self@.buffers.owners.len(),
    {
        self.buffers.owner_count()
    }

    /// The buffer of owner `at`, and the bytes it has to hold.
    pub fn owner_allocation(&self, at: usize) -> (allocation: (B, u64))
        requires
            self.wf(),
            at < self@.buffers.owners.len(),
        ensures
            cloned(self@.buffers.owners[at as int].buffer, allocation.0),
            allocation.1 == self@.buffers.owners[at as int].element_count()
                * self@.buffers.owners[at as int].element.size,
    {
        self.buffers.owner_allocation(at)
    }

    /// Records that the device replaced the buffer of owner `at`.
    pub fn replace_buffer(&mut self, at: usize, buffer: B)
        requires
            old(self).wf(),
            at < old(self)@.buffers.owners.len(),
        ensures
            final(self).wf(),
            final(self)@ == (StoreState { buffers: final(self)@.buffers, ..old(self)@ }),
            final(self)@.buffers == (BuffersState {
                owners: old(self)@.buffers.owners.update(
                    at as int,
                    OwnerState { buffer, ..old(self)@.buffers.owners[at as int] },
                ),
                ..old(self)@.buffers
            }),
    {
        let ghost before = self@;
        self.buffers.replace_buffer(at, buffer);
        proof {
            self.buffers.lemma_wf();
            lemma_buffers_replaced(before, self@);
        }
    }

    /// How many generation writes the store asked for; the counter wraps.
    pub fn generation_write_count(&self) -> (n: u64)
        ensures
            n == self@.gen_writes,
    {
        self.gen_writes
    }

    /// Records of the cell metadata buffer.
    pub fn metadata_capacity(&self) -> (n: u32)
        ensures
            n == self@.metadata_capacity,
    {
        self.metadata_capacity
    }
}

/// The built-in columns differ, have elements, and their buffers can be addressed.
pub open spec fn types_ok(types: BuiltinTypes, rows: int) -> bool {
    &&& types.transform != types.info
    &&& types.transform_element.size > 0
    &&& types.info_element.size > 0
    &&& rows * types.transform_element.size <= usize::MAX
    &&& rows * types.info_element.size <= usize::MAX
}

/// A pool with every region free, the lowest to be handed out first.
pub open spec fn free_pool(base: int, size: int, count: int) -> RegionState {
    RegionState {
        base: base as u32,
        size: size as u32,
        count: count as u32,
        free: Seq::new(count as nat, |i: int| (count - 1 - i) as u32),
        pinned: seq![],
    }
}

/// The row pool of a class in a new store.
pub open spec fn fresh_row_pool(classes: Seq<RegionClassConfig>, i: int) -> RegionState {
    free_pool(
        row_extent(classes, i),
        classes[i].capacity as int,
        classes[i].max_resident_cells as int,
    )
}

/// The slot pool of a class in a new store.
pub open spec fn fresh_slot_pool(
    classes: Seq<RegionClassConfig>,
    headroom: u32,
    i: int,
) -> RegionState {
    free_pool(
        slot_extent(classes, headroom, i),
        classes[i].capacity + headroom,
        classes[i].max_resident_cells as int,
    )
}

/// The row pools of a new store: one for each class, one after the other.
pub open spec fn fresh_row_pools(classes: Seq<RegionClassConfig>) -> Seq<RegionState> {
    Seq::new(classes.len(), |i: int| fresh_row_pool(classes, i))
}

/// The slot pools of a new store.
pub open spec fn fresh_slot_pools(classes: Seq<RegionClassConfig>, headroom: u32) -> Seq<
    RegionState,
> {
    Seq::new(classes.len(), |i: int| fresh_slot_pool(classes, headroom, i))
}

/// A built-in column's buffer in a new store.
pub open spec fn builtin_owner<B>(
    owner: OwnerState<B>,
    key: Seq<char>,
    element: ElementDesc,
    rows: int,
    buffer: B,
) -> bool {
    &&& owner.key@ == key
    &&& owner.element == element
    &&& owner.capacity == rows
    &&& owner.access == BufferAccess::ReadOnly
    &&& owner.mode == MirrorMode::DirtyTracked
    &&& owner.kind == KindState::Fixed
    &&& owner.buffer == buffer
}

/// A built-in buffer in the registry of a new store.
pub open spec fn builtin_entry<B: Clone>(
    entry: RegistryEntry<B>,
    key: Seq<char>,
    element: TypeKey,
    size: int,
    buffer: B,
) -> bool {
    &&& entry.key@ == key
    &&& entry.kind == (EntryKind::Row { element, mode: MirrorMode::DirtyTracked })
    &&& entry.element_size == size
    &&& entry.access == BufferAccess::ReadOnly
    &&& entry.epoch == 0
    &&& entry.buffer is Some && cloned(buffer, entry.buffer->0)
}

/// A new store: every region free, no cell, and the built-in buffers registered under their keys.
pub open spec fn fresh_store<B: Clone>(
    state: StoreState<B>,
    cfg: &SceneGpuConfig,
    types: BuiltinTypes,
    buffers: BuiltinBuffers<B>,
) -> bool {
    let rows = row_extent(cfg.classes@, cfg.classes@.len() as int);
    &&& state.row_pools == fresh_row_pools(cfg.classes@)
    &&& state.slot_pools == fresh_slot_pools(cfg.classes@, cfg.tombstone_headroom)
    &&& state.cells.len() == 0
    &&& state.phase == Phase::Write
    &&& state.gen_writes == 0
    &&& state.types == types
    &&& state.metadata_capacity == cfg.max_cells_metadata
    &&& state.var_len.names().len() == 0
    &&& state.generations == buffers.generations
    &&& state.slot_mirror == buffers.slot_mirror
    &&& state.cell_metadata == buffers.cell_metadata
    &&& state.buffers.owners.len() == 2
    &&& builtin_owner(
        state.buffers.owners[0],
        "scenedb-instances"@,
        types.transform_element,
        rows,
        buffers.transforms,
    )
    &&& builtin_owner(
        state.buffers.owners[1],
        "scenedb-instance-info"@,
        types.info_element,
        rows,
        buffers.infos,
    )
    &&& state.buffers.columns == seq![(types.transform, 0usize), (types.info, 1usize)]
    &&& state.buffers.fixed == seq![(types.transform, 0usize), (types.info, 1usize)]
    &&& state.buffers.growable.len() == 0
    &&& state.buffers.mirrored.len() == 0
    &&& state.buffers.registry.len() == 5
    &&& builtin_entry(
        state.buffers.registry[0],
        "scenedb-instances"@,
        types.transform_element.element,
        types.transform_element.size as int,
        buffers.transforms,
    )
    &&& builtin_entry(
        state.buffers.registry[1],
        "scenedb-instance-info"@,
        types.info_element.element,
        types.info_element.size as int,
        buffers.infos,
    )
    &&& builtin_entry(
        state.buffers.registry[2],
        "builtin_generation"@,
        types.word,
        4,
        buffers.generations,
    )
    &&& builtin_entry(
        state.buffers.registry[3],
        "builtin_slot_mirror"@,
        types.word,
        4,
        buffers.slot_mirror,
    )
    &&& builtin_entry(
        state.buffers.registry[4],
        "builtin_cell_metadata"@,
        types.cell_metadata,
        8,
        buffers.cell_metadata,
    )
}

/// How many of the first `n` cells are of class `c`.
pub open spec fn class_count(cells: Seq<(usize, CellStorage)>, c: int, n: int) -> int
    decreases n,
{
    if n <= 0 {
        0
    } else if cells[n - 1].0 == c {
        class_count(cells, c, n - 1) + 1
    } else {
        class_count(cells, c, n - 1)
    }
}

proof fn lemma_class_count(cells: Seq<(usize, CellStorage)>, c: int, a: int, b: int)
    requires
        0 <= a <= b,
    ensures
        0 <= class_count(cells, c, a) <= class_count(cells, c, b),
    decreases b,
{
    if b > 0 {
        if a < b {
            lemma_class_count(cells, c, a, b - 1);
        } else {
            lemma_class_count(cells, c, a - 1, b - 1);
        }
    }
}

/// Cells a new store can be made from: each fits its class, no class has more of them than regions,
/// and no retirement is pending.
pub open spec fn rebuildable(cfg: &SceneGpuConfig, cells: Seq<(usize, CellStorage)>) -> bool {
    &&& forall|i: int|
        0 <= i < cells.len() ==> {
            &&& (#[trigger] cells[i]).0 < cfg.classes@.len()
            &&& cells[i].1.wf()
            &&& cells[i].1@.rows.len() <= cfg.classes@[cells[i].0 as int].capacity
            &&& cells[i].1@.generations.len() <= cfg.classes@[cells[i].0 as int].capacity
                + cfg.tombstone_headroom
            &&& forall|r: int|
                0 <= r < cells[i].1@.rows.len() ==> !(#[trigger] cells[i].1@.rows[r]).pinned
        }
    &&& forall|c: int|
        0 <= c < cfg.classes@.len() ==> #[trigger] class_count(cells, c, cells.len() as int)
            <= cfg.classes@[c].max_resident_cells
}

/// A store after the first `n` cells are registered and uploaded whole.
pub open spec fn rebuilt<B>(
    fresh: StoreState<B>,
    cells: Seq<(usize, CellStorage)>,
    n: int,
) -> StoreState<B>
    decreases n,
{
    if n <= 0 {
        fresh
    } else {
        let front = rebuilt(fresh, cells, n - 1);
        let cell = cells[n - 1].1@;
        front.after_register(cells[n - 1].0, cell).with_mirror(
            CellId { index: front.cells.len() as u32 },
            front.new_mirror(cells[n - 1].0, cell).refilled(cell),
        )
    }
}

/// The writes that takes.
pub open spec fn rebuild_writes<B>(
    fresh: StoreState<B>,
    cells: Seq<(usize, CellStorage)>,
    n: int,
) -> Seq<WriteState>
    decreases n,
{
    if n <= 0 {
        seq![]
    } else {
        let front = rebuilt(fresh, cells, n - 1);
        let cell = cells[n - 1].1@;
        let mirror = front.new_mirror(cells[n - 1].0, cell);
        rebuild_writes(fresh, cells, n - 1) + (registration_writes(mirror, cell)
            + mirror.refill_writes(fixed_columns_of(fresh.buffers), cell))
    }
}

/// The pools of class `c` have their sizes and lack `used` regions.
spec fn pool_left<B>(cfg: &SceneGpuConfig, state: StoreState<B>, c: int, used: int) -> bool {
    let left = cfg.classes@[c].max_resident_cells - used;
    &&& state.row_pools[c].size == cfg.classes@[c].capacity
    &&& state.slot_pools[c].size == cfg.classes@[c].capacity + cfg.tombstone_headroom
    &&& state.row_pools[c].free.len() == left
    &&& state.slot_pools[c].free.len() == left
}

/// The pools lack the regions of the first `n` cells.
spec fn pools_left<B>(
    cfg: &SceneGpuConfig,
    state: StoreState<B>,
    cells: Seq<(usize, CellStorage)>,
    n: int,
) -> bool {
    forall|c: int|
        0 <= c < cfg.classes@.len() ==> pool_left(
            cfg,
            state,
            c,
            #[trigger] class_count(cells, c, n),
        )
}

/// Moves the writes of `more` to the end of `writes`.
pub(crate) fn append_writes(writes: &mut Vec<DeviceWrite>, more: Vec<DeviceWrite>)
    ensures
        writes_of(final(writes)@) == writes_of(old(writes)@) + writes_of(more@),
{
    let mut more = more;
    let ghost first = writes@;
    let ghost second = more@;
    writes.append(&mut more);
    assert(writes@ =~= first + second);
    assert(writes_of(writes@) =~= writes_of(first) + writes_of(second));
}

/// The built-in columns have buffers of their own.
proof fn lemma_builtins_carried_once<B: Clone>(
    fresh: StoreState<B>,
    cfg: &SceneGpuConfig,
    types: BuiltinTypes,
    buffers: BuiltinBuffers<B>,
    cell: CellState,
)
    requires
        fresh_store(fresh, cfg, types, buffers),
    ensures
        carried_once(fixed_columns_of(fresh.buffers), cell),
{
    let columns = fixed_columns_of(fresh.buffers);
    assert(columns.len() == 2);
    assert(columns[0].1 == 0 && columns[1].1 == 1);
}

proof fn lemma_fresh_layout(classes: Seq<RegionClassConfig>, headroom: u32)
    requires
        row_extent(classes, classes.len() as int) <= u32::MAX,
        slot_extent(classes, headroom, classes.len() as int) <= u32::MAX,
        forall|i: int|
            0 <= i < classes.len() ==> (#[trigger] classes[i]).capacity + headroom <= u32::MAX,
    ensures
        laid_out(fresh_row_pools(classes)),
        laid_out(fresh_slot_pools(classes, headroom)),
{
    let rows = fresh_row_pools(classes);
    let slots = fresh_slot_pools(classes, headroom);
    assert forall|i: int, j: int|
        #![trigger rows[i], rows[j]]
        0 <= i < j < rows.len() implies rows[i].base + rows[i].count * rows[i].size
        <= rows[j].base by {
        lemma_extents_grow(classes, headroom, 0, i);
        lemma_extents_grow(classes, headroom, i, i + 1);
        lemma_extents_grow(classes, headroom, i + 1, j);
        lemma_extents_grow(classes, headroom, j, classes.len() as int);
    }
    assert forall|i: int, j: int|
        #![trigger slots[i], slots[j]]
        0 <= i < j < slots.len() implies slots[i].base + slots[i].count * slots[i].size
        <= slots[j].base by {
        lemma_extents_grow(classes, headroom, 0, i);
        lemma_extents_grow(classes, headroom, i, i + 1);
        lemma_extents_grow(classes, headroom, i + 1, j);
        lemma_extents_grow(classes, headroom, j, classes.len() as int);
        assert(classes[i].capacity + headroom <= u32::MAX);
    }
}

/// Each pool after every serial up to `done` has completed.
pub open spec fn drained(pools: Seq<RegionState>, done: u64) -> Seq<RegionState> {
    Seq::new(pools.len(), |i: int| pools[i].after_drain(done))
}

/// The cells of a list after a stage; ids stay.
pub open spec fn slots_swept(
    stage: Stage,
    ready: Seq<bool>,
    cells: Seq<Option<MirrorState>>,
    before: Seq<CellSlot>,
    after: Seq<CellSlot>,
) -> bool {
    &&& after.len() == before.len()
    &&& forall|i: int|
        0 <= i < after.len() ==> (#[trigger] after[i]).id == before[i].id && after[i].cell@
            == swept_cell(stage, ready, cells, before, i)
}

/// What writing the row of `handle` does.
pub open spec fn row_written<B>(
    before: StoreState<B>,
    after: StoreState<B>,
    cell_before: CellState,
    cell_after: CellState,
    id: CellId,
    handle: Handle,
    fields: Seq<FieldWrite>,
    stamp: bool,
    r: (bool, Option<DeviceWrite>),
) -> bool {
    let mirror = before.mirror(id);
    &&& r.0 == writable(cell_before, handle)
    &&& mirror.paired(cell_before) ==> after.mirror(id).paired(cell_after)
    &&& if r.0 {
        let row = cell_before.row_of(handle)->0 as int;
        let marked = mirror.fields_marked(row, fields, fields.len() as int);
        let writes = if stamp {
            marked.stamp_writes(handle.index, handle.generation)
        } else {
            seq![]
        };
        &&& cell_after == fields_written(cell_before, row, fields, fields.len() as int)
        &&& after == (StoreState {
            gen_writes: counted(before.gen_writes, writes.len() as int),
            ..before.with_mirror(
                id,
                if stamp {
                    marked.stamped(handle.index, handle.generation)
                } else {
                    marked
                },
            )
        })
        &&& match r.1 {
            Some(w) => writes == seq![w@],
            None => writes == Seq::<WriteState>::empty(),
        }
    } else {
        cell_after == cell_before && after == before && r.1 is None
    }
}

proof fn lemma_cells_wf(before: Seq<Option<CellMirror>>, after: Seq<Option<CellMirror>>, at: int)
    requires
        0 <= at < before.len(),
        after.len() == before.len(),
        forall|c: int| 0 <= c < before.len() && c != at ==> after[c] == before[c],
        forall|c: int| 0 <= c < before.len() && (#[trigger] before[c]) is Some ==> (before[c]->0).wf(),
        after[at] is Some ==> (after[at]->0).wf(),
    ensures
        forall|c: int| 0 <= c < after.len() && (#[trigger] after[c]) is Some ==> (after[c]->0).wf(),
{
    assert forall|c: int| 0 <= c < after.len() && (#[trigger] after[c]) is Some implies (
    after[c]->0).wf() by {
        if c != at {
            assert(before[c] is Some);
        }
    }
}

/// A region lies within its pool's extent.
pub proof fn lemma_region_bound(pool: RegionState, at: u32)
    requires
        pool.consistent(),
        pool.is_region(at),
    ensures
        pool.base <= pool.start_of(at as int),
        pool.start_of(at as int) + pool.size <= pool.base + pool.count * pool.size,
        pool.start_of(at as int) + pool.size <= u32::MAX,
{
    let k = at as int;
    let size = pool.size as int;
    let count = pool.count as int;
    assert(0 <= k * size && k * size + size <= count * size) by (nonlinear_arith)
        requires
            0 <= k,
            k + 1 <= count,
            size >= 0,
    ;
}

/// The mirrored columns are as the stages need them.
proof fn lemma_fixed_columns_ok<B>(buffers: BuffersState<B>)
    requires
        buffers.consistent(),
    ensures
        columns_ok(fixed_columns_of(buffers)),
{
    let columns = fixed_columns_of(buffers);
    assert forall|i: int, j: int|
        #![trigger columns[i], columns[j]]
        0 <= i < j < columns.len() implies columns[i].0 != columns[j].0 by {
        assert(buffers.fixed[i].0 != buffers.fixed[j].0);
    }
}

/// Taking a region leaves the layout.
proof fn lemma_pools_taken(pools: Seq<RegionState>, class: int)
    requires
        laid_out(pools),
        0 <= class < pools.len(),
    ensures
        laid_out(pools.update(class, pools[class].after_take())),
{
    let after = pools.update(class, pools[class].after_take());
    assert forall|i: int, j: int|
        #![trigger after[i], after[j]]
        0 <= i < j < after.len() implies after[i].base + after[i].count * after[i].size
        <= after[j].base by {
        assert(pools[i].base + pools[i].count * pools[i].size <= pools[j].base);
    }
}

proof fn lemma_take_keeps(pool: RegionState, other: u32)
    requires
        pool.consistent(),
        pool.free.len() > 0,
        pool.handed_out(other),
    ensures
        pool.after_take().handed_out(other),
        other != pool.free.last(),
{
    let after = pool.after_take();
    assert(pool.free.contains(pool.free.last())) by {
        assert(pool.free[pool.free.len() - 1] == pool.free.last());
    }
    if after.free.contains(other) {
        let i = choose|i: int| 0 <= i < after.free.len() && after.free[i] == other;
        assert(pool.free[i] == other);
    }
    if after.is_pinned(other) {
        let i = choose|i: int|
            0 <= i < after.pinned.len() && (#[trigger] after.pinned[i]).0 == other;
        assert(pool.pinned[i].0 == other);
    }
}

proof fn lemma_registered<B>(state: StoreState<B>, class: usize, cell: CellState)
    requires
        state.consistent(),
        class < state.row_pools.len(),
        state.cells.len() < u32::MAX,
        state.register_error(class as int) is None,
        state.new_mirror(class, cell).consistent(),
        state.row_pools[class as int].after_take().consistent(),
        state.slot_pools[class as int].after_take().consistent(),
        state.row_pools[class as int].after_take().handed_out(
            state.row_pools[class as int].free.last(),
        ),
        state.slot_pools[class as int].after_take().handed_out(
            state.slot_pools[class as int].free.last(),
        ),
        laid_out(state.after_register(class, cell).row_pools),
        laid_out(state.after_register(class, cell).slot_pools),
    ensures
        state.after_register(class, cell).consistent(),
{
    let after = state.after_register(class, cell);
    let n = state.cells.len() as int;
    let k = class as int;
    assert forall|c: int| 0 <= c < after.cells.len() && (#[trigger] after.cells[c]) is Some implies resident(
        after.row_pools,
        after.slot_pools,
        after.cells[c]->0,
    ) by {
        if c < n {
            let mirror = state.cells[c]->0;
            assert(state.cells[c] is Some);
            assert(resident(state.row_pools, state.slot_pools, mirror));
            if mirror.class == class {
                lemma_take_keeps(state.row_pools[k], mirror.regions.row);
                lemma_take_keeps(state.slot_pools[k], mirror.regions.slot);
            }
        } else {
            lemma_region_bound(state.row_pools[k], state.row_pools[k].free.last());
            lemma_region_bound(state.slot_pools[k], state.slot_pools[k].free.last());
        }
    }
    assert forall|c: int, d: int|
        #![trigger after.cells[c], after.cells[d]]
        0 <= c < d < after.cells.len() && after.cells[c] is Some
            && after.cells[d] is Some implies apart(after.cells[c]->0, after.cells[d]->0) by {
        assert(state.cells[c] is Some);
        let mirror = state.cells[c]->0;
        assert(resident(state.row_pools, state.slot_pools, mirror));
        if d < n {
            assert(state.cells[d] is Some);
        } else if mirror.class == class {
            lemma_take_keeps(state.row_pools[k], mirror.regions.row);
            lemma_take_keeps(state.slot_pools[k], mirror.regions.slot);
        }
    }
}

proof fn lemma_pin_keeps(pool: RegionState, at: u32, serial: u64, other: u32)
    requires
        pool.handed_out(other),
        other != at,
    ensures
        pool.after_pin(at, serial).handed_out(other),
{
    let after = pool.after_pin(at, serial);
    if after.is_pinned(other) {
        let i = choose|i: int|
            0 <= i < after.pinned.len() && (#[trigger] after.pinned[i]).0 == other;
        assert(pool.pinned[i].0 == other);
    }
}

proof fn lemma_unregistered<B>(state: StoreState<B>, id: CellId, serial: u64)
    requires
        state.consistent(),
        state.is_live(id),
        state.row_pools[state.mirror(id).class as int].after_pin(
            state.mirror(id).regions.row,
            serial,
        ).consistent(),
        state.slot_pools[state.mirror(id).class as int].after_pin(
            state.mirror(id).regions.slot,
            serial,
        ).consistent(),
    ensures
        state.after_unregister(id, serial).consistent(),
{
    let after = state.after_unregister(id, serial);
    let at = id.index as int;
    let mirror = state.mirror(id);
    assert(state.cells[at] is Some);
    assert(resident(state.row_pools, state.slot_pools, mirror));
    assert forall|i: int, j: int|
        #![trigger after.row_pools[i], after.row_pools[j]]
        0 <= i < j < after.row_pools.len() implies after.row_pools[i].base
        + after.row_pools[i].count * after.row_pools[i].size <= after.row_pools[j].base by {
        assert(state.row_pools[i].base + state.row_pools[i].count * state.row_pools[i].size
            <= state.row_pools[j].base);
    }
    assert forall|i: int, j: int|
        #![trigger after.slot_pools[i], after.slot_pools[j]]
        0 <= i < j < after.slot_pools.len() implies after.slot_pools[i].base
        + after.slot_pools[i].count * after.slot_pools[i].size <= after.slot_pools[j].base by {
        assert(state.slot_pools[i].base + state.slot_pools[i].count * state.slot_pools[i].size
            <= state.slot_pools[j].base);
    }
    assert forall|c: int| 0 <= c < after.cells.len() && (#[trigger] after.cells[c]) is Some implies resident(
        after.row_pools,
        after.slot_pools,
        after.cells[c]->0,
    ) by {
        assert(c != at);
        assert(state.cells[c] is Some);
        let other = state.cells[c]->0;
        assert(resident(state.row_pools, state.slot_pools, other));
        if other.class == mirror.class {
            if c < at {
                assert(apart(state.cells[c]->0, state.cells[at]->0));
            } else {
                assert(apart(state.cells[at]->0, state.cells[c]->0));
            }
            let k = mirror.class as int;
            lemma_pin_keeps(state.row_pools[k], mirror.regions.row, serial, other.regions.row);
            lemma_pin_keeps(state.slot_pools[k], mirror.regions.slot, serial, other.regions.slot);
        }
    }
    assert forall|c: int, d: int|
        #![trigger after.cells[c], after.cells[d]]
        0 <= c < d < after.cells.len() && after.cells[c] is Some
            && after.cells[d] is Some implies apart(after.cells[c]->0, after.cells[d]->0) by {
        assert(state.cells[c] is Some);
        assert(state.cells[d] is Some);
    }
}

/// A mirror in the same regions takes another's place.
proof fn lemma_mirror_replaced<B>(state: StoreState<B>, id: CellId, mirror: MirrorState)
    requires
        state.consistent(),
        state.is_live(id),
        mirror.consistent(),
        same_regions(state.mirror(id), mirror),
    ensures
        state.with_mirror(id, mirror).consistent(),
{
    let after = state.with_mirror(id, mirror);
    let at = id.index as int;
    assert(state.cells[at] is Some);
    assert forall|c: int| 0 <= c < after.cells.len() && (#[trigger] after.cells[c]) is Some implies resident(
        after.row_pools,
        after.slot_pools,
        after.cells[c]->0,
    ) by {
        assert(state.cells[c] is Some);
    }
    assert forall|c: int, d: int|
        #![trigger after.cells[c], after.cells[d]]
        0 <= c < d < after.cells.len() && after.cells[c] is Some
            && after.cells[d] is Some implies apart(after.cells[c]->0, after.cells[d]->0) by {
        assert(state.cells[c] is Some);
        assert(state.cells[d] is Some);
        assert(apart(state.cells[c]->0, state.cells[d]->0));
    }
}

proof fn lemma_retired_regions(mirror: MirrorState, cell: CellState, done: u64)
    ensures
        same_regions(mirror, retired(mirror, cell, done).mirror),
    decreases mirror.pending.len(),
{
    if mirror.pending.len() > 0 && mirror.pending[0].serial <= done {
        let first = mirror.pending[0].pending;
        let next = MirrorState {
            pending: mirror.pending.subrange(1, mirror.pending.len() as int),
            ..mirror
        }.stamped(first.slot, first.next_gen);
        lemma_retired_regions(next, cell.after_commit(first), done);
    }
}

proof fn lemma_staged_regions(stage: Stage, mirror: MirrorState, cell: CellState)
    ensures
        same_regions(mirror, staged(stage, mirror, cell).mirror),
{
    match stage {
        Stage::Retire { done } => {
            lemma_retired_regions(mirror, cell, done);
        },
        _ => {},
    }
}

/// A stage leaves the cells that are not listed.
proof fn lemma_swept_frame(
    stage: Stage,
    ready: Seq<bool>,
    cells: Seq<Option<MirrorState>>,
    slots: Seq<CellSlot>,
    n: int,
    at: int,
)
    requires
        0 <= n <= slots.len(),
        forall|i: int| 0 <= i < slots.len() ==> (#[trigger] slots[i]).id.index < cells.len(),
        0 <= at < cells.len(),
        forall|i: int| 0 <= i < n ==> (#[trigger] slots[i]).id.index != at,
    ensures
        swept(stage, ready, cells, slots, n).cells.len() == cells.len(),
        swept(stage, ready, cells, slots, n).cells[at] == cells[at],
    decreases n,
{
    if n > 0 {
        lemma_swept_frame(stage, ready, cells, slots, n - 1, at);
        assert(slots[n - 1].id.index != at);
        assert(slots[n - 1].id.index < cells.len());
    }
}

proof fn lemma_phase<B>(before: StoreState<B>, after: StoreState<B>)
    requires
        before.consistent(),
        after == (StoreState { phase: after.phase, gen_writes: after.gen_writes, ..before }),
    ensures
        after.consistent(),
{
    assert forall|c: int| 0 <= c < after.cells.len() && (#[trigger] after.cells[c]) is Some implies resident(
        after.row_pools,
        after.slot_pools,
        after.cells[c]->0,
    ) by {
        assert(before.cells[c] is Some);
    }
}

proof fn lemma_buffers_replaced<B>(before: StoreState<B>, after: StoreState<B>)
    requires
        before.consistent(),
        after == (StoreState { buffers: after.buffers, ..before }),
        after.buffers.consistent(),
    ensures
        after.consistent(),
{
    assert forall|c: int| 0 <= c < after.cells.len() && (#[trigger] after.cells[c]) is Some implies resident(
        after.row_pools,
        after.slot_pools,
        after.cells[c]->0,
    ) by {
        assert(before.cells[c] is Some);
    }
}

proof fn lemma_var_len_replaced<B>(before: StoreState<B>, after: StoreState<B>)
    requires
        before.consistent(),
        after == (StoreState { var_len: after.var_len, ..before }),
    ensures
        after.consistent(),
{
    assert forall|c: int| 0 <= c < after.cells.len() && (#[trigger] after.cells[c]) is Some implies resident(
        after.row_pools,
        after.slot_pools,
        after.cells[c]->0,
    ) by {
        assert(before.cells[c] is Some);
    }
}

proof fn lemma_drained<B>(before: StoreState<B>, after: StoreState<B>, done: u64)
    requires
        before.consistent(),
        after == (StoreState {
            row_pools: drained(before.row_pools, done),
            slot_pools: drained(before.slot_pools, done),
            phase: after.phase,
            gen_writes: after.gen_writes,
            ..before
        }),
        forall|i: int|
            0 <= i < after.row_pools.len() ==> (#[trigger] after.row_pools[i]).consistent(),
        forall|i: int|
            0 <= i < after.slot_pools.len() ==> (#[trigger] after.slot_pools[i]).consistent(),
        forall|k: int, at: u32|
            #![trigger before.row_pools[k].handed_out(at)]
            0 <= k < before.row_pools.len() && before.row_pools[k].handed_out(at)
                ==> before.row_pools[k].after_drain(done).handed_out(at),
        forall|k: int, at: u32|
            #![trigger before.slot_pools[k].handed_out(at)]
            0 <= k < before.slot_pools.len() && before.slot_pools[k].handed_out(at)
                ==> before.slot_pools[k].after_drain(done).handed_out(at),
    ensures
        after.consistent(),
{
    assert forall|i: int, j: int|
        #![trigger after.row_pools[i], after.row_pools[j]]
        0 <= i < j < after.row_pools.len() implies after.row_pools[i].base
        + after.row_pools[i].count * after.row_pools[i].size <= after.row_pools[j].base by {
        assert(before.row_pools[i].base + before.row_pools[i].count * before.row_pools[i].size
            <= before.row_pools[j].base);
    }
    assert forall|i: int, j: int|
        #![trigger after.slot_pools[i], after.slot_pools[j]]
        0 <= i < j < after.slot_pools.len() implies after.slot_pools[i].base
        + after.slot_pools[i].count * after.slot_pools[i].size <= after.slot_pools[j].base by {
        assert(before.slot_pools[i].base + before.slot_pools[i].count * before.slot_pools[i].size
            <= before.slot_pools[j].base);
    }
    assert forall|c: int| 0 <= c < after.cells.len() && (#[trigger] after.cells[c]) is Some implies resident(
        after.row_pools,
        after.slot_pools,
        after.cells[c]->0,
    ) by {
        assert(before.cells[c] is Some);
        let mirror = before.cells[c]->0;
        assert(resident(before.row_pools, before.slot_pools, mirror));
    }
    assert forall|c: int, d: int|
        #![trigger after.cells[c], after.cells[d]]
        0 <= c < d < after.cells.len() && after.cells[c] is Some
            && after.cells[d] is Some implies apart(after.cells[c]->0, after.cells[d]->0) by {
        assert(before.cells[c] is Some);
        assert(before.cells[d] is Some);
    }
}

/// Two live cells never share a row or a slot of the buffers, whatever their classes.
pub proof fn law_cells_never_share_a_region<B>(state: StoreState<B>, a: CellId, b: CellId)
    requires
        state.consistent(),
        state.is_live(a),
        state.is_live(b),
        a != b,
    ensures
        ({
            let x = state.mirror(a);
            let y = state.mirror(b);
            &&& x.row_base + x.row_capacity <= y.row_base || y.row_base + y.row_capacity
                <= x.row_base
            &&& x.slot_base + x.slot_capacity <= y.slot_base || y.slot_base + y.slot_capacity
                <= x.slot_base
        }),
{
    let x = state.mirror(a);
    let y = state.mirror(b);
    assert(state.cells[a.index as int] is Some);
    assert(state.cells[b.index as int] is Some);
    assert(resident(state.row_pools, state.slot_pools, x));
    assert(resident(state.row_pools, state.slot_pools, y));
    let i = x.class as int;
    let j = y.class as int;
    if i == j {
        if a.index < b.index {
            assert(apart(state.cells[a.index as int]->0, state.cells[b.index as int]->0));
        } else {
            assert(apart(state.cells[b.index as int]->0, state.cells[a.index as int]->0));
        }
        law_regions_do_not_overlap(state.row_pools[i], x.regions.row, y.regions.row);
        law_regions_do_not_overlap(state.slot_pools[i], x.regions.slot, y.regions.slot);
    } else {
        lemma_region_bound(state.row_pools[i], x.regions.row);
        lemma_region_bound(state.row_pools[j], y.regions.row);
        lemma_region_bound(state.slot_pools[i], x.regions.slot);
        lemma_region_bound(state.slot_pools[j], y.regions.slot);
        if i < j {
            assert(state.row_pools[i].base + state.row_pools[i].count * state.row_pools[i].size
                <= state.row_pools[j].base);
            assert(state.slot_pools[i].base + state.slot_pools[i].count * state.slot_pools[i].size
                <= state.slot_pools[j].base);
        } else {
            assert(state.row_pools[j].base + state.row_pools[j].count * state.row_pools[j].size
                <= state.row_pools[i].base);
            assert(state.slot_pools[j].base + state.slot_pools[j].count * state.slot_pools[j].size
                <= state.slot_pools[i].base);
        }
    }
}

} // verus!
