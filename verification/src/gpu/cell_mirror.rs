//! The device side of one registered cell: its regions, what is dirty in its mirrored columns, what
//! the slot mirror and the generation buffer last got, and the retirements that wait for the device.
use crate::cell::{CellStorage, Handle, PendingRetire};
use crate::entity::ComponentId;
use crate::gpu::device_writes::DeviceWrite;
use crate::gpu::dirty::DirtyMask;
use crate::gpu::shared_buffers::ColumnWrite;
use std::collections::VecDeque;
use vstd::prelude::*;

verus! {

use crate::cell::{
    law_compaction_keeps_pending, lemma_commit_keeps_pending,
    lemma_mark_keeps_pending, lemma_write_keeps_columns, CellState,
};
use crate::gpu::device_writes::{
    lemma_after_concat, lemma_runs_copied, marked_runs, runs_copied, runs_of, writes_of,
    DeviceState, WriteState,
};
use crate::gpu::dirty_tracked_scene_buffer::copy_range;
use crate::gpu::runs::{are_runs, in_some_run, Run};

/// A retirement and the submission that must complete before it is carried out.
#[derive(Clone, Copy, Debug, PartialEq, Eq, Structural)]
pub struct QueuedRetire {
    pub pending: PendingRetire,
    pub serial: u64,
}

/// The element of one column of one row.
#[derive(Debug)]
pub struct FieldWrite {
    pub id: ComponentId,
    pub bytes: Vec<u8>,
}

/// A mirrored column: its component, its buffer, and its element size.
pub type FixedColumn = (ComponentId, usize, u32);

/// The marks of a slot in the shadow that was never uploaded.
pub const NEVER_UPLOADED: u32 = 0xffff_ffff;

/// The numbers of a cell's regions in the pools of its class.
#[derive(Clone, Copy, Debug, PartialEq, Eq, Structural)]
pub struct Regions {
    pub row: u32,
    pub slot: u32,
}

/// What is known of the device side of a cell.
pub struct MirrorState {
    pub class: usize,
    pub regions: Regions,
    pub row_base: u32,
    pub slot_base: u32,
    pub row_capacity: u32,
    pub slot_capacity: u32,
    /// The mirrored columns the cell carries, with their dirty rows.
    pub masks: Seq<(ComponentId, Seq<bool>)>,
    /// The slot each row last had in the slot mirror.
    pub slot_shadow: Seq<u32>,
    pub pending: Seq<QueuedRetire>,
    /// The generation each slot last had in the generation buffer.
    pub gen_shadow: Seq<u32>,
}

/// Whether `id` is among the mirrored columns.
pub open spec fn is_fixed(columns: Seq<FixedColumn>, id: ComponentId) -> bool {
    exists|i: int| 0 <= i < columns.len() && (#[trigger] columns[i]).0 == id
}

/// Where `id` is among the mirrored columns.
pub open spec fn fixed_at(columns: Seq<FixedColumn>, id: ComponentId) -> int {
    choose|i: int| 0 <= i < columns.len() && (#[trigger] columns[i]).0 == id
}

/// The mirrored columns are distinct.
pub open spec fn columns_ok(columns: Seq<FixedColumn>) -> bool {
    forall|i: int, j: int|
        #![trigger columns[i], columns[j]]
        0 <= i < j < columns.len() ==> columns[i].0 != columns[j].0
}

/// If `id` is a mirrored column that the cell carries, its elements have bytes.
pub open spec fn column_sized(
    columns: Seq<FixedColumn>,
    cell: CellState,
    id: ComponentId,
) -> bool {
    is_fixed(columns, id) && cell.has_column(id) ==> columns[fixed_at(columns, id)].2 > 0
}

/// A cell carries at most one column of each buffer.
pub open spec fn carried_once(columns: Seq<FixedColumn>, cell: CellState) -> bool {
    forall|i: int, j: int|
        #![trigger columns[i], columns[j]]
        0 <= i < j < columns.len() && cell.has_column(columns[i].0) && cell.has_column(columns[j].0)
            ==> columns[i].1 != columns[j].1
}

/// The masks of a cell as it is registered: one for each mirrored column it carries, with every row
/// in use marked.
pub open spec fn warm_masks(
    columns: Seq<FixedColumn>,
    cell: CellState,
    row_capacity: u32,
) -> Seq<(ComponentId, Seq<bool>)>
    decreases columns.len(),
{
    if columns.len() == 0 {
        seq![]
    } else {
        let front = warm_masks(columns.drop_last(), cell, row_capacity);
        if cell.has_column(columns.last().0) {
            front.push(
                (
                    columns.last().0,
                    Seq::new(row_capacity as nat, |r: int| r < cell.rows.len()),
                ),
            )
        } else {
            front
        }
    }
}

/// The upload of rows `run` of a column.
pub open spec fn column_run(
    owner: int,
    size: int,
    row_base: int,
    bytes: Seq<u8>,
    run: Run,
) -> WriteState {
    WriteState::Column {
        owner,
        offset: (row_base + run.0) * size,
        bytes: bytes.subrange(run.0 * size, run.1 * size),
    }
}

/// The upload of every run of a column.
pub open spec fn column_runs(
    owner: int,
    size: int,
    row_base: int,
    bytes: Seq<u8>,
    runs: Seq<Run>,
) -> Seq<WriteState> {
    Seq::new(runs.len(), |i: int| column_run(owner, size, row_base, bytes, runs[i]))
}

/// How many rows of column `id` the device is to follow.
pub open spec fn synced_rows(columns: Seq<FixedColumn>, cell: CellState, id: ComponentId) -> int {
    if is_fixed(columns, id) && cell.has_column(id) {
        let elements = cell.column(id).bytes.len() as int / columns[fixed_at(columns, id)].2 as int;
        if elements < cell.rows.len() {
            elements
        } else {
            cell.rows.len() as int
        }
    } else {
        0
    }
}

impl MirrorState {
    /// The regions lie in the buffers; every mask and shadow spans its region.
    pub open spec fn consistent(self) -> bool {
        &&& self.row_base + self.row_capacity <= u32::MAX
        &&& self.slot_base + self.slot_capacity <= u32::MAX
        &&& self.slot_shadow.len() == self.row_capacity
        &&& self.gen_shadow.len() == self.slot_capacity
        &&& forall|k: int|
            0 <= k < self.masks.len() ==> (#[trigger] self.masks[k]).1.len() == self.row_capacity
        &&& forall|i: int, j: int|
            #![trigger self.masks[i], self.masks[j]]
            0 <= i < j < self.masks.len() ==> self.masks[i].0 != self.masks[j].0
    }

    /// The queued retirements are pending in `cell`, each of another slot, with serials that never
    /// go back.
    pub open spec fn paired(self, cell: CellState) -> bool {
        &&& forall|i: int|
            0 <= i < self.pending.len() ==> cell.awaits((#[trigger] self.pending[i]).pending)
        &&& forall|i: int, j: int|
            #![trigger self.pending[i], self.pending[j]]
            0 <= i < j < self.pending.len() ==> self.pending[i].pending.slot
                != self.pending[j].pending.slot && self.pending[i].serial <= self.pending[j].serial
    }

    pub open spec fn has_mask(self, id: ComponentId) -> bool {
        exists|k: int| 0 <= k < self.masks.len() && (#[trigger] self.masks[k]).0 == id
    }

    pub open spec fn mask_at(self, id: ComponentId) -> int {
        choose|k: int| 0 <= k < self.masks.len() && (#[trigger] self.masks[k]).0 == id
    }

    /// The state with `row` of column `id` dirty; unchanged if the cell has no such column.
    pub open spec fn marked(self, id: ComponentId, row: int) -> MirrorState {
        if self.has_mask(id) {
            let k = self.mask_at(id);
            MirrorState {
                masks: self.masks.update(k, (id, self.masks[k].1.update(row, true))),
                ..self
            }
        } else {
            self
        }
    }

    /// The state once the device has `generation` for `slot`.
    pub open spec fn stamped(self, slot: u32, generation: u32) -> MirrorState {
        MirrorState { gen_shadow: self.gen_shadow.update(slot as int, generation), ..self }
    }

    /// The write that takes: none if the device already has it.
    pub open spec fn stamp_writes(self, slot: u32, generation: u32) -> Seq<WriteState> {
        if self.gen_shadow[slot as int] == generation {
            seq![]
        } else {
            seq![
                WriteState::Generations {
                    slot: self.slot_base + slot,
                    generations: seq![generation],
                },
            ]
        }
    }

    /// The first `n` fields written.
    pub open spec fn fields_marked(self, row: int, fields: Seq<FieldWrite>, n: int) -> MirrorState
        decreases n,
    {
        if n <= 0 {
            self
        } else {
            self.fields_marked(row, fields, n - 1).marked(fields[n - 1].id, row)
        }
    }

    /// The state with one more retirement queued.
    pub open spec fn queued(self, entry: QueuedRetire) -> MirrorState {
        MirrorState { pending: self.pending.push(entry), ..self }
    }

    /// The state after the rows of a compaction moved: their destinations are dirty in every column.
    pub open spec fn moves_marked(self, moves: Seq<(u32, u32)>) -> MirrorState {
        MirrorState {
            masks: Seq::new(
                self.masks.len(),
                |k: int|
                    (
                        self.masks[k].0,
                        Seq::new(
                            self.masks[k].1.len(),
                            |r: int| self.masks[k].1[r] || is_destination(moves, r),
                        ),
                    ),
            ),
            ..self
        }
    }

    /// The uploads of mask `k`.
    pub open spec fn mask_writes(
        self,
        columns: Seq<FixedColumn>,
        cell: CellState,
        k: int,
    ) -> Seq<WriteState> {
        let id = self.masks[k].0;
        let n = synced_rows(columns, cell, id);
        if n <= 0 {
            seq![]
        } else {
            let column = columns[fixed_at(columns, id)];
            column_runs(
                column.1 as int,
                column.2 as int,
                self.row_base as int,
                cell.column(id).bytes,
                runs_of(self.masks[k].1.take(n)),
            )
        }
    }

    /// The uploads of the first `n` masks.
    pub open spec fn column_writes(
        self,
        columns: Seq<FixedColumn>,
        cell: CellState,
        n: int,
    ) -> Seq<WriteState>
        decreases n,
    {
        if n <= 0 {
            seq![]
        } else {
            self.column_writes(columns, cell, n - 1) + self.mask_writes(columns, cell, n - 1)
        }
    }

    /// The rows whose slot the slot mirror does not have.
    pub open spec fn stale_slots(self, cell: CellState) -> Seq<bool> {
        Seq::new(cell.rows.len(), |r: int| self.slot_shadow[r] != cell.rows[r].slot)
    }

    /// The global slot of each row.
    pub open spec fn global_slots(self, cell: CellState) -> Seq<u32> {
        Seq::new(cell.rows.len(), |r: int| (self.slot_base + cell.rows[r].slot) as u32)
    }

    /// The uploads of the slot mirror.
    pub open spec fn slot_writes(self, cell: CellState) -> Seq<WriteState> {
        let runs = runs_of(self.stale_slots(cell));
        Seq::new(
            runs.len(),
            |i: int|
                WriteState::SlotMirror {
                    row: self.row_base + runs[i].0,
                    slots: self.global_slots(cell).subrange(runs[i].0 as int, runs[i].1 as int),
                },
        )
    }

    /// The uploads of a frame boundary: the dirty runs of every column, then the stale runs of the
    /// slot mirror.
    pub open spec fn sync_writes(self, columns: Seq<FixedColumn>, cell: CellState) -> Seq<
        WriteState,
    > {
        self.column_writes(columns, cell, self.masks.len() as int) + self.slot_writes(cell)
    }

    /// The state after those uploads.
    pub open spec fn synced(self, columns: Seq<FixedColumn>, cell: CellState) -> MirrorState {
        MirrorState {
            masks: Seq::new(
                self.masks.len(),
                |k: int| self.masks_cleared(columns, cell, k),
            ),
            slot_shadow: self.slots_shadowed(cell),
            ..self
        }
    }

    /// Mask `k` after the uploads.
    pub open spec fn masks_cleared(
        self,
        columns: Seq<FixedColumn>,
        cell: CellState,
        k: int,
    ) -> (ComponentId, Seq<bool>) {
        if synced_rows(columns, cell, self.masks[k].0) > 0 {
            (self.masks[k].0, Seq::new(self.masks[k].1.len(), |r: int| false))
        } else {
            self.masks[k]
        }
    }

    /// The slot shadow once it agrees with `cell`.
    pub open spec fn slots_shadowed(self, cell: CellState) -> Seq<u32> {
        Seq::new(
            self.slot_shadow.len(),
            |r: int|
                if r < cell.rows.len() {
                    cell.rows[r].slot
                } else {
                    self.slot_shadow[r]
                },
        )
    }

    /// The upload of all rows of one column.
    pub open spec fn bulk_write(self, column: FixedColumn, cell: CellState) -> Seq<WriteState> {
        let wanted = cell.rows.len() * column.2;
        if cell.has_column(column.0) && wanted > 0 && cell.column(column.0).bytes.len() >= wanted {
            seq![
                WriteState::Column {
                    owner: column.1 as int,
                    offset: self.row_base * column.2,
                    bytes: cell.column(column.0).bytes.subrange(0, wanted as int),
                },
            ]
        } else {
            seq![]
        }
    }

    /// The uploads of all rows of the first `n` columns.
    pub open spec fn bulk_writes(
        self,
        columns: Seq<FixedColumn>,
        cell: CellState,
        n: int,
    ) -> Seq<WriteState>
        decreases n,
    {
        if n <= 0 {
            seq![]
        } else {
            self.bulk_writes(columns, cell, n - 1) + self.bulk_write(columns[n - 1], cell)
        }
    }

    /// The uploads of everything the cell holds.
    pub open spec fn refill_writes(self, columns: Seq<FixedColumn>, cell: CellState) -> Seq<
        WriteState,
    > {
        self.bulk_writes(columns, cell, columns.len() as int) + (if cell.rows.len() > 0 {
            seq![
                WriteState::SlotMirror {
                    row: self.row_base as int,
                    slots: self.global_slots(cell),
                },
            ]
        } else {
            seq![]
        })
    }

    /// The state after those uploads.
    pub open spec fn refilled(self, cell: CellState) -> MirrorState {
        MirrorState {
            masks: Seq::new(
                self.masks.len(),
                |k: int| (self.masks[k].0, Seq::new(self.masks[k].1.len(), |r: int| false)),
            ),
            slot_shadow: self.slots_shadowed(cell),
            ..self
        }
    }

    /// The elements of every column that is synced have bytes.
    pub open spec fn masks_sized(self, columns: Seq<FixedColumn>, cell: CellState) -> bool {
        forall|k: int|
            0 <= k < self.masks.len() ==> column_sized(columns, cell, (#[trigger] self.masks[k]).0)
    }

    /// Every slot to be uploaded lies in the slot region.
    pub open spec fn slots_fit(self, cell: CellState) -> bool {
        forall|r: int|
            0 <= r < cell.rows.len() && self.slot_shadow[r] != (#[trigger] cell.rows[r]).slot
                ==> cell.rows[r].slot < self.slot_capacity
    }
}

/// Row `r` is where some move ends.
pub open spec fn is_destination(moves: Seq<(u32, u32)>, r: int) -> bool {
    exists|i: int| 0 <= i < moves.len() && (#[trigger] moves[i]).1 == r
}

/// A cell with the first `n` fields written.
pub open spec fn fields_written(
    cell: CellState,
    row: int,
    fields: Seq<FieldWrite>,
    n: int,
) -> CellState
    decreases n,
{
    if n <= 0 {
        cell
    } else {
        fields_written(cell, row, fields, n - 1).after_write(
            fields[n - 1].id,
            row,
            fields[n - 1].bytes@,
        )
    }
}

/// Every field is an element of a column of the cell.
pub open spec fn fields_fit(cell: CellState, fields: Seq<FieldWrite>) -> bool {
    forall|i: int|
        0 <= i < fields.len() ==> cell.has_column((#[trigger] fields[i]).id)
            && fields[i].bytes@.len() == cell.column(fields[i].id).size
}

/// What carrying out the due retirements of a cell leads to.
pub struct RetireOutcome {
    pub mirror: MirrorState,
    pub cell: CellState,
    pub writes: Seq<WriteState>,
    pub count: nat,
}

/// The retirements up to the first whose serial is after `done`: each stamps the slot's new
/// generation on the device, then is committed.
pub open spec fn retired(mirror: MirrorState, cell: CellState, done: u64) -> RetireOutcome
    decreases mirror.pending.len(),
{
    if mirror.pending.len() == 0 || mirror.pending[0].serial > done {
        RetireOutcome { mirror, cell, writes: seq![], count: 0 }
    } else {
        let first = mirror.pending[0].pending;
        let next = MirrorState {
            pending: mirror.pending.subrange(1, mirror.pending.len() as int),
            ..mirror
        }.stamped(first.slot, first.next_gen);
        let rest = retired(next, cell.after_commit(first), done);
        RetireOutcome {
            writes: mirror.stamp_writes(first.slot, first.next_gen) + rest.writes,
            count: rest.count + 1,
            ..rest
        }
    }
}

/// Every due retirement is of a slot in the slot region.
pub open spec fn retire_fits(mirror: MirrorState, done: u64) -> bool {
    forall|i: int|
        0 <= i < mirror.pending.len() && (#[trigger] mirror.pending[i]).serial <= done
            ==> mirror.pending[i].pending.slot < mirror.slot_capacity
}

/// A registered cell as it starts: nothing uploaded to the slot mirror, the generations as in the
/// cell.
pub open spec fn registered_mirror(
    class: usize,
    regions: Regions,
    row_base: u32,
    slot_base: u32,
    row_capacity: u32,
    slot_capacity: u32,
    columns: Seq<FixedColumn>,
    cell: CellState,
) -> MirrorState {
    MirrorState {
        class,
        regions,
        row_base,
        slot_base,
        row_capacity,
        slot_capacity,
        masks: warm_masks(columns, cell, row_capacity),
        slot_shadow: Seq::new(row_capacity as nat, |r: int| NEVER_UPLOADED),
        pending: seq![],
        gen_shadow: Seq::new(
            slot_capacity as nat,
            |s: int|
                if s < cell.generations.len() {
                    cell.generations[s]
                } else {
                    0u32
                },
        ),
    }
}

/// The writes of a registration: the cell's generations, and zero for the rest of the slot region,
/// which may hold what an earlier cell left there.
pub open spec fn registration_writes(mirror: MirrorState, cell: CellState) -> Seq<WriteState> {
    let used = cell.generations.len() as int;
    (if used > 0 {
        seq![
            WriteState::Generations {
                slot: mirror.slot_base as int,
                generations: cell.generations,
            },
        ]
    } else {
        seq![]
    }) + (if used < mirror.slot_capacity {
        seq![
            WriteState::Generations {
                slot: mirror.slot_base + used,
                generations: Seq::new((mirror.slot_capacity - used) as nat, |i: int| 0u32),
            },
        ]
    } else {
        seq![]
    })
}

/// The device side of a registered cell.
pub struct CellMirror {
    class: usize,
    regions: Regions,
    row_base: u32,
    slot_base: u32,
    row_capacity: u32,
    slot_capacity: u32,
    masks: Vec<(ComponentId, DirtyMask)>,
    slot_shadow: Vec<u32>,
    pending: VecDeque<QueuedRetire>,
    gen_shadow: Vec<u32>,
}

impl View for CellMirror {
    type V = MirrorState;

    closed spec fn view(&self) -> MirrorState {
        MirrorState {
            class: self.class,
            regions: self.regions,
            row_base: self.row_base,
            slot_base: self.slot_base,
            row_capacity: self.row_capacity,
            slot_capacity: self.slot_capacity,
            masks: mask_views(self.masks@),
            slot_shadow: self.slot_shadow@,
            pending: self.pending@,
            gen_shadow: self.gen_shadow@,
        }
    }
}

closed spec fn mask_views(masks: Seq<(ComponentId, DirtyMask)>) -> Seq<(ComponentId, Seq<bool>)> {
    Seq::new(masks.len(), |k: int| (masks[k].0, masks[k].1@))
}

impl CellMirror {
    /// The invariant every operation keeps.
    pub closed spec fn wf(&self) -> bool {
        &&& self@.consistent()
        &&& forall|k: int| 0 <= k < self.masks@.len() ==> (#[trigger] self.masks@[k]).1.wf()
    }

    /// The invariant gives a consistent state.
    pub proof fn lemma_wf(&self)
        requires
            self.wf(),
        ensures
            self@.consistent(),
    {
    }

    /// Registers a cell in the given regions. Returns the writes that takes.
    pub fn new(
        class: usize,
        regions: Regions,
        row_base: u32,
        slot_base: u32,
        row_capacity: u32,
        slot_capacity: u32,
        columns: &Vec<FixedColumn>,
        cell: &CellStorage,
    ) -> (r: (CellMirror, Vec<DeviceWrite>))
        requires
            cell.wf(),
            columns_ok(columns@),
            row_base + row_capacity <= u32::MAX,
            slot_base + slot_capacity <= u32::MAX,
            cell@.rows.len() <= row_capacity,
            cell@.generations.len() <= slot_capacity,
        ensures
            r.0.wf(),
            r.0@ == registered_mirror(
                class,
                regions,
                row_base,
                slot_base,
                row_capacity,
                slot_capacity,
                columns@,
                cell@,
            ),
            writes_of(r.1@) == registration_writes(r.0@, cell@),
    {
        let rows: u32 = cell.rows_in_use();
        let mut masks: Vec<(ComponentId, DirtyMask)> = Vec::new();
        let ghost full = Seq::new(row_capacity as nat, |r: int| r < cell@.rows.len());
        let mut i: usize = 0;
        while i < columns.len()
            invariant
                cell.wf(),
                columns_ok(columns@),
                i <= columns@.len(),
                rows == cell@.rows.len(),
                rows <= row_capacity,
                full == Seq::new(row_capacity as nat, |r: int| r < cell@.rows.len()),
                mask_views(masks@) == warm_masks(
                    columns@.take(i as int),
                    cell@,
                    row_capacity,
                ),
                forall|k: int|
                    0 <= k < masks@.len() ==> (#[trigger] masks@[k]).1.wf() && masks@[k].1@.len()
                        == row_capacity,
                forall|k: int|
                    0 <= k < masks@.len() ==> is_fixed(
                        columns@.take(i as int),
                        (#[trigger] masks@[k]).0,
                    ),
                forall|a: int, b: int|
                    #![trigger masks@[a], masks@[b]]
                    0 <= a < b < masks@.len() ==> masks@[a].0 != masks@[b].0,
            decreases columns@.len() - i,
        {
            let id: ComponentId = columns[i].0;
            let ghost before = masks@;
            let ghost prefix = columns@.take(i as int);
            let ghost longer = columns@.take(i + 1);
            proof {
                assert(longer.drop_last() =~= prefix);
                assert(longer.last() == columns@[i as int]);
                assert forall|k: int| 0 <= k < before.len() implies (#[trigger] before[k]).0 != id
                    && is_fixed(longer, before[k].0) by {
                    let j = fixed_at(prefix, before[k].0);
                    assert(prefix[j].0 == before[k].0);
                    assert(longer[j].0 == before[k].0);
                    assert(columns@[j].0 != columns@[i as int].0);
                }
            }
            if cell.column_size(id).is_some() {
                let mut mask = DirtyMask::new(row_capacity);
                mask.mark_range(rows);
                proof {
                    assert(mask@ =~= full);
                    assert(longer[i as int].0 == id);
                    assert(is_fixed(longer, id));
                }
                masks.push((id, mask));
                assert(mask_views(masks@) =~= mask_views(before).push((id, full)));
            }
            i = i + 1;
        }
        assert(columns@.take(i as int) =~= columns@);
        let generations = cell.generations();
        let mut gen_shadow: Vec<u32> = Vec::new();
        let mut s: u32 = 0;
        while s < slot_capacity
            invariant
                s <= slot_capacity,
                generations@ == cell@.generations,
                gen_shadow@ == Seq::new(
                    s as nat,
                    |s: int|
                        if s < cell@.generations.len() {
                            cell@.generations[s]
                        } else {
                            0u32
                        },
                ),
            decreases slot_capacity - s,
        {
            let generation: u32 = if (s as usize) < generations.len() {
                generations[s as usize]
            } else {
                0
            };
            gen_shadow.push(generation);
            s = s + 1;
            assert(gen_shadow@ =~= Seq::new(
                s as nat,
                |s: int|
                    if s < cell@.generations.len() {
                        cell@.generations[s]
                    } else {
                        0u32
                    },
            ));
        }
        let slot_shadow: Vec<u32> = filled(NEVER_UPLOADED, row_capacity);
        let mirror = CellMirror {
            class,
            regions,
            row_base,
            slot_base,
            row_capacity,
            slot_capacity,
            masks,
            slot_shadow,
            pending: VecDeque::new(),
            gen_shadow,
        };
        let used: usize = generations.len();
        let mut writes: Vec<DeviceWrite> = Vec::new();
        if used > 0 {
            writes.push(
                DeviceWrite::Generations {
                    slot: slot_base,
                    generations: copy_words(generations, 0, used),
                },
            );
        }
        if (used as u32) < slot_capacity {
            let tail: u32 = slot_capacity - used as u32;
            writes.push(
                DeviceWrite::Generations {
                    slot: slot_base + used as u32,
                    generations: filled(0, tail),
                },
            );
        }
        proof {
            assert(mirror@.pending =~= seq![]);
            assert(mirror@ == registered_mirror(
                class,
                regions,
                row_base,
                slot_base,
                row_capacity,
                slot_capacity,
                columns@,
                cell@,
            ));
            assert(cell@.generations.subrange(0, used as int) =~= cell@.generations);
            assert(writes_of(writes@) =~= registration_writes(mirror@, cell@));
            assert(mirror.masks@ == masks@);
            assert forall|k: int| 0 <= k < mirror@.masks.len() implies (
            #[trigger] mirror@.masks[k]).1.len() == mirror@.row_capacity by {
                assert(masks@[k].1@.len() == row_capacity);
            }
            assert forall|a: int, b: int|
                #![trigger mirror@.masks[a], mirror@.masks[b]]
                0 <= a < b < mirror@.masks.len() implies mirror@.masks[a].0
                != mirror@.masks[b].0 by {
                assert(masks@[a].0 != masks@[b].0);
            }
        }
        (mirror, writes)
    }

    pub fn class(&self) -> (class: usize)
        ensures
            class == self@.class,
    {
        self.class
    }

    pub fn regions(&self) -> (regions: Regions)
        ensures
            regions == self@.regions,
    {
        self.regions
    }

    pub fn row_base(&self) -> (base: u32)
        ensures
            base == self@.row_base,
    {
        self.row_base
    }

    /// The serial of the retirement queued last.
    pub fn newest_serial(&self) -> (serial: Option<u64>)
        ensures
            serial == if self@.pending.len() > 0 {
                Some(self@.pending.last().serial)
            } else {
                None
            },
    {
        let n: usize = self.pending.len();
        if n == 0 {
            return None;
        }
        Some(self.pending[n - 1].serial)
    }

    /// Whether the rows and slots of `cell`, and the retirements due at `done`, lie in the cell's
    /// regions.
    pub fn covers(&self, cell: &CellStorage, done: u64) -> (fits: bool)
        requires
            self.wf(),
            cell.wf(),
        ensures
            fits == (cell@.rows.len() <= self@.row_capacity && self@.slots_fit(cell@)
                && retire_fits(self@, done)),
    {
        let rows: u32 = cell.rows_in_use();
        if rows > self.row_capacity {
            return false;
        }
        let mut r: u32 = 0;
        while r < rows
            invariant
                self.wf(),
                r <= rows == cell@.rows.len(),
                rows <= self@.row_capacity,
                forall|k: int|
                    0 <= k < r && self@.slot_shadow[k] != (#[trigger] cell@.rows[k]).slot
                        ==> cell@.rows[k].slot < self@.slot_capacity,
            decreases rows - r,
        {
            let slot: u32 = cell.slot_at(r);
            if self.slot_shadow[r as usize] != slot && slot >= self.slot_capacity {
                assert(self@.slot_shadow[r as int] != cell@.rows[r as int].slot);
                return false;
            }
            r = r + 1;
        }
        let mut i: usize = 0;
        while i < self.pending.len()
            invariant
                i <= self.pending@.len(),
                forall|k: int|
                    0 <= k < i && (#[trigger] self.pending@[k]).serial <= done
                        ==> self.pending@[k].pending.slot < self.slot_capacity,
            decreases self.pending@.len() - i,
        {
            let queued: QueuedRetire = self.pending[i];
            if queued.serial <= done && queued.pending.slot >= self.slot_capacity {
                assert(self@.pending[i as int].serial <= done);
                return false;
            }
            i = i + 1;
        }
        true
    }

    fn find_mask(&self, id: ComponentId) -> (at: Option<usize>)
        requires
            self.wf(),
        ensures
            match at {
                Some(k) => self@.has_mask(id) && k == self@.mask_at(id) && k < self@.masks.len(),
                None => !self@.has_mask(id),
            },
    {
        let mut k: usize = 0;
        while k < self.masks.len()
            invariant
                self.wf(),
                k <= self.masks@.len(),
                forall|j: int| 0 <= j < k ==> (#[trigger] self@.masks[j]).0 != id,
            decreases self.masks@.len() - k,
        {
            assert(self@.masks[k as int].0 == self.masks@[k as int].0);
            if self.masks[k].0 == id {
                proof {
                    let j = self@.mask_at(id);
                    assert(self@.masks[j].0 == id);
                }
                return Some(k);
            }
            k = k + 1;
        }
        None
    }

    /// Whether the cell has the mirrored column `id`.
    pub fn has_column(&self, id: ComponentId) -> (has: bool)
        requires
            self.wf(),
        ensures
            has == self@.has_mask(id),
    {
        self.find_mask(id).is_some()
    }

    /// Marks `row` of column `id` dirty, if the cell has that column.
    pub fn mark_column_dirty(&mut self, id: ComponentId, row: u32)
        requires
            old(self).wf(),
            old(self)@.has_mask(id) ==> row < old(self)@.row_capacity,
        ensures
            final(self).wf(),
            final(self)@ == old(self)@.marked(id, row as int),
    {
        match self.find_mask(id) {
            Some(k) => {
                let ghost before = self@;
                let ghost masks = self.masks@;
                assert(before.masks[k as int].0 == id);
                assert(before.masks[k as int].1.len() == before.row_capacity);
                assert(masks[k as int].1.wf());
                self.masks[k].1.mark(row);
                proof {
                    assert(self@.masks =~= before.marked(id, row as int).masks);
                    lemma_masks_kept(before, self@);
                    assert forall|j: int| 0 <= j < self.masks@.len() implies (
                    #[trigger] self.masks@[j]).1.wf() by {
                        assert(masks[j].1.wf());
                    }
                }
            },
            None => {},
        }
    }

    /// Gives the device `generation` for `slot`, unless it already has it.
    pub fn write_generation(&mut self, slot: u32, generation: u32) -> (write: Option<DeviceWrite>)
        requires
            old(self).wf(),
            slot < old(self)@.slot_capacity,
        ensures
            final(self).wf(),
            final(self)@ == old(self)@.stamped(slot, generation),
            match write {
                Some(w) => old(self)@.stamp_writes(slot, generation) == seq![w@],
                None => old(self)@.stamp_writes(slot, generation) == Seq::<WriteState>::empty(),
            },
    {
        let ghost before = self@;
        if self.gen_shadow[slot as usize] == generation {
            assert(self@.gen_shadow =~= before.stamped(slot, generation).gen_shadow);
            assert(self@ == before.stamped(slot, generation));
            return None;
        }
        self.gen_shadow.set(slot as usize, generation);
        let mut generations: Vec<u32> = Vec::new();
        generations.push(generation);
        assert(generations@ =~= seq![generation]);
        proof {
            assert(self@ == before.stamped(slot, generation));
            lemma_masks_kept(before, self@);
        }
        Some(DeviceWrite::Generations { slot: self.slot_base + slot, generations })
    }

    /// Writes elements of `row` into the cell's columns and marks them dirty.
    pub fn write_fields(&mut self, cell: &mut CellStorage, row: u32, fields: &Vec<FieldWrite>)
        requires
            old(self).wf(),
            old(cell).wf(),
            row < old(cell)@.rows.len(),
            row < old(self)@.row_capacity,
            fields_fit(old(cell)@, fields@),
        ensures
            final(self).wf(),
            final(cell).wf(),
            final(self)@ == old(self)@.fields_marked(
                row as int,
                fields@,
                fields@.len() as int,
            ),
            final(cell)@ == fields_written(
                old(cell)@,
                row as int,
                fields@,
                fields@.len() as int,
            ),
            final(self)@ == (MirrorState { masks: final(self)@.masks, ..old(self)@ }),
            final(cell)@.rows == old(cell)@.rows,
            final(cell)@.placed == old(cell)@.placed,
    {
        let ghost before = self@;
        let ghost start = cell@;
        let mut i: usize = 0;
        while i < fields.len()
            invariant
                i <= fields@.len(),
                self.wf(),
                cell.wf(),
                row < start.rows.len(),
                row < before.row_capacity,
                cell@.rows == start.rows,
                cell@.placed == start.placed,
                self@ == (MirrorState { masks: self@.masks, ..before }),
                fields_fit(cell@, fields@),
                self@ == before.fields_marked(row as int, fields@, i as int),
                cell@ == fields_written(start, row as int, fields@, i as int),
            decreases fields@.len() - i,
        {
            let ghost mid = cell@;
            let id: ComponentId = fields[i].id;
            assert(mid.has_column(fields@[i as int].id));
            cell.write_element(id, row, fields[i].bytes.as_slice());
            self.mark_column_dirty(id, row);
            proof {
                assert forall|k: int| 0 <= k < fields@.len() implies cell@.has_column(
                    (#[trigger] fields@[k]).id,
                ) && fields@[k].bytes@.len() == cell@.column(fields@[k].id).size by {
                    lemma_write_keeps_columns(
                        mid,
                        id,
                        row as int,
                        fields@[i as int].bytes@,
                        fields@[k].id,
                    );
                }
            }
            i = i + 1;
        }
    }

    /// Makes the row of `handle` dead and queues its retirement under `serial`. False if the handle
    /// is stale or the row is not alive.
    pub fn free_deferred(&mut self, cell: &mut CellStorage, handle: Handle, serial: u64) -> (
        freed: bool)
        requires
            old(self).wf(),
            old(cell).wf(),
            old(self)@.paired(old(cell)@),
            old(cell)@.retirable(handle) && old(self)@.pending.len() > 0
                ==> old(self)@.pending.last().serial <= serial,
        ensures
            final(self).wf(),
            final(cell).wf(),
            final(self)@.paired(final(cell)@),
            freed == old(cell)@.retirable(handle),
            freed ==> final(cell)@ == old(cell)@.after_mark(handle) && final(self)@ == old(
                self,
            )@.queued(QueuedRetire { pending: old(cell)@.pending_of(handle), serial }),
            !freed ==> final(cell)@ == old(cell)@ && final(self)@ == old(self)@,
    {
        let ghost before = self@;
        let ghost start = cell@;
        match cell.mark_pending_retire(handle) {
            Some(pending) => {
                self.pending.push_back(QueuedRetire { pending, serial });
                proof {
                    let after = self@;
                    assert(after.pending =~= before.pending.push(
                        QueuedRetire { pending, serial },
                    ));
                    lemma_masks_kept(before, after);
                    let n = before.pending.len() as int;
                    assert forall|i: int| 0 <= i < after.pending.len() implies cell@.awaits(
                        (#[trigger] after.pending[i]).pending,
                    ) by {
                        if i < n {
                            assert(start.awaits(before.pending[i].pending));
                            lemma_mark_keeps_pending(start, handle, before.pending[i].pending);
                        }
                    }
                    assert forall|i: int, j: int|
                        #![trigger after.pending[i], after.pending[j]]
                        0 <= i < j < after.pending.len() implies after.pending[i].pending.slot
                        != after.pending[j].pending.slot && after.pending[i].serial
                        <= after.pending[j].serial by {
                        if j == n {
                            assert(start.awaits(before.pending[i].pending));
                            lemma_mark_keeps_pending(start, handle, before.pending[i].pending);
                            if i < n - 1 {
                                assert(before.pending[i].serial <= before.pending[n - 1].serial);
                            }
                        } else {
                            assert(before.pending[i].pending.slot
                                != before.pending[j].pending.slot);
                        }
                    }
                }
                true
            },
            None => false,
        }
    }

    /// Carries out the retirements whose serials are at most `done`, up to the first that is not.
    /// Appends the writes and returns how many there were.
    pub fn retire(&mut self, cell: &mut CellStorage, done: u64, writes: &mut Vec<DeviceWrite>) -> (
        count: usize)
        requires
            old(self).wf(),
            old(cell).wf(),
            old(self)@.paired(old(cell)@),
            retire_fits(old(self)@, done),
        ensures
            final(self).wf(),
            final(cell).wf(),
            final(self)@.paired(final(cell)@),
            ({
                let outcome = retired(old(self)@, old(cell)@, done);
                &&& final(self)@ == outcome.mirror
                &&& final(cell)@ == outcome.cell
                &&& writes_of(final(writes)@) == writes_of(old(writes)@) + outcome.writes
                &&& count == outcome.count
                &&& count <= old(self)@.pending.len()
            }),
    {
        let ghost total = retired(self@, cell@, done);
        let queued: usize = self.pending.len();
        let ghost mut written: Seq<WriteState> = seq![];
        let mut count: usize = 0;
        assert(seq![] + total.writes =~= total.writes);
        assert(writes_of(writes@) =~= writes_of(old(writes)@) + written);
        while self.pending.len() > 0 && self.pending[0].serial <= done
            invariant
                self.wf(),
                cell.wf(),
                self@.paired(cell@),
                retire_fits(self@, done),
                self.pending@ == self@.pending,
                count + self@.pending.len() == queued,
                ({
                    let rest = retired(self@, cell@, done);
                    &&& rest.mirror == total.mirror
                    &&& rest.cell == total.cell
                    &&& written + rest.writes == total.writes
                    &&& rest.count + count == total.count
                }),
                writes_of(writes@) == writes_of(old(writes)@) + written,
            decreases self@.pending.len(),
        {
            let ghost before = self@;
            let ghost start = cell@;
            let ghost first = before.pending[0].pending;
            let entry: QueuedRetire = match self.pending.pop_front() {
                Some(entry) => entry,
                None => {
                    assert(false);
                    return count;
                },
            };
            let ghost popped = self@;
            proof {
                assert(popped == (MirrorState {
                    pending: before.pending.subrange(1, before.pending.len() as int),
                    ..before
                }));
                lemma_masks_kept(before, popped);
                assert(before.pending[0].serial <= done);
            }
            let write = self.write_generation(entry.pending.slot, entry.pending.next_gen);
            let ghost added = popped.stamp_writes(first.slot, first.next_gen);
            let ghost already = writes@;
            match write {
                Some(w) => {
                    writes.push(w);
                    assert(writes_of(writes@) =~= writes_of(already) + added);
                },
                None => {
                    assert(writes_of(writes@) =~= writes_of(already) + added);
                },
            }
            assert(start.awaits(before.pending[0].pending));
            cell.commit_retire(entry.pending);
            proof {
                let rest = retired(self@, cell@, done);
                assert(added == before.stamp_writes(first.slot, first.next_gen));
                assert(retired(before, start, done).writes == added + rest.writes);
                assert(written + (added + rest.writes) =~= (written + added) + rest.writes);
                written = written + added;
                assert(writes_of(writes@) =~= writes_of(old(writes)@) + written);
                let after = self@;
                assert forall|i: int| 0 <= i < after.pending.len() implies cell@.awaits(
                    (#[trigger] after.pending[i]).pending,
                ) by {
                    assert(after.pending[i] == before.pending[i + 1]);
                    assert(before.pending[0].pending.slot != before.pending[i + 1].pending.slot);
                    lemma_commit_keeps_pending(start, first, before.pending[i + 1].pending);
                }
                assert forall|i: int, j: int|
                    #![trigger after.pending[i], after.pending[j]]
                    0 <= i < j < after.pending.len() implies after.pending[i].pending.slot
                    != after.pending[j].pending.slot && after.pending[i].serial
                    <= after.pending[j].serial by {
                    assert(before.pending[i + 1].pending.slot
                        != before.pending[j + 1].pending.slot);
                }
                assert forall|i: int|
                    0 <= i < after.pending.len() && (#[trigger] after.pending[i]).serial
                        <= done implies after.pending[i].pending.slot < after.slot_capacity by {
                    assert(before.pending[i + 1].serial <= done);
                }
            }
            count = count + 1;
        }
        proof {
            assert(written + seq![] =~= written);
        }
        count
    }

    /// Commits every queued retirement in the cell, without a write to the device.
    pub fn commit_all(self, cell: &mut CellStorage)
        requires
            self.wf(),
            old(cell).wf(),
            self@.paired(old(cell)@),
        ensures
            final(cell).wf(),
            final(cell)@ == all_committed(old(cell)@, self@.pending),
    {
        let ghost mirror = self@;
        let mut pending: VecDeque<QueuedRetire> = self.pending;
        let ghost start = cell@;
        assert(pending@ =~= mirror.pending.subrange(0, mirror.pending.len() as int));
        while pending.len() > 0
            invariant
                cell.wf(),
                (MirrorState { pending: pending@, ..mirror }).paired(cell@),
                all_committed(cell@, pending@) == all_committed(start, mirror.pending),
            decreases pending@.len(),
        {
            let ghost before = pending@;
            let ghost mid = cell@;
            let ghost old_state = MirrorState { pending: before, ..mirror };
            match pending.pop_front() {
                Some(entry) => {
                    assert(mid.awaits(old_state.pending[0].pending));
                    cell.commit_retire(entry.pending);
                    proof {
                        let after = pending@;
                        let new_state = MirrorState { pending: after, ..mirror };
                        assert forall|i: int| 0 <= i < after.len() implies cell@.awaits(
                            (#[trigger] new_state.pending[i]).pending,
                        ) by {
                            assert(after[i] == old_state.pending[i + 1]);
                            assert(old_state.pending[0].pending.slot
                                != old_state.pending[i + 1].pending.slot);
                            lemma_commit_keeps_pending(
                                mid,
                                entry.pending,
                                old_state.pending[i + 1].pending,
                            );
                        }
                        assert forall|i: int, j: int|
                            #![trigger new_state.pending[i], new_state.pending[j]]
                            0 <= i < j < after.len() implies new_state.pending[i].pending.slot
                            != new_state.pending[j].pending.slot && new_state.pending[i].serial
                            <= new_state.pending[j].serial by {
                            assert(old_state.pending[i + 1].pending.slot
                                != old_state.pending[j + 1].pending.slot);
                        }
                    }
                },
                None => {
                    assert(false);
                },
            }
        }
    }

    /// Compacts the cell and marks every row that a move ended in.
    pub fn compact(&mut self, cell: &mut CellStorage)
        requires
            old(self).wf(),
            old(cell).wf(),
            old(self)@.paired(old(cell)@),
            old(cell)@.rows.len() <= old(self)@.row_capacity,
        ensures
            final(self).wf(),
            final(cell).wf(),
            final(self)@.paired(final(cell)@),
            final(self)@ == old(self)@.moves_marked(old(cell)@.moves()),
            final(cell)@ == old(cell)@.compacted(),
    {
        let ghost before = self@;
        let ghost start = cell@;
        let moves = cell.compact_report();
        let mut k: usize = 0;
        while k < self.masks.len()
            invariant
                k <= self.masks@.len(),
                before.consistent(),
                self.masks@.len() == before.masks.len(),
                self@ == (MirrorState { masks: self@.masks, ..before }),
                moves@ == start.moves(),
                forall|i: int|
                    0 <= i < moves@.len() ==> (#[trigger] moves@[i]).1 < before.row_capacity,
                forall|j: int|
                    0 <= j < self.masks@.len() ==> (#[trigger] self.masks@[j]).1.wf(),
                forall|j: int|
                    0 <= j < k ==> (#[trigger] self@.masks[j]) == before.moves_marked(
                        moves@,
                    ).masks[j],
                forall|j: int|
                    k <= j < self.masks@.len() ==> (#[trigger] self@.masks[j]) == before.masks[j],
            decreases self.masks@.len() - k,
        {
            let ghost outer = self.masks@;
            let ghost marks = before.masks[k as int].1;
            let ghost seen = self@.masks;
            assert(seen[k as int] == before.masks[k as int]);
            assert(outer[k as int].1.wf());
            let mut i: usize = 0;
            while i < moves.len()
                invariant
                    i <= moves@.len(),
                    k < self.masks@.len(),
                    self.masks@.len() == outer.len(),
                    before.consistent(),
                    before.masks.len() == outer.len(),
                    marks == before.masks[k as int].1,
                    self@ == (MirrorState { masks: self@.masks, ..before }),
                    forall|i: int|
                        0 <= i < moves@.len() ==> (#[trigger] moves@[i]).1 < before.row_capacity,
                    self.masks@[k as int].0 == outer[k as int].0,
                    self.masks@[k as int].1.wf(),
                    self.masks@[k as int].1@ == Seq::new(
                        marks.len(),
                        |r: int| marks[r] || is_destination(moves@.take(i as int), r),
                    ),
                    forall|j: int|
                        0 <= j < outer.len() && j != k ==> (#[trigger] self.masks@[j])
                            == outer[j],
                decreases moves@.len() - i,
            {
                let to: u32 = moves[i].1;
                assert(moves@[i as int].1 < before.row_capacity);
                assert(before.masks[k as int].1.len() == before.row_capacity);
                let ghost earlier = self.masks@[k as int].1@;
                self.masks[k].1.mark(to);
                proof {
                    let now = self.masks@[k as int].1@;
                    let expected = Seq::new(
                        marks.len(),
                        |r: int| marks[r] || is_destination(moves@.take(i + 1), r),
                    );
                    assert forall|r: int| 0 <= r < marks.len() implies now[r] == expected[r] by {
                        lemma_destination_step(moves@, i as int, r);
                        assert(earlier[r] == (marks[r] || is_destination(
                            moves@.take(i as int),
                            r,
                        )));
                    }
                    assert(now =~= expected);
                }
                i = i + 1;
            }
            proof {
                assert(moves@.take(i as int) =~= moves@);
                let now = self@.masks;
                assert(now[k as int].1 =~= before.moves_marked(moves@).masks[k as int].1);
                assert forall|j: int| 0 <= j < now.len() && j != k implies (#[trigger] now[j])
                    == seen[j] by {
                    assert(self.masks@[j] == outer[j]);
                }
                assert forall|j: int| 0 <= j < self.masks@.len() implies (
                #[trigger] self.masks@[j]).1.wf() by {
                    if j != k {
                        assert(outer[j].1.wf());
                    }
                }
            }
            k = k + 1;
        }
        proof {
            assert(self@.masks =~= before.moves_marked(moves@).masks);
            lemma_masks_kept(before, self@);
            assert forall|i: int| 0 <= i < self@.pending.len() implies cell@.awaits(
                (#[trigger] self@.pending[i]).pending,
            ) by {
                assert(start.awaits(before.pending[i].pending));
                law_compaction_keeps_pending(start, before.pending[i].pending);
            }
            assert forall|i: int, j: int|
                #![trigger self@.pending[i], self@.pending[j]]
                0 <= i < j < self@.pending.len() implies self@.pending[i].pending.slot
                != self@.pending[j].pending.slot && self@.pending[i].serial
                <= self@.pending[j].serial by {
                assert(before.pending[i].pending.slot != before.pending[j].pending.slot);
            }
        }
    }

    /// Asks the device for everything that is dirty or stale. Appends the writes.
    pub fn sync(
        &mut self,
        columns: &Vec<FixedColumn>,
        cell: &CellStorage,
        writes: &mut Vec<DeviceWrite>,
    )
        requires
            old(self).wf(),
            cell.wf(),
            columns_ok(columns@),
            old(self)@.masks_sized(columns@, cell@),
            cell@.rows.len() <= old(self)@.row_capacity,
            old(self)@.slots_fit(cell@),
        ensures
            final(self).wf(),
            final(self)@ == old(self)@.synced(columns@, cell@),
            writes_of(final(writes)@) == writes_of(old(writes)@) + old(self)@.sync_writes(
                columns@,
                cell@,
            ),
    {
        let ghost before = self@;
        let mut k: usize = 0;
        assert(writes_of(writes@) =~= writes_of(old(writes)@) + before.column_writes(
            columns@,
            cell@,
            0,
        ));
        while k < self.masks.len()
            invariant
                k <= self.masks@.len(),
                cell.wf(),
                columns_ok(columns@),
                before.masks_sized(columns@, cell@),
                before.consistent(),
                cell@.rows.len() <= before.row_capacity,
                self.masks@.len() == before.masks.len(),
                self@ == (MirrorState { masks: self@.masks, ..before }),
                forall|j: int|
                    0 <= j < self.masks@.len() ==> (#[trigger] self.masks@[j]).1.wf(),
                forall|j: int|
                    0 <= j < k ==> (#[trigger] self@.masks[j]) == before.masks_cleared(
                        columns@,
                        cell@,
                        j,
                    ),
                forall|j: int|
                    k <= j < self.masks@.len() ==> (#[trigger] self@.masks[j]) == before.masks[j],
                writes_of(writes@) == writes_of(old(writes)@) + before.column_writes(
                    columns@,
                    cell@,
                    k as int,
                ),
            decreases self.masks@.len() - k,
        {
            let ghost seen = self@.masks;
            assert(seen[k as int] == before.masks[k as int]);
            assert(self.masks@[k as int].1.wf());
            assert(self.masks@[k as int].1@ == before.masks[k as int].1);
            assert(before.masks[k as int].1.len() == before.row_capacity);
            let ghost outer = self.masks@;
            self.sync_mask(k, columns, cell, writes);
            proof {
                assert(self.masks@.len() == outer.len());
                assert(writes_of(writes@) =~= writes_of(old(writes)@) + before.column_writes(
                    columns@,
                    cell@,
                    k + 1,
                ));
                let now = self@.masks;
                assert forall|j: int| 0 <= j < now.len() && j != k implies (#[trigger] now[j])
                    == seen[j] by {
                    assert(self.masks@[j] == outer[j]);
                }
                assert forall|j: int| 0 <= j < self.masks@.len() implies (
                #[trigger] self.masks@[j]).1.wf() by {
                    if j != k {
                        assert(outer[j].1.wf());
                    }
                }
            }
            k = k + 1;
        }
        let ghost mid = self@;
        self.sync_slots(cell, writes);
        proof {
            assert(self@.masks =~= before.synced(columns@, cell@).masks);
            assert(self@ == before.synced(columns@, cell@));
            lemma_masks_kept(before, self@);
            assert(mid.slot_writes(cell@) =~= before.slot_writes(cell@));
            assert(writes_of(writes@) =~= writes_of(old(writes)@) + before.sync_writes(
                columns@,
                cell@,
            ));
        }
    }

    /// Asks the device for everything the cell holds, dirty or not, and marks it all uploaded.
    /// Appends the writes.
    pub fn refill(
        &mut self,
        columns: &Vec<FixedColumn>,
        cell: &CellStorage,
        writes: &mut Vec<DeviceWrite>,
    )
        requires
            old(self).wf(),
            cell.wf(),
            columns_ok(columns@),
            cell@.rows.len() <= old(self)@.row_capacity,
            cell@.generations.len() <= old(self)@.slot_capacity,
        ensures
            final(self).wf(),
            final(self)@ == old(self)@.refilled(cell@),
            writes_of(final(writes)@) == writes_of(old(writes)@) + old(self)@.refill_writes(
                columns@,
                cell@,
            ),
    {
        let ghost before = self@;
        let rows: u32 = cell.rows_in_use();
        let row_base: u32 = self.row_base;
        let slot_base: u32 = self.slot_base;
        let ghost start = writes_of(writes@);
        assert(writes_of(writes@) =~= start + before.bulk_writes(columns@, cell@, 0));
        let mut i: usize = 0;
        while i < columns.len()
            invariant
                i <= columns@.len(),
                cell.wf(),
                columns_ok(columns@),
                rows == cell@.rows.len(),
                row_base == before.row_base,
                writes_of(writes@) == start + before.bulk_writes(columns@, cell@, i as int),
            decreases columns@.len() - i,
        {
            let column: FixedColumn = columns[i];
            let ghost already = writes_of(writes@);
            match cell.column_raw_bytes(column.0) {
                Some(bytes) => {
                    proof {
                        lemma_offset_fits(rows as int, column.2 as int);
                        lemma_offset_fits(row_base as int, column.2 as int);
                        assert(bytes.len() <= usize::MAX);
                    }
                    let wanted: u64 = rows as u64 * column.2 as u64;
                    if wanted > 0 && bytes.len() as u64 >= wanted {
                        let part: Vec<u8> = copy_range(bytes, 0, wanted as usize);
                        writes.push(
                            DeviceWrite::Column(
                                ColumnWrite {
                                    owner: column.1,
                                    offset: row_base as u64 * column.2 as u64,
                                    bytes: part,
                                },
                            ),
                        );
                        assert(writes_of(writes@) =~= already + before.bulk_write(
                            columns@[i as int],
                            cell@,
                        ));
                    } else {
                        assert(writes_of(writes@) =~= already + before.bulk_write(
                            columns@[i as int],
                            cell@,
                        ));
                    }
                },
                None => {
                    assert(writes_of(writes@) =~= already + before.bulk_write(
                        columns@[i as int],
                        cell@,
                    ));
                },
            }
            i = i + 1;
            assert(writes_of(writes@) =~= start + before.bulk_writes(columns@, cell@, i as int));
        }
        let mut k: usize = 0;
        while k < self.masks.len()
            invariant
                k <= self.masks@.len(),
                before.consistent(),
                self.masks@.len() == before.masks.len(),
                self@ == (MirrorState { masks: self@.masks, ..before }),
                forall|j: int|
                    0 <= j < self.masks@.len() ==> (#[trigger] self.masks@[j]).1.wf(),
                forall|j: int|
                    0 <= j < k ==> (#[trigger] self@.masks[j]) == before.refilled(
                        cell@,
                    ).masks[j],
                forall|j: int|
                    k <= j < self.masks@.len() ==> (#[trigger] self@.masks[j]) == before.masks[j],
            decreases self.masks@.len() - k,
        {
            let ghost seen = self@.masks;
            let ghost outer = self.masks@;
            assert(seen[k as int] == before.masks[k as int]);
            assert(outer[k as int].1.wf());
            self.masks[k].1.clear_all();
            proof {
                let now = self@.masks;
                assert(now[k as int].1 =~= before.refilled(cell@).masks[k as int].1);
                assert forall|j: int| 0 <= j < now.len() && j != k implies (#[trigger] now[j])
                    == seen[j] by {
                    assert(self.masks@[j] == outer[j]);
                }
                assert forall|j: int| 0 <= j < self.masks@.len() implies (
                #[trigger] self.masks@[j]).1.wf() by {
                    if j != k {
                        assert(outer[j].1.wf());
                    }
                }
            }
            k = k + 1;
        }
        let ghost cleared = self@;
        let ghost masks = self.masks@;
        assert(cleared.masks =~= before.refilled(cell@).masks);
        let mut slots: Vec<u32> = Vec::new();
        let mut row: u32 = 0;
        while row < rows
            invariant
                row <= rows,
                rows == cell@.rows.len(),
                cell.wf(),
                before.consistent(),
                rows <= before.row_capacity,
                cell@.generations.len() <= before.slot_capacity,
                slot_base == before.slot_base,
                self.masks@ == masks,
                cleared == (MirrorState { masks: cleared.masks, ..before }),
                self@ == (MirrorState { slot_shadow: self@.slot_shadow, ..cleared }),
                self@.slot_shadow == Seq::new(
                    before.slot_shadow.len(),
                    |r: int|
                        if r < row {
                            cell@.rows[r].slot
                        } else {
                            before.slot_shadow[r]
                        },
                ),
                slots@ == before.global_slots(cell@).take(row as int),
            decreases rows - row,
        {
            let slot: u32 = cell.slot_at(row);
            assert(cell@.rows[row as int].slot < cell@.placed.len());
            slots.push(slot_base + slot);
            self.slot_shadow.set(row as usize, slot);
            row = row + 1;
            proof {
                assert(slots@ =~= before.global_slots(cell@).take(row as int));
                assert(self@.slot_shadow =~= Seq::new(
                    before.slot_shadow.len(),
                    |r: int|
                        if r < row {
                            cell@.rows[r].slot
                        } else {
                            before.slot_shadow[r]
                        },
                ));
            }
        }
        assert(self@.slot_shadow =~= before.slots_shadowed(cell@));
        assert(slots@ =~= before.global_slots(cell@));
        let ghost already = writes_of(writes@);
        if rows > 0 {
            writes.push(DeviceWrite::SlotMirror { row: row_base, slots });
            assert(writes_of(writes@) =~= already.push(
                WriteState::SlotMirror {
                    row: row_base as int,
                    slots: before.global_slots(cell@),
                },
            ));
        }
        proof {
            assert(writes_of(writes@) =~= start + before.refill_writes(columns@, cell@));
            lemma_masks_kept(before, self@);
            assert forall|j: int| 0 <= j < self.masks@.len() implies (
            #[trigger] self.masks@[j]).1.wf() by {
                assert(masks[j].1.wf());
            }
        }
    }

    /// Uploads the dirty runs of mask `k` and clears it.
    fn sync_mask(
        &mut self,
        k: usize,
        columns: &Vec<FixedColumn>,
        cell: &CellStorage,
        writes: &mut Vec<DeviceWrite>,
    )
        requires
            k < old(self).masks@.len(),
            old(self).masks@[k as int].1.wf(),
            cell.wf(),
            columns_ok(columns@),
            column_sized(columns@, cell@, old(self).masks@[k as int].0),
            old(self).masks@[k as int].1@.len() == old(self).row_capacity,
            cell@.rows.len() <= old(self).row_capacity,
            old(self).row_base + old(self).row_capacity <= u32::MAX,
        ensures
            final(self)@ == (MirrorState { masks: final(self)@.masks, ..old(self)@ }),
            final(self).masks@.len() == old(self).masks@.len(),
            final(self).masks@[k as int].1.wf(),
            final(self)@.masks[k as int] == old(self)@.masks_cleared(
                columns@,
                cell@,
                k as int,
            ),
            forall|j: int|
                0 <= j < old(self).masks@.len() && j != k ==> (#[trigger] final(self).masks@[j])
                    == old(self).masks@[j],
            writes_of(final(writes)@) == writes_of(old(writes)@) + old(self)@.mask_writes(
                columns@,
                cell@,
                k as int,
            ),
    {
        let ghost before = self@;
        let id: ComponentId = self.masks[k].0;
        let rows: u32 = cell.rows_in_use();
        assert(before.masks[k as int] == (id, self.masks@[k as int].1@));
        let at: usize = match find_fixed(columns, id) {
            Some(at) => at,
            None => {
                assert(writes_of(writes@) =~= writes_of(old(writes)@) + before.mask_writes(
                    columns@,
                    cell@,
                    k as int,
                ));
                return ;
            },
        };
        let column: FixedColumn = columns[at];
        let bytes = match cell.column_raw_bytes(id) {
            Some(bytes) => bytes,
            None => {
                assert(writes_of(writes@) =~= writes_of(old(writes)@) + before.mask_writes(
                    columns@,
                    cell@,
                    k as int,
                ));
                return ;
            },
        };
        let owner: usize = column.1;
        let size: u32 = column.2;
        let elements: usize = bytes.len() / size as usize;
        let n: u32 = if elements < rows as usize {
            elements as u32
        } else {
            rows
        };
        assert(n == synced_rows(columns@, cell@, id));
        if n == 0 {
            assert(writes_of(writes@) =~= writes_of(old(writes)@) + before.mask_writes(
                columns@,
                cell@,
                k as int,
            ));
            return ;
        }
        let runs = marked_runs(&self.masks[k].1, n);
        let row_base: u32 = self.row_base;
        let row_capacity: u32 = self.row_capacity;
        assert(n * size <= bytes@.len()) by (nonlinear_arith)
            requires
                n <= elements,
                elements as int == bytes@.len() as int / size as int,
                size > 0,
        ;
        let mut i: usize = 0;
        assert(writes_of(writes@) =~= writes_of(old(writes)@) + column_runs(
            owner as int,
            size as int,
            row_base as int,
            bytes@,
            runs@.take(0),
        ));
        while i < runs.len()
            invariant
                i <= runs@.len(),
                n * size <= bytes@.len(),
                n <= row_capacity,
                size > 0,
                row_base + row_capacity <= u32::MAX,
                forall|j: int|
                    0 <= j < runs@.len() ==> (#[trigger] runs@[j]).0 < runs@[j].1 && runs@[j].1
                        <= n,
                writes_of(writes@) == writes_of(old(writes)@) + column_runs(
                    owner as int,
                    size as int,
                    row_base as int,
                    bytes@,
                    runs@.take(i as int),
                ),
            decreases runs@.len() - i,
        {
            let run: Run = runs[i];
            assert(runs@[i as int].0 < runs@[i as int].1 && runs@[i as int].1 <= n);
            proof {
                assert(bytes.len() <= usize::MAX);
                lemma_run_bytes(run, n as int, size as int, bytes@.len() as int);
                lemma_offset_fits(row_base + run.0, size as int);
            }
            let from: usize = run.0 as usize * size as usize;
            let to: usize = run.1 as usize * size as usize;
            let part: Vec<u8> = copy_range(bytes, from, to);
            let offset: u64 = (row_base + run.0) as u64 * size as u64;
            let ghost already = writes_of(writes@);
            writes.push(DeviceWrite::Column(ColumnWrite { owner, offset, bytes: part }));
            proof {
                let w = column_run(owner as int, size as int, row_base as int, bytes@, run);
                assert(writes@.last()@ == w);
                assert(writes_of(writes@) =~= already.push(w));
                assert(column_runs(
                    owner as int,
                    size as int,
                    row_base as int,
                    bytes@,
                    runs@.take(i + 1),
                ) =~= column_runs(
                    owner as int,
                    size as int,
                    row_base as int,
                    bytes@,
                    runs@.take(i as int),
                ).push(w));
                assert(writes_of(writes@) =~= writes_of(old(writes)@) + column_runs(
                    owner as int,
                    size as int,
                    row_base as int,
                    bytes@,
                    runs@.take(i + 1),
                ));
            }
            i = i + 1;
        }
        assert(runs@.take(i as int) =~= runs@);
        self.masks[k].1.clear_all();
        proof {
            assert(self@.masks[k as int] == before.masks_cleared(columns@, cell@, k as int));
        }
    }

    /// Uploads the slots of the rows whose slot changed since they were last uploaded.
    fn sync_slots(&mut self, cell: &CellStorage, writes: &mut Vec<DeviceWrite>)
        requires
            cell.wf(),
            old(self)@.consistent(),
            cell@.rows.len() <= old(self)@.row_capacity,
            old(self)@.slots_fit(cell@),
        ensures
            final(self).masks == old(self).masks,
            final(self)@ == (MirrorState {
                slot_shadow: old(self)@.slots_shadowed(cell@),
                ..old(self)@
            }),
            writes_of(final(writes)@) == writes_of(old(writes)@) + old(self)@.slot_writes(cell@),
    {
        let ghost before = self@;
        let rows: u32 = cell.rows_in_use();
        let mut stale = DirtyMask::new(self.row_capacity);
        let mut row: u32 = 0;
        while row < rows
            invariant
                row <= rows,
                rows == cell@.rows.len(),
                rows <= before.row_capacity,
                before.consistent(),
                before.slot_shadow.len() == before.row_capacity,
                stale.wf(),
                stale@ == Seq::new(
                    before.row_capacity as nat,
                    |r: int| r < row && before.slot_shadow[r] != cell@.rows[r].slot,
                ),
                self.masks == old(self).masks,
                self@ == (MirrorState { slot_shadow: self@.slot_shadow, ..before }),
                self@.slot_shadow == Seq::new(
                    before.slot_shadow.len(),
                    |r: int|
                        if r < row {
                            cell@.rows[r].slot
                        } else {
                            before.slot_shadow[r]
                        },
                ),
            decreases rows - row,
        {
            let slot: u32 = cell.slot_at(row);
            if self.slot_shadow[row as usize] != slot {
                stale.mark(row);
                self.slot_shadow.set(row as usize, slot);
            }
            row = row + 1;
            proof {
                assert(stale@ =~= Seq::new(
                    before.row_capacity as nat,
                    |r: int| r < row && before.slot_shadow[r] != cell@.rows[r].slot,
                ));
                assert(self@.slot_shadow =~= Seq::new(
                    before.slot_shadow.len(),
                    |r: int|
                        if r < row {
                            cell@.rows[r].slot
                        } else {
                            before.slot_shadow[r]
                        },
                ));
            }
        }
        assert(self@.slot_shadow =~= before.slots_shadowed(cell@));
        let runs = marked_runs(&stale, rows);
        assert(stale@.take(rows as int) =~= before.stale_slots(cell@));
        let slot_base: u32 = self.slot_base;
        let row_base: u32 = self.row_base;
        let ghost all = before.slot_writes(cell@);
        assert(all.take(0) =~= seq![]);
        assert(writes_of(writes@) =~= writes_of(old(writes)@) + all.take(0));
        let mut i: usize = 0;
        while i < runs.len()
            invariant
                i <= runs@.len(),
                cell.wf(),
                rows == cell@.rows.len(),
                rows <= before.row_capacity,
                before.consistent(),
                before.slots_fit(cell@),
                slot_base == before.slot_base,
                row_base == before.row_base,
                runs@ == runs_of(before.stale_slots(cell@)),
                are_runs(runs@, before.stale_slots(cell@)),
                all == before.slot_writes(cell@),
                writes_of(writes@) == writes_of(old(writes)@) + all.take(i as int),
            decreases runs@.len() - i,
        {
            let run: Run = runs[i];
            assert(runs@[i as int].0 < runs@[i as int].1 && runs@[i as int].1 <= rows);
            let mut slots: Vec<u32> = Vec::new();
            let mut r: u32 = run.0;
            while r < run.1
                invariant
                    run.0 <= r <= run.1 <= rows,
                    run == runs@[i as int],
                    0 <= i < runs@.len(),
                    cell.wf(),
                    rows == cell@.rows.len(),
                    before.consistent(),
                    before.slots_fit(cell@),
                    slot_base == before.slot_base,
                    are_runs(runs@, before.stale_slots(cell@)),
                    slots@ == before.global_slots(cell@).subrange(run.0 as int, r as int),
                decreases run.1 - r,
            {
                let slot: u32 = cell.slot_at(r);
                assert(before.stale_slots(cell@)[r as int]) by {
                    assert(runs@[i as int].0 <= r < runs@[i as int].1);
                }
                assert(cell@.rows[r as int].slot < before.slot_capacity);
                slots.push(slot_base + slot);
                r = r + 1;
                assert(slots@ =~= before.global_slots(cell@).subrange(run.0 as int, r as int));
            }
            let ghost already = writes_of(writes@);
            writes.push(DeviceWrite::SlotMirror { row: row_base + run.0, slots });
            proof {
                assert(writes@.last()@ == all[i as int]);
                assert(writes_of(writes@) =~= already.push(all[i as int]));
                assert(all.take(i + 1) =~= all.take(i as int).push(all[i as int]));
                assert(writes_of(writes@) =~= writes_of(old(writes)@) + all.take(i + 1));
            }
            i = i + 1;
        }
        assert(all.take(i as int) =~= all);
    }
}

/// The cell after every queued retirement is committed.
pub open spec fn all_committed(cell: CellState, pending: Seq<QueuedRetire>) -> CellState
    decreases pending.len(),
{
    if pending.len() == 0 {
        cell
    } else {
        all_committed(
            cell.after_commit(pending[0].pending),
            pending.subrange(1, pending.len() as int),
        )
    }
}

/// `n` copies of `word`.
pub(crate) fn filled(word: u32, n: u32) -> (words: Vec<u32>)
    ensures
        words@ == Seq::new(n as nat, |i: int| word),
{
    let mut words: Vec<u32> = Vec::new();
    let mut i: u32 = 0;
    while i < n
        invariant
            i <= n,
            words@ == Seq::new(i as nat, |i: int| word),
        decreases n - i,
    {
        words.push(word);
        i = i + 1;
        assert(words@ =~= Seq::new(i as nat, |i: int| word));
    }
    words
}

/// The words `[from, to)`.
pub(crate) fn copy_words(words: &Vec<u32>, from: usize, to: usize) -> (out: Vec<u32>)
    requires
        from <= to <= words@.len(),
    ensures
        out@ == words@.subrange(from as int, to as int),
{
    let mut out: Vec<u32> = Vec::new();
    let mut i: usize = from;
    while i < to
        invariant
            from <= i <= to <= words@.len(),
            out@ == words@.subrange(from as int, i as int),
        decreases to - i,
    {
        out.push(words[i]);
        i = i + 1;
        assert(out@ =~= words@.subrange(from as int, i as int));
    }
    out
}

fn find_fixed(columns: &Vec<FixedColumn>, id: ComponentId) -> (at: Option<usize>)
    requires
        columns_ok(columns@),
    ensures
        match at {
            Some(i) => is_fixed(columns@, id) && i == fixed_at(columns@, id) && i < columns@.len(),
            None => !is_fixed(columns@, id),
        },
{
    let mut i: usize = 0;
    while i < columns.len()
        invariant
            columns_ok(columns@),
            i <= columns@.len(),
            forall|k: int| 0 <= k < i ==> (#[trigger] columns@[k]).0 != id,
        decreases columns@.len() - i,
    {
        if columns[i].0 == id {
            proof {
                assert(columns@[i as int].0 == id);
                let k = fixed_at(columns@, id);
                assert(columns@[k].0 == id);
            }
            return Some(i);
        }
        i = i + 1;
    }
    None
}

proof fn lemma_run_bytes(run: Run, n: int, size: int, len: int)
    by (nonlinear_arith)
    requires
        0 <= run.0 < run.1 <= n,
        size > 0,
        n * size <= len,
    ensures
        0 <= run.0 * size <= run.1 * size <= len,
{
}

proof fn lemma_offset_fits(row: int, size: int)
    by (nonlinear_arith)
    requires
        0 <= row <= u32::MAX,
        0 <= size <= u32::MAX,
    ensures
        0 <= row * size <= u64::MAX,
{
}

proof fn lemma_destination_step(moves: Seq<(u32, u32)>, i: int, r: int)
    requires
        0 <= i < moves.len(),
    ensures
        is_destination(moves.take(i + 1), r) == (r == moves[i].1 || is_destination(
            moves.take(i),
            r,
        )),
{
    let longer = moves.take(i + 1);
    let shorter = moves.take(i);
    if is_destination(longer, r) {
        let k = choose|k: int| 0 <= k < longer.len() && (#[trigger] longer[k]).1 == r;
        if k < i {
            assert(shorter[k].1 == r);
        }
    }
    if is_destination(shorter, r) {
        let k = choose|k: int| 0 <= k < shorter.len() && (#[trigger] shorter[k]).1 == r;
        assert(longer[k].1 == r);
    }
    if r == moves[i].1 {
        assert(longer[i].1 == r);
    }
}

/// Masks that keep their columns and lengths, and everything but dirty rows, slots, generations and
/// the queue unchanged, keep a state consistent.
proof fn lemma_masks_kept(a: MirrorState, b: MirrorState)
    requires
        a.consistent(),
        b.row_base == a.row_base,
        b.slot_base == a.slot_base,
        b.row_capacity == a.row_capacity,
        b.slot_capacity == a.slot_capacity,
        b.slot_shadow.len() == a.slot_shadow.len(),
        b.gen_shadow.len() == a.gen_shadow.len(),
        b.masks.len() == a.masks.len(),
        forall|k: int|
            0 <= k < a.masks.len() ==> (#[trigger] b.masks[k]).0 == a.masks[k].0
                && b.masks[k].1.len() == a.masks[k].1.len(),
    ensures
        b.consistent(),
{
    assert forall|k: int| 0 <= k < b.masks.len() implies (#[trigger] b.masks[k]).1.len()
        == b.row_capacity by {
        assert(a.masks[k].1.len() == a.row_capacity);
    }
    assert forall|i: int, j: int|
        #![trigger b.masks[i], b.masks[j]]
        0 <= i < j < b.masks.len() implies b.masks[i].0 != b.masks[j].0 by {
        assert(a.masks[i].0 != a.masks[j].0);
    }
}

/// The slot mirror has what the shadow says it got.
pub open spec fn shadow_true(device: DeviceState, mirror: MirrorState) -> bool {
    &&& mirror.row_base + mirror.row_capacity <= device.slot_mirror.len()
    &&& forall|r: int|
        0 <= r < mirror.row_capacity && #[trigger] mirror.slot_shadow[r] != NEVER_UPLOADED
            ==> device.slot_mirror[mirror.row_base + r] == mirror.slot_base + mirror.slot_shadow[r]
}

/// The generation buffer has what the shadow says it got.
pub open spec fn generations_true(device: DeviceState, mirror: MirrorState) -> bool {
    &&& mirror.slot_base + mirror.slot_capacity <= device.generations.len()
    &&& forall|s: int|
        0 <= s < mirror.slot_capacity ==> device.generations[mirror.slot_base + s]
            == #[trigger] mirror.gen_shadow[s]
}

proof fn lemma_columns_untouched_by_slots(device: DeviceState, writes: Seq<WriteState>)
    requires
        forall|i: int| 0 <= i < writes.len() ==> (#[trigger] writes[i]) is SlotMirror,
    ensures
        device.after(writes).columns == device.columns,
        device.after(writes).generations == device.generations,
    decreases writes.len(),
{
    if writes.len() > 0 {
        assert(forall|i: int|
            0 <= i < writes.drop_last().len() ==> writes.drop_last()[i] == writes[i]);
        lemma_columns_untouched_by_slots(device, writes.drop_last());
    }
}

proof fn lemma_slots_untouched_by_columns(device: DeviceState, writes: Seq<WriteState>)
    requires
        forall|i: int| 0 <= i < writes.len() ==> (#[trigger] writes[i]) is Column,
    ensures
        device.after(writes).slot_mirror == device.slot_mirror,
        device.after(writes).generations == device.generations,
    decreases writes.len(),
{
    if writes.len() > 0 {
        assert(forall|i: int|
            0 <= i < writes.drop_last().len() ==> writes.drop_last()[i] == writes[i]);
        lemma_slots_untouched_by_columns(device, writes.drop_last());
    }
}

proof fn lemma_column_writes_are_columns(
    mirror: MirrorState,
    columns: Seq<FixedColumn>,
    cell: CellState,
    n: int,
)
    ensures
        forall|i: int|
            0 <= i < mirror.column_writes(columns, cell, n).len() ==> (
            #[trigger] mirror.column_writes(columns, cell, n)[i]) is Column,
    decreases n,
{
    if n > 0 {
        lemma_column_writes_are_columns(mirror, columns, cell, n - 1);
        let front = mirror.column_writes(columns, cell, n - 1);
        let back = mirror.mask_writes(columns, cell, n - 1);
        let all = mirror.column_writes(columns, cell, n);
        assert forall|i: int| 0 <= i < all.len() implies (#[trigger] all[i]) is Column by {
            if i < front.len() {
                assert(front[i] is Column);
            } else {
                assert(back[i - front.len()] is Column);
            }
        }
    }
}

/// Uploading runs of slots copies exactly their rows.
proof fn lemma_slot_runs(
    device: DeviceState,
    source: Seq<u32>,
    base: int,
    runs: Seq<Run>,
    writes: Seq<WriteState>,
)
    requires
        writes.len() == runs.len(),
        forall|i: int|
            0 <= i < runs.len() ==> (#[trigger] writes[i]) == (WriteState::SlotMirror {
                row: base + runs[i].0,
                slots: source.subrange(runs[i].0 as int, runs[i].1 as int),
            }),
    ensures
        device.after(writes).slot_mirror == runs_copied(
            device.slot_mirror,
            source,
            base,
            1,
            runs,
        ),
    decreases runs.len(),
{
    if runs.len() > 0 {
        let r = runs.drop_last();
        let w = writes.drop_last();
        assert(forall|i: int| 0 <= i < r.len() ==> r[i] == runs[i] && w[i] == writes[i]);
        lemma_slot_runs(device, source, base, r, w);
        assert(writes.last() == writes[writes.len() - 1]);
    }
}

/// Uploading runs of a column copies exactly their rows.
proof fn lemma_column_runs(
    device: DeviceState,
    owner: int,
    size: int,
    base: int,
    bytes: Seq<u8>,
    runs: Seq<Run>,
)
    requires
        0 <= owner < device.columns.len(),
    ensures
        device.after(column_runs(owner, size, base, bytes, runs)).columns
            == device.columns.update(
            owner,
            runs_copied(device.columns[owner], bytes, base, size, runs),
        ),
    decreases runs.len(),
{
    let writes = column_runs(owner, size, base, bytes, runs);
    if runs.len() > 0 {
        assert(writes.drop_last() =~= column_runs(owner, size, base, bytes, runs.drop_last()));
        lemma_column_runs(device, owner, size, base, bytes, runs.drop_last());
        assert(writes.last() == column_run(owner, size, base, bytes, runs.last()));
    }
    assert(device.after(writes).columns =~= device.columns.update(
        owner,
        runs_copied(device.columns[owner], bytes, base, size, runs),
    ));
}

/// After a frame boundary the slot mirror holds, for every row of the cell, exactly the row's
/// global slot, whatever moved the slot there; the entries of other rows are untouched.
pub proof fn law_sync_makes_slot_mirror_exact(
    mirror: MirrorState,
    columns: Seq<FixedColumn>,
    cell: CellState,
    device: DeviceState,
)
    requires
        mirror.consistent(),
        cell.consistent(),
        cell.rows.len() <= mirror.row_capacity,
        mirror.slots_fit(cell),
        shadow_true(device, mirror),
    ensures
        ({
            let after = device.after(mirror.sync_writes(columns, cell));
            &&& shadow_true(after, mirror.synced(columns, cell))
            &&& after.slot_mirror.len() == device.slot_mirror.len()
            &&& forall|r: int|
                0 <= r < cell.rows.len() ==> #[trigger] after.slot_mirror[mirror.row_base + r]
                    == mirror.slot_base + cell.rows[r].slot
            &&& forall|x: int|
                0 <= x < device.slot_mirror.len() && !(mirror.row_base <= x < mirror.row_base
                    + cell.rows.len()) ==> (#[trigger] after.slot_mirror[x])
                    == device.slot_mirror[x]
        }),
{
    let first = mirror.column_writes(columns, cell, mirror.masks.len() as int);
    let second = mirror.slot_writes(cell);
    let mid = device.after(first);
    let after = device.after(mirror.sync_writes(columns, cell));
    lemma_column_writes_are_columns(mirror, columns, cell, mirror.masks.len() as int);
    lemma_slots_untouched_by_columns(device, first);
    lemma_after_concat(device, first, second);
    let stale = mirror.stale_slots(cell);
    lemma_runs_exist(stale);
    let runs = runs_of(stale);
    let source = mirror.global_slots(cell);
    let base = mirror.row_base as int;
    lemma_slot_runs(mid, source, base, runs, second);
    assert(after.slot_mirror == runs_copied(device.slot_mirror, source, base, 1, runs));
    assert forall|x: int| 0 <= x < device.slot_mirror.len() implies after.slot_mirror.len()
        == device.slot_mirror.len() && #[trigger] after.slot_mirror[x] == if in_some_run(
        runs,
        x - base,
    ) {
        source[x - base]
    } else {
        device.slot_mirror[x]
    } by {
        lemma_runs_copied(device.slot_mirror, source, base, 1, runs, x);
        assert(x / 1 == x);
    }
    lemma_runs_copied_len(device.slot_mirror, source, base, 1, runs);
    assert forall|r: int| in_some_run(runs, r) == (0 <= r < stale.len() && #[trigger] stale[r]) by {
        if in_some_run(runs, r) {
            let i = choose|i: int| 0 <= i < runs.len() && (#[trigger] runs[i]).0 <= r < runs[i].1;
            assert(stale[r]);
        }
    }
    assert forall|r: int| 0 <= r < cell.rows.len() implies #[trigger] after.slot_mirror[base + r]
        == mirror.slot_base + cell.rows[r].slot by {
        assert(0 <= base + r < device.slot_mirror.len());
        assert(stale[r] == (mirror.slot_shadow[r] != cell.rows[r].slot));
        assert(cell.rows[r].slot < cell.placed.len());
        if stale[r] {
            assert(cell.rows[r].slot < mirror.slot_capacity);
        }
    }
    assert forall|x: int|
        0 <= x < device.slot_mirror.len() && !(base <= x < base + cell.rows.len()) implies (
    #[trigger] after.slot_mirror[x]) == device.slot_mirror[x] by {
        assert(!in_some_run(runs, x - base)) by {
            if in_some_run(runs, x - base) {
                let i = choose|i: int|
                    0 <= i < runs.len() && (#[trigger] runs[i]).0 <= x - base < runs[i].1;
                assert(runs[i].1 <= stale.len());
            }
        }
    }
    let synced = mirror.synced(columns, cell);
    assert forall|r: int|
        0 <= r < synced.row_capacity && #[trigger] synced.slot_shadow[r]
            != NEVER_UPLOADED implies after.slot_mirror[synced.row_base + r] == synced.slot_base
        + synced.slot_shadow[r] by {
        if r < cell.rows.len() {
            assert(after.slot_mirror[base + r] == mirror.slot_base + cell.rows[r].slot);
        } else {
            assert(after.slot_mirror[base + r] == device.slot_mirror[base + r]);
            assert(mirror.slot_shadow[r] != NEVER_UPLOADED);
        }
    }
}

proof fn lemma_runs_copied_len<T>(
    held: Seq<T>,
    source: Seq<T>,
    base: int,
    k: int,
    runs: Seq<Run>,
)
    ensures
        runs_copied(held, source, base, k, runs).len() == held.len(),
    decreases runs.len(),
{
    if runs.len() > 0 {
        lemma_runs_copied_len(held, source, base, k, runs.drop_last());
    }
}

/// Any marks have maximal runs.
proof fn lemma_runs_exist(marks: Seq<bool>)
    requires
        marks.len() <= u32::MAX,
    ensures
        are_runs(runs_of(marks), marks),
{
    let runs = made_runs(marks, marks.len() as int);
    lemma_made_runs(marks, marks.len() as int);
    assert(marks.take(marks.len() as int) =~= marks);
    assert(are_runs(runs, marks));
}

/// The maximal runs of the first `n` marks.
spec fn made_runs(marks: Seq<bool>, n: int) -> Seq<Run>
    decreases n,
{
    if n <= 0 {
        seq![]
    } else {
        let front = made_runs(marks, n - 1);
        if !marks[n - 1] {
            front
        } else if n >= 2 && marks[n - 2] {
            front.drop_last().push((front.last().0, n as u32))
        } else {
            front.push(((n - 1) as u32, n as u32))
        }
    }
}

proof fn lemma_made_runs(marks: Seq<bool>, n: int)
    requires
        0 <= n <= marks.len() <= u32::MAX,
    ensures
        are_runs(made_runs(marks, n), marks.take(n)),
        n > 0 && marks[n - 1] ==> made_runs(marks, n).len() > 0 && made_runs(marks, n).last().1
            == n,
    decreases n,
{
    if n > 0 {
        lemma_made_runs(marks, n - 1);
        let front = made_runs(marks, n - 1);
        let runs = made_runs(marks, n);
        let seen = marks.take(n);
        let before = marks.take(n - 1);
        assert(forall|r: int| 0 <= r < n - 1 ==> seen[r] == before[r]);
        let last = runs.len() - 1;
        assert(forall|i: int| 0 <= i < last && marks[n - 1] ==> runs[i] == front[i]);
        if marks[n - 1] && n >= 2 && !marks[n - 2] {
            assert forall|i: int| 0 <= i < front.len() implies (#[trigger] front[i]).1 < n - 1 by {
                if front[i].1 == n - 1 {
                    assert(before[n - 2]);
                }
            }
        }
        assert forall|i: int, r: int|
            #![trigger runs[i], seen[r]]
            0 <= i < runs.len() && runs[i].0 <= r < runs[i].1 implies seen[r] by {
            if r < n - 1 {
                assert(front[i].0 <= r < front[i].1);
                assert(before[r]);
            }
        }
        assert forall|i: int, j: int|
            #![trigger runs[i], runs[j]]
            0 <= i < j < runs.len() implies runs[i].1 < runs[j].0 by {
            if marks[n - 1] && j == last {
                if n >= 2 && marks[n - 2] {
                    assert(front[i].1 < front[last].0);
                } else {
                    assert(front[i].1 < n - 1);
                }
            } else {
                assert(front[i].1 < front[j].0);
            }
        }
        assert forall|r: int| 0 <= r < seen.len() && #[trigger] seen[r] implies in_some_run(
            runs,
            r,
        ) by {
            if r < n - 1 {
                assert(before[r]);
                let i = choose|i: int|
                    0 <= i < front.len() && (#[trigger] front[i]).0 <= r < front[i].1;
                assert(runs[i].0 <= r < runs[i].1);
            } else {
                assert(runs[last].0 <= r < runs[last].1);
            }
        }
    }
}

/// Uploads leave the number of buffers.
proof fn lemma_column_count(
    mirror: MirrorState,
    columns: Seq<FixedColumn>,
    cell: CellState,
    device: DeviceState,
    n: int,
)
    requires
        n <= mirror.masks.len(),
        forall|i: int| 0 <= i < columns.len() ==> (#[trigger] columns[i]).1 < device.columns.len(),
    ensures
        device.after(mirror.column_writes(columns, cell, n)).columns.len()
            == device.columns.len(),
    decreases n,
{
    if n > 0 {
        lemma_column_count(mirror, columns, cell, device, n - 1);
        let front = mirror.column_writes(columns, cell, n - 1);
        lemma_after_concat(device, front, mirror.mask_writes(columns, cell, n - 1));
        let id = mirror.masks[n - 1].0;
        let rows = synced_rows(columns, cell, id);
        if rows > 0 {
            let column = columns[fixed_at(columns, id)];
            assert(column.1 < device.columns.len());
            lemma_column_runs(
                device.after(front),
                column.1 as int,
                column.2 as int,
                mirror.row_base as int,
                cell.column(id).bytes,
                runs_of(mirror.masks[n - 1].1.take(rows)),
            );
        }
    }
}

/// The uploads of other masks leave a buffer alone.
proof fn lemma_other_masks(
    mirror: MirrorState,
    columns: Seq<FixedColumn>,
    cell: CellState,
    device: DeviceState,
    from: int,
    n: int,
    owner: int,
)
    requires
        0 <= from <= n <= mirror.masks.len(),
        0 <= owner < device.columns.len(),
        forall|i: int| 0 <= i < columns.len() ==> (#[trigger] columns[i]).1 < device.columns.len(),
        forall|j: int|
            from <= j < n && synced_rows(columns, cell, (#[trigger] mirror.masks[j]).0) > 0
                ==> columns[fixed_at(columns, mirror.masks[j].0)].1 != owner,
    ensures
        device.after(mirror.column_writes(columns, cell, n)).columns[owner] == device.after(
            mirror.column_writes(columns, cell, from),
        ).columns[owner],
    decreases n - from,
{
    if from < n {
        lemma_column_count(mirror, columns, cell, device, n - 1);
        lemma_other_masks(mirror, columns, cell, device, from, n - 1, owner);
        let front = mirror.column_writes(columns, cell, n - 1);
        let back = mirror.mask_writes(columns, cell, n - 1);
        lemma_after_concat(device, front, back);
        let mid = device.after(front);
        let id = mirror.masks[n - 1].0;
        let rows = synced_rows(columns, cell, id);
        if rows > 0 {
            let column = columns[fixed_at(columns, id)];
            assert(column.1 < device.columns.len());
            lemma_column_runs(
                mid,
                column.1 as int,
                column.2 as int,
                mirror.row_base as int,
                cell.column(id).bytes,
                runs_of(mirror.masks[n - 1].1.take(rows)),
            );
        }
    }
}

/// A frame boundary gives the device exactly the dirty rows of each mirrored column: byte `x` of a
/// column's buffer becomes the cell's byte if it belongs to a dirty row, and stays otherwise.
pub proof fn law_sync_uploads_exactly_the_dirty_rows(
    mirror: MirrorState,
    columns: Seq<FixedColumn>,
    cell: CellState,
    device: DeviceState,
    k: int,
    x: int,
)
    requires
        mirror.consistent(),
        cell.consistent(),
        columns_ok(columns),
        carried_once(columns, cell),
        cell.rows.len() <= mirror.row_capacity,
        forall|i: int| 0 <= i < columns.len() ==> (#[trigger] columns[i]).1 < device.columns.len(),
        0 <= k < mirror.masks.len(),
        column_sized(columns, cell, mirror.masks[k].0),
        synced_rows(columns, cell, mirror.masks[k].0) > 0,
        0 <= x < device.columns[columns[fixed_at(columns, mirror.masks[k].0)].1 as int].len(),
    ensures
        ({
            let id = mirror.masks[k].0;
            let column = columns[fixed_at(columns, id)];
            let n = synced_rows(columns, cell, id);
            let row = x / column.2 as int - mirror.row_base;
            let before = device.columns[column.1 as int];
            let after = device.after(mirror.sync_writes(columns, cell)).columns[column.1 as int];
            after[x] == if 0 <= row < n && mirror.masks[k].1[row] {
                cell.column(id).bytes[x - mirror.row_base * column.2]
            } else {
                before[x]
            }
        }),
{
    let id = mirror.masks[k].0;
    let at = fixed_at(columns, id);
    let column = columns[at];
    let owner = column.1 as int;
    let size = column.2 as int;
    let base = mirror.row_base as int;
    let n = synced_rows(columns, cell, id);
    let bytes = cell.column(id).bytes;
    let total = mirror.masks.len() as int;
    assert forall|j: int|
        0 <= j < total && j != k && synced_rows(columns, cell, (#[trigger] mirror.masks[j]).0)
            > 0 implies columns[fixed_at(columns, mirror.masks[j].0)].1 != owner by {
        let other = fixed_at(columns, mirror.masks[j].0);
        assert(columns[other].0 == mirror.masks[j].0);
        assert(columns[at].0 == id);
        if j < k {
            assert(mirror.masks[j].0 != mirror.masks[k].0);
        } else {
            assert(mirror.masks[k].0 != mirror.masks[j].0);
        }
        if other < at {
            assert(columns[other].1 != columns[at].1);
        } else {
            assert(columns[at].1 != columns[other].1);
        }
    }
    lemma_column_count(mirror, columns, cell, device, k);
    lemma_other_masks(mirror, columns, cell, device, 0, k, owner);
    lemma_other_masks(mirror, columns, cell, device, k + 1, total, owner);
    let front = mirror.column_writes(columns, cell, k);
    let mine = mirror.mask_writes(columns, cell, k);
    lemma_after_concat(device, front, mine);
    let marks = mirror.masks[k].1.take(n);
    let runs = runs_of(marks);
    lemma_runs_exist(marks);
    lemma_column_runs(device.after(front), owner, size, base, bytes, runs);
    let slots = mirror.slot_writes(cell);
    lemma_after_concat(device, mirror.column_writes(columns, cell, total), slots);
    lemma_columns_untouched_by_slots(
        device.after(mirror.column_writes(columns, cell, total)),
        slots,
    );
    assert(device.after(mirror.column_writes(columns, cell, 0)) == device);
    let before = device.columns[owner];
    assert(n * size <= bytes.len()) by (nonlinear_arith)
        requires
            n <= bytes.len() as int / size,
            size > 0,
    ;
    assert forall|i: int| 0 <= i < runs.len() implies (#[trigger] runs[i]).0 <= runs[i].1
        && runs[i].1 * size <= bytes.len() by {
        lemma_run_bytes(runs[i], n, size, bytes.len() as int);
    }
    lemma_runs_copied(before, bytes, base, size, runs, x);
    let row = x / size - base;
    if in_some_run(runs, row) {
        let i = choose|i: int| 0 <= i < runs.len() && (#[trigger] runs[i]).0 <= row < runs[i].1;
        assert(marks[row]);
    } else if 0 <= row < n {
        assert(marks[row] == mirror.masks[k].1[row]);
    }
}

/// A frame boundary of a cell leaves the generations alone, and the bytes of rows outside its
/// region.
pub proof fn lemma_sync_stays_inside(
    mirror: MirrorState,
    columns: Seq<FixedColumn>,
    cell: CellState,
    device: DeviceState,
    owner: int,
    size: int,
    x: int,
)
    requires
        mirror.consistent(),
        cell.consistent(),
        columns_ok(columns),
        cell.rows.len() <= mirror.row_capacity,
        forall|i: int| 0 <= i < columns.len() ==> (#[trigger] columns[i]).1 < device.columns.len(),
        forall|i: int|
            0 <= i < columns.len() && (#[trigger] columns[i]).1 == owner ==> columns[i].2 == size,
        0 <= owner < device.columns.len(),
        0 <= x < device.columns[owner].len(),
        size > 0,
        !(mirror.row_base <= x / size < mirror.row_base + mirror.row_capacity),
    ensures
        ({
            let after = device.after(mirror.sync_writes(columns, cell));
            &&& after.columns.len() == device.columns.len()
            &&& after.columns[owner].len() == device.columns[owner].len()
            &&& after.columns[owner][x] == device.columns[owner][x]
        }),
{
    let total = mirror.masks.len() as int;
    let first = mirror.column_writes(columns, cell, total);
    let slots = mirror.slot_writes(cell);
    lemma_masks_stay_inside(mirror, columns, cell, device, owner, size, x, total);
    lemma_after_concat(device, first, slots);
    lemma_columns_untouched_by_slots(device.after(first), slots);
}

/// The uploads of the first `n` masks leave the bytes of rows outside the region.
proof fn lemma_masks_stay_inside(
    mirror: MirrorState,
    columns: Seq<FixedColumn>,
    cell: CellState,
    device: DeviceState,
    owner: int,
    size: int,
    x: int,
    n: int,
)
    requires
        mirror.consistent(),
        cell.consistent(),
        columns_ok(columns),
        cell.rows.len() <= mirror.row_capacity,
        forall|i: int| 0 <= i < columns.len() ==> (#[trigger] columns[i]).1 < device.columns.len(),
        forall|i: int|
            0 <= i < columns.len() && (#[trigger] columns[i]).1 == owner ==> columns[i].2 == size,
        0 <= owner < device.columns.len(),
        0 <= x < device.columns[owner].len(),
        size > 0,
        !(mirror.row_base <= x / size < mirror.row_base + mirror.row_capacity),
        0 <= n <= mirror.masks.len(),
    ensures
        ({
            let after = device.after(mirror.column_writes(columns, cell, n));
            &&& after.columns.len() == device.columns.len()
            &&& after.columns[owner].len() == device.columns[owner].len()
            &&& after.columns[owner][x] == device.columns[owner][x]
        }),
    decreases n,
{
    if n > 0 {
        lemma_masks_stay_inside(mirror, columns, cell, device, owner, size, x, n - 1);
        let front = mirror.column_writes(columns, cell, n - 1);
        let back = mirror.mask_writes(columns, cell, n - 1);
        lemma_after_concat(device, front, back);
        let mid = device.after(front);
        let id = mirror.masks[n - 1].0;
        let rows = synced_rows(columns, cell, id);
        if rows > 0 {
            let column = columns[fixed_at(columns, id)];
            assert(column.1 < device.columns.len());
            let marks = mirror.masks[n - 1].1.take(rows);
            let runs = runs_of(marks);
            let bytes = cell.column(id).bytes;
            let base = mirror.row_base as int;
            lemma_runs_exist(marks);
            lemma_column_runs(mid, column.1 as int, column.2 as int, base, bytes, runs);
            if column.1 == owner {
                assert(rows * size <= bytes.len()) by (nonlinear_arith)
                    requires
                        rows <= bytes.len() as int / size,
                        size > 0,
                ;
                assert forall|i: int| 0 <= i < runs.len() implies (#[trigger] runs[i]).0
                    <= runs[i].1 && runs[i].1 * size <= bytes.len() by {
                    lemma_run_bytes(runs[i], rows, size, bytes.len() as int);
                }
                lemma_runs_copied(mid.columns[owner], bytes, base, size, runs, x);
                if in_some_run(runs, x / size - base) {
                    let i = choose|i: int|
                        0 <= i < runs.len() && (#[trigger] runs[i]).0 <= x / size - base
                            < runs[i].1;
                    assert(runs[i].1 <= marks.len());
                }
            }
        }
    }
}

/// A frame boundary of a cell leaves every buffer as long as it was.
pub proof fn lemma_sync_keeps_lengths(
    mirror: MirrorState,
    columns: Seq<FixedColumn>,
    cell: CellState,
    device: DeviceState,
    owner: int,
)
    requires
        forall|i: int| 0 <= i < columns.len() ==> (#[trigger] columns[i]).1 < device.columns.len(),
        0 <= owner < device.columns.len(),
    ensures
        ({
            let after = device.after(mirror.sync_writes(columns, cell));
            &&& after.columns.len() == device.columns.len()
            &&& after.columns[owner].len() == device.columns[owner].len()
        }),
{
    let total = mirror.masks.len() as int;
    let first = mirror.column_writes(columns, cell, total);
    let slots = mirror.slot_writes(cell);
    lemma_masks_keep_lengths(mirror, columns, cell, device, owner, total);
    lemma_after_concat(device, first, slots);
    lemma_columns_untouched_by_slots(device.after(first), slots);
}

proof fn lemma_masks_keep_lengths(
    mirror: MirrorState,
    columns: Seq<FixedColumn>,
    cell: CellState,
    device: DeviceState,
    owner: int,
    n: int,
)
    requires
        forall|i: int| 0 <= i < columns.len() ==> (#[trigger] columns[i]).1 < device.columns.len(),
        0 <= owner < device.columns.len(),
        0 <= n <= mirror.masks.len(),
    ensures
        ({
            let after = device.after(mirror.column_writes(columns, cell, n));
            &&& after.columns.len() == device.columns.len()
            &&& after.columns[owner].len() == device.columns[owner].len()
        }),
    decreases n,
{
    if n > 0 {
        lemma_masks_keep_lengths(mirror, columns, cell, device, owner, n - 1);
        let front = mirror.column_writes(columns, cell, n - 1);
        let back = mirror.mask_writes(columns, cell, n - 1);
        lemma_after_concat(device, front, back);
        let mid = device.after(front);
        let id = mirror.masks[n - 1].0;
        let rows = synced_rows(columns, cell, id);
        if rows > 0 {
            let column = columns[fixed_at(columns, id)];
            assert(column.1 < device.columns.len());
            let bytes = cell.column(id).bytes;
            let runs = runs_of(mirror.masks[n - 1].1.take(rows));
            let base = mirror.row_base as int;
            let to = column.1 as int;
            lemma_column_runs(mid, to, column.2 as int, base, bytes, runs);
            lemma_runs_copied_len(mid.columns[to], bytes, base, column.2 as int, runs);
        }
    }
}

/// A frame boundary of a cell leaves the generations alone.
pub proof fn lemma_sync_leaves_generations(
    mirror: MirrorState,
    columns: Seq<FixedColumn>,
    cell: CellState,
    device: DeviceState,
)
    ensures
        device.after(mirror.sync_writes(columns, cell)).generations == device.generations,
{
    let first = mirror.column_writes(columns, cell, mirror.masks.len() as int);
    let second = mirror.slot_writes(cell);
    lemma_column_writes_are_columns(mirror, columns, cell, mirror.masks.len() as int);
    lemma_slots_untouched_by_columns(device, first);
    lemma_after_concat(device, first, second);
    lemma_columns_untouched_by_slots(device.after(first), second);
}

/// Carrying out retirements writes nothing but generations of the cell's own slots.
pub proof fn lemma_retirement_stays_inside(
    mirror: MirrorState,
    cell: CellState,
    done: u64,
    device: DeviceState,
)
    requires
        mirror.consistent(),
        retire_fits(mirror, done),
        generations_true(device, mirror),
    ensures
        ({
            let after = device.after(retired(mirror, cell, done).writes);
            &&& after.columns == device.columns
            &&& after.slot_mirror == device.slot_mirror
            &&& after.generations.len() == device.generations.len()
            &&& forall|x: int|
                0 <= x < device.generations.len() && !(mirror.slot_base <= x < mirror.slot_base
                    + mirror.slot_capacity) ==> (#[trigger] after.generations[x])
                    == device.generations[x]
        }),
    decreases mirror.pending.len(),
{
    if mirror.pending.len() > 0 && mirror.pending[0].serial <= done {
        let first = mirror.pending[0].pending;
        let popped = MirrorState {
            pending: mirror.pending.subrange(1, mirror.pending.len() as int),
            ..mirror
        };
        let next = popped.stamped(first.slot, first.next_gen);
        lemma_masks_kept(mirror, popped);
        lemma_masks_kept(mirror, next);
        assert(forall|i: int|
            0 <= i < next.pending.len() ==> next.pending[i] == mirror.pending[i + 1]);
        assert(generations_true(device, popped)) by {
            assert forall|s: int| 0 <= s < popped.slot_capacity implies device.generations[popped.slot_base
                + s] == #[trigger] popped.gen_shadow[s] by {
                assert(mirror.gen_shadow[s] == device.generations[mirror.slot_base + s]);
            }
        }
        law_stamp_keeps_generations(popped, first.slot, first.next_gen, device);
        let stamp = mirror.stamp_writes(first.slot, first.next_gen);
        let rest = retired(next, cell.after_commit(first), done);
        reveal_with_fuel(DeviceState::after, 2);
        if stamp.len() > 0 {
            assert(stamp.drop_last() =~= seq![]);
        }
        lemma_retirement_stays_inside(
            next,
            cell.after_commit(first),
            done,
            device.after(stamp),
        );
        lemma_after_concat(device, stamp, rest.writes);
    }
}

/// Registering a cell gives the device the cell's generations and zero for the slots it does not
/// have yet, whatever an earlier cell left in the region; slots outside the region keep theirs.
pub proof fn law_registration_fills_generations(
    class: usize,
    regions: Regions,
    row_base: u32,
    slot_base: u32,
    row_capacity: u32,
    slot_capacity: u32,
    columns: Seq<FixedColumn>,
    cell: CellState,
    device: DeviceState,
)
    requires
        cell.generations.len() <= slot_capacity,
        slot_base + slot_capacity <= device.generations.len(),
    ensures
        ({
            let mirror = registered_mirror(
                class,
                regions,
                row_base,
                slot_base,
                row_capacity,
                slot_capacity,
                columns,
                cell,
            );
            let after = device.after(registration_writes(mirror, cell));
            &&& generations_true(after, mirror)
            &&& forall|x: int|
                0 <= x < device.generations.len() && !(slot_base <= x < slot_base + slot_capacity)
                    ==> (#[trigger] after.generations[x]) == device.generations[x]
        }),
{
    let mirror = registered_mirror(
        class,
        regions,
        row_base,
        slot_base,
        row_capacity,
        slot_capacity,
        columns,
        cell,
    );
    let writes = registration_writes(mirror, cell);
    reveal_with_fuel(DeviceState::after, 3);
    let used = cell.generations.len() as int;
    if used > 0 && used < slot_capacity {
        assert(writes.drop_last().drop_last() =~= seq![]);
        assert(writes.drop_last().last() == writes[0]);
        assert(writes.last() == writes[1]);
    } else if writes.len() > 0 {
        assert(writes.drop_last() =~= seq![]);
    }
}

/// Stamping a generation keeps the device's generations what the shadow says, and changes no slot
/// but the stamped one.
pub proof fn law_stamp_keeps_generations(
    mirror: MirrorState,
    slot: u32,
    generation: u32,
    device: DeviceState,
)
    requires
        mirror.consistent(),
        slot < mirror.slot_capacity,
        generations_true(device, mirror),
    ensures
        ({
            let after = device.after(mirror.stamp_writes(slot, generation));
            &&& generations_true(after, mirror.stamped(slot, generation))
            &&& forall|x: int|
                0 <= x < device.generations.len() && x != mirror.slot_base + slot ==> (
                #[trigger] after.generations[x]) == device.generations[x]
        }),
{
    let writes = mirror.stamp_writes(slot, generation);
    reveal_with_fuel(DeviceState::after, 2);
    if writes.len() > 0 {
        assert(writes.drop_last() =~= seq![]);
    }
    let after = device.after(writes);
    let stamped = mirror.stamped(slot, generation);
    assert forall|s: int| 0 <= s < stamped.slot_capacity implies after.generations[stamped.slot_base
        + s] == #[trigger] stamped.gen_shadow[s] by {
        if s != slot {
            assert(mirror.gen_shadow[s] == device.generations[mirror.slot_base + s]);
        } else {
            assert(mirror.gen_shadow[s] == device.generations[mirror.slot_base + s]);
        }
    }
}

/// Once a retirement is carried out, the device has the slot's new generation before the slot can
/// be handed out again, and agrees with every other slot as before.
pub proof fn law_retirement_reaches_device(
    mirror: MirrorState,
    cell: CellState,
    done: u64,
    device: DeviceState,
)
    requires
        mirror.consistent(),
        retire_fits(mirror, done),
        generations_true(device, mirror),
    ensures
        generations_true(
            device.after(retired(mirror, cell, done).writes),
            retired(mirror, cell, done).mirror,
        ),
    decreases mirror.pending.len(),
{
    if mirror.pending.len() > 0 && mirror.pending[0].serial <= done {
        let first = mirror.pending[0].pending;
        let popped = MirrorState {
            pending: mirror.pending.subrange(1, mirror.pending.len() as int),
            ..mirror
        };
        let next = popped.stamped(first.slot, first.next_gen);
        lemma_masks_kept(mirror, popped);
        lemma_masks_kept(mirror, next);
        assert(forall|i: int|
            0 <= i < next.pending.len() ==> next.pending[i] == mirror.pending[i + 1]);
        assert(generations_true(device, popped)) by {
            assert forall|s: int| 0 <= s < popped.slot_capacity implies device.generations[popped.slot_base
                + s] == #[trigger] popped.gen_shadow[s] by {
                assert(mirror.gen_shadow[s] == device.generations[mirror.slot_base + s]);
            }
        }
        law_stamp_keeps_generations(popped, first.slot, first.next_gen, device);
        let stamp = mirror.stamp_writes(first.slot, first.next_gen);
        let rest = retired(next, cell.after_commit(first), done);
        law_retirement_reaches_device(
            next,
            cell.after_commit(first),
            done,
            device.after(stamp),
        );
        lemma_after_concat(device, stamp, rest.writes);
    }
}

/// Whether all rows of a column are uploaded when the cell is.
pub open spec fn fully_held(column: FixedColumn, cell: CellState) -> bool {
    cell.has_column(column.0) && cell.rows.len() * column.2 > 0 && cell.column(
        column.0,
    ).bytes.len() >= cell.rows.len() * column.2
}

/// Byte `x` of a buffer after the first `n` columns of a cell were uploaded whole.
proof fn lemma_bulk_byte(
    mirror: MirrorState,
    columns: Seq<FixedColumn>,
    cell: CellState,
    device: DeviceState,
    owner: int,
    x: int,
    n: int,
)
    requires
        0 <= n <= columns.len(),
        forall|i: int| 0 <= i < columns.len() ==> (#[trigger] columns[i]).1 < device.columns.len(),
        0 <= owner < device.columns.len(),
        0 <= x < device.columns[owner].len(),
    ensures
        ({
            let after = device.after(mirror.bulk_writes(columns, cell, n));
            &&& after.columns.len() == device.columns.len()
            &&& after.slot_mirror == device.slot_mirror
            &&& after.generations == device.generations
            &&& after.columns[owner].len() == device.columns[owner].len()
            &&& (forall|i: int|
                0 <= i < n && (#[trigger] columns[i]).1 == owner ==> !(fully_held(columns[i], cell)
                    && mirror.row_base * columns[i].2 <= x < mirror.row_base * columns[i].2
                    + cell.rows.len() * columns[i].2)) ==> after.columns[owner][x]
                == device.columns[owner][x]
            &&& forall|i: int|
                0 <= i < n && (#[trigger] columns[i]).1 == owner && fully_held(columns[i], cell)
                    && mirror.row_base * columns[i].2 <= x < mirror.row_base * columns[i].2
                    + cell.rows.len() * columns[i].2 && (forall|j: int|
                    i < j < n ==> (#[trigger] columns[j]).1 != owner || !cell.has_column(
                        columns[j].0,
                    )) ==> after.columns[owner][x] == cell.column(columns[i].0).bytes[x
                    - mirror.row_base * columns[i].2]
        }),
    decreases n,
{
    if n > 0 {
        lemma_bulk_byte(mirror, columns, cell, device, owner, x, n - 1);
        let front = mirror.bulk_writes(columns, cell, n - 1);
        let back = mirror.bulk_write(columns[n - 1], cell);
        lemma_after_concat(device, front, back);
        let mid = device.after(front);
        reveal_with_fuel(DeviceState::after, 2);
        assert(columns[n - 1].1 < device.columns.len());
        if back.len() > 0 {
            assert(back.drop_last() =~= seq![]);
        }
    }
}

/// Uploading a cell whole makes the device hold every row of it: the global slots, and each column
/// that has all its elements. Nothing outside the cell's region changes.
pub proof fn law_refill_makes_device_exact(
    mirror: MirrorState,
    columns: Seq<FixedColumn>,
    cell: CellState,
    device: DeviceState,
)
    requires
        mirror.consistent(),
        cell.consistent(),
        cell.rows.len() <= mirror.row_capacity,
        cell.generations.len() <= mirror.slot_capacity,
        mirror.row_base + mirror.row_capacity <= device.slot_mirror.len(),
        carried_once(columns, cell),
        forall|i: int| 0 <= i < columns.len() ==> (#[trigger] columns[i]).1 < device.columns.len(),
        forall|i: int, j: int|
            #![trigger columns[i], columns[j]]
            0 <= i < columns.len() && 0 <= j < columns.len() && columns[i].1 == columns[j].1
                ==> columns[i].2 == columns[j].2,
    ensures
        ({
            let after = device.after(mirror.refill_writes(columns, cell));
            &&& after.generations == device.generations
            &&& after.slot_mirror.len() == device.slot_mirror.len()
            &&& after.columns.len() == device.columns.len()
            &&& forall|r: int|
                0 <= r < cell.rows.len() ==> #[trigger] after.slot_mirror[mirror.row_base + r]
                    == mirror.slot_base + cell.rows[r].slot
            &&& forall|x: int|
                0 <= x < device.slot_mirror.len() && !(mirror.row_base <= x < mirror.row_base
                    + mirror.row_capacity) ==> (#[trigger] after.slot_mirror[x])
                    == device.slot_mirror[x]
            &&& forall|o: int|
                0 <= o < device.columns.len() ==> (#[trigger] after.columns[o]).len()
                    == device.columns[o].len()
            &&& forall|i: int, x: int|
                #![trigger columns[i], after.columns[columns[i].1 as int][x]]
                0 <= i < columns.len() && 0 <= x < device.columns[columns[i].1 as int].len()
                    && fully_held(columns[i], cell) && mirror.row_base * columns[i].2 <= x
                    < mirror.row_base * columns[i].2 + cell.rows.len() * columns[i].2
                    ==> after.columns[columns[i].1 as int][x] == cell.column(
                    columns[i].0,
                ).bytes[x - mirror.row_base * columns[i].2]
            &&& forall|i: int, x: int|
                #![trigger columns[i], after.columns[columns[i].1 as int][x]]
                0 <= i < columns.len() && 0 <= x < device.columns[columns[i].1 as int].len() && !(
                mirror.row_base * columns[i].2 <= x < mirror.row_base * columns[i].2
                    + cell.rows.len() * columns[i].2) ==> after.columns[columns[i].1 as int][x]
                    == device.columns[columns[i].1 as int][x]
        }),
{
    let n = columns.len() as int;
    let bulk = mirror.bulk_writes(columns, cell, n);
    let slots: Seq<WriteState> = if cell.rows.len() > 0 {
        seq![
            WriteState::SlotMirror {
                row: mirror.row_base as int,
                slots: mirror.global_slots(cell),
            },
        ]
    } else {
        seq![]
    };
    assert(mirror.refill_writes(columns, cell) == bulk + slots);
    lemma_after_concat(device, bulk, slots);
    let mid = device.after(bulk);
    let after = device.after(mirror.refill_writes(columns, cell));
    lemma_bulk_writes_are_columns(mirror, columns, cell, n);
    lemma_slots_untouched_by_columns(device, bulk);
    lemma_columns_untouched_by_slots(mid, slots);
    reveal_with_fuel(DeviceState::after, 2);
    if cell.rows.len() > 0 {
        assert(slots.drop_last() =~= seq![]);
    }
    assert forall|r: int| 0 <= r < cell.rows.len() implies #[trigger] after.slot_mirror[mirror.row_base
        + r] == mirror.slot_base + cell.rows[r].slot by {
        assert(cell.rows[r].slot < cell.placed.len());
    }
    lemma_bulk_lengths(mirror, columns, cell, device, n);
    assert forall|i: int, x: int|
        #![trigger columns[i], after.columns[columns[i].1 as int][x]]
        0 <= i < columns.len() && 0 <= x < device.columns[columns[i].1 as int].len() && fully_held(
            columns[i],
            cell,
        ) && mirror.row_base * columns[i].2 <= x < mirror.row_base * columns[i].2
            + cell.rows.len() * columns[i].2 implies after.columns[columns[i].1 as int][x]
        == cell.column(columns[i].0).bytes[x - mirror.row_base * columns[i].2] by {
        lemma_bulk_byte(mirror, columns, cell, device, columns[i].1 as int, x, n);
        assert forall|j: int| i < j < n implies (#[trigger] columns[j]).1 != columns[i].1
            || !cell.has_column(columns[j].0) by {
            assert(columns[i].1 < device.columns.len());
        }
    }
    assert forall|i: int, x: int|
        #![trigger columns[i], after.columns[columns[i].1 as int][x]]
        0 <= i < columns.len() && 0 <= x < device.columns[columns[i].1 as int].len() && !(
        mirror.row_base * columns[i].2 <= x < mirror.row_base * columns[i].2 + cell.rows.len()
            * columns[i].2) implies after.columns[columns[i].1 as int][x]
        == device.columns[columns[i].1 as int][x] by {
        lemma_bulk_byte(mirror, columns, cell, device, columns[i].1 as int, x, n);
        assert forall|j: int| 0 <= j < n && (#[trigger] columns[j]).1 == columns[i].1 implies !(
        fully_held(columns[j], cell) && mirror.row_base * columns[j].2 <= x < mirror.row_base
            * columns[j].2 + cell.rows.len() * columns[j].2) by {
            assert(columns[j].2 == columns[i].2);
        }
    }
}

proof fn lemma_bulk_lengths(
    mirror: MirrorState,
    columns: Seq<FixedColumn>,
    cell: CellState,
    device: DeviceState,
    n: int,
)
    requires
        0 <= n <= columns.len(),
        forall|i: int| 0 <= i < columns.len() ==> (#[trigger] columns[i]).1 < device.columns.len(),
    ensures
        ({
            let after = device.after(mirror.bulk_writes(columns, cell, n));
            &&& after.columns.len() == device.columns.len()
            &&& forall|o: int|
                0 <= o < device.columns.len() ==> (#[trigger] after.columns[o]).len()
                    == device.columns[o].len()
        }),
    decreases n,
{
    if n > 0 {
        lemma_bulk_lengths(mirror, columns, cell, device, n - 1);
        let front = mirror.bulk_writes(columns, cell, n - 1);
        let back = mirror.bulk_write(columns[n - 1], cell);
        lemma_after_concat(device, front, back);
        let mid = device.after(front);
        reveal_with_fuel(DeviceState::after, 2);
        assert(columns[n - 1].1 < device.columns.len());
        if back.len() > 0 {
            assert(back.drop_last() =~= seq![]);
            let after = device.after(mirror.bulk_writes(columns, cell, n));
            assert forall|o: int| 0 <= o < device.columns.len() implies (
            #[trigger] after.columns[o]).len() == device.columns[o].len() by {
                assert(mid.columns[o].len() == device.columns[o].len());
            }
        }
    }
}

proof fn lemma_bulk_writes_are_columns(
    mirror: MirrorState,
    columns: Seq<FixedColumn>,
    cell: CellState,
    n: int,
)
    ensures
        forall|i: int|
            0 <= i < mirror.bulk_writes(columns, cell, n).len() ==> (#[trigger] mirror.bulk_writes(
                columns,
                cell,
                n,
            )[i]) is Column,
    decreases n,
{
    if n > 0 {
        lemma_bulk_writes_are_columns(mirror, columns, cell, n - 1);
        let front = mirror.bulk_writes(columns, cell, n - 1);
        let back = mirror.bulk_write(columns[n - 1], cell);
        let all = mirror.bulk_writes(columns, cell, n);
        assert forall|i: int| 0 <= i < all.len() implies (#[trigger] all[i]) is Column by {
            if i < front.len() {
                assert(front[i] is Column);
            } else {
                assert(back[i - front.len()] is Column);
            }
        }
    }
}

/// A cell that was uploaded whole has nothing to upload at the next frame boundary.
pub proof fn law_refill_leaves_nothing_to_sync(
    mirror: MirrorState,
    columns: Seq<FixedColumn>,
    cell: CellState,
)
    requires
        mirror.consistent(),
        cell.consistent(),
        cell.rows.len() <= mirror.row_capacity,
    ensures
        mirror.refilled(cell).sync_writes(columns, cell) == Seq::<WriteState>::empty(),
{
    let filled = mirror.refilled(cell);
    lemma_clear_masks_need_nothing(filled, columns, cell, filled.masks.len() as int);
    lemma_no_runs(filled.stale_slots(cell));
    assert(filled.slot_writes(cell) =~= seq![]);
}

proof fn lemma_clear_masks_need_nothing(
    mirror: MirrorState,
    columns: Seq<FixedColumn>,
    cell: CellState,
    n: int,
)
    requires
        n <= mirror.masks.len(),
        cell.rows.len() <= mirror.row_capacity <= u32::MAX,
        forall|k: int|
            0 <= k < mirror.masks.len() ==> (#[trigger] mirror.masks[k]).1.len()
                == mirror.row_capacity,
        forall|k: int, r: int|
            0 <= k < mirror.masks.len() && 0 <= r < mirror.row_capacity
                ==> !#[trigger] mirror.masks[k].1[r],
    ensures
        mirror.column_writes(columns, cell, n) == Seq::<WriteState>::empty(),
    decreases n,
{
    if n > 0 {
        lemma_clear_masks_need_nothing(mirror, columns, cell, n - 1);
        let rows = synced_rows(columns, cell, mirror.masks[n - 1].0);
        if rows > 0 {
            assert(mirror.masks[n - 1].1.len() == mirror.row_capacity);
            let marks = mirror.masks[n - 1].1.take(rows);
            assert forall|r: int| 0 <= r < marks.len() implies !#[trigger] marks[r] by {
                assert(!mirror.masks[n - 1].1[r]);
            }
            lemma_no_runs(marks);
        }
        assert(mirror.mask_writes(columns, cell, n - 1) =~= seq![]);
        assert(mirror.column_writes(columns, cell, n) =~= seq![]);
    }
}

pub(crate) proof fn lemma_no_runs(marks: Seq<bool>)
    requires
        marks.len() <= u32::MAX,
        forall|r: int| 0 <= r < marks.len() ==> !#[trigger] marks[r],
    ensures
        runs_of(marks).len() == 0,
{
    lemma_runs_exist(marks);
    let runs = runs_of(marks);
    if runs.len() > 0 {
        let r = runs[0].0 as int;
        assert(marks[r]);
    }
}

} // verus!
