//! What the device holds of the cells of a store after any calls, from the first one on.
use crate::entity::ComponentId;
use crate::gpu::cell_mirror::{FieldWrite, FixedColumn, QueuedRetire};
use crate::gpu::device_writes::DeviceWrite;
use crate::gpu::scene_store::{CellId, CellSlot, Stage};
use vstd::prelude::*;

verus! {

use crate::cell::{CellState, Handle};
use crate::gpu::cell_mirror::{
    generations_true, registration_writes, retire_fits, shadow_true, MirrorState,
};
use crate::gpu::device_agreement::{
    agrees, law_boundary_makes_every_slot_mirror_exact, law_compaction_keeps_agreement,
    law_registration_keeps_agreement, law_retirement_keeps_agreement,
    law_row_write_keeps_agreement, lemma_same_memory, same_memory, slots_exact, sync_ready,
};
use crate::gpu::device_writes::{DeviceState, WriteState};
use crate::gpu::scene_store::{lemma_region_bound, row_written, slots_ok, swept, StoreState};

/// What was done with a store, as far as cells are concerned.
pub enum StoreStep {
    /// A cell was registered.
    Register { class: usize, cell: CellState },
    /// A cell was unregistered.
    Unregister { id: CellId, serial: u64 },
    /// A row of a cell was written, or was not because its handle is stale.
    Write {
        cell_before: CellState,
        cell_after: CellState,
        id: CellId,
        handle: Handle,
        fields: Seq<FieldWrite>,
        stamp: bool,
        r: (bool, Option<DeviceWrite>),
    },
    /// A row of a column was marked.
    Mark { id: CellId, component: ComponentId, row: int },
    /// A retirement was queued.
    Queue { id: CellId, entry: QueuedRetire },
    /// The stages of the frame boundary.
    Retire { slots: Seq<CellSlot>, done: u64 },
    Compact { slots: Seq<CellSlot>, ready: Seq<bool> },
    Sync { slots: Seq<CellSlot>, columns: Vec<FixedColumn> },
    /// Nothing that concerns a cell.
    Apart,
}

impl StoreStep {
    /// The step may be taken and leads from `before` to `after`.
    pub open spec fn leads<B>(self, before: StoreState<B>, after: StoreState<B>) -> bool {
        match self {
            StoreStep::Register { class, cell } => {
                &&& class < before.row_pools.len()
                &&& before.register_error(class as int) is None
                &&& before.holds(class, cell)
                &&& after == before.after_register(class, cell)
            },
            StoreStep::Unregister { id, serial } => {
                &&& before.is_live(id)
                &&& after == before.after_unregister(id, serial)
            },
            StoreStep::Write { cell_before, cell_after, id, handle, fields, stamp, r } => {
                &&& before.is_live(id)
                &&& row_written(
                    before,
                    after,
                    cell_before,
                    cell_after,
                    id,
                    handle,
                    fields,
                    stamp,
                    r,
                )
                &&& r.0 && stamp ==> handle.index < before.mirror(id).slot_capacity
            },
            StoreStep::Mark { id, component, row } => {
                &&& before.is_live(id)
                &&& after == before.with_mirror(id, before.mirror(id).marked(component, row))
            },
            StoreStep::Queue { id, entry } => {
                &&& before.is_live(id)
                &&& after == before.with_mirror(id, before.mirror(id).queued(entry))
            },
            StoreStep::Retire { slots, done } => {
                &&& slots_ok(before.cells, slots)
                &&& forall|i: int|
                    0 <= i < slots.len() ==> retire_fits(
                        before.cells[(#[trigger] slots[i]).id.index as int]->0,
                        done,
                    )
                &&& after.cells == swept(
                    Stage::Retire { done },
                    seq![],
                    before.cells,
                    slots,
                    slots.len() as int,
                ).cells
            },
            StoreStep::Compact { slots, ready } => {
                &&& slots_ok(before.cells, slots)
                &&& after.cells == swept(
                    Stage::Compact,
                    ready,
                    before.cells,
                    slots,
                    slots.len() as int,
                ).cells
            },
            StoreStep::Sync { slots, columns } => {
                &&& sync_ready(before.cells, slots)
                &&& after.cells == swept(
                    Stage::Sync { columns },
                    seq![],
                    before.cells,
                    slots,
                    slots.len() as int,
                ).cells
            },
            StoreStep::Apart => after.cells == before.cells,
        }
    }

    /// The writes that the step asks of the device.
    pub open spec fn writes<B>(self, before: StoreState<B>) -> Seq<WriteState> {
        match self {
            StoreStep::Register { class, cell } => registration_writes(
                before.new_mirror(class, cell),
                cell,
            ),
            StoreStep::Write { r, .. } => match r.1 {
                Some(w) => seq![w@],
                None => seq![],
            },
            StoreStep::Retire { slots, done } => swept(
                Stage::Retire { done },
                seq![],
                before.cells,
                slots,
                slots.len() as int,
            ).writes,
            StoreStep::Sync { slots, columns } => swept(
                Stage::Sync { columns },
                seq![],
                before.cells,
                slots,
                slots.len() as int,
            ).writes,
            _ => seq![],
        }
    }
}

/// The device after the writes of the first `n` steps.
pub open spec fn device_after<B>(
    device: DeviceState,
    states: Seq<StoreState<B>>,
    steps: Seq<StoreStep>,
    n: int,
) -> DeviceState
    decreases n,
{
    if n <= 0 {
        device
    } else {
        device_after(device, states, steps, n - 1).after(steps[n - 1].writes(states[n - 1]))
    }
}

/// The buffers of the device have room for the regions of every class.
pub open spec fn spans<B>(device: DeviceState, state: StoreState<B>) -> bool {
    forall|c: int|
        0 <= c < state.row_pools.len() ==> {
            let rows = #[trigger] state.row_pools[c];
            let slots = state.slot_pools[c];
            &&& rows.base + rows.count * rows.size <= device.slot_mirror.len()
            &&& slots.base + slots.count * slots.size <= device.generations.len()
        }
}

proof fn lemma_lengths_stay(device: DeviceState, writes: Seq<WriteState>)
    ensures
        device.after(writes).slot_mirror.len() == device.slot_mirror.len(),
        device.after(writes).generations.len() == device.generations.len(),
    decreases writes.len(),
{
    if writes.len() > 0 {
        lemma_lengths_stay(device, writes.drop_last());
    }
}

/// A step keeps the agreement.
proof fn lemma_step_agrees<B>(
    before: StoreState<B>,
    after: StoreState<B>,
    step: StoreStep,
    device: DeviceState,
)
    requires
        before.consistent(),
        after.consistent(),
        step.leads(before, after),
        spans(device, before),
        agrees(device, before.cells),
    ensures
        agrees(device.after(step.writes(before)), after.cells),
        step matches StoreStep::Sync { slots, .. } ==> forall|j: int|
            0 <= j < slots.len() ==> slots_exact(
                device.after(step.writes(before)),
                before.cells[(#[trigger] slots[j]).id.index as int]->0,
                slots[j].cell@,
            ),
{
    assert(device.after(seq![]) == device);
    match step {
        StoreStep::Register { class, cell } => {
            let k = class as int;
            assert(before.row_pools[k].consistent());
            assert(before.slot_pools[k].consistent());
            lemma_region_bound(before.row_pools[k], before.row_pools[k].free.last());
            lemma_region_bound(before.slot_pools[k], before.slot_pools[k].free.last());
            law_registration_keeps_agreement(before, class, cell, device);
        },
        StoreStep::Unregister { id, serial } => {
            assert forall|c: int| 0 <= c < after.cells.len() && (#[trigger] after.cells[c]) is Some implies shadow_true(
                device,
                after.cells[c]->0,
            ) && generations_true(device, after.cells[c]->0) by {
                assert(before.cells[c] is Some);
            }
        },
        StoreStep::Write { cell_before, cell_after, id, handle, fields, stamp, r } => {
            law_row_write_keeps_agreement(
                before,
                after,
                cell_before,
                cell_after,
                id,
                handle,
                fields,
                stamp,
                r,
                device,
            );
        },
        StoreStep::Mark { id, component, row } => {
            lemma_mirror_replaced(before, id, before.mirror(id).marked(component, row), device);
        },
        StoreStep::Queue { id, entry } => {
            lemma_mirror_replaced(before, id, before.mirror(id).queued(entry), device);
        },
        StoreStep::Retire { slots, done } => {
            law_retirement_keeps_agreement(before, slots, done, device);
        },
        StoreStep::Compact { slots, ready } => {
            law_compaction_keeps_agreement(before.cells, slots, ready, device);
        },
        StoreStep::Sync { slots, columns } => {
            law_boundary_makes_every_slot_mirror_exact(before, columns, slots, device);
        },
        StoreStep::Apart => {},
    }
}

proof fn lemma_mirror_replaced<B>(
    state: StoreState<B>,
    id: CellId,
    mirror: MirrorState,
    device: DeviceState,
)
    requires
        state.is_live(id),
        same_memory(state.mirror(id), mirror),
        agrees(device, state.cells),
    ensures
        agrees(device, state.with_mirror(id, mirror).cells),
{
    let after = state.with_mirror(id, mirror).cells;
    assert(state.cells[id.index as int] is Some);
    lemma_same_memory(device, state.mirror(id), mirror);
    assert forall|c: int| 0 <= c < after.len() && (#[trigger] after[c]) is Some implies shadow_true(
        device,
        after[c]->0,
    ) && generations_true(device, after[c]->0) by {
        if c != id.index {
            assert(state.cells[c] is Some);
        }
    }
}

/// From a store without cells on, whatever is done with it, the device agrees with it on every live
/// cell. And right after the frame boundary was closed, the slot mirror has for every row of every
/// listed cell exactly the row's global slot, however the slot got to that row.
pub proof fn law_device_always_agrees<B>(
    states: Seq<StoreState<B>>,
    steps: Seq<StoreStep>,
    device: DeviceState,
    n: int,
)
    requires
        0 <= n < states.len(),
        n <= steps.len(),
        states[0].cells.len() == 0,
        forall|k: int|
            0 <= k <= n ==> (#[trigger] states[k]).consistent() && spans(device, states[k]),
        forall|k: int| 0 <= k < n ==> (#[trigger] steps[k]).leads(states[k], states[k + 1]),
    ensures
        agrees(device_after(device, states, steps, n), states[n].cells),
        device_after(device, states, steps, n).slot_mirror.len() == device.slot_mirror.len(),
        device_after(device, states, steps, n).generations.len() == device.generations.len(),
        n > 0 ==> (steps[n - 1] matches StoreStep::Sync { slots, .. } ==> forall|j: int|
            0 <= j < slots.len() ==> slots_exact(
                device_after(device, states, steps, n),
                states[n - 1].cells[(#[trigger] slots[j]).id.index as int]->0,
                slots[j].cell@,
            )),
    decreases n,
{
    if n > 0 {
        law_device_always_agrees(states, steps, device, n - 1);
        let now = device_after(device, states, steps, n - 1);
        let step = steps[n - 1];
        assert(step.leads(states[n - 1], states[n - 1 + 1]));
        assert(states[n - 1].consistent() && spans(device, states[n - 1]));
        assert(states[n].consistent());
        assert(spans(now, states[n - 1])) by {
            assert forall|c: int| 0 <= c < states[n - 1].row_pools.len() implies {
                let rows = #[trigger] states[n - 1].row_pools[c];
                let slots = states[n - 1].slot_pools[c];
                &&& rows.base + rows.count * rows.size <= now.slot_mirror.len()
                &&& slots.base + slots.count * slots.size <= now.generations.len()
            } by {}
        }
        lemma_step_agrees(states[n - 1], states[n], step, now);
        lemma_lengths_stay(now, step.writes(states[n - 1]));
    }
}

} // verus!
