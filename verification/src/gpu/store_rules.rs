//! What the store does with each cell it holds.
use crate::cell::Handle;
use crate::entity::ComponentId;
use crate::gpu::cell_mirror::FieldWrite;
use crate::gpu::device_writes::DeviceWrite;
use crate::gpu::region::RegionError;
use crate::gpu::scene_store::{CellId, CellSlot, RegionClassConfig, Stage};
use vstd::prelude::*;

verus! {

use crate::cell::CellState;
use crate::gpu::cell_mirror::{
    all_committed, columns_ok, fields_fit, fixed_at, is_fixed, retired, MirrorState,
};
use crate::gpu::cell_mirror_rules::{
    law_due_retirements_are_carried_out, law_moved_rows_are_marked, law_second_sync_writes_nothing,
    law_written_fields_are_held, law_written_fields_are_marked,
};
use crate::gpu::column_map::target_of;
use crate::gpu::device_writes::WriteState;
use crate::gpu::region::RegionState;
use crate::gpu::scene_store::{
    counted, drained, fresh_row_pools, fresh_slot_pools, row_extent, row_written, slot_extent, slots_ok,
    staged, swept, writable, StoreState,
};
use crate::gpu::shared_buffers::{fixed_columns_of, BuffersState};

/// A cell that is registered gets the next id, at the regions taken for it; every other cell keeps its
/// id and what is known of it, and only the pools of its class give a region away.
pub proof fn law_registered_cell_is_live<B>(
    state: StoreState<B>,
    class: usize,
    cell: CellState,
    other: CellId,
    k: int,
)
    requires
        state.consistent(),
        class < state.row_pools.len(),
        state.register_error(class as int) is None,
        state.cells.len() < u32::MAX,
        0 <= k < state.row_pools.len(),
    ensures
        ({
            let after = state.after_register(class, cell);
            let id = CellId { index: state.cells.len() as u32 };
            &&& !state.is_live(id)
            &&& after.is_live(id)
            &&& after.mirror(id).class == class
            &&& after.mirror(id).regions.row == state.row_pools[class as int].free.last()
            &&& after.mirror(id).regions.slot == state.slot_pools[class as int].free.last()
            &&& other != id ==> after.is_live(other) == state.is_live(other)
            &&& state.is_live(other) ==> after.mirror(other) == state.mirror(other)
            &&& after.row_pools[k].free.len() == state.row_pools[k].free.len() - if k == class {
                1int
            } else {
                0
            }
            &&& after.slot_pools[k].free.len() == state.slot_pools[k].free.len() - if k == class {
                1int
            } else {
                0
            }
            &&& after.buffers == state.buffers
            &&& after.phase == state.phase
        }),
{
}

/// A cell cannot be registered if and only if its class has no region left; for rows first.
pub proof fn law_registration_is_refused_for_want_of_regions<B>(state: StoreState<B>, class: int)
    ensures
        ({
            let rows = state.row_pools[class].free.len() > 0;
            let slots = state.slot_pools[class].free.len() > 0;
            let error = state.register_error(class);
            &&& error is None <==> rows && slots
            &&& error == Some(RegionError::RowsExhausted) <==> !rows
            &&& error == Some(RegionError::SlotsExhausted) <==> rows && !slots
        }),
{
}

/// A cell that is unregistered is gone, and its regions wait for the submission before they can be
/// taken again; every other cell stays as it was.
pub proof fn law_unregistered_cell_is_gone<B>(
    state: StoreState<B>,
    id: CellId,
    serial: u64,
    other: CellId,
)
    requires
        state.consistent(),
        state.is_live(id),
        other != id,
    ensures
        ({
            let mirror = state.mirror(id);
            let class = mirror.class as int;
            let after = state.after_unregister(id, serial);
            &&& !after.is_live(id)
            &&& after.cells.len() == state.cells.len()
            &&& after.is_live(other) == state.is_live(other)
            &&& state.is_live(other) ==> after.mirror(other) == state.mirror(other)
            &&& after.row_pools[class].pinned.contains((mirror.regions.row, serial))
            &&& after.slot_pools[class].pinned.contains((mirror.regions.slot, serial))
            &&& after.row_pools[class].free == state.row_pools[class].free
            &&& after.slot_pools[class].free == state.slot_pools[class].free
            &&& after.buffers == state.buffers
            &&& after.phase == state.phase
        }),
{
    let mirror = state.mirror(id);
    let class = mirror.class as int;
    assert(state.cells[id.index as int] is Some);
    let after = state.after_unregister(id, serial);
    let rows = state.row_pools[class].pinned;
    let slots = state.slot_pools[class].pinned;
    assert(after.row_pools[class].pinned[rows.len() as int] == (mirror.regions.row, serial));
    assert(after.slot_pools[class].pinned[slots.len() as int] == (mirror.regions.slot, serial));
}

/// Unregistering carries out every retirement that waits, as if all submissions were done.
pub proof fn law_unregistering_retires_everything(mirror: MirrorState, cell: CellState)
    ensures
        all_committed(cell, mirror.pending) == retired(mirror, cell, u64::MAX).cell,
        retired(mirror, cell, u64::MAX).mirror.pending.len() == 0,
    decreases mirror.pending.len(),
{
    if mirror.pending.len() > 0 {
        let first = mirror.pending[0].pending;
        let next = MirrorState {
            pending: mirror.pending.subrange(1, mirror.pending.len() as int),
            ..mirror
        }.stamped(first.slot, first.next_gen);
        law_unregistering_retires_everything(next, cell.after_commit(first));
    }
}

/// A stage is carried out once for each cell that does not sit out, on what was known of it before the
/// stage; every other cell stays as it was, and what is written and retired adds up.
pub proof fn law_stage_treats_every_cell(
    stage: Stage,
    ready: Seq<bool>,
    cells: Seq<Option<MirrorState>>,
    slots: Seq<CellSlot>,
    n: int,
    i: int,
    c: int,
)
    requires
        slots_ok(cells, slots),
        0 <= n <= slots.len(),
        0 <= i < n,
        0 <= c < cells.len(),
    ensures
        ({
            let result = swept(stage, ready, cells, slots, n);
            let at = slots[i].id.index as int;
            let out = i < ready.len() && !ready[i];
            &&& result.cells.len() == cells.len()
            &&& out ==> result.cells[at] == cells[at]
            &&& !out ==> result.cells[at] == Some(
                staged(stage, cells[at]->0, slots[i].cell@).mirror,
            )
            &&& (forall|j: int| 0 <= j < n ==> (#[trigger] slots[j]).id.index != c)
                ==> result.cells[c] == cells[c]
        }),
    decreases n,
{
    let front = swept(stage, ready, cells, slots, n - 1);
    let last = slots[n - 1].id.index as int;
    lemma_swept_len(stage, ready, cells, slots, n - 1);
    assert(slots[n - 1].id.index < cells.len());
    assert(slots[i].id.index < cells.len());
    if i < n - 1 {
        law_stage_treats_every_cell(stage, ready, cells, slots, n - 1, i, c);
        assert(slots[i].id != slots[n - 1].id);
    } else {
        lemma_unnamed_stay(stage, ready, cells, slots, n - 1, last);
        if n > 1 {
            law_stage_treats_every_cell(stage, ready, cells, slots, n - 1, 0, c);
        }
    }
}

proof fn lemma_swept_len(
    stage: Stage,
    ready: Seq<bool>,
    cells: Seq<Option<MirrorState>>,
    slots: Seq<CellSlot>,
    n: int,
)
    requires
        slots_ok(cells, slots),
        0 <= n <= slots.len(),
    ensures
        swept(stage, ready, cells, slots, n).cells.len() == cells.len(),
    decreases n,
{
    if n > 0 {
        lemma_swept_len(stage, ready, cells, slots, n - 1);
        assert(slots[n - 1].id.index < cells.len());
    }
}

proof fn lemma_unnamed_stay(
    stage: Stage,
    ready: Seq<bool>,
    cells: Seq<Option<MirrorState>>,
    slots: Seq<CellSlot>,
    n: int,
    at: int,
)
    requires
        slots_ok(cells, slots),
        0 <= n < slots.len(),
        at == slots[n].id.index,
    ensures
        swept(stage, ready, cells, slots, n).cells[at] == cells[at],
{
    lemma_unnamed_stay_until(stage, ready, cells, slots, n, n, at);
}

proof fn lemma_unnamed_stay_until(
    stage: Stage,
    ready: Seq<bool>,
    cells: Seq<Option<MirrorState>>,
    slots: Seq<CellSlot>,
    n: int,
    m: int,
    at: int,
)
    requires
        slots_ok(cells, slots),
        0 <= m <= n < slots.len(),
        at == slots[n].id.index,
    ensures
        swept(stage, ready, cells, slots, m).cells[at] == cells[at],
    decreases m,
{
    if m > 0 {
        lemma_unnamed_stay_until(stage, ready, cells, slots, n, m - 1, at);
        lemma_swept_len(stage, ready, cells, slots, m - 1);
        assert(slots[m - 1].id != slots[n].id);
        assert(slots[m - 1].id.index < cells.len());
    }
}

/// A handle can be written to if and only if it names a row that is not waiting to be retired.
pub proof fn law_retiring_rows_are_not_written(cell: CellState, handle: Handle)
    requires
        cell.consistent(),
    ensures
        writable(cell, handle) <==> cell.row_of(handle) is Some && !cell.rows[cell.row_of(
            handle,
        )->0 as int].pinned,
        cell.retirable(handle) ==> writable(cell, handle) && !writable(
            cell.after_mark(handle),
            handle,
        ),
{
    if cell.retirable(handle) {
        assert(cell.placed[handle.index as int] is Some);
        let row = cell.row_of(handle)->0 as int;
        assert(!(cell.rows[row].live && cell.rows[row].pinned));
    }
}

/// The rows and slots of the classes add up; a class takes a region for each cell that can be resident,
/// of its capacity, and for slots of the headroom too.
pub proof fn law_extents_add_up(
    a: Seq<RegionClassConfig>,
    b: Seq<RegionClassConfig>,
    headroom: u32,
)
    ensures
        row_extent(a + b, (a + b).len() as int) == row_extent(a, a.len() as int) + row_extent(
            b,
            b.len() as int,
        ),
        slot_extent(a + b, headroom, (a + b).len() as int) == slot_extent(
            a,
            headroom,
            a.len() as int,
        ) + slot_extent(b, headroom, b.len() as int),
        a.len() == 1 ==> row_extent(a, 1) == a[0].max_resident_cells * a[0].capacity && slot_extent(
            a,
            headroom,
            1,
        ) == a[0].max_resident_cells * (a[0].capacity + headroom),
        a.len() == 0 ==> row_extent(a, 0) == 0 && slot_extent(a, headroom, 0) == 0,
    decreases b.len(),
{
    reveal_with_fuel(row_extent, 2);
    reveal_with_fuel(slot_extent, 2);
    if b.len() > 0 {
        let front = b.drop_last();
        law_extents_add_up(a, front, headroom);
        lemma_extents(a + b, a + front, headroom, (a + front).len() as int);
        lemma_extents(b, front, headroom, front.len() as int);
    } else {
        assert(a + b =~= a);
    }
}

proof fn lemma_extents(
    a: Seq<RegionClassConfig>,
    b: Seq<RegionClassConfig>,
    headroom: u32,
    n: int,
)
    requires
        0 <= n <= a.len(),
        n <= b.len(),
        forall|i: int| 0 <= i < n ==> a[i] == b[i],
    ensures
        row_extent(a, n) == row_extent(b, n),
        slot_extent(a, headroom, n) == slot_extent(b, headroom, n),
    decreases n,
{
    if n > 0 {
        lemma_extents(a, b, headroom, n - 1);
    }
}

/// A row is written if and only if its handle may be. Then the cell holds the bytes of every field that
/// no later one overwrites, and the row is marked in that field's mask; else nothing changes.
pub proof fn law_written_row_is_held_and_marked<B>(
    before: StoreState<B>,
    after: StoreState<B>,
    cell_before: CellState,
    cell_after: CellState,
    id: CellId,
    handle: Handle,
    fields: Seq<FieldWrite>,
    stamp: bool,
    r: (bool, Option<DeviceWrite>),
    last: int,
    c: int,
    k: int,
    row: int,
)
    requires
        row_written(before, after, cell_before, cell_after, id, handle, fields, stamp, r),
        before.is_live(id),
        before.mirror(id).consistent(),
        cell_before.consistent(),
        r.0 ==> fields_fit(cell_before, fields) && cell_before.row_of(handle)->0 < before.mirror(
            id,
        ).row_capacity,
        0 <= last < fields.len(),
        forall|j: int| last < j < fields.len() ==> (#[trigger] fields[j]).id != fields[last].id,
        0 <= c < cell_before.columns.len(),
        cell_before.columns[c].id == fields[last].id,
        0 <= k < before.mirror(id).masks.len(),
        before.mirror(id).masks[k].0 == fields[last].id,
        0 <= row < cell_before.rows.len(),
        row < before.mirror(id).row_capacity,
    ensures
        r.0 <==> cell_before.row_of(handle) is Some && !cell_before.rows[cell_before.row_of(
            handle,
        )->0 as int].pinned,
        !r.0 ==> cell_after == cell_before && after == before && r.1 is None,
        r.0 ==> {
            let at = cell_before.row_of(handle)->0 as int;
            &&& cell_after.columns[c].element(at) == fields[last].bytes@
            &&& row != at ==> cell_after.columns[c].element(row) == cell_before.columns[c].element(
                row,
            )
            &&& after.mirror(id).masks[k].1[at]
            &&& row != at ==> after.mirror(id).masks[k].1[row] == before.mirror(id).masks[k].1[row]
            &&& cell_after.rows == cell_before.rows
            &&& after.mirror(id).pending == before.mirror(id).pending
        },
{
    if r.0 {
        let at = cell_before.row_of(handle)->0 as int;
        assert(cell_before.placed[handle.index as int] is Some);
        let n = fields.len() as int;
        let mirror = before.mirror(id);
        law_written_fields_are_held(cell_before, at, fields, n, c, at, last);
        law_written_fields_are_held(cell_before, at, fields, n, c, row, last);
        law_written_fields_are_marked(mirror, at, fields, n, k, at);
        law_written_fields_are_marked(mirror, at, fields, n, k, row);
        assert(fields[last].id == mirror.masks[k].0);
    }
}

/// Retiring, as a stage, carries out what is due and leaves the rest waiting; compacting marks the rows
/// it fills, so that a row which is not marked holds what it held; syncing leaves the cell alone and
/// nothing to be synced again.
pub proof fn law_stages_do_their_work(
    mirror: MirrorState,
    cell: CellState,
    stage: Stage,
    handle: Handle,
    i: int,
    k: int,
    c: int,
)
    requires
        mirror.consistent(),
        cell.consistent(),
        mirror.paired(cell),
        cell.rows.len() <= mirror.row_capacity,
        cell.row_of(handle) is Some,
        0 <= k < mirror.masks.len(),
        0 <= c < cell.columns.len(),
    ensures
        ({
            let out = staged(stage, mirror, cell);
            match stage {
                Stage::Retire { done } => {
                    &&& out.retired <= mirror.pending.len()
                    &&& 0 <= i < mirror.pending.len() ==> (i < out.retired
                        <==> mirror.pending[i].serial <= done)
                    &&& out.mirror.pending == mirror.pending.skip(out.retired as int)
                    &&& 0 <= i < out.retired ==> out.cell.hole(mirror.pending[i].pending.row as int)
                        && out.cell.generations[mirror.pending[i].pending.slot as int]
                        == mirror.pending[i].pending.next_gen
                },
                Stage::Compact => {
                    let now = out.cell.row_of(handle)->0 as int;
                    &&& out.cell.row_of(handle) is Some
                    &&& !out.mirror.masks[k].1[now] ==> cell.row_of(handle) == Some(now as u32)
                        && out.cell.columns[c].element(now) == cell.columns[c].element(now)
                    &&& out.mirror.masks[k].0 == mirror.masks[k].0
                    &&& out.mirror.pending == mirror.pending
                    &&& out.retired == 0
                    &&& out.writes.len() == 0
                    &&& out.cell == cell.compacted()
                },
                Stage::Sync { columns } => {
                    &&& out.cell == cell
                    &&& out.retired == 0
                    &&& out.mirror.mask_writes(columns@, cell, k) == Seq::<WriteState>::empty()
                    &&& out.mirror.slot_writes(cell) == Seq::<WriteState>::empty()
                    &&& out.mirror.pending == mirror.pending
                },
            }
        }),
{
    match stage {
        Stage::Retire { done } => {
            law_due_retirements_are_carried_out(mirror, cell, done, i, 0);
        },
        Stage::Compact => {
            law_moved_rows_are_marked(mirror, cell, handle, k, c);
        },
        Stage::Sync { columns } => {
            law_second_sync_writes_nothing(mirror, columns@, cell, k);
        },
    }
}

/// Draining the pools frees in each of them what is done, and nothing else.
pub proof fn law_every_pool_is_drained(
    pools: Seq<RegionState>,
    done: u64,
    p: int,
    at: u32,
    serial: u64,
)
    requires
        0 <= p < pools.len(),
        pools[p].consistent(),
    ensures
        ({
            let after = drained(pools, done);
            &&& after.len() == pools.len()
            &&& pools[p].pinned.contains((at, serial)) && serial <= done
                ==> after[p].free.contains(at)
            &&& after[p].pinned.contains((at, serial)) <==> pools[p].pinned.contains((at, serial))
                && serial > done
            &&& after[p].handed_out(at) <==> pools[p].handed_out(at)
        }),
{
    crate::gpu::region::law_drain_frees_what_is_done(pools[p], done, at, serial);
}

/// A new store has a pool of rows and one of slots for each class, behind those of the classes before
/// it, with a free region for each cell that can be resident; the first to be taken is the first.
pub proof fn law_new_pools_are_free(
    classes: Seq<RegionClassConfig>,
    headroom: u32,
    i: int,
    at: u32,
)
    requires
        0 <= i < classes.len(),
        row_extent(classes, i) <= u32::MAX,
        slot_extent(classes, headroom, i) <= u32::MAX,
        0 <= row_extent(classes, i),
        0 <= slot_extent(classes, headroom, i),
        classes[i].capacity + headroom <= u32::MAX,
    ensures
        ({
            let rows = fresh_row_pools(classes)[i];
            let slots = fresh_slot_pools(classes, headroom)[i];
            let count = classes[i].max_resident_cells;
            &&& fresh_row_pools(classes).len() == classes.len()
            &&& fresh_slot_pools(classes, headroom).len() == classes.len()
            &&& rows.base == row_extent(classes, i)
            &&& slots.base == slot_extent(classes, headroom, i)
            &&& rows.size == classes[i].capacity
            &&& slots.size == classes[i].capacity + headroom
            &&& rows.count == count && slots.count == count
            &&& rows.free.contains(at) <==> at < count
            &&& slots.free.contains(at) <==> at < count
            &&& rows.pinned.len() == 0 && slots.pinned.len() == 0
            &&& count > 0 ==> rows.free.last() == 0 && slots.free.last() == 0
        }),
{
    let rows = fresh_row_pools(classes)[i];
    let slots = fresh_slot_pools(classes, headroom)[i];
    let count = classes[i].max_resident_cells as int;
    if at < count {
        assert(rows.free[count - 1 - at] == at);
        assert(slots.free[count - 1 - at] == at);
    }
}

/// The columns of fixed buffers are listed with the buffer each is bound to and the size of its
/// elements, every one of them and no other.
pub proof fn law_fixed_columns_are_all_listed<B>(state: BuffersState<B>, id: ComponentId)
    requires
        state.consistent(),
    ensures
        ({
            let columns = fixed_columns_of(state);
            &&& columns_ok(columns)
            &&& columns.len() == state.fixed.len()
            &&& is_fixed(columns, id) <==> target_of(state.fixed, id) is Some
            &&& target_of(state.fixed, id) matches Some(at) ==> {
                let column = columns[fixed_at(columns, id)];
                &&& column.0 == id
                &&& column.1 == at
                &&& column.2 == state.owners[at as int].element.size
            }
        }),
{
    let columns = fixed_columns_of(state);
    assert forall|i: int, j: int|
        #![trigger columns[i], columns[j]]
        0 <= i < j < columns.len() implies columns[i].0 != columns[j].0 by {
        assert(state.fixed[i].0 != state.fixed[j].0);
    }
    if target_of(state.fixed, id) is Some {
        let k = crate::gpu::column_map::binding_at(state.fixed, id);
        assert(state.fixed[k].0 == id);
        assert(columns[k].0 == id);
        let j = fixed_at(columns, id);
        assert(columns[j].0 == id);
        if k < j {
            assert(columns[k].0 != columns[j].0);
        } else if j < k {
            assert(columns[j].0 != columns[k].0);
        }
    }
    if is_fixed(columns, id) {
        let j = fixed_at(columns, id);
        assert(columns[j].0 == id);
        assert(state.fixed[j].0 == id);
    }
}

/// Generation writes are counted up, starting over past the greatest count.
pub proof fn law_generation_writes_are_counted(n: u64, a: int, b: int)
    requires
        0 <= a,
        0 <= b,
    ensures
        counted(n, 0) == n,
        n + a <= u64::MAX ==> counted(n, a) == n + a,
        n == u64::MAX ==> counted(n, 1) == 0,
        counted(counted(n, a), b) == counted(n, a + b),
{
    let m = 0x1_0000_0000_0000_0000int;
    vstd::arithmetic::div_mod::lemma_mod_bound(n + a, m);
    vstd::arithmetic::div_mod::lemma_mod_bound(n + a + b, m);
    assert(((n + a) % m + b) % m == (n + a + b) % m) by {
        vstd::arithmetic::div_mod::lemma_add_mod_noop_right(b, n + a, m);
        assert(b + (n + a) % m == (n + a) % m + b);
        assert(b + (n + a) == n + a + b);
    }
}

} // verus!
