//! What the device holds of all cells together, from frame to frame.
//!
//! The store remembers what it gave the device: which slot each row of the slot mirror got, and
//! which generation each slot got. The device agrees with the store while that memory is true of
//! every live cell. Every operation that writes to the device keeps the agreement, because cells
//! never share a region; and the frame boundary leaves the device with what the cells hold.
use crate::gpu::cell_mirror::FixedColumn;
use crate::gpu::device_writes::DeviceWrite;
use crate::gpu::scene_store::{CellId, CellSlot, Stage};
use vstd::prelude::*;

verus! {

use crate::cell::{CellState, CellStorage, Handle};
use crate::entity::ComponentId;
use crate::gpu::cell_mirror::{
    carried_once, column_sized, columns_ok, fixed_at, fully_held, generations_true,
    law_refill_makes_device_exact, law_registration_fills_generations,
    law_retirement_reaches_device, law_sync_makes_slot_mirror_exact,
    law_sync_uploads_exactly_the_dirty_rows, lemma_retirement_stays_inside,
    lemma_sync_keeps_lengths, lemma_sync_leaves_generations, lemma_sync_stays_inside,
    registration_writes, retire_fits, retired, shadow_true, synced_rows, warm_masks, FieldWrite,
    MirrorState, NEVER_UPLOADED,
};
use crate::gpu::device_writes::{lemma_after_concat, DeviceState, WriteState};
use crate::gpu::scene_store::{
    law_cells_never_share_a_region, rebuild_writes, rebuilt, resident, row_written, same_regions,
    sits_out, slots_ok, staged, swept, StoreState,
};
use crate::gpu::shared_buffers::fixed_columns_of;

/// The device has what the store remembers it got, for every live cell.
pub open spec fn agrees(device: DeviceState, cells: Seq<Option<MirrorState>>) -> bool {
    forall|c: int|
        0 <= c < cells.len() && (#[trigger] cells[c]) is Some ==> shadow_true(device, cells[c]->0)
            && generations_true(device, cells[c]->0)
}

/// The slot mirror has the global slot of every row of a cell.
pub open spec fn slots_exact(device: DeviceState, mirror: MirrorState, cell: CellState) -> bool {
    forall|r: int|
        0 <= r < cell.rows.len() ==> #[trigger] device.slot_mirror[mirror.row_base + r]
            == mirror.slot_base + cell.rows[r].slot
}

/// The listed cells can be brought to the device.
pub open spec fn sync_ready(cells: Seq<Option<MirrorState>>, slots: Seq<CellSlot>) -> bool {
    &&& slots_ok(cells, slots)
    &&& forall|i: int|
        0 <= i < slots.len() ==> {
            let mirror = cells[(#[trigger] slots[i]).id.index as int]->0;
            &&& slots[i].cell@.rows.len() <= mirror.row_capacity
            &&& mirror.slots_fit(slots[i].cell@)
        }
}

/// Two memories of a cell that say the same of the device.
pub open spec fn same_memory(a: MirrorState, b: MirrorState) -> bool {
    &&& same_regions(a, b)
    &&& a.slot_shadow == b.slot_shadow
    &&& a.gen_shadow == b.gen_shadow
}

pub(crate) proof fn lemma_same_memory(device: DeviceState, a: MirrorState, b: MirrorState)
    requires
        same_memory(a, b),
        shadow_true(device, a),
        generations_true(device, a),
    ensures
        shadow_true(device, b),
        generations_true(device, b),
{
    assert forall|r: int|
        0 <= r < b.row_capacity && #[trigger] b.slot_shadow[r]
            != NEVER_UPLOADED implies device.slot_mirror[b.row_base + r]
        == b.slot_base + b.slot_shadow[r] by {
        assert(a.slot_shadow[r] == b.slot_shadow[r]);
    }
    assert forall|s: int| 0 <= s < b.slot_capacity implies device.generations[b.slot_base + s]
        == #[trigger] b.gen_shadow[s] by {
        assert(a.gen_shadow[s] == b.gen_shadow[s]);
    }
}

/// The device agrees on a cell still if its regions have not changed.
proof fn lemma_untouched(before: DeviceState, after: DeviceState, mirror: MirrorState)
    requires
        shadow_true(before, mirror),
        generations_true(before, mirror),
        after.slot_mirror.len() == before.slot_mirror.len(),
        after.generations.len() == before.generations.len(),
        forall|x: int|
            mirror.row_base <= x < mirror.row_base + mirror.row_capacity ==> #[trigger]
            after.slot_mirror[x] == before.slot_mirror[x],
        forall|x: int|
            mirror.slot_base <= x < mirror.slot_base + mirror.slot_capacity ==> #[trigger]
            after.generations[x] == before.generations[x],
    ensures
        shadow_true(after, mirror),
        generations_true(after, mirror),
{
    assert forall|r: int|
        0 <= r < mirror.row_capacity && #[trigger] mirror.slot_shadow[r]
            != NEVER_UPLOADED implies after.slot_mirror[mirror.row_base
        + r] == mirror.slot_base + mirror.slot_shadow[r] by {
        assert(after.slot_mirror[mirror.row_base + r] == before.slot_mirror[mirror.row_base + r]);
    }
    assert forall|s: int| 0 <= s < mirror.slot_capacity implies after.generations[mirror.slot_base
        + s] == #[trigger] mirror.gen_shadow[s] by {
        assert(after.generations[mirror.slot_base + s] == before.generations[mirror.slot_base + s]);
    }
}

/// The regions of two live cells lie apart.
proof fn lemma_apart<B>(state: StoreState<B>, a: int, b: int)
    requires
        state.consistent(),
        0 <= a < state.cells.len(),
        0 <= b < state.cells.len(),
        a != b,
        state.cells[a] is Some,
        state.cells[b] is Some,
    ensures
        ({
            let x = state.cells[a]->0;
            let y = state.cells[b]->0;
            &&& x.consistent()
            &&& y.consistent()
            &&& x.row_base + x.row_capacity <= y.row_base || y.row_base + y.row_capacity
                <= x.row_base
            &&& x.slot_base + x.slot_capacity <= y.slot_base || y.slot_base + y.slot_capacity
                <= x.slot_base
        }),
{
    law_cells_never_share_a_region(state, CellId { index: a as u32 }, CellId { index: b as u32 });
    assert(resident(state.row_pools, state.slot_pools, state.cells[a]->0));
    assert(resident(state.row_pools, state.slot_pools, state.cells[b]->0));
}

/// After the first `n` cells were brought to the device.
proof fn lemma_synced_prefix<B>(
    state: StoreState<B>,
    columns: Vec<FixedColumn>,
    slots: Seq<CellSlot>,
    device: DeviceState,
    n: int,
)
    requires
        state.consistent(),
        sync_ready(state.cells, slots),
        agrees(device, state.cells),
        0 <= n <= slots.len(),
    ensures
        ({
            let result = swept(Stage::Sync { columns }, seq![], state.cells, slots, n);
            let after = device.after(result.writes);
            &&& after.slot_mirror.len() == device.slot_mirror.len()
            &&& result.cells.len() == state.cells.len()
            &&& forall|c: int|
                0 <= c < state.cells.len() ==> {
                    &&& (#[trigger] result.cells[c]) is Some == (state.cells[c] is Some)
                    &&& state.cells[c] is Some ==> same_regions(
                        result.cells[c]->0,
                        state.cells[c]->0,
                    )
                }
            &&& forall|j: int|
                n <= j < slots.len() ==> result.cells[(#[trigger] slots[j]).id.index as int]
                    == state.cells[slots[j].id.index as int]
            &&& agrees(after, result.cells)
            &&& forall|j: int|
                0 <= j < n ==> slots_exact(
                    after,
                    state.cells[(#[trigger] slots[j]).id.index as int]->0,
                    slots[j].cell@,
                )
        }),
    decreases n,
{
    let stage = Stage::Sync { columns };
    if n > 0 {
        lemma_synced_prefix(state, columns, slots, device, n - 1);
        let front = swept(stage, seq![], state.cells, slots, n - 1);
        let result = swept(stage, seq![], state.cells, slots, n);
        let slot = slots[n - 1];
        let at = slot.id.index as int;
        let cell = slot.cell@;
        let mirror = state.cells[at]->0;
        let mid = device.after(front.writes);
        let mine = mirror.sync_writes(columns@, cell);
        let after = device.after(result.writes);
        assert(slots[n - 1].cell.wf());
        assert(state.cells[at] is Some);
        assert(front.cells[at] == state.cells[at]);
        assert(resident(state.row_pools, state.slot_pools, mirror));
        lemma_after_concat(device, front.writes, mine);
        assert(after == mid.after(mine));
        law_sync_makes_slot_mirror_exact(mirror, columns@, cell, mid);
        lemma_sync_leaves_generations(mirror, columns@, cell, mid);
        let synced = mirror.synced(columns@, cell);
        assert(result.cells == front.cells.update(at, Some(synced)));
        assert forall|c: int| 0 <= c < result.cells.len() && (#[trigger] result.cells[c]) is Some
            && c != at implies shadow_true(after, result.cells[c]->0) && generations_true(
            after,
            result.cells[c]->0,
        ) by {
            assert(front.cells[c] is Some);
            assert(state.cells[c] is Some);
            lemma_apart(state, at, c);
            lemma_untouched(mid, after, front.cells[c]->0);
        }
        assert(generations_true(after, synced)) by {
            assert forall|s: int| 0 <= s < synced.slot_capacity implies after.generations[synced.slot_base
                + s] == #[trigger] synced.gen_shadow[s] by {
                assert(mirror.gen_shadow[s] == mid.generations[mirror.slot_base + s]);
            }
        }
        assert(agrees(after, result.cells));
        assert forall|j: int| 0 <= j < n implies slots_exact(
            after,
            state.cells[(#[trigger] slots[j]).id.index as int]->0,
            slots[j].cell@,
        ) by {
            if j < n - 1 {
                let other = slots[j].id.index as int;
                assert(slots[j].id != slots[n - 1].id);
                assert(state.cells[other] is Some);
                lemma_apart(state, at, other);
                let theirs = state.cells[other]->0;
                assert forall|r: int| 0 <= r < slots[j].cell@.rows.len() implies #[trigger]
                after.slot_mirror[theirs.row_base + r] == theirs.slot_base
                    + slots[j].cell@.rows[r].slot by {
                    assert(mid.slot_mirror[theirs.row_base + r] == theirs.slot_base
                        + slots[j].cell@.rows[r].slot);
                }
            }
        }
        assert forall|j: int| n <= j < slots.len() implies result.cells[(
        #[trigger] slots[j]).id.index as int] == state.cells[slots[j].id.index as int] by {
            assert(slots[n - 1].id != slots[j].id);
        }
        assert forall|c: int| 0 <= c < state.cells.len() implies (#[trigger] result.cells[c]) is Some
            == (state.cells[c] is Some) && (state.cells[c] is Some ==> same_regions(
            result.cells[c]->0,
            state.cells[c]->0,
        )) by {
            assert(front.cells[c] is Some == (state.cells[c] is Some));
        }
    }
}

/// After the last stage of the frame boundary the slot mirror has, for every row of every listed
/// cell, exactly the row's global slot, and the device agrees with the store on all cells.
pub proof fn law_boundary_makes_every_slot_mirror_exact<B>(
    state: StoreState<B>,
    columns: Vec<FixedColumn>,
    slots: Seq<CellSlot>,
    device: DeviceState,
)
    requires
        state.consistent(),
        sync_ready(state.cells, slots),
        agrees(device, state.cells),
    ensures
        ({
            let result = swept(
                Stage::Sync { columns },
                seq![],
                state.cells,
                slots,
                slots.len() as int,
            );
            let after = device.after(result.writes);
            &&& agrees(after, result.cells)
            &&& forall|j: int|
                0 <= j < slots.len() ==> slots_exact(
                    after,
                    state.cells[(#[trigger] slots[j]).id.index as int]->0,
                    slots[j].cell@,
                )
        }),
{
    lemma_synced_prefix(state, columns, slots, device, slots.len() as int);
}

/// Cells that lie elsewhere leave a byte of a buffer.
proof fn lemma_others_leave_byte<B>(
    state: StoreState<B>,
    columns: Vec<FixedColumn>,
    slots: Seq<CellSlot>,
    device: DeviceState,
    owner: int,
    size: int,
    x: int,
    from: int,
    n: int,
)
    requires
        state.consistent(),
        sync_ready(state.cells, slots),
        columns_ok(columns@),
        forall|i: int|
            0 <= i < columns@.len() ==> (#[trigger] columns@[i]).1 < device.columns.len(),
        forall|i: int|
            0 <= i < columns@.len() && (#[trigger] columns@[i]).1 == owner ==> columns@[i].2
                == size,
        size > 0,
        0 <= owner < device.columns.len(),
        0 <= x < device.columns[owner].len(),
        0 <= from <= n <= slots.len(),
        forall|j: int|
            from <= j < n ==> {
                let mirror = state.cells[(#[trigger] slots[j]).id.index as int]->0;
                !(mirror.row_base <= x / size < mirror.row_base + mirror.row_capacity)
            },
    ensures
        ({
            let stage = Stage::Sync { columns };
            let early = device.after(swept(stage, seq![], state.cells, slots, from).writes);
            let late = device.after(swept(stage, seq![], state.cells, slots, n).writes);
            &&& early.columns.len() == device.columns.len()
            &&& early.columns[owner].len() == device.columns[owner].len()
            &&& late.columns.len() == device.columns.len()
            &&& late.columns[owner].len() == device.columns[owner].len()
            &&& late.columns[owner][x] == early.columns[owner][x]
        }),
    decreases n,
{
    let stage = Stage::Sync { columns };
    if n > 0 {
        let slot = slots[n - 1];
        let mirror = state.cells[slot.id.index as int]->0;
        let cell = slot.cell@;
        let front = swept(stage, seq![], state.cells, slots, n - 1);
        let mid = device.after(front.writes);
        let mine = mirror.sync_writes(columns@, cell);
        assert(slots[n - 1].cell.wf());
        assert(state.cells[slot.id.index as int] is Some);
        assert(resident(state.row_pools, state.slot_pools, mirror));
        lemma_after_concat(device, front.writes, mine);
        if from < n {
            lemma_others_leave_byte(
                state,
                columns,
                slots,
                device,
                owner,
                size,
                x,
                from,
                n - 1,
            );
            assert(!(state.cells[slots[n - 1].id.index as int]->0.row_base <= x / size
                < state.cells[slots[n - 1].id.index as int]->0.row_base
                + state.cells[slots[n - 1].id.index as int]->0.row_capacity));
            lemma_sync_stays_inside(mirror, columns@, cell, mid, owner, size, x);
        } else {
            lemma_others_leave_byte(
                state,
                columns,
                slots,
                device,
                owner,
                size,
                x,
                n - 1,
                n - 1,
            );
            lemma_sync_keeps_lengths(mirror, columns@, cell, mid, owner);
        }
    }
}

/// After the last stage of the frame boundary, a byte of a mirrored column of a listed cell is on
/// the device as the cell has it, if it was there already wherever its row is not dirty.
pub proof fn law_boundary_makes_every_column_exact<B>(
    state: StoreState<B>,
    columns: Vec<FixedColumn>,
    slots: Seq<CellSlot>,
    device: DeviceState,
    i: int,
    k: int,
    x: int,
)
    requires
        state.consistent(),
        sync_ready(state.cells, slots),
        columns@ == fixed_columns_of(state.buffers),
        device.columns.len() == state.buffers.owners.len(),
        0 <= i < slots.len(),
        carried_once(columns@, slots[i].cell@),
        0 <= k < state.mirror(slots[i].id).masks.len(),
        column_sized(columns@, slots[i].cell@, state.mirror(slots[i].id).masks[k].0),
        ({
            let mirror = state.mirror(slots[i].id);
            let id = mirror.masks[k].0;
            let cell = slots[i].cell@;
            let column = columns@[fixed_at(columns@, id)];
            let held = device.columns[column.1 as int];
            let row = x / column.2 as int - mirror.row_base;
            &&& 0 <= x < held.len()
            &&& 0 <= row < synced_rows(columns@, cell, id)
            &&& !mirror.masks[k].1[row] ==> held[x] == cell.column(id).bytes[x - mirror.row_base
                * column.2]
        }),
    ensures
        ({
            let mirror = state.mirror(slots[i].id);
            let id = mirror.masks[k].0;
            let column = columns@[fixed_at(columns@, id)];
            let result = swept(
                Stage::Sync { columns },
                seq![],
                state.cells,
                slots,
                slots.len() as int,
            );
            device.after(result.writes).columns[column.1 as int][x] == slots[i].cell@.column(
                id,
            ).bytes[x - mirror.row_base * column.2]
        }),
{
    let stage = Stage::Sync { columns };
    let at = slots[i].id.index as int;
    let mirror = state.mirror(slots[i].id);
    let cell = slots[i].cell@;
    let id = mirror.masks[k].0;
    let place = fixed_at(columns@, id);
    let column = columns@[place];
    let owner = column.1 as int;
    let size = column.2 as int;
    let row = x / size - mirror.row_base;
    lemma_fixed_columns(state);
    assert(columns@[place].0 == id);
    assert(slots[i].cell.wf());
    assert(state.cells[at] is Some);
    assert(resident(state.row_pools, state.slot_pools, mirror));
    assert forall|j: int| 0 <= j < slots.len() && j != i implies {
        let other = state.cells[(#[trigger] slots[j]).id.index as int]->0;
        !(other.row_base <= x / size < other.row_base + other.row_capacity)
    } by {
        if j < i {
            assert(slots[j].id != slots[i].id);
        } else {
            assert(slots[i].id != slots[j].id);
        }
        assert(state.cells[slots[j].id.index as int] is Some);
        lemma_apart(state, at, slots[j].id.index as int);
    }
    assert forall|c: int| 0 <= c < columns@.len() && (#[trigger] columns@[c]).1 == owner implies columns@[c].2
        == size by {
        assert(columns@[c].2 == state.buffers.owners[columns@[c].1 as int].element.size);
        assert(columns@[place].2 == state.buffers.owners[columns@[place].1 as int].element.size);
    }
    lemma_others_leave_byte(state, columns, slots, device, owner, size, x, 0, i);
    let front = swept(stage, seq![], state.cells, slots, i);
    let mid = device.after(front.writes);
    let mine = mirror.sync_writes(columns@, cell);
    lemma_after_concat(device, front.writes, mine);
    assert(device.after(swept(stage, seq![], state.cells, slots, 0).writes) == device);
    law_sync_uploads_exactly_the_dirty_rows(mirror, columns@, cell, mid, k, x);
    lemma_others_leave_byte(
        state,
        columns,
        slots,
        device,
        owner,
        size,
        x,
        i + 1,
        slots.len() as int,
    );
    assert(swept(stage, seq![], state.cells, slots, i + 1).writes == front.writes + mine);
}

/// The mirrored columns are distinct and name buffers there are.
proof fn lemma_fixed_columns<B>(state: StoreState<B>)
    requires
        state.consistent(),
    ensures
        columns_ok(fixed_columns_of(state.buffers)),
        forall|i: int|
            0 <= i < fixed_columns_of(state.buffers).len() ==> (#[trigger] fixed_columns_of(
                state.buffers,
            )[i]).1 < state.buffers.owners.len(),
{
    let buffers = state.buffers;
    let columns = fixed_columns_of(buffers);
    assert forall|i: int| 0 <= i < columns.len() implies (#[trigger] columns[i]).1
        < buffers.owners.len() by {
        assert(buffers.fixed[i].1 < buffers.owners.len());
    }
    assert forall|i: int, j: int|
        #![trigger columns[i], columns[j]]
        0 <= i < j < columns.len() implies columns[i].0 != columns[j].0 by {
        assert(buffers.fixed[i].0 != buffers.fixed[j].0);
    }
}

/// Carrying out the due retirements of all listed cells keeps the agreement: every slot that may be
/// handed out again has its new generation on the device.
pub proof fn law_retirement_keeps_agreement<B>(
    state: StoreState<B>,
    slots: Seq<CellSlot>,
    done: u64,
    device: DeviceState,
)
    requires
        state.consistent(),
        slots_ok(state.cells, slots),
        forall|i: int|
            0 <= i < slots.len() ==> retire_fits(
                state.cells[(#[trigger] slots[i]).id.index as int]->0,
                done,
            ),
        agrees(device, state.cells),
    ensures
        ({
            let result = swept(
                Stage::Retire { done },
                seq![],
                state.cells,
                slots,
                slots.len() as int,
            );
            agrees(device.after(result.writes), result.cells)
        }),
{
    lemma_retired_prefix(state, slots, done, device, slots.len() as int);
}

proof fn lemma_retired_prefix<B>(
    state: StoreState<B>,
    slots: Seq<CellSlot>,
    done: u64,
    device: DeviceState,
    n: int,
)
    requires
        state.consistent(),
        slots_ok(state.cells, slots),
        forall|i: int|
            0 <= i < slots.len() ==> retire_fits(
                state.cells[(#[trigger] slots[i]).id.index as int]->0,
                done,
            ),
        agrees(device, state.cells),
        0 <= n <= slots.len(),
    ensures
        ({
            let result = swept(Stage::Retire { done }, seq![], state.cells, slots, n);
            &&& agrees(device.after(result.writes), result.cells)
            &&& result.cells.len() == state.cells.len()
            &&& forall|c: int|
                0 <= c < state.cells.len() ==> {
                    &&& (#[trigger] result.cells[c]) is Some == (state.cells[c] is Some)
                    &&& state.cells[c] is Some ==> same_regions(
                        result.cells[c]->0,
                        state.cells[c]->0,
                    )
                }
            &&& forall|j: int|
                n <= j < slots.len() ==> result.cells[(#[trigger] slots[j]).id.index as int]
                    == state.cells[slots[j].id.index as int]
        }),
    decreases n,
{
    let stage = Stage::Retire { done };
    if n > 0 {
        lemma_retired_prefix(state, slots, done, device, n - 1);
        let front = swept(stage, seq![], state.cells, slots, n - 1);
        let result = swept(stage, seq![], state.cells, slots, n);
        let at = slots[n - 1].id.index as int;
        let cell = slots[n - 1].cell@;
        let mirror = state.cells[at]->0;
        let mid = device.after(front.writes);
        let outcome = staged(stage, mirror, cell);
        let after = device.after(result.writes);
        assert(state.cells[at] is Some);
        assert(front.cells[at] == state.cells[at]);
        assert(resident(state.row_pools, state.slot_pools, mirror));
        assert(retire_fits(state.cells[slots[n - 1].id.index as int]->0, done));
        lemma_after_concat(device, front.writes, outcome.writes);
        assert(after == mid.after(outcome.writes));
        law_retirement_reaches_device(mirror, cell, done, mid);
        lemma_retirement_stays_inside(mirror, cell, done, mid);
        lemma_retirement_keeps_rows(mirror, cell, done);
        lemma_untouched_rows(mid, after, mirror, outcome.mirror);
        assert(result.cells == front.cells.update(at, Some(outcome.mirror)));
        assert forall|c: int| 0 <= c < result.cells.len() && (#[trigger] result.cells[c]) is Some
            && c != at implies shadow_true(after, result.cells[c]->0) && generations_true(
            after,
            result.cells[c]->0,
        ) by {
            assert(front.cells[c] is Some);
            assert(state.cells[c] is Some);
            lemma_apart(state, at, c);
            lemma_untouched(mid, after, front.cells[c]->0);
        }
        assert forall|j: int| n <= j < slots.len() implies result.cells[(
        #[trigger] slots[j]).id.index as int] == state.cells[slots[j].id.index as int] by {
            assert(slots[n - 1].id != slots[j].id);
        }
        assert forall|c: int| 0 <= c < state.cells.len() implies (#[trigger] result.cells[c]) is Some
            == (state.cells[c] is Some) && (state.cells[c] is Some ==> same_regions(
            result.cells[c]->0,
            state.cells[c]->0,
        )) by {
            assert(front.cells[c] is Some == (state.cells[c] is Some));
        }
    }
}

/// Retirements leave the regions and the memory of the slot mirror.
proof fn lemma_retirement_keeps_rows(mirror: MirrorState, cell: CellState, done: u64)
    ensures
        same_regions(retired(mirror, cell, done).mirror, mirror),
        retired(mirror, cell, done).mirror.slot_shadow
            == mirror.slot_shadow,
    decreases mirror.pending.len(),
{
    if mirror.pending.len() > 0 && mirror.pending[0].serial <= done {
        let first = mirror.pending[0].pending;
        let next = MirrorState {
            pending: mirror.pending.subrange(1, mirror.pending.len() as int),
            ..mirror
        }.stamped(first.slot, first.next_gen);
        lemma_retirement_keeps_rows(next, cell.after_commit(first), done);
    }
}

proof fn lemma_untouched_rows(
    before: DeviceState,
    after: DeviceState,
    mirror: MirrorState,
    next: MirrorState,
)
    requires
        shadow_true(before, mirror),
        after.slot_mirror == before.slot_mirror,
        same_regions(next, mirror),
        next.slot_shadow == mirror.slot_shadow,
    ensures
        shadow_true(after, next),
{
    assert forall|r: int|
        0 <= r < next.row_capacity && #[trigger] next.slot_shadow[r]
            != NEVER_UPLOADED implies after.slot_mirror[next.row_base + r]
        == next.slot_base + next.slot_shadow[r] by {
        assert(mirror.slot_shadow[r] == next.slot_shadow[r]);
    }
}

/// Moving rows up writes nothing and keeps the agreement, whichever cells sit the boundary out.
pub proof fn law_compaction_keeps_agreement(
    cells: Seq<Option<MirrorState>>,
    slots: Seq<CellSlot>,
    ready: Seq<bool>,
    device: DeviceState,
)
    requires
        slots_ok(cells, slots),
        agrees(device, cells),
    ensures
        ({
            let result = swept(Stage::Compact, ready, cells, slots, slots.len() as int);
            result.writes == Seq::<WriteState>::empty() && agrees(device, result.cells)
        }),
{
    lemma_compacted_prefix(cells, slots, ready, device, slots.len() as int);
}

proof fn lemma_compacted_prefix(
    cells: Seq<Option<MirrorState>>,
    slots: Seq<CellSlot>,
    ready: Seq<bool>,
    device: DeviceState,
    n: int,
)
    requires
        slots_ok(cells, slots),
        agrees(device, cells),
        0 <= n <= slots.len(),
    ensures
        ({
            let result = swept(Stage::Compact, ready, cells, slots, n);
            &&& result.writes == Seq::<WriteState>::empty()
            &&& result.cells.len() == cells.len()
            &&& agrees(device, result.cells)
        }),
    decreases n,
{
    if n > 0 {
        lemma_compacted_prefix(cells, slots, ready, device, n - 1);
        let front = swept(Stage::Compact, ready, cells, slots, n - 1);
        let result = swept(Stage::Compact, ready, cells, slots, n);
        let at = slots[n - 1].id.index as int;
        let mirror = cells[at]->0;
        let marked = mirror.moves_marked(slots[n - 1].cell@.moves());
        assert(cells[at] is Some);
        lemma_same_memory(device, mirror, marked);
        assert(result.writes =~= front.writes);
        assert forall|c: int| 0 <= c < result.cells.len() && (#[trigger] result.cells[c]) is Some implies shadow_true(
            device,
            result.cells[c]->0,
        ) && generations_true(device, result.cells[c]->0) by {
            if c != at || sits_out(ready, n - 1) {
                assert(front.cells[c] is Some);
            }
        }
    }
}

/// Registering a cell keeps the agreement, whatever an earlier cell left in its regions.
pub proof fn law_registration_keeps_agreement<B>(
    state: StoreState<B>,
    class: usize,
    cell: CellState,
    device: DeviceState,
)
    requires
        state.consistent(),
        state.after_register(class, cell).consistent(),
        cell.generations.len() <= state.new_mirror(class, cell).slot_capacity,
        agrees(device, state.cells),
        ({
            let new = state.new_mirror(class, cell);
            &&& new.row_base + new.row_capacity <= device.slot_mirror.len()
            &&& new.slot_base + new.slot_capacity <= device.generations.len()
        }),
    ensures
        agrees(
            device.after(registration_writes(state.new_mirror(class, cell), cell)),
            state.after_register(class, cell).cells,
        ),
{
    let new = state.new_mirror(class, cell);
    let next = state.after_register(class, cell);
    let writes = registration_writes(new, cell);
    let after = device.after(writes);
    law_registration_fills_generations(
        class,
        new.regions,
        new.row_base,
        new.slot_base,
        new.row_capacity,
        new.slot_capacity,
        fixed_columns_of(state.buffers),
        cell,
        device,
    );
    lemma_generation_writes(device, writes);
    let n = state.cells.len() as int;
    assert forall|c: int| 0 <= c < next.cells.len() && (#[trigger] next.cells[c]) is Some implies shadow_true(
        after,
        next.cells[c]->0,
    ) && generations_true(after, next.cells[c]->0) by {
        if c < n {
            assert(state.cells[c] is Some);
            assert(next.cells[c] == state.cells[c]);
            assert(next.cells[n] == Some(new));
            lemma_apart(next, n, c);
            lemma_untouched(device, after, state.cells[c]->0);
        }
    }
}

/// Writes of generations touch nothing else.
proof fn lemma_generation_writes(device: DeviceState, writes: Seq<WriteState>)
    requires
        forall|i: int| 0 <= i < writes.len() ==> (#[trigger] writes[i]) is Generations,
    ensures
        device.after(writes).slot_mirror == device.slot_mirror,
        device.after(writes).columns == device.columns,
        device.after(writes).generations.len() == device.generations.len(),
    decreases writes.len(),
{
    if writes.len() > 0 {
        assert(forall|i: int|
            0 <= i < writes.drop_last().len() ==> writes.drop_last()[i] == writes[i]);
        lemma_generation_writes(device, writes.drop_last());
        assert(writes[writes.len() - 1] is Generations);
    }
}

/// Writing a row keeps the agreement: the device gets the generation of the row's slot.
pub proof fn law_row_write_keeps_agreement<B>(
    before: StoreState<B>,
    after: StoreState<B>,
    cell_before: CellState,
    cell_after: CellState,
    id: CellId,
    handle: Handle,
    fields: Seq<FieldWrite>,
    stamp: bool,
    r: (bool, Option<DeviceWrite>),
    device: DeviceState,
)
    requires
        before.consistent(),
        before.is_live(id),
        row_written(before, after, cell_before, cell_after, id, handle, fields, stamp, r),
        r.0 && stamp ==> handle.index < before.mirror(id).slot_capacity,
        agrees(device, before.cells),
    ensures
        agrees(
            device.after(
                match r.1 {
                    Some(w) => seq![w@],
                    None => seq![],
                },
            ),
            after.cells,
        ),
        r.0 && stamp ==> device.after(
            match r.1 {
                Some(w) => seq![w@],
                None => seq![],
            },
        ).generations[before.mirror(id).slot_base + handle.index] == handle.generation,
{
    let writes: Seq<WriteState> = match r.1 {
        Some(w) => seq![w@],
        None => seq![],
    };
    let end = device.after(writes);
    assert(device.after(seq![]) == device);
    if r.0 {
        let at = id.index as int;
        let mirror = before.mirror(id);
        let row = cell_before.row_of(handle)->0 as int;
        let marked = mirror.fields_marked(row, fields, fields.len() as int);
        lemma_marks_keep_memory(mirror, row, fields, fields.len() as int);
        assert(before.cells[at] is Some);
        assert(resident(before.row_pools, before.slot_pools, mirror));
        lemma_same_memory(device, mirror, marked);
        let next = after.cells[at]->0;
        assert(shadow_true(end, next) && generations_true(end, next)) by {
            if stamp {
                lemma_stamp(marked, handle.index, handle.generation, device);
                assert(writes =~= marked.stamp_writes(handle.index, handle.generation));
            } else {
                assert(writes =~= seq![]);
            }
        }
        if stamp {
            assert(writes =~= marked.stamp_writes(handle.index, handle.generation));
            lemma_stamp(marked, handle.index, handle.generation, device);
            assert(next.gen_shadow[handle.index as int] == handle.generation);
        }
        assert forall|c: int| 0 <= c < after.cells.len() && (#[trigger] after.cells[c]) is Some
            && c != at implies shadow_true(end, after.cells[c]->0) && generations_true(
            end,
            after.cells[c]->0,
        ) by {
            assert(before.cells[c] is Some);
            lemma_apart(before, at, c);
            if stamp {
                lemma_stamp(marked, handle.index, handle.generation, device);
            } else {
                assert(writes =~= seq![]);
            }
            lemma_untouched(device, end, before.cells[c]->0);
        }
    }
}

/// What a stamp does to the device.
proof fn lemma_stamp(
    mirror: MirrorState,
    slot: u32,
    generation: u32,
    device: DeviceState,
)
    requires
        slot < mirror.slot_capacity,
        mirror.gen_shadow.len() == mirror.slot_capacity,
        shadow_true(device, mirror),
        generations_true(device, mirror),
    ensures
        ({
            let after = device.after(mirror.stamp_writes(slot, generation));
            &&& shadow_true(after, mirror.stamped(slot, generation))
            &&& generations_true(after, mirror.stamped(slot, generation))
            &&& after.slot_mirror == device.slot_mirror
            &&& after.generations.len() == device.generations.len()
            &&& forall|x: int|
                0 <= x < device.generations.len() && x != mirror.slot_base + slot ==> (
                #[trigger] after.generations[x]) == device.generations[x]
        }),
{
    let writes = mirror.stamp_writes(slot, generation);
    let after = device.after(writes);
    reveal_with_fuel(DeviceState::after, 2);
    if writes.len() > 0 {
        assert(writes.drop_last() =~= seq![]);
    }
    let stamped = mirror.stamped(slot, generation);
    assert forall|s: int| 0 <= s < stamped.slot_capacity implies after.generations[stamped.slot_base
        + s] == #[trigger] stamped.gen_shadow[s] by {
        assert(mirror.gen_shadow[s] == device.generations[mirror.slot_base + s]);
    }
    lemma_untouched_rows(device, after, mirror, stamped);
}

/// Marking rows dirty changes no memory.
proof fn lemma_marks_keep_memory(mirror: MirrorState, row: int, fields: Seq<FieldWrite>, n: int)
    ensures
        same_memory(mirror, mirror.fields_marked(row, fields, n)),
    decreases n,
{
    if n > 0 {
        lemma_marks_keep_memory(mirror, row, fields, n - 1);
    }
}

/// A device has every column of a cell that has all its elements.
pub open spec fn columns_exact(
    device: DeviceState,
    columns: Seq<FixedColumn>,
    mirror: MirrorState,
    cell: CellState,
) -> bool {
    forall|c: int, x: int|
        #![trigger columns[c], device.columns[columns[c].1 as int][x]]
        0 <= c < columns.len() && 0 <= x < device.columns[columns[c].1 as int].len() && fully_held(
            columns[c],
            cell,
        ) && mirror.row_base * columns[c].2 <= x < mirror.row_base * columns[c].2
            + cell.rows.len() * columns[c].2 ==> device.columns[columns[c].1 as int][x]
            == cell.column(columns[c].0).bytes[x - mirror.row_base * columns[c].2]
}

/// The first cells keep their regions while more are registered.
proof fn lemma_rebuilt_shape<B>(
    fresh: StoreState<B>,
    cells: Seq<(usize, CellStorage)>,
    m: int,
    n: int,
)
    requires
        fresh.cells.len() == 0,
        0 <= m <= n <= cells.len() <= u32::MAX,
    ensures
        rebuilt(fresh, cells, m).cells.len() == m,
        rebuilt(fresh, cells, n).cells.len() == n,
        rebuilt(fresh, cells, n).buffers == fresh.buffers,
        forall|i: int|
            0 <= i < m ==> (#[trigger] rebuilt(fresh, cells, n).cells[i]) is Some && rebuilt(
                fresh,
                cells,
                n,
            ).cells[i] == rebuilt(fresh, cells, m).cells[i],
    decreases n,
{
    if n > 0 {
        if m < n {
            lemma_rebuilt_shape(fresh, cells, m, n - 1);
        } else {
            lemma_rebuilt_shape(fresh, cells, n - 1, n - 1);
        }
    }
}

/// Where the rows of two regions lie apart, so do their bytes.
proof fn lemma_bytes_apart(a: int, n: int, b: int, m: int, size: int, x: int)
    requires
        a + n <= b || b + m <= a,
        0 <= n,
        0 <= m,
        size > 0,
        a * size <= x < a * size + n * size,
    ensures
        !(b * size <= x < b * size + m * size),
{
    if a + n <= b {
        assert(a * size + n * size <= b * size) by (nonlinear_arith)
            requires
                a + n <= b,
                size > 0,
        ;
    } else {
        assert(b * size + m * size <= a * size) by (nonlinear_arith)
            requires
                b + m <= a,
                size > 0,
        ;
    }
}

/// What a rebuild needs: every cell fits its regions, and the device has room for them.
pub open spec fn rebuild_fits<B>(
    fresh: StoreState<B>,
    cells: Seq<(usize, CellStorage)>,
    device: DeviceState,
) -> bool {
    let store = rebuilt(fresh, cells, cells.len() as int);
    let columns = fixed_columns_of(fresh.buffers);
    &&& fresh.consistent()
    &&& fresh.cells.len() == 0
    &&& cells.len() <= u32::MAX
    &&& store.consistent()
    &&& device.columns.len() == fresh.buffers.owners.len()
    &&& forall|i: int|
        0 <= i < cells.len() ==> {
            let mirror = store.cells[i]->0;
            &&& (#[trigger] cells[i]).1.wf()
            &&& carried_once(columns, cells[i].1@)
            &&& cells[i].1@.rows.len() <= mirror.row_capacity
            &&& cells[i].1@.generations.len() <= mirror.slot_capacity
            &&& mirror.row_base + mirror.row_capacity <= device.slot_mirror.len()
            &&& mirror.slot_base + mirror.slot_capacity <= device.generations.len()
        }
}

#[verifier::rlimit(30)]
proof fn lemma_rebuilt_prefix<B>(
    fresh: StoreState<B>,
    cells: Seq<(usize, CellStorage)>,
    device: DeviceState,
    n: int,
)
    requires
        rebuild_fits(fresh, cells, device),
        0 <= n <= cells.len(),
    ensures
        ({
            let store = rebuilt(fresh, cells, n);
            let after = device.after(rebuild_writes(fresh, cells, n));
            &&& after.slot_mirror.len() == device.slot_mirror.len()
            &&& after.generations.len() == device.generations.len()
            &&& after.columns.len() == device.columns.len()
            &&& forall|o: int|
                0 <= o < device.columns.len() ==> (#[trigger] after.columns[o]).len()
                    == device.columns[o].len()
            &&& agrees(after, store.cells)
            &&& forall|i: int|
                0 <= i < n ==> slots_exact(
                    after,
                    store.cells[i]->0,
                    (#[trigger] cells[i]).1@,
                ) && columns_exact(
                    after,
                    fixed_columns_of(fresh.buffers),
                    store.cells[i]->0,
                    cells[i].1@,
                )
        }),
    decreases n,
{
    lemma_rebuilt_shape(fresh, cells, n, cells.len() as int);
    if n > 0 {
        lemma_rebuilt_prefix(fresh, cells, device, n - 1);
        lemma_rebuilt_shape(fresh, cells, n - 1, n);
        let last = rebuilt(fresh, cells, cells.len() as int);
        let columns = fixed_columns_of(fresh.buffers);
        let front = rebuilt(fresh, cells, n - 1);
        let store = rebuilt(fresh, cells, n);
        let cell = cells[n - 1].1@;
        let mirror = front.new_mirror(cells[n - 1].0, cell);
        let filled = mirror.refilled(cell);
        let mid = device.after(rebuild_writes(fresh, cells, n - 1));
        let first = registration_writes(mirror, cell);
        let second = mirror.refill_writes(columns, cell);
        let between = mid.after(first);
        let after = device.after(rebuild_writes(fresh, cells, n));
        assert(cells[n - 1].1.wf());
        assert(store.cells[n - 1] == Some(filled));
        assert(last.cells[n - 1] == store.cells[n - 1]);
        assert(resident(last.row_pools, last.slot_pools, last.cells[n - 1]->0));
        lemma_after_concat(device, rebuild_writes(fresh, cells, n - 1), first + second);
        lemma_after_concat(mid, first, second);
        assert(after == between.after(second));
        law_registration_fills_generations(
            cells[n - 1].0,
            mirror.regions,
            mirror.row_base,
            mirror.slot_base,
            mirror.row_capacity,
            mirror.slot_capacity,
            columns,
            cell,
            mid,
        );
        lemma_generation_writes(mid, first);
        lemma_fixed_columns(fresh);
        assert forall|c: int, d: int|
            #![trigger columns[c], columns[d]]
            0 <= c < columns.len() && 0 <= d < columns.len() && columns[c].1
                == columns[d].1 implies columns[c].2 == columns[d].2 by {
            assert(columns[c].2 == fresh.buffers.owners[columns[c].1 as int].element.size);
            assert(columns[d].2 == fresh.buffers.owners[columns[d].1 as int].element.size);
        }
        assert(mirror.consistent()) by {
            lemma_warm_masks(columns, cell, mirror.row_capacity);
        }
        law_refill_makes_device_exact(mirror, columns, cell, between);
        assert forall|c: int| 0 <= c < store.cells.len() && (#[trigger] store.cells[c]) is Some implies shadow_true(
            after,
            store.cells[c]->0,
        ) && generations_true(after, store.cells[c]->0) by {
            if c < n - 1 {
                assert(front.cells[c] is Some);
                assert(store.cells[c] == front.cells[c]);
                assert(last.cells[c] == store.cells[c]);
                lemma_apart(last, n - 1, c);
                lemma_untouched(mid, after, front.cells[c]->0);
            } else {
                lemma_filled_agrees(mirror, cell, between, after);
            }
        }
        assert forall|i: int| 0 <= i < n implies slots_exact(
            after,
            store.cells[i]->0,
            (#[trigger] cells[i]).1@,
        ) && columns_exact(after, columns, store.cells[i]->0, cells[i].1@) by {
            if i < n - 1 {
                assert(store.cells[i] == front.cells[i]);
                assert(last.cells[i] == store.cells[i]);
                lemma_apart(last, n - 1, i);
                let theirs = store.cells[i]->0;
                let held = cells[i].1@;
                assert(held.rows.len() <= theirs.row_capacity);
                assert forall|r: int| 0 <= r < held.rows.len() implies #[trigger] after.slot_mirror[theirs.row_base
                    + r] == theirs.slot_base + held.rows[r].slot by {
                    assert(mid.slot_mirror[theirs.row_base + r] == theirs.slot_base
                        + held.rows[r].slot);
                }
                assert forall|c: int, x: int|
                    #![trigger columns[c], after.columns[columns[c].1 as int][x]]
                    0 <= c < columns.len() && 0 <= x < after.columns[columns[c].1 as int].len()
                        && fully_held(columns[c], held) && theirs.row_base * columns[c].2 <= x
                        < theirs.row_base * columns[c].2 + held.rows.len()
                        * columns[c].2 implies after.columns[columns[c].1 as int][x]
                    == held.column(columns[c].0).bytes[x - theirs.row_base * columns[c].2] by {
                    let size = columns[c].2 as int;
                    lemma_bytes_apart(
                        theirs.row_base as int,
                        held.rows.len() as int,
                        mirror.row_base as int,
                        cell.rows.len() as int,
                        size,
                        x,
                    );
                    assert(columns[c].1 < device.columns.len());
                    assert(mid.columns[columns[c].1 as int][x] == held.column(
                        columns[c].0,
                    ).bytes[x - theirs.row_base * columns[c].2]);
                }
            }
        }
    }
}

/// The masks of a new cell span its region, each of another column.
proof fn lemma_warm_masks(columns: Seq<FixedColumn>, cell: CellState, row_capacity: u32)
    requires
        columns_ok(columns),
    ensures
        ({
            let masks = warm_masks(columns, cell, row_capacity);
            &&& forall|k: int|
                0 <= k < masks.len() ==> (#[trigger] masks[k]).1.len() == row_capacity
                    && columns_have(columns, masks[k].0)
            &&& forall|i: int, j: int|
                #![trigger masks[i], masks[j]]
                0 <= i < j < masks.len() ==> masks[i].0 != masks[j].0
        }),
    decreases columns.len(),
{
    if columns.len() > 0 {
        let front = columns.drop_last();
        assert(forall|i: int| 0 <= i < front.len() ==> front[i] == columns[i]);
        lemma_warm_masks(front, cell, row_capacity);
        let masks = warm_masks(columns, cell, row_capacity);
        let before = warm_masks(front, cell, row_capacity);
        assert forall|k: int| 0 <= k < masks.len() implies (#[trigger] masks[k]).1.len()
            == row_capacity && columns_have(columns, masks[k].0) by {
            if k < before.len() {
                assert(columns_have(front, before[k].0));
                let i = choose|i: int|
                    0 <= i < front.len() && (#[trigger] front[i]).0 == before[k].0;
                assert(columns[i].0 == masks[k].0);
            } else {
                assert(columns[columns.len() - 1].0 == masks[k].0);
            }
        }
        assert forall|i: int, j: int|
            #![trigger masks[i], masks[j]]
            0 <= i < j < masks.len() implies masks[i].0 != masks[j].0 by {
            if j < before.len() {
                assert(before[i].0 != before[j].0);
            } else {
                assert(columns_have(front, before[i].0));
                let c = choose|c: int|
                    0 <= c < front.len() && (#[trigger] front[c]).0 == before[i].0;
                assert(columns[c].0 != columns[columns.len() - 1].0);
            }
        }
    }
}

spec fn columns_have(columns: Seq<FixedColumn>, id: ComponentId) -> bool {
    exists|i: int| 0 <= i < columns.len() && (#[trigger] columns[i]).0 == id
}

/// A new cell that was uploaded whole agrees with the device.
proof fn lemma_filled_agrees(
    mirror: MirrorState,
    cell: CellState,
    before: DeviceState,
    after: DeviceState,
)
    requires
        generations_true(before, mirror),
        after.generations == before.generations,
        mirror.row_base + mirror.row_capacity <= after.slot_mirror.len(),
        slots_exact(after, mirror, cell),
        cell.rows.len() <= mirror.row_capacity,
        mirror.slot_shadow.len() == mirror.row_capacity,
        forall|r: int|
            0 <= r < mirror.row_capacity ==> #[trigger] mirror.slot_shadow[r] == NEVER_UPLOADED,
    ensures
        shadow_true(after, mirror.refilled(cell)),
        generations_true(after, mirror.refilled(cell)),
{
    let filled = mirror.refilled(cell);
    assert forall|r: int|
        0 <= r < filled.row_capacity && #[trigger] filled.slot_shadow[r]
            != NEVER_UPLOADED implies after.slot_mirror[filled.row_base + r] == filled.slot_base
        + filled.slot_shadow[r] by {
        if r >= cell.rows.len() {
            assert(mirror.slot_shadow[r] == NEVER_UPLOADED);
        }
    }
    assert forall|s: int| 0 <= s < filled.slot_capacity implies after.generations[filled.slot_base
        + s] == #[trigger] filled.gen_shadow[s] by {
        assert(mirror.gen_shadow[s] == before.generations[mirror.slot_base + s]);
    }
}

/// A store made anew from the cells alone leaves the device with everything the cells hold,
/// whatever the device held before.
pub proof fn law_rebuild_restores_the_device<B>(
    fresh: StoreState<B>,
    cells: Seq<(usize, CellStorage)>,
    device: DeviceState,
)
    requires
        rebuild_fits(fresh, cells, device),
    ensures
        ({
            let n = cells.len() as int;
            let store = rebuilt(fresh, cells, n);
            let after = device.after(rebuild_writes(fresh, cells, n));
            &&& agrees(after, store.cells)
            &&& forall|i: int|
                0 <= i < n ==> slots_exact(
                    after,
                    store.cells[i]->0,
                    (#[trigger] cells[i]).1@,
                ) && columns_exact(
                    after,
                    fixed_columns_of(fresh.buffers),
                    store.cells[i]->0,
                    cells[i].1@,
                )
        }),
{
    lemma_rebuilt_prefix(fresh, cells, device, cells.len() as int);
}

} // verus!
