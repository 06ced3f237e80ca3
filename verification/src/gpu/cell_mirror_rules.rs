//! What the device side of a cell does with each row, each mask and each retirement.
use crate::cell::Handle;
use crate::entity::ComponentId;
use crate::gpu::cell_mirror::{FieldWrite, FixedColumn, QueuedRetire};
use vstd::prelude::*;

verus! {

use crate::cell::{law_compaction_keeps_handles, lemma_commit, lemma_commit_keeps_pending, CellState};
use crate::cell_rules::{law_write_touches_one_element, lemma_moved};
use crate::gpu::cell_mirror::{
    columns_ok, fields_fit, fields_written, fixed_at, is_destination, is_fixed, lemma_no_runs,
    registered_mirror, retire_fits, retired, synced_rows, warm_masks, MirrorState, Regions,
};
use crate::gpu::device_writes::WriteState;

/// A retirement is due when the submission it waits for is done. The due ones are carried out, in
/// their order, and no other: each handle's slot is then free under its next generation, and what
/// waits for a later submission still waits.
pub proof fn law_due_retirements_are_carried_out(
    mirror: MirrorState,
    cell: CellState,
    done: u64,
    i: int,
    s: int,
)
    requires
        cell.consistent(),
        mirror.paired(cell),
    ensures
        ({
            let out = retired(mirror, cell, done);
            let k = out.count as int;
            &&& k <= mirror.pending.len()
            &&& 0 <= i < mirror.pending.len() ==> (i < k <==> mirror.pending[i].serial <= done)
            &&& out.mirror.pending == mirror.pending.skip(k)
            &&& out.mirror.masks == mirror.masks
            &&& out.mirror.slot_shadow == mirror.slot_shadow
            &&& out.cell.consistent()
            &&& out.mirror.paired(out.cell)
            &&& 0 <= i < k ==> {
                let p = mirror.pending[i].pending;
                &&& out.cell.placed[p.slot as int] is None
                &&& out.cell.generations[p.slot as int] == p.next_gen
                &&& out.cell.hole(p.row as int)
            }
            &&& out.cell.placed.len() == cell.placed.len()
            &&& out.cell.rows.len() == cell.rows.len()
            &&& out.cell.columns == cell.columns
            &&& 0 <= s < cell.placed.len() && (forall|j: int|
                0 <= j < k ==> (#[trigger] mirror.pending[j]).pending.slot != s)
                ==> out.cell.placed[s] == cell.placed[s] && out.cell.generations[s]
                == cell.generations[s]
        }),
    decreases mirror.pending.len(),
{
    let out = retired(mirror, cell, done);
    if mirror.pending.len() == 0 || mirror.pending[0].serial > done {
        assert(mirror.pending.skip(0) =~= mirror.pending);
        if 0 < i < mirror.pending.len() {
            assert(mirror.pending[0].serial <= mirror.pending[i].serial);
        }
    } else {
        let first = mirror.pending[0].pending;
        assert(cell.awaits(mirror.pending[0].pending));
        lemma_commit(cell, first);
        let next = MirrorState {
            pending: mirror.pending.subrange(1, mirror.pending.len() as int),
            ..mirror
        }.stamped(first.slot, first.next_gen);
        let committed = cell.after_commit(first);
        assert forall|j: int| 0 <= j < next.pending.len() implies committed.awaits(
            (#[trigger] next.pending[j]).pending,
        ) by {
            assert(next.pending[j] == mirror.pending[j + 1]);
            assert(mirror.pending[0].pending.slot != mirror.pending[j + 1].pending.slot);
            assert(cell.awaits(mirror.pending[j + 1].pending));
            lemma_commit_keeps_pending(cell, first, next.pending[j].pending);
        }
        assert forall|a: int, b: int|
            #![trigger next.pending[a], next.pending[b]]
            0 <= a < b < next.pending.len() implies next.pending[a].pending.slot
            != next.pending[b].pending.slot && next.pending[a].serial <= next.pending[b].serial by {
            assert(next.pending[a] == mirror.pending[a + 1]);
            assert(next.pending[b] == mirror.pending[b + 1]);
        }
        let rest = retired(next, committed, done);
        law_due_retirements_are_carried_out(next, committed, done, i - 1, s);
        let k = rest.count as int;
        assert(next.pending.skip(k) =~= mirror.pending.skip(k + 1));
        assert forall|j: int| 0 <= j < k implies (#[trigger] next.pending[j]).pending.slot
            != first.slot by {
            assert(next.pending[j] == mirror.pending[j + 1]);
            assert(mirror.pending[0].pending.slot != mirror.pending[j + 1].pending.slot);
        }
        if 1 <= i < mirror.pending.len() {
            assert(next.pending[i - 1] == mirror.pending[i]);
        }
        law_due_retirements_are_carried_out(next, committed, done, i - 1, first.slot as int);
        assert(rest.cell.placed[first.slot as int] is None);
        lemma_rows_stay_holes(next, committed, done, first.row as int);
        if 0 <= s < cell.placed.len() && (forall|j: int|
            0 <= j < k + 1 ==> (#[trigger] mirror.pending[j]).pending.slot != s) {
            assert(mirror.pending[0].pending.slot != s);
            assert forall|j: int| 0 <= j < k implies (#[trigger] next.pending[j]).pending.slot
                != s by {
                assert(next.pending[j] == mirror.pending[j + 1]);
            }
        }
    }
}

proof fn lemma_rows_stay_holes(mirror: MirrorState, cell: CellState, done: u64, row: int)
    requires
        cell.consistent(),
        mirror.paired(cell),
        0 <= row < cell.rows.len(),
        cell.hole(row),
    ensures
        retired(mirror, cell, done).cell.rows.len() == cell.rows.len(),
        retired(mirror, cell, done).cell.hole(row),
    decreases mirror.pending.len(),
{
    if mirror.pending.len() > 0 && mirror.pending[0].serial <= done {
        let first = mirror.pending[0].pending;
        assert(cell.awaits(mirror.pending[0].pending));
        lemma_commit(cell, first);
        let next = MirrorState {
            pending: mirror.pending.subrange(1, mirror.pending.len() as int),
            ..mirror
        }.stamped(first.slot, first.next_gen);
        let committed = cell.after_commit(first);
        assert forall|j: int| 0 <= j < next.pending.len() implies committed.awaits(
            (#[trigger] next.pending[j]).pending,
        ) by {
            assert(next.pending[j] == mirror.pending[j + 1]);
            assert(mirror.pending[0].pending.slot != mirror.pending[j + 1].pending.slot);
            assert(cell.awaits(mirror.pending[j + 1].pending));
            lemma_commit_keeps_pending(cell, first, next.pending[j].pending);
        }
        assert forall|a: int, b: int|
            #![trigger next.pending[a], next.pending[b]]
            0 <= a < b < next.pending.len() implies next.pending[a].pending.slot
            != next.pending[b].pending.slot && next.pending[a].serial <= next.pending[b].serial by {
            assert(next.pending[a] == mirror.pending[a + 1]);
            assert(next.pending[b] == mirror.pending[b + 1]);
        }
        lemma_rows_stay_holes(next, committed, done, row);
    }
}

/// Marking a row marks it in the mask of its column, and nothing else; a column that is not mirrored
/// has no mask to mark.
pub proof fn law_marking_touches_one_mask(
    mirror: MirrorState,
    id: ComponentId,
    row: int,
    k: int,
    r: int,
)
    requires
        mirror.consistent(),
        0 <= row < mirror.row_capacity,
        0 <= k < mirror.masks.len(),
        0 <= r < mirror.row_capacity,
    ensures
        ({
            let after = mirror.marked(id, row);
            &&& after == (MirrorState { masks: after.masks, ..mirror })
            &&& after.masks.len() == mirror.masks.len()
            &&& after.masks[k].0 == mirror.masks[k].0
            &&& after.masks[k].1.len() == mirror.row_capacity
            &&& after.masks[k].1[r] == (mirror.masks[k].1[r] || (mirror.masks[k].0 == id && r == row))
        }),
{
    let after = mirror.marked(id, row);
    assert(mirror.masks[k].1.len() == mirror.row_capacity);
    if mirror.has_mask(id) {
        let at = mirror.mask_at(id);
        assert(mirror.masks[at].0 == id);
        assert(mirror.masks[at].1.len() == mirror.row_capacity);
        if mirror.masks[k].0 == id {
            if k < at {
                assert(mirror.masks[k].0 != mirror.masks[at].0);
            } else if at < k {
                assert(mirror.masks[at].0 != mirror.masks[k].0);
            }
        }
    }
}

proof fn lemma_marked_consistent(mirror: MirrorState, id: ComponentId, row: int)
    requires
        mirror.consistent(),
        0 <= row < mirror.row_capacity,
    ensures
        mirror.marked(id, row).consistent(),
{
    let after = mirror.marked(id, row);
    assert forall|k: int| 0 <= k < after.masks.len() implies (#[trigger] after.masks[k]).1.len()
        == after.row_capacity by {
        assert(mirror.masks[k].1.len() == mirror.row_capacity);
    }
    if mirror.has_mask(id) {
        let at = mirror.mask_at(id);
        assert(mirror.masks[at].0 == id);
    }
    assert forall|i: int, j: int|
        #![trigger after.masks[i], after.masks[j]]
        0 <= i < j < after.masks.len() implies after.masks[i].0 != after.masks[j].0 by {
        assert(mirror.masks[i].0 != mirror.masks[j].0);
    }
}

/// Among the first `n` fields there is one of the column.
pub open spec fn names_column(fields: Seq<FieldWrite>, n: int, id: ComponentId) -> bool {
    exists|j: int| 0 <= j < n && (#[trigger] fields[j]).id == id
}

/// Writing the fields of a row marks that row in the masks of their columns, and nothing else.
pub proof fn law_written_fields_are_marked(
    mirror: MirrorState,
    row: int,
    fields: Seq<FieldWrite>,
    n: int,
    k: int,
    r: int,
)
    requires
        mirror.consistent(),
        0 <= row < mirror.row_capacity,
        0 <= n <= fields.len(),
        0 <= k < mirror.masks.len(),
        0 <= r < mirror.row_capacity,
    ensures
        ({
            let after = mirror.fields_marked(row, fields, n);
            &&& after.consistent()
            &&& after == (MirrorState { masks: after.masks, ..mirror })
            &&& after.masks.len() == mirror.masks.len()
            &&& after.masks[k].0 == mirror.masks[k].0
            &&& after.masks[k].1[r] == (mirror.masks[k].1[r] || (r == row && names_column(
                fields,
                n,
                mirror.masks[k].0,
            )))
        }),
    decreases n,
{
    if n > 0 {
        law_written_fields_are_marked(mirror, row, fields, n - 1, k, r);
        let most = mirror.fields_marked(row, fields, n - 1);
        law_marking_touches_one_mask(most, fields[n - 1].id, row, k, r);
        lemma_marked_consistent(most, fields[n - 1].id, row);
        let id = mirror.masks[k].0;
        if names_column(fields, n - 1, id) {
            let j = choose|j: int| 0 <= j < n - 1 && (#[trigger] fields[j]).id == id;
            assert(fields[j].id == id);
        }
        if names_column(fields, n, id) && !names_column(fields, n - 1, id) {
            let j = choose|j: int| 0 <= j < n && (#[trigger] fields[j]).id == id;
            assert(j == n - 1);
        }
        if fields[n - 1].id == id {
            assert(names_column(fields, n, id));
        }
    }
}

/// Writing the fields of a row puts each field's bytes in its column, the last one's where there are
/// several, and leaves every other row, and every column without a field.
pub proof fn law_written_fields_are_held(
    cell: CellState,
    row: int,
    fields: Seq<FieldWrite>,
    n: int,
    c: int,
    r: int,
    last: int,
)
    requires
        cell.consistent(),
        0 <= row < cell.rows.len(),
        fields_fit(cell, fields),
        0 <= n <= fields.len(),
        0 <= c < cell.columns.len(),
        0 <= r < cell.rows.len(),
    ensures
        ({
            let after = fields_written(cell, row, fields, n);
            let id = cell.columns[c].id;
            &&& after == (CellState { columns: after.columns, ..cell })
            &&& after.columns.len() == cell.columns.len()
            &&& after.columns[c].id == id
            &&& after.columns[c].size == cell.columns[c].size
            &&& r != row || !names_column(fields, n, id) ==> after.columns[c].element(r)
                == cell.columns[c].element(r)
            &&& 0 <= last < n && fields[last].id == id && (forall|j: int|
                last < j < n ==> (#[trigger] fields[j]).id != id) ==> after.columns[c].element(row)
                == fields[last].bytes@
        }),
    decreases n,
{
    lemma_fields_written(cell, row, fields, n);
    if n > 0 {
        law_written_fields_are_held(cell, row, fields, n - 1, c, r, last);
        lemma_fields_written(cell, row, fields, n - 1);
        let most = fields_written(cell, row, fields, n - 1);
        let field = fields[n - 1];
        assert(cell.has_column(field.id));
        law_write_touches_one_element(most, field.id, row, field.bytes@, c, r);
        law_write_touches_one_element(most, field.id, row, field.bytes@, c, row);
        let id = cell.columns[c].id;
        if names_column(fields, n - 1, id) {
            let j = choose|j: int| 0 <= j < n - 1 && (#[trigger] fields[j]).id == id;
            assert(fields[j].id == id);
            assert(names_column(fields, n, id));
        }
        if field.id == id {
            assert(names_column(fields, n, id));
        }
    }
}

proof fn lemma_fields_written(cell: CellState, row: int, fields: Seq<FieldWrite>, n: int)
    requires
        cell.consistent(),
        0 <= row < cell.rows.len(),
        fields_fit(cell, fields),
        0 <= n <= fields.len(),
    ensures
        ({
            let after = fields_written(cell, row, fields, n);
            &&& after.consistent()
            &&& after.rows == cell.rows
            &&& forall|i: int|
                0 <= i < fields.len() ==> after.has_column((#[trigger] fields[i]).id)
                    && fields[i].bytes@.len() == after.column(fields[i].id).size
        }),
    decreases n,
{
    if n > 0 {
        lemma_fields_written(cell, row, fields, n - 1);
        let most = fields_written(cell, row, fields, n - 1);
        let after = fields_written(cell, row, fields, n);
        let field = fields[n - 1];
        assert(cell.has_column(field.id));
        assert(most.has_column(field.id));
        crate::cell::lemma_same_rows(most, after);
        assert forall|i: int| 0 <= i < fields.len() implies after.has_column(
            (#[trigger] fields[i]).id,
        ) && fields[i].bytes@.len() == after.column(fields[i].id).size by {
            crate::cell::lemma_write_keeps_columns(
                most,
                field.id,
                row,
                field.bytes@,
                fields[i].id,
            );
        }
    }
}

/// A row that compaction filled is marked in every mask, so that a row which is not marked holds
/// what it held.
pub proof fn law_moved_rows_are_marked(
    mirror: MirrorState,
    cell: CellState,
    handle: Handle,
    k: int,
    c: int,
)
    requires
        mirror.consistent(),
        cell.consistent(),
        cell.row_of(handle) is Some,
        cell.rows.len() <= mirror.row_capacity,
        0 <= k < mirror.masks.len(),
        0 <= c < cell.columns.len(),
    ensures
        ({
            let now = cell.compacted().row_of(handle)->0 as int;
            let after = mirror.moves_marked(cell.moves());
            &&& cell.compacted().row_of(handle) is Some
            &&& now < cell.rows.len()
            &&& after == (MirrorState { masks: after.masks, ..mirror })
            &&& after.masks[k].0 == mirror.masks[k].0
            &&& mirror.masks[k].1[now] ==> after.masks[k].1[now]
            &&& !after.masks[k].1[now] ==> cell.row_of(handle) == Some(now as u32)
                && cell.compacted().columns[c].element(now) == cell.columns[c].element(now)
        }),
{
    law_compaction_keeps_handles(cell, handle);
    lemma_moved(cell, handle);
    assert(mirror.masks[k].1.len() == mirror.row_capacity);
    let row = cell.row_of(handle)->0;
    let now = cell.compacted().row_of(handle)->0;
    crate::cell_rules::lemma_compacted_len(cell);
    if now != row {
        let moves = cell.moves();
        let i = choose|i: int| 0 <= i < moves.len() && moves[i] == (row, now);
        assert(moves[i].1 == now);
        assert(is_destination(moves, now as int));
    }
}

/// A row that no move led to is marked only if it was.
pub proof fn law_only_moved_rows_are_marked(
    mirror: MirrorState,
    moves: Seq<(u32, u32)>,
    k: int,
    r: int,
)
    requires
        mirror.consistent(),
        0 <= k < mirror.masks.len(),
        0 <= r < mirror.row_capacity,
        forall|i: int| 0 <= i < moves.len() ==> (#[trigger] moves[i]).1 != r,
    ensures
        mirror.moves_marked(moves).masks[k].1[r] == mirror.masks[k].1[r],
{
    assert(mirror.masks[k].1.len() == mirror.row_capacity);
}

/// A new mirror has a mask for each mirrored column that the cell carries, and no other, with every
/// row in use marked and no other; nothing waits, and no slot was uploaded.
pub proof fn law_new_mirror_marks_every_row(
    class: usize,
    regions: Regions,
    row_base: u32,
    slot_base: u32,
    row_capacity: u32,
    slot_capacity: u32,
    columns: Seq<FixedColumn>,
    cell: CellState,
    k: int,
    i: int,
    r: int,
)
    requires
        0 <= r < row_capacity,
    ensures
        ({
            let mirror = registered_mirror(
                class,
                regions,
                row_base,
                slot_base,
                row_capacity,
                slot_capacity,
                columns,
                cell,
            );
            &&& 0 <= k < mirror.masks.len() ==> {
                &&& cell.has_column(mirror.masks[k].0)
                &&& exists|j: int|
                    0 <= j < columns.len() && (#[trigger] columns[j]).0 == mirror.masks[k].0
                &&& mirror.masks[k].1.len() == row_capacity
                &&& mirror.masks[k].1[r] <==> r < cell.rows.len()
            }
            &&& 0 <= i < columns.len() && cell.has_column(columns[i].0) ==> mirror.has_mask(
                columns[i].0,
            )
            &&& mirror.pending.len() == 0
            &&& mirror.row_base == row_base && mirror.slot_base == slot_base
        }),
{
    lemma_warm_masks_listed(columns, cell, row_capacity, k, i);
    if 0 <= i < columns.len() && cell.has_column(columns[i].0) {
        let mirror = registered_mirror(
            class,
            regions,
            row_base,
            slot_base,
            row_capacity,
            slot_capacity,
            columns,
            cell,
        );
        let masks = warm_masks(columns, cell, row_capacity);
        let m = choose|m: int| 0 <= m < masks.len() && (#[trigger] masks[m]).0 == columns[i].0;
        assert(mirror.masks[m].0 == columns[i].0);
    }
}

proof fn lemma_warm_masks_listed(
    columns: Seq<FixedColumn>,
    cell: CellState,
    row_capacity: u32,
    k: int,
    i: int,
)
    ensures
        ({
            let masks = warm_masks(columns, cell, row_capacity);
            &&& 0 <= k < masks.len() ==> {
                &&& cell.has_column(masks[k].0)
                &&& exists|j: int| 0 <= j < columns.len() && (#[trigger] columns[j]).0 == masks[k].0
                &&& masks[k].1 == Seq::new(row_capacity as nat, |r: int| r < cell.rows.len())
            }
            &&& 0 <= i < columns.len() && cell.has_column(columns[i].0) ==> exists|m: int|
                0 <= m < masks.len() && (#[trigger] masks[m]).0 == columns[i].0
        }),
    decreases columns.len(),
{
    if columns.len() > 0 {
        let front = columns.drop_last();
        lemma_warm_masks_listed(front, cell, row_capacity, k, i);
        let some = warm_masks(front, cell, row_capacity);
        let masks = warm_masks(columns, cell, row_capacity);
        if 0 <= k < masks.len() {
            if k < some.len() {
                assert(masks[k] == some[k]);
                let j = choose|j: int| 0 <= j < front.len() && (#[trigger] front[j]).0 == some[k].0;
                assert(columns[j].0 == masks[k].0);
            } else {
                assert(columns[columns.len() - 1].0 == masks[k].0);
            }
        }
        if 0 <= i < columns.len() && cell.has_column(columns[i].0) {
            if i < front.len() {
                assert(front[i] == columns[i]);
                let m = choose|m: int| 0 <= m < some.len() && (#[trigger] some[m]).0 == front[i].0;
                assert(masks[m].0 == columns[i].0);
            } else {
                assert(masks[masks.len() - 1].0 == columns[i].0);
            }
        }
    }
}

/// A sync right after a sync writes nothing of the columns it wrote before, and no slot.
pub proof fn law_second_sync_writes_nothing(
    mirror: MirrorState,
    columns: Seq<FixedColumn>,
    cell: CellState,
    k: int,
)
    requires
        mirror.consistent(),
        cell.consistent(),
        cell.rows.len() <= mirror.row_capacity,
        0 <= k < mirror.masks.len(),
    ensures
        mirror.synced(columns, cell).mask_writes(columns, cell, k) == Seq::<WriteState>::empty(),
        mirror.synced(columns, cell).slot_writes(cell) == Seq::<WriteState>::empty(),
        mirror.synced(columns, cell).masks.len() == mirror.masks.len(),
        mirror.synced(columns, cell).pending == mirror.pending,
        mirror.synced(columns, cell).gen_shadow == mirror.gen_shadow,
{
    let after = mirror.synced(columns, cell);
    let id = mirror.masks[k].0;
    let n = synced_rows(columns, cell, id);
    assert(mirror.masks[k].1.len() == mirror.row_capacity);
    assert(after.masks[k] == mirror.masks_cleared(columns, cell, k));
    if n > 0 {
        lemma_no_runs(after.masks[k].1.take(n));
        assert(after.mask_writes(columns, cell, k) =~= seq![]);
    }
    lemma_no_runs(after.stale_slots(cell));
    assert(after.slot_writes(cell) =~= seq![]);
}

/// A queued retirement waits behind all others.
pub proof fn law_queued_retirement_waits_last(mirror: MirrorState, entry: QueuedRetire)
    ensures
        mirror.queued(entry).pending.len() == mirror.pending.len() + 1,
        mirror.queued(entry).pending[mirror.pending.len() as int] == entry,
        mirror.queued(entry).pending.take(mirror.pending.len() as int) == mirror.pending,
        mirror.queued(entry) == (MirrorState {
            pending: mirror.queued(entry).pending,
            ..mirror
        }),
{
    assert(mirror.queued(entry).pending.take(mirror.pending.len() as int) =~= mirror.pending);
}

/// A mirrored column that a cell carries is synced for as many of its rows as its bytes hold elements
/// for, which is all of them where the elements are of one size; no other column is synced.
pub proof fn law_every_held_row_is_synced(
    columns: Seq<FixedColumn>,
    cell: CellState,
    i: int,
    id: ComponentId,
)
    requires
        cell.consistent(),
        columns_ok(columns),
        0 <= i < columns.len(),
        columns[i].2 > 0,
    ensures
        ({
            let n = synced_rows(columns, cell, columns[i].0);
            let carried = cell.has_column(columns[i].0);
            let held = cell.column(columns[i].0).bytes.len();
            &&& carried && cell.column(columns[i].0).size == columns[i].2 ==> n == cell.rows.len()
            &&& carried ==> {
                &&& 0 <= n <= cell.rows.len()
                &&& n * columns[i].2 <= held
                &&& n < cell.rows.len() ==> held < (n + 1) * columns[i].2
            }
            &&& !carried ==> n == 0
            &&& (forall|j: int| 0 <= j < columns.len() ==> (#[trigger] columns[j]).0 != id)
                ==> synced_rows(columns, cell, id) == 0
        }),
{
    let own = columns[i].0;
    assert(is_fixed(columns, own));
    let k = fixed_at(columns, own);
    assert(columns[k].0 == own);
    if k < i {
        assert(columns[k].0 != columns[i].0);
    } else if i < k {
        assert(columns[i].0 != columns[k].0);
    }
    if cell.has_column(own) {
        let c = cell.column_at(own);
        assert(cell.columns[c].size > 0);
        let len = cell.column(own).bytes.len() as int;
        let size = columns[i].2 as int;
        let q = len / size;
        let rows = cell.rows.len() as int;
        vstd::arithmetic::div_mod::lemma_fundamental_div_mod(len, size);
        vstd::arithmetic::div_mod::lemma_mod_bound(len, size);
        assert(q >= 0) by (nonlinear_arith)
            requires
                len == size * q + len % size,
                0 <= len % size < size,
                len >= 0,
                size > 0,
        ;
        assert(q * size <= len < (q + 1) * size) by (nonlinear_arith)
            requires
                len == size * q + len % size,
                0 <= len % size < size,
        ;
        if rows <= q {
            assert(rows * size <= q * size) by (nonlinear_arith)
                requires
                    rows <= q,
                    size > 0,
            ;
        }
        if cell.column(own).size == columns[i].2 {
            assert(len == rows * size);
            assert(rows <= q) by (nonlinear_arith)
                requires
                    rows * size < (q + 1) * size,
                    size > 0,
            ;
        }
    }
}

/// A cell fits its mirror if and only if every row whose slot is to be uploaded has a slot within the
/// region, and a retirement fits if and only if its slot does.
pub proof fn law_only_slots_beyond_the_region_do_not_fit(
    mirror: MirrorState,
    cell: CellState,
    done: u64,
)
    ensures
        !mirror.slots_fit(cell) <==> exists|r: int|
            0 <= r < cell.rows.len() && mirror.slot_shadow[r] != (#[trigger] cell.rows[r]).slot
                && cell.rows[r].slot >= mirror.slot_capacity,
        !retire_fits(mirror, done) <==> exists|i: int|
            0 <= i < mirror.pending.len() && (#[trigger] mirror.pending[i]).serial <= done
                && mirror.pending[i].pending.slot >= mirror.slot_capacity,
{
}

} // verus!
