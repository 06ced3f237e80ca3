//! What the row storage of a cell does with each row and each handle.
use crate::cell::{CellState, Handle};
use crate::entity::ComponentId;
use vstd::prelude::*;

verus! {

use crate::cell::{
    law_compaction_keeps_handles, law_move_keeps_handles, lemma_allocate, lemma_element_range,
    lemma_first_hole, lemma_move, lemma_trim_keeps_handle, lemma_trim_keeps_slots, lemma_trimmed,
};

/// An allocation hands out a handle that named nothing, for a new last row that is live and holds
/// zeros; every other handle names what it named, and every other row holds what it held.
pub proof fn law_allocated_row_is_fresh(state: CellState, other: Handle, r: int, c: int)
    requires
        state.consistent(),
        state.rows.len() < u32::MAX,
        state.free_slots.len() > 0 || state.generations.len() < u32::MAX,
        other != state.next_handle(),
        0 <= c < state.columns.len(),
    ensures
        ({
            let handle = state.next_handle();
            let after = state.after_allocate();
            let row = state.rows.len() as int;
            &&& state.row_of(handle) is None
            &&& after.row_of(handle) == Some(row as u32)
            &&& after.rows.len() == row + 1
            &&& after.rows[row].live && !after.rows[row].pinned
            &&& after.row_of(other) == state.row_of(other)
            &&& after.columns.len() == state.columns.len()
            &&& after.columns[c].id == state.columns[c].id
            &&& after.columns[c].size == state.columns[c].size
            &&& after.columns[c].element(row) == Seq::new(
                state.columns[c].size as nat,
                |i: int| 0u8,
            )
            &&& 0 <= r < row ==> after.rows[r] == state.rows[r] && after.columns[c].element(r)
                == state.columns[c].element(r)
            &&& state.free_slots.len() == 0 ==> handle.index == state.placed.len()
                && handle.generation == 1
        }),
{
    let handle = state.next_handle();
    let after = state.after_allocate();
    let row = state.rows.len() as int;
    let size = state.columns[c].size as int;
    lemma_allocate(state);
    if state.free_slots.len() > 0 {
        let last = state.free_slots.len() - 1;
        assert(state.free_slots[last] == handle.index);
        assert(state.placed[handle.index as int] is None);
    }
    assert(after.columns[c] == state.columns[c].extended());
    lemma_element_range(row + 1, row, size);
    assert(after.columns[c].element(row) =~= Seq::new(size as nat, |i: int| 0u8));
    if 0 <= r < row {
        lemma_element_range(row, r, size);
        assert(after.columns[c].element(r) =~= state.columns[c].element(r));
    }
}

/// A write puts the bytes in one row of one column and leaves everything else.
pub proof fn law_write_touches_one_element(
    state: CellState,
    id: ComponentId,
    row: int,
    data: Seq<u8>,
    c: int,
    r: int,
)
    requires
        state.consistent(),
        state.has_column(id),
        0 <= row < state.rows.len(),
        data.len() == state.column(id).size,
        0 <= c < state.columns.len(),
        0 <= r < state.rows.len(),
    ensures
        ({
            let after = state.after_write(id, row, data);
            &&& after.columns.len() == state.columns.len()
            &&& after.columns[c].id == state.columns[c].id
            &&& after.columns[c].size == state.columns[c].size
            &&& after.columns[c].element(r) == if state.columns[c].id == id && r == row {
                data
            } else {
                state.columns[c].element(r)
            }
            &&& after == (CellState { columns: after.columns, ..state })
        }),
{
    let after = state.after_write(id, row, data);
    let at = state.column_at(id);
    let n = state.rows.len() as int;
    let size = state.columns[c].size as int;
    assert(state.columns[at].id == id);
    if state.columns[c].id == id {
        if c < at {
            assert(state.columns[c].id != state.columns[at].id);
        } else if at < c {
            assert(state.columns[at].id != state.columns[c].id);
        }
        lemma_element_range(n, row, size);
        lemma_element_range(n, r, size);
        if r == row {
            assert(after.columns[c].element(r) =~= data);
        } else {
            assert((r + 1) * size <= row * size || (row + 1) * size <= r * size)
                by (nonlinear_arith)
                requires
                    r != row,
                    size > 0,
            ;
            assert(after.columns[c].element(r) =~= state.columns[c].element(r));
        }
    }
}

/// A handle to be retired names its row until the retirement is committed, and nothing from then on.
/// Its row is pinned in between and a hole afterwards, its slot is the next to be used, with the next
/// generation, and no other handle or row is touched.
pub proof fn law_retired_handle_is_gone(state: CellState, handle: Handle, other: Handle, r: int)
    requires
        state.consistent(),
        state.retirable(handle),
        other != handle,
        0 <= r < state.rows.len(),
    ensures
        ({
            let row = state.row_of(handle)->0 as int;
            let marked = state.after_mark(handle);
            let done = marked.after_commit(state.pending_of(handle));
            &&& marked.row_of(handle) == state.row_of(handle)
            &&& marked.row_of(other) == state.row_of(other)
            &&& !marked.retirable(handle)
            &&& marked.rows[row].pinned && !marked.rows[row].live
            &&& done.row_of(handle) is None
            &&& done.row_of(other) == state.row_of(other)
            &&& !done.rows[row].pinned && !done.rows[row].live
            &&& done.rows.len() == state.rows.len()
            &&& r != row ==> marked.rows[r] == state.rows[r] && done.rows[r] == state.rows[r]
            &&& marked.columns == state.columns
            &&& done.columns == state.columns
            &&& done.next_handle().index == handle.index
            &&& handle.generation < u32::MAX ==> done.next_handle().generation == handle.generation
                + 1
            &&& handle.generation == u32::MAX ==> done.next_handle().generation == 0
        }),
{
    assert(state.placed[handle.index as int] is Some);
    let row = state.row_of(handle)->0 as int;
    assert(!state.hole(row));
    if other.index == handle.index {
    } else if state.row_of(other) is Some {
        assert(state.placed[other.index as int] is Some);
    }
}

proof fn lemma_no_hole_before(state: CellState, from: int, r: int)
    requires
        0 <= from <= r < state.rows.len(),
    ensures
        state.first_hole(from) matches Some(h) ==> (r < h ==> !state.hole(r)),
        state.first_hole(from) is None ==> !state.hole(r),
    decreases state.rows.len() - from,
{
    if !state.hole(from) && from < r {
        lemma_no_hole_before(state, from + 1, r);
    } else if !state.hole(from) {
        lemma_first_hole(state, from + 1);
    }
}

/// Compaction leaves no hole, unless the last row is one whose retirement is pending, which it does
/// not move; and never one at the end.
pub proof fn law_compaction_closes_the_holes(state: CellState, r: int)
    requires
        0 <= r < state.compacted().rows.len(),
    ensures
        state.compacted().rows.len() <= state.rows.len(),
        state.compacted().hole(r) ==> state.compacted().rows.last().pinned && r
            < state.compacted().rows.len() - 1,
    decreases state.rows.len(),
{
    let t = state.trimmed();
    lemma_trimmed(state);
    lemma_first_hole(t, 0);
    if t.can_move() {
        law_compaction_closes_the_holes(t.after_move(t.first_hole(0)->0), r);
    } else {
        lemma_no_hole_before(t, 0, r);
    }
}

pub(crate) proof fn lemma_compacted_len(state: CellState)
    ensures
        state.compacted().rows.len() <= state.rows.len(),
    decreases state.rows.len(),
{
    let t = state.trimmed();
    lemma_trimmed(state);
    lemma_first_hole(t, 0);
    if t.can_move() {
        lemma_compacted_len(t.after_move(t.first_hole(0)->0));
    }
}

/// Trimming cuts holes off the end and touches nothing else.
proof fn lemma_trimmed_front(state: CellState, r: int)
    requires
        0 <= r < state.rows.len(),
    ensures
        r < state.trimmed().rows.len() ==> state.trimmed().rows[r] == state.rows[r],
        r >= state.trimmed().rows.len() ==> state.hole(r),
    decreases state.rows.len(),
{
    if state.hole(state.rows.len() - 1) {
        let shorter = CellState {
            rows: state.rows.drop_last(),
            columns: crate::cell::columns_cut(state.columns, state.rows.len() - 1),
            ..state
        };
        if r < shorter.rows.len() {
            lemma_trimmed_front(shorter, r);
            assert(shorter.rows[r] == state.rows[r]);
        } else {
            lemma_trimmed(shorter);
        }
    }
}

/// The moves that a compaction reports are those it made: a row that ends up elsewhere is listed with
/// where it went, every listed row went from beyond the rows that are left into a hole among them, and
/// they are listed from the last row down, each once.
pub proof fn law_moves_tell_where_rows_went(state: CellState, handle: Handle, i: int)
    requires
        state.consistent(),
        0 <= i < state.moves().len(),
    ensures
        state.row_of(handle) matches Some(row) ==> {
            &&& state.compacted().row_of(handle) matches Some(now)
            &&& now != row ==> state.moves().contains((row, now))
        },
        state.moves()[i].1 < state.compacted().rows.len() <= state.moves()[i].0
            < state.rows.len(),
        state.hole(state.moves()[i].1 as int),
        !state.hole(state.moves()[i].0 as int),
        forall|j: int| i < j < state.moves().len() ==> (#[trigger] state.moves()[j]).0
            < state.moves()[i].0,
{
    lemma_moves(state);
    if state.row_of(handle) is Some {
        law_compaction_keeps_handles(state, handle);
        lemma_moved(state, handle);
    }
}

/// A compaction that reports no move left every handle where it was.
pub proof fn law_no_move_reported_is_none_made(state: CellState, handle: Handle)
    requires
        state.consistent(),
        state.moves().len() == 0,
        state.row_of(handle) is Some,
    ensures
        state.compacted().row_of(handle) == state.row_of(handle),
{
    law_compaction_keeps_handles(state, handle);
    lemma_moved(state, handle);
}

proof fn lemma_moves(state: CellState)
    requires
        state.consistent(),
    ensures
        ({
            let moves = state.moves();
            let left = state.compacted().rows.len();
            &&& forall|i: int|
                0 <= i < moves.len() ==> (#[trigger] moves[i]).1 < left <= moves[i].0
                    < state.rows.len() && state.hole(moves[i].1 as int) && !state.hole(
                    moves[i].0 as int,
                )
            &&& forall|i: int, j: int|
                #![trigger moves[i], moves[j]]
                0 <= i < j < moves.len() ==> moves[j].0 < moves[i].0
        }),
    decreases state.rows.len(), 1int,
{
    let t = state.trimmed();
    lemma_trimmed(state);
    lemma_trim_keeps_slots(state);
    lemma_first_hole(t, 0);
    if t.can_move() {
        let h = t.first_hole(0)->0;
        let n = t.rows.len() as int;
        assert(!t.hole(n - 1));
        lemma_move(t, h);
        let next = t.after_move(h);
        lemma_moves(next);
        lemma_compacted_len(next);
        lemma_filled_hole_stays(t);
        let moves = state.moves();
        let rest = next.moves();
        assert(moves =~= seq![((n - 1) as u32, h as u32)] + rest);
        assert forall|i: int| 0 <= i < moves.len() implies (#[trigger] moves[i]).1
            < state.compacted().rows.len() <= moves[i].0 < state.rows.len() && state.hole(
            moves[i].1 as int,
        ) && !state.hole(moves[i].0 as int) by {
            if i == 0 {
                lemma_trimmed_front(state, h);
                lemma_trimmed_front(state, n - 1);
            } else {
                let (f, to) = rest[i - 1];
                assert(moves[i] == (f, to));
                assert(next.hole(to as int) && !next.hole(f as int));
                assert(to != h);
                assert(f != h) by {
                    if f == h {
                        assert(to < h);
                        lemma_no_hole_before(t, 0, to as int);
                    }
                }
                lemma_trimmed_front(state, f as int);
                lemma_trimmed_front(state, to as int);
            }
        }
        assert forall|i: int, j: int|
            #![trigger moves[i], moves[j]]
            0 <= i < j < moves.len() implies moves[j].0 < moves[i].0 by {
            assert(moves[j] == rest[j - 1]);
            if i > 0 {
                assert(moves[i] == rest[i - 1]);
            }
        }
    }
}

/// A hole that a compaction filled is among the rows that are left.
proof fn lemma_filled_hole_stays(t: CellState)
    requires
        t.consistent(),
        t.can_move(),
        t.rows.len() > 0,
        !t.hole(t.rows.len() - 1),
        t.first_hole(0)->0 < t.rows.len() - 1,
    ensures
        t.first_hole(0)->0 < t.after_move(t.first_hole(0)->0).compacted().rows.len(),
        t.after_move(t.first_hole(0)->0).compacted().row_of(
            Handle {
                index: t.rows.last().slot,
                generation: t.generations[t.rows.last().slot as int],
            },
        ) == Some(t.first_hole(0)->0 as u32),
    decreases t.rows.len(), 0int,
{
    let h = t.first_hole(0)->0;
    let n = t.rows.len() as int;
    lemma_first_hole(t, 0);
    lemma_move(t, h);
    let next = t.after_move(h);
    let slot = t.rows.last().slot;
    let handle = Handle { index: slot, generation: t.generations[slot as int] };
    assert(t.placed[t.rows[n - 1].slot as int] == Some((n - 1) as u32));
    assert(t.row_of(handle) == Some((n - 1) as u32));
    law_move_keeps_handles(t, h, handle);
    assert(next.row_of(handle) == Some(h as u32));
    law_compaction_keeps_handles(next, handle);
    lemma_moved(next, handle);
    let now = next.compacted().row_of(handle)->0;
    if now != h {
        assert(next.moves().contains((h as u32, now)));
        lemma_moves(next);
        let i = choose|i: int| 0 <= i < next.moves().len() && next.moves()[i] == (h as u32, now);
        let entry = next.moves()[i];
        assert(next.hole(entry.1 as int) && entry.1 < h);
        lemma_no_hole_before(t, 0, entry.1 as int);
    }
}

pub(crate) proof fn lemma_moved(state: CellState, handle: Handle)
    requires
        state.consistent(),
        state.row_of(handle) is Some,
    ensures
        state.compacted().row_of(handle) is Some,
        state.compacted().row_of(handle) != state.row_of(handle) ==> state.moves().contains(
            (state.row_of(handle)->0, state.compacted().row_of(handle)->0),
        ),
    decreases state.rows.len(), 2int,
{
    let t = state.trimmed();
    lemma_trimmed(state);
    lemma_trim_keeps_slots(state);
    lemma_trim_keeps_handle(state, handle);
    lemma_first_hole(t, 0);
    law_compaction_keeps_handles(state, handle);
    if t.can_move() {
        let h = t.first_hole(0)->0;
        let n = t.rows.len() as int;
        assert(!t.hole(n - 1));
        let next = t.after_move(h);
        lemma_move(t, h);
        law_move_keeps_handles(t, h, handle);
        let row = state.row_of(handle)->0;
        let moves = state.moves();
        let rest = next.moves();
        assert(moves =~= seq![((n - 1) as u32, h as u32)] + rest);
        if row == n - 1 {
            assert(t.placed[handle.index as int] is Some);
            assert(t.rows[n - 1].slot == handle.index);
            lemma_filled_hole_stays(t);
            assert(moves[0] == (row, h as u32));
        } else {
            lemma_moved(next, handle);
            let now = next.compacted().row_of(handle)->0;
            if now != row {
                let i = choose|i: int| 0 <= i < rest.len() && rest[i] == (row, now);
                assert(moves[i + 1] == (row, now));
            }
        }
    }
}

/// Compaction fills the lowest holes first: when a row moves into a hole, every hole before that one has
/// been filled by an earlier move.
pub proof fn law_lowest_holes_are_filled_first(state: CellState, i: int, r: int)
    requires
        state.consistent(),
        0 <= i < state.moves().len(),
        0 <= r < state.moves()[i].1,
        state.hole(r),
    ensures
        exists|j: int| 0 <= j < i && (#[trigger] state.moves()[j]).1 == r,
    decreases state.rows.len(),
{
    let t = state.trimmed();
    lemma_trimmed(state);
    lemma_trim_keeps_slots(state);
    lemma_first_hole(t, 0);
    let h = t.first_hole(0)->0;
    let n = t.rows.len() as int;
    assert(!t.hole(n - 1));
    lemma_move(t, h);
    let next = t.after_move(h);
    let moves = state.moves();
    let rest = next.moves();
    assert(moves =~= seq![((n - 1) as u32, h as u32)] + rest);
    lemma_moves(state);
    lemma_trimmed_front(state, r);
    if r < h {
        lemma_no_hole_before(t, 0, r);
    } else if r == h {
        assert(i > 0);
        assert(moves[0].1 == r);
    } else {
        assert(moves[i] == rest[i - 1]);
        lemma_moves(next);
        lemma_compacted_len(next);
        assert(rest[i - 1].1 < next.rows.len());
        assert(next.rows[r] == t.rows[r]);
        assert(next.hole(r));
        law_lowest_holes_are_filled_first(next, i - 1, r);
        let j = choose|j: int| 0 <= j < i - 1 && (#[trigger] rest[j]).1 == r;
        assert(moves[j + 1] == rest[j]);
    }
}
} // verus!
