//! Writes a store asks of the device, and what they do to the buffers they name.
use crate::gpu::dirty::DirtyMask;
use crate::gpu::dirty_tracked_scene_buffer::SyncStats;
use crate::gpu::runs::{coalesce, Run};
use crate::gpu::shared_buffers::ColumnWrite;
use vstd::prelude::*;

verus! {

use crate::gpu::runs::{are_runs, in_some_run, law_runs_are_unique};
use crate::gpu::shared_buffers::capped;

/// A write to one of a store's buffers.
#[derive(Debug)]
pub enum DeviceWrite {
    /// Bytes of a mirrored column.
    Column(ColumnWrite),
    /// Global slots of consecutive rows.
    SlotMirror { row: u32, slots: Vec<u32> },
    /// Generations of consecutive global slots.
    Generations { slot: u32, generations: Vec<u32> },
}

/// What a write says.
pub enum WriteState {
    Column { owner: int, offset: int, bytes: Seq<u8> },
    SlotMirror { row: int, slots: Seq<u32> },
    Generations { slot: int, generations: Seq<u32> },
}

impl View for DeviceWrite {
    type V = WriteState;

    open spec fn view(&self) -> WriteState {
        match self {
            DeviceWrite::Column(w) => WriteState::Column {
                owner: w.owner as int,
                offset: w.offset as int,
                bytes: w.bytes@,
            },
            DeviceWrite::SlotMirror { row, slots } => WriteState::SlotMirror {
                row: *row as int,
                slots: slots@,
            },
            DeviceWrite::Generations { slot, generations } => WriteState::Generations {
                slot: *slot as int,
                generations: generations@,
            },
        }
    }
}

/// What several writes say, in order.
pub open spec fn writes_of(writes: Seq<DeviceWrite>) -> Seq<WriteState> {
    Seq::new(writes.len(), |i: int| writes[i]@)
}

impl WriteState {
    /// Bytes written.
    pub open spec fn len(self) -> int {
        match self {
            WriteState::Column { bytes, .. } => bytes.len() as int,
            WriteState::SlotMirror { slots, .. } => 4 * slots.len() as int,
            WriteState::Generations { generations, .. } => 4 * generations.len() as int,
        }
    }
}

/// Bytes written by all writes.
pub open spec fn total_len(writes: Seq<WriteState>) -> int
    decreases writes.len(),
{
    if writes.len() == 0 {
        0
    } else {
        total_len(writes.drop_last()) + writes.last().len()
    }
}

/// What the device holds: the bytes of each column buffer, the global slot of each row, and the
/// generation of each global slot.
pub struct DeviceState {
    pub columns: Seq<Seq<u8>>,
    pub slot_mirror: Seq<u32>,
    pub generations: Seq<u32>,
}

/// `s` with `data` in place of what it held from `at` on.
pub open spec fn overwritten<T>(s: Seq<T>, at: int, data: Seq<T>) -> Seq<T> {
    Seq::new(
        s.len(),
        |i: int|
            if at <= i < at + data.len() {
                data[i - at]
            } else {
                s[i]
            },
    )
}

impl DeviceState {
    /// The device after a write.
    pub open spec fn written(self, w: WriteState) -> DeviceState {
        match w {
            WriteState::Column { owner, offset, bytes } => DeviceState {
                columns: self.columns.update(
                    owner,
                    overwritten(self.columns[owner], offset, bytes),
                ),
                ..self
            },
            WriteState::SlotMirror { row, slots } => DeviceState {
                slot_mirror: overwritten(self.slot_mirror, row, slots),
                ..self
            },
            WriteState::Generations { slot, generations } => DeviceState {
                generations: overwritten(self.generations, slot, generations),
                ..self
            },
        }
    }

    /// The device after several writes.
    pub open spec fn after(self, writes: Seq<WriteState>) -> DeviceState
        decreases writes.len(),
    {
        if writes.len() == 0 {
            self
        } else {
            self.after(writes.drop_last()).written(writes.last())
        }
    }
}

/// Writes one after the other.
pub proof fn lemma_after_concat(device: DeviceState, a: Seq<WriteState>, b: Seq<WriteState>)
    ensures
        device.after(a + b) == device.after(a).after(b),
    decreases b.len(),
{
    if b.len() == 0 {
        assert(a + b =~= a);
    } else {
        assert((a + b).drop_last() =~= a + b.drop_last());
        assert((a + b).last() == b.last());
        lemma_after_concat(device, a, b.drop_last());
    }
}

/// The maximal runs of the marked rows.
pub open spec fn runs_of(marks: Seq<bool>) -> Seq<Run> {
    choose|runs: Seq<Run>| are_runs(runs, marks)
}

/// The maximal runs of the marked rows among the first `n`.
pub(crate) fn marked_runs(mask: &DirtyMask, n: u32) -> (runs: Vec<Run>)
    requires
        mask.wf(),
        n <= mask@.len(),
    ensures
        runs@ == runs_of(mask@.take(n as int)),
        are_runs(runs@, mask@.take(n as int)),
{
    let runs = coalesce(mask, n);
    proof {
        let marks = mask@.take(n as int);
        assert(are_runs(runs@, marks));
        assert(are_runs(runs_of(marks), marks));
        law_runs_are_unique(runs@, runs_of(marks), marks);
    }
    runs
}

/// What a buffer of `k` units per row holds after the rows of `runs`, counted from row `base`,
/// were copied from `source`.
pub open spec fn runs_copied<T>(
    held: Seq<T>,
    source: Seq<T>,
    base: int,
    k: int,
    runs: Seq<Run>,
) -> Seq<T>
    decreases runs.len(),
{
    if runs.len() == 0 {
        held
    } else {
        let run = runs.last();
        overwritten(
            runs_copied(held, source, base, k, runs.drop_last()),
            (base + run.0) * k,
            source.subrange(run.0 * k, run.1 * k),
        )
    }
}

/// Unit `x` belongs to row `base + r` exactly if it lies among that row's units.
proof fn lemma_unit_in_rows(x: int, base: int, k: int, first: int, end: int)
    requires
        k > 0,
        first <= end,
    ensures
        ((base + first) * k <= x < (base + end) * k) == (first <= x / k - base < end),
{
    assert(x == k * (x / k) + x % k && 0 <= x % k < k) by (nonlinear_arith)
        requires
            k > 0,
    ;
    let q = x / k;
    if (base + first) * k <= x {
        assert(base + first <= q) by (nonlinear_arith)
            requires
                (base + first) * k <= x,
                x < k * q + k,
                k > 0,
        ;
    } else {
        assert(q < base + first) by (nonlinear_arith)
            requires
                (base + first) * k > x,
                x >= k * q,
                k > 0,
        ;
    }
    if x < (base + end) * k {
        assert(q < base + end) by (nonlinear_arith)
            requires
                (base + end) * k > x,
                x >= k * q,
                k > 0,
        ;
    } else {
        assert(base + end <= q) by (nonlinear_arith)
            requires
                (base + end) * k <= x,
                x < k * q + k,
                k > 0,
        ;
    }
}

/// Exactly the units of the rows in `runs` come from `source`; all others stay.
pub proof fn lemma_runs_copied<T>(
    held: Seq<T>,
    source: Seq<T>,
    base: int,
    k: int,
    runs: Seq<Run>,
    x: int,
)
    requires
        k > 0,
        0 <= x < held.len(),
        forall|i: int|
            0 <= i < runs.len() ==> (#[trigger] runs[i]).0 <= runs[i].1 && runs[i].1 * k
                <= source.len(),
    ensures
        runs_copied(held, source, base, k, runs).len() == held.len(),
        runs_copied(held, source, base, k, runs)[x] == if in_some_run(runs, x / k - base) {
            source[x - base * k]
        } else {
            held[x]
        },
    decreases runs.len(),
{
    if runs.len() > 0 {
        let run = runs.last();
        let before = runs.drop_last();
        assert(forall|i: int| 0 <= i < before.len() ==> before[i] == runs[i]);
        lemma_runs_copied(held, source, base, k, before, x);
        lemma_unit_in_rows(x, base, k, run.0 as int, run.1 as int);
        let from = run.0 * k;
        let to = run.1 * k;
        assert(0 <= from <= to) by (nonlinear_arith)
            requires
                from == run.0 * k,
                to == run.1 * k,
                0 <= run.0 <= run.1,
                k > 0,
        ;
        assert((base + run.0) * k == base * k + from && (base + run.1) * k == base * k + to)
            by (nonlinear_arith)
            requires
                from == run.0 * k,
                to == run.1 * k,
        ;
        let r = x / k - base;
        if run.0 <= r < run.1 {
            assert(runs[runs.len() - 1].0 <= r < runs[runs.len() - 1].1);
        } else {
            assert(in_some_run(runs, r) == in_some_run(before, r)) by {
                if in_some_run(runs, r) {
                    let i = choose|i: int|
                        0 <= i < runs.len() && (#[trigger] runs[i]).0 <= r < runs[i].1;
                    assert(before[i].0 <= r < before[i].1);
                }
                if in_some_run(before, r) {
                    let i = choose|i: int|
                        0 <= i < before.len() && (#[trigger] before[i]).0 <= r < before[i].1;
                    assert(runs[i].0 <= r < runs[i].1);
                }
            }
        }
    }
}

/// The bytes of `n` words.
fn words_len(n: usize) -> (len: u64)
    ensures
        len == capped(4 * n),
{
    if n as u64 > u64::MAX / 4 {
        u64::MAX
    } else {
        4 * (n as u64)
    }
}

/// How many writes there are, and how many bytes they write together; a number a counter cannot
/// show is shown as its maximum.
pub(crate) fn tally(writes: &Vec<DeviceWrite>) -> (stats: SyncStats)
    ensures
        stats.ranges == capped(writes@.len() as int),
        stats.bytes == capped(total_len(writes_of(writes@))),
{
    let mut ranges: u64 = 0;
    let mut bytes: u64 = 0;
    let mut i: usize = 0;
    while i < writes.len()
        invariant
            i <= writes@.len(),
            ranges == capped(i as int),
            bytes == capped(total_len(writes_of(writes@).take(i as int))),
        decreases writes@.len() - i,
    {
        proof {
            let all = writes_of(writes@);
            assert(all.take(i + 1).drop_last() =~= all.take(i as int));
            assert(all.take(i + 1).last() == writes@[i as int]@);
        }
        let len: u64 = match &writes[i] {
            DeviceWrite::Column(w) => w.bytes.len() as u64,
            DeviceWrite::SlotMirror { slots, .. } => words_len(slots.len()),
            DeviceWrite::Generations { generations, .. } => words_len(generations.len()),
        };
        ranges = ranges.saturating_add(1);
        bytes = bytes.saturating_add(len);
        i = i + 1;
    }
    assert(writes_of(writes@).take(i as int) =~= writes_of(writes@));
    SyncStats { ranges, bytes }
}

/// The bytes of several writes add up; a write of words is four bytes a word.
pub proof fn law_written_bytes_add_up(a: Seq<WriteState>, b: Seq<WriteState>)
    ensures
        total_len(a + b) == total_len(a) + total_len(b),
        a.len() == 0 ==> total_len(a) == 0,
        a.len() == 1 ==> total_len(a) == match a[0] {
            WriteState::Column { bytes, .. } => bytes.len() as int,
            WriteState::SlotMirror { slots, .. } => 4 * slots.len() as int,
            WriteState::Generations { generations, .. } => 4 * generations.len() as int,
        },
    decreases b.len(),
{
    reveal_with_fuel(total_len, 2);
    if b.len() > 0 {
        law_written_bytes_add_up(a, b.drop_last());
        assert((a + b).drop_last() =~= a + b.drop_last());
    } else {
        assert(a + b =~= a);
    }
}

/// Writes take effect one after the other; each changes the units it covers, in what it writes to, and
/// nothing else.
pub proof fn law_write_covers_its_units(device: DeviceState, write: WriteState, x: int)
    ensures
        ({
            let after = device.after(seq![write]);
            match write {
                WriteState::Column { owner, offset, bytes } => {
                    &&& after.slot_mirror == device.slot_mirror
                    &&& after.generations == device.generations
                    &&& 0 <= owner < device.columns.len() && 0 <= x < device.columns[owner].len()
                        ==> after.columns[owner][x] == if offset <= x < offset + bytes.len() {
                        bytes[x - offset]
                    } else {
                        device.columns[owner][x]
                    }
                },
                WriteState::SlotMirror { row, slots } => {
                    &&& after.columns == device.columns
                    &&& after.generations == device.generations
                    &&& 0 <= x < device.slot_mirror.len() ==> after.slot_mirror[x] == if row <= x
                        < row + slots.len() {
                        slots[x - row]
                    } else {
                        device.slot_mirror[x]
                    }
                },
                WriteState::Generations { slot, generations } => {
                    &&& after.columns == device.columns
                    &&& after.slot_mirror == device.slot_mirror
                    &&& 0 <= x < device.generations.len() ==> after.generations[x] == if slot <= x
                        < slot + generations.len() {
                        generations[x - slot]
                    } else {
                        device.generations[x]
                    }
                },
            }
        }),
{
    reveal_with_fuel(DeviceState::after, 2);
    assert(seq![write].drop_last() =~= seq![]);
    assert(device.after(seq![]) == device);
}

} // verus!
