//! Growable, dirty-tracked device column.
//!
//! Writes are recorded in a shadow indexed by row and marked; a flush asks the device for the
//! marked rows, coalesced by strict adjacency, and clears the marks.
use crate::gpu::dirty::DirtyMask;
use crate::gpu::dynamic_buffer::{CapacityError, DynamicGpuBuffer, Upload};
use crate::gpu::runs::{coalesce, Run};
use vstd::prelude::*;

verus! {

use crate::gpu::dynamic_buffer::DynamicState;
use crate::gpu::runs::{
    are_runs, in_some_run, law_runs_count_the_marks, lemma_marks_are_sets, lemma_nothing_marked,
    marked_rows, marked_set, rows_in, run_starts, start_set,
};
use vstd::arithmetic::power2::pow2;

/// How much a sync wrote.
#[derive(Clone, Copy, Debug, PartialEq, Eq, Structural)]
pub struct SyncStats {
    /// Device writes.
    pub ranges: u64,
    /// Bytes written.
    pub bytes: u64,
}

/// What a flush asks of the device: first the growth, then the uploads in order.
#[derive(Debug)]
pub struct FlushPlan {
    /// The new capacity, if the buffer must be replaced by a larger one that keeps its contents.
    pub grown_to: Option<u32>,
    pub uploads: Vec<Upload>,
    pub stats: SyncStats,
}

/// What a dirty-tracked column holds.
#[verifier::ext_equal]
pub struct ShadowState {
    pub buffer: DynamicState,
    /// The rows' bytes, row after row.
    pub shadow: Seq<u8>,
    /// Whether each row awaits a flush.
    pub dirty: Seq<bool>,
}

/// The smallest of `len`, `2 * len`, `4 * len`, ... beyond `row`.
pub open spec fn doubled_past(len: int, row: int) -> int
    decreases
            (if len > row {
                0
            } else {
                row + 1 - len
            }),
{
    if len <= 0 || len > row {
        len
    } else {
        doubled_past(2 * len, row)
    }
}

/// `bytes` with `data` written over it at `at`.
pub open spec fn spliced(bytes: Seq<u8>, at: int, data: Seq<u8>) -> Seq<u8> {
    Seq::new(
        bytes.len(),
        |i: int|
            if at <= i < at + data.len() {
                data[i - at]
            } else {
                bytes[i]
            },
    )
}

/// `flags` cut or extended with `false` to length `n`.
pub open spec fn resized_flags(flags: Seq<bool>, n: int) -> Seq<bool> {
    Seq::new(n as nat, |i: int| i < flags.len() && flags[i])
}

impl ShadowState {
    pub open spec fn size(self) -> int {
        self.buffer.elem_size as int
    }

    pub open spec fn consistent(self) -> bool {
        &&& self.buffer.elem_size > 0
        &&& self.dirty.len() <= u32::MAX
        &&& self.shadow.len() == self.dirty.len() * self.size()
    }

    /// The bytes of `row`.
    pub open spec fn row(self, row: int) -> Seq<u8> {
        self.shadow.subrange(row * self.size(), (row + 1) * self.size())
    }

    /// The column with at least `n` rows, the new ones zero.
    pub open spec fn grown(self, n: int) -> ShadowState {
        if n <= self.dirty.len() {
            self
        } else {
            ShadowState {
                shadow: Seq::new(
                    (n * self.size()) as nat,
                    |i: int|
                        if i < self.shadow.len() {
                            self.shadow[i]
                        } else {
                            0u8
                        },
                ),
                dirty: resized_flags(self.dirty, n),
                ..self
            }
        }
    }

    /// How many rows a mark of `row` makes room for.
    pub open spec fn rows_for(self, row: int) -> int {
        if row < self.dirty.len() {
            self.dirty.len() as int
        } else {
            doubled_past(
                if self.dirty.len() == 0 {
                    1
                } else {
                    self.dirty.len() as int
                },
                row,
            )
        }
    }

    /// The column after `row` is recorded as `data`.
    pub open spec fn recorded(self, row: int, data: Seq<u8>) -> ShadowState {
        let grown = self.grown(self.rows_for(row));
        ShadowState {
            shadow: spliced(grown.shadow, row * self.size(), data),
            dirty: grown.dirty.update(row, true),
            ..grown
        }
    }

    /// The device can hold the rows there are.
    pub open spec fn can_flush(self) -> bool {
        self.dirty.len() <= self.buffer.limit
    }

    /// The column cut to `n` rows.
    pub open spec fn truncated(self, n: int) -> ShadowState {
        ShadowState {
            buffer: self.buffer.shrunk(n),
            shadow: self.shadow.take(n * self.size()),
            dirty: self.dirty.take(n),
        }
    }

    /// The device writes a flush takes: one for each stretch of marked rows.
    pub open spec fn pending_ranges(self) -> int {
        run_starts(self.dirty, self.dirty.len() as int)
    }

    /// The bytes a flush writes: the marked rows.
    pub open spec fn pending_bytes(self) -> int {
        marked_rows(self.dirty, self.dirty.len() as int) * self.size()
    }

    /// The column after a flush.
    pub open spec fn flushed(self) -> ShadowState {
        ShadowState {
            buffer: self.buffer.grown(self.dirty.len() as int),
            dirty: Seq::new(self.dirty.len(), |i: int| false),
            ..self
        }
    }
}

/// `uploads` write exactly the rows of `runs`, in order, as the shadow has them.
pub open spec fn uploads_runs(uploads: Seq<Upload>, runs: Seq<Run>, state: ShadowState) -> bool {
    &&& uploads.len() == runs.len()
    &&& forall|i: int|
        0 <= i < uploads.len() ==> (#[trigger] uploads[i]).offset == runs[i].0 * state.size()
            && uploads[i].bytes@ == state.shadow.subrange(
            runs[i].0 * state.size(),
            runs[i].1 * state.size(),
        )
}

/// What device memory holds after the first `n` uploads.
pub open spec fn applied(device: Seq<u8>, uploads: Seq<Upload>, n: nat) -> Seq<u8>
    decreases n,
{
    if n == 0 {
        device
    } else {
        spliced(
            applied(device, uploads, (n - 1) as nat),
            uploads[n - 1].offset as int,
            uploads[n - 1].bytes@,
        )
    }
}

/// A growable, dirty-tracked column of equally sized rows.
pub struct DirtyTrackedSceneBuffer {
    buf: DynamicGpuBuffer,
    shadow: Vec<u8>,
    dirty: DirtyMask,
}

impl View for DirtyTrackedSceneBuffer {
    type V = ShadowState;

    closed spec fn view(&self) -> ShadowState {
        ShadowState { buffer: self.buf@, shadow: self.shadow@, dirty: self.dirty@ }
    }
}

proof fn lemma_row_range(rows: int, row: int, size: int)
    requires
        0 <= row < rows,
        size > 0,
    ensures
        0 <= row * size,
        row * size + size == (row + 1) * size,
        (row + 1) * size <= rows * size,
{
    assert(row * size + size == (row + 1) * size) by (nonlinear_arith);
    assert((row + 1) * size <= rows * size) by (nonlinear_arith)
        requires
            row + 1 <= rows,
            size > 0,
    ;
    assert(0 <= row * size) by (nonlinear_arith)
        requires
            row >= 0,
            size > 0,
    ;
}

proof fn lemma_doubled_past(len: int, row: int)
    requires
        len > 0,
    ensures
        doubled_past(len, row) >= len,
        doubled_past(len, row) > row,
    decreases
            (if len > row {
                0
            } else {
                row + 1 - len
            }),
{
    if len <= row {
        lemma_doubled_past(2 * len, row);
    }
}

impl DirtyTrackedSceneBuffer {
    /// The invariant every operation keeps.
    pub closed spec fn wf(&self) -> bool {
        &&& self@.consistent()
        &&& self.buf.wf()
        &&& self.dirty.wf()
    }

    /// The invariant gives a consistent state.
    pub proof fn lemma_wf(&self)
        requires
            self.wf(),
        ensures
            self@.consistent(),
    {
    }

    /// A column of `initial_capacity` zero rows of `elem_size` bytes, none marked.
    pub fn new(elem_size: u32, initial_capacity: u32, limit: u32) -> (buffer: Self)
        requires
            elem_size > 0,
            initial_capacity <= limit,
            initial_capacity * elem_size <= usize::MAX,
        ensures
            buffer.wf(),
            buffer@ == (ShadowState {
                buffer: DynamicState { elem_size, capacity: initial_capacity, limit, epoch: 0 },
                shadow: Seq::new((initial_capacity * elem_size) as nat, |i: int| 0u8),
                dirty: Seq::new(initial_capacity as nat, |i: int| false),
            }),
    {
        let buf = DynamicGpuBuffer::new(elem_size, initial_capacity, limit);
        assert(0 <= initial_capacity * elem_size) by (nonlinear_arith)
            requires
                initial_capacity >= 0,
                elem_size >= 0,
        ;
        let total: usize = (initial_capacity as usize) * (elem_size as usize);
        let mut shadow: Vec<u8> = Vec::new();
        while shadow.len() < total
            invariant
                shadow@.len() <= total,
                forall|i: int| 0 <= i < shadow@.len() ==> shadow@[i] == 0u8,
            decreases total - shadow@.len(),
        {
            shadow.push(0);
        }
        let dirty = DirtyMask::new(initial_capacity);
        let buffer = DirtyTrackedSceneBuffer { buf, shadow, dirty };
        assert(buffer@.shadow =~= Seq::new(
            (initial_capacity * elem_size) as nat,
            |i: int| 0u8,
        ));
        buffer
    }

    /// A mask of `n` rows with the marks of `self` that fit.
    fn remasked(&self, n: u32) -> (mask: DirtyMask)
        requires
            self.wf(),
        ensures
            mask.wf(),
            mask@ == resized_flags(self@.dirty, n as int),
    {
        let mut mask = DirtyMask::new(n);
        let old_rows: u32 = self.dirty.capacity();
        let mut row: u32 = 0;
        while row < old_rows && row < n
            invariant
                self.wf(),
                mask.wf(),
                old_rows == self@.dirty.len(),
                row <= old_rows,
                row <= n,
                mask@.len() == n,
                forall|i: int| 0 <= i < n ==> mask@[i] == (i < row && self@.dirty[i]),
            decreases n - row,
        {
            assert(row / 64 < (self.dirty@.len() + 63) / 64);
            if self.dirty.is_marked(row) {
                mask.mark(row);
            }
            row = row + 1;
        }
        assert(mask@ =~= resized_flags(self@.dirty, n as int));
        mask
    }

    /// Makes room for `new_len` rows in the shadow.
    fn grow_shadow_to(&mut self, new_len: u32)
        requires
            old(self).wf(),
            new_len * old(self)@.size() <= usize::MAX,
        ensures
            final(self).wf(),
            final(self)@ == old(self)@.grown(new_len as int),
    {
        if new_len <= self.dirty.capacity() {
            return ;
        }
        let ghost size = self@.size();
        assert(self@.dirty.len() * size <= new_len * size) by (nonlinear_arith)
            requires
                self@.dirty.len() <= new_len,
                size > 0,
        ;
        let mask = self.remasked(new_len);
        let elem_size: u32 = self.buf.elem_size();
        assert(0 <= new_len * size) by (nonlinear_arith)
            requires
                new_len >= 0,
                size >= 0,
        ;
        let total: usize = (new_len as usize) * (elem_size as usize);
        while self.shadow.len() < total
            invariant
                old(self)@.shadow.len() <= self.shadow@.len() <= total,
                self.buf == old(self).buf,
                self.dirty == old(self).dirty,
                forall|i: int|
                    0 <= i < self.shadow@.len() ==> self.shadow@[i] == (if i
                        < old(self)@.shadow.len() {
                        old(self)@.shadow[i]
                    } else {
                        0u8
                    }),
            decreases total - self.shadow@.len(),
        {
            self.shadow.push(0);
        }
        self.dirty = mask;
        assert(self@ =~= old(self)@.grown(new_len as int));
    }

    /// Room for a row takes the row in, and the rows there are fit in memory.
    pub proof fn lemma_rows_for(&self, row: u32)
        requires
            self.wf(),
        ensures
            row < self@.rows_for(row as int),
            self@.dirty.len() <= self@.rows_for(row as int),
            self@.dirty.len() <= u32::MAX,
            self@.dirty.len() * self@.size() <= usize::MAX,
    {
        let rows = self@.dirty.len() as int;
        if row >= rows {
            lemma_doubled_past(
                if rows == 0 {
                    1
                } else {
                    rows
                },
                row as int,
            );
        }
        self.lemma_wf();
        assert(self@.shadow.len() == self.shadow.len());
    }

    /// Records `data` as row `row` and marks it, making room by doubling.
    pub fn mark_dirty(&mut self, row: u32, data: &[u8])
        requires
            old(self).wf(),
            data@.len() == old(self)@.size(),
            old(self)@.rows_for(row as int) <= u32::MAX,
            old(self)@.rows_for(row as int) * old(self)@.size() <= usize::MAX,
        ensures
            final(self).wf(),
            final(self)@ == old(self)@.recorded(row as int, data@),
    {
        let ghost size = self@.size();
        let ghost target = self@.rows_for(row as int);
        let rows: u32 = self.dirty.capacity();
        if row >= rows {
            let mut new_len: u32 = if rows == 0 {
                1
            } else {
                rows
            };
            proof {
                lemma_doubled_past(new_len as int, row as int);
            }
            while new_len <= row
                invariant
                    new_len > 0,
                    target == doubled_past(new_len as int, row as int),
                    target <= u32::MAX,
                decreases
                        (if new_len > row {
                            0
                        } else {
                            row + 1 - new_len
                        }),
            {
                proof {
                    lemma_doubled_past(2 * new_len, row as int);
                }
                new_len = new_len * 2;
            }
            self.grow_shadow_to(new_len);
        }
        let ghost grown = self@;
        assert(grown == old(self)@.grown(target)) by {
            if row < rows {
                assert(old(self)@.grown(target) == old(self)@);
            }
        }
        let elem_size: u32 = self.buf.elem_size();
        proof {
            lemma_row_range(grown.dirty.len() as int, row as int, size);
        }
        assert(self.shadow.len() <= usize::MAX);
        let at: usize = (row as usize) * (elem_size as usize);
        let mut i: usize = 0;
        while i < data.len()
            invariant
                i <= data@.len(),
                data@.len() == size,
                at == row * size,
                at + size <= self.shadow@.len(),
                self.shadow@.len() == grown.shadow.len(),
                self.buf@ == grown.buffer,
                self.buf.wf(),
                self.dirty@ == grown.dirty,
                self.dirty.wf(),
                forall|k: int|
                    0 <= k < self.shadow@.len() ==> self.shadow@[k] == (if at <= k < at + i {
                        data@[k - at]
                    } else {
                        grown.shadow[k]
                    }),
            decreases data@.len() - i,
        {
            assert(self.shadow.len() <= usize::MAX);
            self.shadow.set(at + i, data[i]);
            i = i + 1;
        }
        self.dirty.mark(row);
        assert(self@ =~= old(self)@.recorded(row as int, data@));
    }

    /// The bytes recorded for `row`, if the shadow reaches that far.
    pub fn read_row_bytes(&self, row: u32) -> (bytes: Option<Vec<u8>>)
        requires
            self.wf(),
        ensures
            match bytes {
                Some(bytes) => row < self@.dirty.len() && bytes@ == self@.row(row as int),
                None => row >= self@.dirty.len(),
            },
    {
        if row >= self.dirty.capacity() {
            return None;
        }
        let elem_size: u32 = self.buf.elem_size();
        proof {
            lemma_row_range(self@.dirty.len() as int, row as int, self@.size());
        }
        assert(self.shadow.len() <= usize::MAX);
        let start: usize = (row as usize) * (elem_size as usize);
        let end: usize = start + elem_size as usize;
        Some(copy_range(&self.shadow, start, end))
    }

    /// Makes room for `capacity` rows in the shadow and on the device. Refused if and only if the
    /// device cannot hold them; the shadow has grown all the same.
    pub fn reserve(&mut self, capacity: u32) -> (r: Result<Option<u32>, CapacityError>)
        requires
            old(self).wf(),
            capacity * old(self)@.size() <= usize::MAX,
        ensures
            final(self).wf(),
            ({
                let grown = old(self)@.grown(capacity as int);
                match r {
                    Ok(grown_to) => {
                        &&& capacity <= old(self)@.buffer.limit
                        &&& final(self)@ == ShadowState {
                            buffer: grown.buffer.grown(capacity as int),
                            ..grown
                        }
                        &&& grown_to == if old(self)@.buffer.capacity < capacity {
                            Some(final(self)@.buffer.capacity)
                        } else {
                            None
                        }
                    },
                    Err(e) => {
                        &&& capacity > old(self)@.buffer.limit
                        &&& final(self)@ == grown
                        &&& e == (CapacityError {
                            requested: capacity as u64,
                            limit: old(self)@.buffer.limit,
                        })
                    },
                }
            }),
    {
        self.grow_shadow_to(capacity);
        let ghost grown = self@;
        if self.buf.capacity() < capacity {
            match self.buf.ensure_capacity(capacity as u64) {
                Ok(()) => {},
                Err(e) => {
                    assert(self@ =~= grown);
                    return Err(e);
                },
            }
            assert(self@ =~= ShadowState {
                buffer: grown.buffer.grown(capacity as int),
                ..grown
            });
            Ok(Some(self.buf.capacity()))
        } else {
            assert(self@ =~= ShadowState {
                buffer: grown.buffer.grown(capacity as int),
                ..grown
            });
            Ok(None)
        }
    }

    /// Cuts the shadow and the device buffer to `target` rows. The result tells whether the device
    /// buffer got smaller; nothing happens if the shadow is not longer than `target`.
    pub fn shrink_to_fit(&mut self, target: u32) -> (shrank: bool)
        requires
            old(self).wf(),
        ensures
            final(self).wf(),
            target >= old(self)@.dirty.len() ==> !shrank && final(self)@ == old(self)@,
            target < old(self)@.dirty.len() ==> {
                &&& final(self)@ == old(self)@.truncated(target as int)
                &&& shrank == (target < old(self)@.buffer.capacity)
            },
    {
        if target >= self.dirty.capacity() {
            return false;
        }
        let mask = self.remasked(target);
        let elem_size: u32 = self.buf.elem_size();
        proof {
            lemma_row_range(self@.dirty.len() as int, target as int, self@.size());
        }
        assert(self.shadow.len() <= usize::MAX);
        let keep: usize = (target as usize) * (elem_size as usize);
        self.shadow.truncate(keep);
        self.dirty = mask;
        let shrank: bool = self.buf.shrink_to(target);
        assert(self@ =~= old(self)@.truncated(target as int));
        shrank
    }

    /// Asks the device for every marked row, coalesced, and clears the marks. The device buffer
    /// grows first if it is shorter than the shadow.
    pub fn flush(&mut self) -> (plan: FlushPlan)
        requires
            old(self).wf(),
            old(self)@.can_flush(),
        ensures
            final(self).wf(),
            final(self)@ == old(self)@.flushed(),
            plan.grown_to == if old(self)@.buffer.capacity < old(self)@.dirty.len() {
                Some(final(self)@.buffer.capacity)
            } else {
                None
            },
            exists|runs: Seq<Run>| #[trigger]
                are_runs(runs, old(self)@.dirty) && uploads_runs(
                    plan.uploads@,
                    runs,
                    old(self)@,
                ) && plan.stats.ranges == runs.len() && plan.stats.bytes == rows_in(runs)
                    * old(self)@.size(),
            plan.stats.ranges == old(self)@.pending_ranges(),
            plan.stats.bytes == old(self)@.pending_bytes(),
    {
        let ghost start = self@;
        let rows: u32 = self.dirty.capacity();
        let mut grown_to: Option<u32> = None;
        if self.buf.capacity() < rows {
            match self.buf.ensure_capacity(rows as u64) {
                Ok(()) => {},
                Err(_) => {
                    assert(false);
                },
            }
            grown_to = Some(self.buf.capacity());
        }
        let runs = coalesce(&self.dirty, rows);
        assert(start.dirty.take(rows as int) =~= start.dirty);
        let elem_size: u32 = self.buf.elem_size();
        let ghost size = start.size();
        let mut uploads: Vec<Upload> = Vec::new();
        let mut bytes: u64 = 0;
        let mut i: usize = 0;
        while i < runs.len()
            invariant
                i <= runs@.len(),
                uploads@.len() == i,
                are_runs(runs@, start.dirty),
                start.consistent(),
                size == start.size(),
                elem_size == size,
                rows == start.dirty.len(),
                self.shadow@ == start.shadow,
                self.buf@ == start.buffer.grown(start.dirty.len() as int),
                self.buf.wf(),
                self.dirty@ == start.dirty,
                self.dirty.wf(),
                forall|k: int|
                    0 <= k < i ==> (#[trigger] uploads@[k]).offset == runs@[k].0 * size
                        && uploads@[k].bytes@ == start.shadow.subrange(
                        runs@[k].0 * size,
                        runs@[k].1 * size,
                    ),
                bytes == rows_in(runs@.take(i as int)) * size,
                0 <= rows_in(runs@.take(i as int)) <= (if i == 0 {
                    0
                } else {
                    runs@[i - 1].1 as int
                }),
            decreases runs@.len() - i,
        {
            let (first, end) = runs[i];
            assert(runs@[i as int] == (first, end));
            proof {
                if i > 0 {
                    assert(runs@[i - 1].1 < runs@[i as int].0);
                }
                lemma_row_range(rows as int, first as int, size);
                lemma_row_range(rows as int, end - 1, size);
                assert(runs@.take(i + 1).drop_last() =~= runs@.take(i as int));
                assert(first * size <= end * size) by (nonlinear_arith)
                    requires
                        first <= end,
                        size > 0,
                ;
                assert(rows * size <= u32::MAX * u32::MAX) by (nonlinear_arith)
                    requires
                        0 <= rows <= u32::MAX,
                        0 <= size <= u32::MAX,
                ;
            }
            assert(self.shadow.len() <= usize::MAX);
            let from: usize = (first as usize) * (elem_size as usize);
            let to: usize = (end as usize) * (elem_size as usize);
            let chunk = copy_range(&self.shadow, from, to);
            let ghost done = rows_in(runs@.take(i as int));
            let ghost width = (end - first) as int;
            proof {
                assert(done * size + width * size == (done + width) * size) by (nonlinear_arith);
                assert((done + width) * size <= rows * size) by (nonlinear_arith)
                    requires
                        0 <= done + width <= rows,
                        size > 0,
                ;
                assert(0 <= width * size) by (nonlinear_arith)
                    requires
                        width >= 0,
                        size > 0,
                ;
            }
            uploads.push(Upload { offset: from as u64, bytes: chunk });
            bytes = bytes + ((end - first) as u64) * (elem_size as u64);
            i = i + 1;
        }
        assert(runs@.take(runs@.len() as int) =~= runs@);
        self.dirty.clear_all();
        assert(self@ =~= start.flushed());
        let stats = SyncStats { ranges: runs.len() as u64, bytes };
        let plan = FlushPlan { grown_to, uploads, stats };
        assert(are_runs(runs@, start.dirty) && uploads_runs(plan.uploads@, runs@, start));
        proof {
            law_runs_count_the_marks(runs@, start.dirty);
        }
        plan
    }

    /// Rows the shadow holds.
    pub fn rows(&self) -> (rows: u32)
        ensures
            rows == self@.dirty.len(),
    {
        self.dirty.capacity()
    }

    /// Bytes per row.
    pub fn elem_size(&self) -> (size: u32)
        ensures
            size == self@.buffer.elem_size,
    {
        self.buf.elem_size()
    }

    /// Rows the device buffer holds.
    pub fn capacity(&self) -> (capacity: u32)
        ensures
            capacity == self@.buffer.capacity,
    {
        self.buf.capacity()
    }

    /// Whether the device can hold the rows there are.
    pub fn can_flush(&self) -> (can: bool)
        requires
            self.wf(),
        ensures
            can == self@.can_flush(),
    {
        self.dirty.capacity() <= self.buf.limit()
    }

    /// The number of replacements of the device buffer so far.
    pub fn epoch(&self) -> (epoch: u64)
        ensures
            epoch == self@.buffer.epoch,
    {
        self.buf.epoch()
    }
}

/// The bytes `[from, to)`.
pub(crate) fn copy_range(bytes: &Vec<u8>, from: usize, to: usize) -> (out: Vec<u8>)
    requires
        from <= to <= bytes@.len(),
    ensures
        out@ == bytes@.subrange(from as int, to as int),
{
    let mut out: Vec<u8> = Vec::new();
    let mut i: usize = from;
    while i < to
        invariant
            from <= i <= to <= bytes@.len(),
            out@ == bytes@.subrange(from as int, i as int),
        decreases to - i,
    {
        out.push(bytes[i]);
        i = i + 1;
        assert(out@ =~= bytes@.subrange(from as int, i as int));
    }
    out
}

/// Byte `x` lies in rows `[first, end)` exactly if its row does.
proof fn lemma_byte_row(x: int, first: int, end: int, size: int)
    requires
        x >= 0,
        size > 0,
    ensures
        first * size <= x < end * size <==> first <= x / size < end,
{
    vstd::arithmetic::div_mod::lemma_fundamental_div_mod(x, size);
    vstd::arithmetic::div_mod::lemma_mod_bound(x, size);
    let q = x / size;
    let m = x % size;
    assert(first * size <= x <==> first <= q) by (nonlinear_arith)
        requires
            x == size * q + m,
            0 <= m < size,
            size > 0,
    ;
    assert(x < end * size <==> q < end) by (nonlinear_arith)
        requires
            x == size * q + m,
            0 <= m < size,
            size > 0,
    ;
}

/// A flush makes the device hold the shadow: if the device already agreed with it on every
/// unmarked row, it agrees on every row once the uploads are applied.
pub proof fn law_flush_makes_device_match(
    device: Seq<u8>,
    state: ShadowState,
    uploads: Seq<Upload>,
    runs: Seq<Run>,
)
    requires
        state.consistent(),
        are_runs(runs, state.dirty),
        uploads_runs(uploads, runs, state),
        device.len() == state.shadow.len(),
        forall|x: int|
            0 <= x < device.len() && !state.dirty[x / state.size()] ==> #[trigger] device[x]
                == state.shadow[x],
    ensures
        applied(device, uploads, uploads.len()) == state.shadow,
{
    let size = state.size();
    let n = uploads.len();
    lemma_applied(device, state, uploads, runs, n);
    let out = applied(device, uploads, n);
    assert forall|x: int| 0 <= x < out.len() implies out[x] == state.shadow[x] by {
        lemma_byte_row(x, 0, state.dirty.len() as int, size);
        let r = x / size;
        assert(0 <= r < state.dirty.len());
        if state.dirty[r] {
            assert(in_some_run(runs, r));
            assert(runs.take(n as int) =~= runs);
        } else {
            assert(device[x] == state.shadow[x]);
        }
    }
    assert(out =~= state.shadow);
}

proof fn lemma_applied(
    device: Seq<u8>,
    state: ShadowState,
    uploads: Seq<Upload>,
    runs: Seq<Run>,
    n: nat,
)
    requires
        state.consistent(),
        are_runs(runs, state.dirty),
        uploads_runs(uploads, runs, state),
        device.len() == state.shadow.len(),
        n <= uploads.len(),
    ensures
        applied(device, uploads, n).len() == device.len(),
        forall|x: int|
            0 <= x < device.len() ==> #[trigger] applied(device, uploads, n)[x] == if in_some_run(
                runs.take(n as int),
                x / state.size(),
            ) {
                state.shadow[x]
            } else {
                device[x]
            },
    decreases n,
{
    let size = state.size();
    if n == 0 {
    } else {
        let m = (n - 1) as nat;
        lemma_applied(device, state, uploads, runs, m);
        let before = applied(device, uploads, m);
        let after = applied(device, uploads, n);
        let run = runs[m as int];
        assert(uploads[m as int].offset == run.0 * size);
        assert(run.1 <= state.dirty.len());
        assert(run.0 * size <= run.1 * size) by (nonlinear_arith)
            requires
                run.0 <= run.1,
                size > 0,
        ;
        assert(run.1 * size <= state.dirty.len() * size) by (nonlinear_arith)
            requires
                run.1 <= state.dirty.len(),
                size > 0,
        ;
        assert(0 <= run.0 * size) by (nonlinear_arith)
            requires
                run.0 >= 0,
                size > 0,
        ;
        assert forall|x: int| 0 <= x < device.len() implies #[trigger] after[x]
            == if in_some_run(runs.take(n as int), x / size) {
            state.shadow[x]
        } else {
            device[x]
        } by {
            lemma_byte_row(x, run.0 as int, run.1 as int, size);
            let r = x / size;
            assert(before[x] == if in_some_run(runs.take(m as int), r) {
                state.shadow[x]
            } else {
                device[x]
            });
            if in_some_run(runs.take(m as int), r) {
                let k = choose|k: int|
                    0 <= k < runs.take(m as int).len() && (#[trigger] runs.take(m as int)[k]).0
                        <= r < runs.take(m as int)[k].1;
                assert(runs.take(n as int)[k] == runs.take(m as int)[k]);
                assert(in_some_run(runs.take(n as int), r));
            }
            if run.0 <= r < run.1 {
                assert(runs.take(n as int)[m as int] == run);
                assert(in_some_run(runs.take(n as int), r));
            } else if in_some_run(runs.take(n as int), r) {
                let k = choose|k: int|
                    0 <= k < runs.take(n as int).len() && (#[trigger] runs.take(n as int)[k]).0
                        <= r < runs.take(n as int)[k].1;
                assert(k != m);
                assert(runs.take(m as int)[k] == runs.take(n as int)[k]);
            }
        }
    }
}

/// What was recorded for a row is what the shadow holds for it, and no other row changed.
pub proof fn law_recording_touches_one_row(state: ShadowState, row: int, data: Seq<u8>, other: int)
    requires
        state.consistent(),
        0 <= row,
        data.len() == state.size(),
        0 <= other < state.dirty.len(),
        other != row,
    ensures
        state.recorded(row, data).row(row) == data,
        state.recorded(row, data).row(other) == state.row(other),
        state.recorded(row, data).dirty[row],
        state.recorded(row, data).dirty[other] == state.dirty[other],
{
    let size = state.size();
    let after = state.recorded(row, data);
    let target = state.rows_for(row);
    if row >= state.dirty.len() {
        lemma_doubled_past(
            if state.dirty.len() == 0 {
                1
            } else {
                state.dirty.len() as int
            },
            row,
        );
    }
    assert(target > row && target >= state.dirty.len());
    let grown = state.grown(target);
    lemma_row_range(target, row, size);
    lemma_row_range(target, other, size);
    lemma_row_range(state.dirty.len() as int, other, size);
    assert(after.row(row) =~= data);
    assert((other + 1) * size <= row * size || (row + 1) * size <= other * size)
        by (nonlinear_arith)
        requires
            other != row,
            size > 0,
    ;
    assert(after.row(other) =~= state.row(other));
}

/// A flush right after a flush has nothing to write.
pub proof fn law_second_flush_is_empty(state: ShadowState)
    ensures
        state.flushed().pending_ranges() == 0,
        state.flushed().pending_bytes() == 0,
{
    lemma_nothing_marked(state.flushed().dirty);
}

/// A row that is recorded, and its bytes.
pub struct RowMark {
    pub row: int,
    pub data: Seq<u8>,
}

/// What `row` was recorded as last, by the first `n` marks.
pub open spec fn last_mark(marks: Seq<RowMark>, row: int, n: int) -> Option<Seq<u8>>
    decreases n,
{
    if n <= 0 {
        None
    } else if marks[n - 1].row == row {
        Some(marks[n - 1].data)
    } else {
        last_mark(marks, row, n - 1)
    }
}

/// The rows that the first `n` marks record.
pub open spec fn rows_marked(marks: Seq<RowMark>, n: int) -> Set<int> {
    Set::new(|row: int| last_mark(marks, row, n) is Some)
}

impl ShadowState {
    /// The column after the first `n` marks.
    pub open spec fn after_marks(self, marks: Seq<RowMark>, n: int) -> ShadowState
        decreases n,
    {
        if n <= 0 {
            self
        } else {
            self.after_marks(marks, n - 1).recorded(marks[n - 1].row, marks[n - 1].data)
        }
    }

    /// Each of the first `n` marks is of a whole row for which there is room when its turn comes.
    pub open spec fn takes(self, marks: Seq<RowMark>, n: int) -> bool {
        forall|i: int|
            0 <= i < n ==> {
                &&& 0 <= (#[trigger] marks[i]).row
                &&& marks[i].data.len() == self.size()
                &&& self.after_marks(marks, i).rows_for(marks[i].row) <= u32::MAX
            }
    }
}

/// A recorded row holds what was recorded and awaits a flush, whether or not there was room for it
/// before. Every other row keeps its bytes and its mark, and the rows that room was made for hold
/// zeros and await nothing.
pub proof fn law_recording_marks_one_row(state: ShadowState, row: int, data: Seq<u8>)
    requires
        state.consistent(),
        0 <= row,
        data.len() == state.size(),
        state.rows_for(row) <= u32::MAX,
    ensures
        ({
            let after = state.recorded(row, data);
            &&& after.consistent()
            &&& after.size() == state.size()
            &&& row < after.dirty.len()
            &&& state.dirty.len() <= after.dirty.len()
            &&& after.dirty[row]
            &&& after.row(row) == data
            &&& forall|other: int|
                0 <= other < after.dirty.len() && other != row ==> #[trigger] after.dirty[other]
                    == (other < state.dirty.len() && state.dirty[other])
            &&& forall|other: int|
                0 <= other < state.dirty.len() && other != row ==> #[trigger] after.row(other)
                    == state.row(other)
            &&& forall|other: int|
                state.dirty.len() <= other < after.dirty.len() && other != row
                    ==> #[trigger] after.row(other) == Seq::new(
                    state.size() as nat,
                    |i: int| 0u8,
                )
            &&& after.buffer == state.buffer
        }),
{
    let size = state.size();
    let after = state.recorded(row, data);
    let target = state.rows_for(row);
    if row >= state.dirty.len() {
        lemma_doubled_past(
            if state.dirty.len() == 0 {
                1
            } else {
                state.dirty.len() as int
            },
            row,
        );
    }
    lemma_row_range(target, row, size);
    assert(after.row(row) =~= data);
    assert forall|other: int| 0 <= other < state.dirty.len() && other != row implies (
    #[trigger] after.row(other)) == state.row(other) by {
        law_recording_touches_one_row(state, row, data, other);
    }
    assert forall|other: int|
        state.dirty.len() <= other < after.dirty.len() && other != row implies (
    #[trigger] after.row(other)) == Seq::new(size as nat, |i: int| 0u8) by {
        lemma_row_range(target, other, size);
        assert((other + 1) * size <= row * size || (row + 1) * size <= other * size)
            by (nonlinear_arith)
            requires
                other != row,
                size > 0,
        ;
        assert(state.dirty.len() * size <= other * size) by (nonlinear_arith)
            requires
                state.dirty.len() <= other,
                size > 0,
        ;
        assert(after.row(other) =~= Seq::new(size as nat, |i: int| 0u8));
    }
}

/// From a column without marks, any marks leave exactly the rows they record to be flushed, each with
/// the bytes it was recorded with last; the other rows keep theirs.
pub proof fn law_marks_are_what_is_recorded(state: ShadowState, marks: Seq<RowMark>, n: int)
    requires
        state.consistent(),
        forall|r: int| 0 <= r < state.dirty.len() ==> !#[trigger] state.dirty[r],
        0 <= n <= marks.len(),
        state.takes(marks, n),
    ensures
        ({
            let after = state.after_marks(marks, n);
            &&& after.consistent()
            &&& after.size() == state.size()
            &&& state.dirty.len() <= after.dirty.len()
            &&& forall|row: int| #[trigger]
                last_mark(marks, row, n) is Some ==> 0 <= row < after.dirty.len()
                    && after.row(row) == last_mark(marks, row, n)->0
            &&& forall|row: int|
                0 <= row < after.dirty.len() ==> #[trigger] after.dirty[row] == (last_mark(
                    marks,
                    row,
                    n,
                ) is Some)
            &&& forall|row: int|
                0 <= row < state.dirty.len() && last_mark(marks, row, n) is None
                    ==> #[trigger] after.row(row) == state.row(row)
        }),
    decreases n,
{
    if n > 0 {
        law_marks_are_what_is_recorded(state, marks, n - 1);
        let before = state.after_marks(marks, n - 1);
        let after = state.after_marks(marks, n);
        let mark = marks[n - 1];
        law_recording_marks_one_row(before, mark.row, mark.data);
        assert forall|row: int| #[trigger] last_mark(marks, row, n) is Some implies 0 <= row
            < after.dirty.len() && after.row(row) == last_mark(marks, row, n)->0 by {
            if row != mark.row {
                assert(last_mark(marks, row, n - 1) is Some);
                assert(after.row(row) == before.row(row));
            }
        }
        assert forall|row: int| 0 <= row < after.dirty.len() implies #[trigger] after.dirty[row]
            == (last_mark(marks, row, n) is Some) by {
            if row != mark.row {
                assert(last_mark(marks, row, n - 1) is Some ==> row < before.dirty.len());
                if row < before.dirty.len() {
                    assert(before.dirty[row] == (last_mark(marks, row, n - 1) is Some));
                }
            }
        }
        assert forall|row: int|
            0 <= row < state.dirty.len() && last_mark(marks, row, n) is None implies (
        #[trigger] after.row(row)) == state.row(row) by {
            assert(row != mark.row);
            assert(last_mark(marks, row, n - 1) is None);
            assert(before.row(row) == state.row(row));
            assert(after.row(row) == before.row(row));
        }
    }
}

/// A flush writes what was recorded since the last one and nothing else: each row that was recorded
/// then lies on the device as it was recorded last, and any other is what it was there. It takes one
/// write for each stretch of adjacent rows, and bridges no gap.
pub proof fn law_flush_writes_what_was_marked(
    device: Seq<u8>,
    state: ShadowState,
    marks: Seq<RowMark>,
    uploads: Seq<Upload>,
    runs: Seq<Run>,
    row: int,
)
    requires
        state.consistent(),
        forall|r: int| 0 <= r < state.dirty.len() ==> !#[trigger] state.dirty[r],
        state.takes(marks, marks.len() as int),
        are_runs(runs, state.after_marks(marks, marks.len() as int).dirty),
        uploads_runs(uploads, runs, state.after_marks(marks, marks.len() as int)),
        device.len() == state.after_marks(marks, marks.len() as int).shadow.len(),
        0 <= row < state.after_marks(marks, marks.len() as int).dirty.len(),
    ensures
        ({
            let after = state.after_marks(marks, marks.len() as int);
            let recorded = rows_marked(marks, marks.len() as int);
            let flushed = applied(device, uploads, uploads.len());
            let size = state.size();
            &&& flushed.len() == device.len()
            &&& flushed.subrange(row * size, (row + 1) * size) == match last_mark(
                marks,
                row,
                marks.len() as int,
            ) {
                Some(data) => data,
                None => device.subrange(row * size, (row + 1) * size),
            }
            &&& recorded.finite()
            &&& after.pending_bytes() == recorded.len() * size
            &&& after.pending_ranges() == recorded.filter(
                |r: int| !recorded.contains(r - 1),
            ).len()
        }),
{
    let n = marks.len() as int;
    let after = state.after_marks(marks, n);
    let recorded = rows_marked(marks, n);
    let size = state.size();
    let flushed = applied(device, uploads, uploads.len());
    law_marks_are_what_is_recorded(state, marks, n);
    lemma_applied(device, after, uploads, runs, uploads.len());
    lemma_row_range(after.dirty.len() as int, row, size);
    assert(runs.take(uploads.len() as int) =~= runs);
    assert forall|x: int| row * size <= x < (row + 1) * size implies #[trigger] flushed[x] == if
    after.dirty[row] {
        after.shadow[x]
    } else {
        device[x]
    } by {
        lemma_byte_row(x, row, row + 1, size);
        assert(in_some_run(runs, row) == after.dirty[row]);
    }
    if after.dirty[row] {
        assert(flushed.subrange(row * size, (row + 1) * size) =~= after.row(row));
    } else {
        assert(flushed.subrange(row * size, (row + 1) * size) =~= device.subrange(
            row * size,
            (row + 1) * size,
        ));
    }
    let len = after.dirty.len() as int;
    lemma_marks_are_sets(after.dirty, len);
    assert(recorded =~= marked_set(after.dirty, len)) by {
        assert forall|r: int| recorded.contains(r) == marked_set(after.dirty, len).contains(r) by {
            if 0 <= r < len {
                assert(after.dirty[r] == (last_mark(marks, r, n) is Some));
            } else {
                assert(last_mark(marks, r, n) is None);
            }
        }
    }
    let starts = recorded.filter(|r: int| !recorded.contains(r - 1));
    assert(starts =~= start_set(after.dirty, len)) by {
        assert forall|r: int| starts.contains(r) == start_set(after.dirty, len).contains(r) by {
            assert(recorded.contains(r) == marked_set(after.dirty, len).contains(r));
            assert(recorded.contains(r - 1) == marked_set(after.dirty, len).contains(r - 1));
        }
    }
}

/// Room is made by doubling, no more often than it takes: the rows are then a power of two times
/// what they were, beyond the row, and half as many would not have done.
pub proof fn law_room_is_made_by_doubling(len: int, row: int) -> (k: nat)
    requires
        len > 0,
    ensures
        doubled_past(len, row) == len * pow2(k),
        doubled_past(len, row) > row,
        k > 0 ==> len * pow2((k - 1) as nat) <= row,
    decreases
            (if len > row {
                0
            } else {
                row + 1 - len
            }),
{
    vstd::arithmetic::power2::lemma2_to64();
    if len > row {
        0
    } else {
        let k = law_room_is_made_by_doubling(2 * len, row);
        vstd::arithmetic::power2::lemma_pow2_unfold(k + 1);
        assert(pow2(0) == 1);
        assert(len * 1 == len);
        assert((2 * len) * pow2(k) == len * (2 * pow2(k))) by (nonlinear_arith);
        if k > 0 {
            vstd::arithmetic::power2::lemma_pow2_unfold(k);
            assert((2 * len) * pow2((k - 1) as nat) == len * (2 * pow2((k - 1) as nat)))
                by (nonlinear_arith);
        }
        assert(len * pow2(k) <= row);
        k + 1
    }
}

/// Room for more rows changes no row there is; the new rows hold zeros and await nothing.
pub proof fn law_room_keeps_the_rows(state: ShadowState, n: int, r: int)
    requires
        state.consistent(),
        0 <= r,
    ensures
        ({
            let after = state.grown(n);
            &&& after.dirty.len() == if n > state.dirty.len() {
                n
            } else {
                state.dirty.len() as int
            }
            &&& after.buffer == state.buffer
            &&& r < state.dirty.len() ==> after.row(r) == state.row(r) && after.dirty[r]
                == state.dirty[r]
            &&& state.dirty.len() <= r < n ==> !after.dirty[r] && after.row(r) == Seq::new(
                state.size() as nat,
                |i: int| 0u8,
            )
        }),
{
    let size = state.size();
    let after = state.grown(n);
    if r < state.dirty.len() {
        lemma_row_range(state.dirty.len() as int, r, size);
        if n > state.dirty.len() {
            lemma_row_range(n, r, size);
        }
        assert(after.row(r) =~= state.row(r));
    } else if r < n {
        lemma_row_range(n, r, size);
        assert(state.dirty.len() * size <= r * size) by (nonlinear_arith)
            requires
                state.dirty.len() <= r,
                size > 0,
        ;
        assert(after.row(r) =~= Seq::new(size as nat, |i: int| 0u8));
    }
}

/// A column that is cut keeps the rows before the cut as they are.
pub proof fn law_cut_keeps_the_front(state: ShadowState, n: int, r: int)
    requires
        state.consistent(),
        0 <= r < n <= state.dirty.len(),
    ensures
        state.truncated(n).dirty.len() == n,
        state.truncated(n).row(r) == state.row(r),
        state.truncated(n).dirty[r] == state.dirty[r],
        state.truncated(n).buffer.capacity <= n,
{
    let size = state.size();
    lemma_row_range(n, r, size);
    lemma_row_range(state.dirty.len() as int, r, size);
    lemma_row_range(state.dirty.len() as int, n - 1, size);
    assert(state.truncated(n).row(r) =~= state.row(r));
}

/// A flush leaves the bytes and forgets the marks; the device buffer then holds every row.
pub proof fn law_flush_forgets_the_marks(state: ShadowState, r: int)
    requires
        state.consistent(),
        state.can_flush(),
        state.buffer.capacity <= state.buffer.limit,
        0 <= r < state.dirty.len(),
    ensures
        state.flushed().shadow == state.shadow,
        state.flushed().dirty.len() == state.dirty.len(),
        !state.flushed().dirty[r],
        state.flushed().buffer.capacity >= state.dirty.len(),
        state.buffer.capacity >= state.dirty.len() ==> state.flushed().buffer == state.buffer,
{
}

} // verus!
