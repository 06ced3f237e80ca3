//! Growable pool for variable-length rows.
//!
//! One shared device buffer holds every row's payload; a [`VarLenHandle`] per row says where.
//! Space is suballocated by [`RangeList`] in units that keep every device write aligned, whatever
//! the element size.
use crate::gpu::dynamic_buffer::{
    elem_align, pad_for_copy, CapacityError, DynamicGpuBuffer, Upload,
};
use crate::gpu::freelist::RangeList;
use vstd::prelude::*;

verus! {

use crate::gpu::dynamic_buffer::{
    elem_align_spec, padded_bytes, rounded_up, DynamicState,
};
use crate::gpu::freelist::{
    after_fit, canonical, covers, disjoint, extended, fit_offset, given_back, in_span, ordered, span_end, Span,
};

/// Where a row's payload lies, in elements. `count == 0` means no allocation; `offset` is
/// meaningless then.
#[derive(Clone, Copy, Debug, PartialEq, Eq, Structural)]
pub struct VarLenHandle {
    pub offset: u32,
    pub count: u32,
}

impl Default for VarLenHandle {
    /// No allocation.
    fn default() -> (handle: Self)
        ensures
            handle == (VarLenHandle { offset: 0, count: 0 }),
    {
        VarLenHandle { offset: 0, count: 0 }
    }
}

/// `count` rounded up to a multiple of `align`, where an alignment of zero counts as one.
pub fn padded_alloc_len(count: u32, align: u64) -> (len: u64)
    requires
        count + align <= u64::MAX,
    ensures
        len == rounded_up(count as int, if align == 0 {
            1
        } else {
            align as int
        }),
        len >= count,
{
    let unit: u64 = if align == 0 {
        1
    } else {
        align
    };
    let rem: u64 = (count as u64) % unit;
    if rem == 0 {
        count as u64
    } else {
        (count as u64) + (unit - rem)
    }
}

/// What a pool holds: its buffer and the free spans of it, in elements.
#[verifier::ext_equal]
pub struct PoolState {
    pub buffer: DynamicState,
    pub free: Seq<Span>,
}

/// What a write asks of the device: first the growth, then the upload.
#[derive(Debug)]
pub struct VarRowWrite {
    /// Where the row lies now.
    pub handle: VarLenHandle,
    /// The new capacity, if the buffer must be replaced by a larger one that keeps its contents.
    pub grown_to: Option<u32>,
    /// The bytes to write, if the row is not empty.
    pub upload: Option<Upload>,
}

impl PoolState {
    /// Elements per allocation unit.
    pub open spec fn align(self) -> int {
        elem_align_spec(self.buffer.elem_size as int)
    }

    /// Elements reserved for `count` elements.
    pub open spec fn reserved(self, count: u32) -> int {
        rounded_up(count as int, self.align())
    }

    /// Free spans are maximal and within the buffer, and the part of the buffer that is no whole
    /// unit is never handed out.
    pub open spec fn consistent(self) -> bool {
        &&& self.buffer.elem_size > 0
        &&& self.buffer.capacity <= self.buffer.limit
        &&& canonical(self.free) || (self.buffer.capacity == 0 && self.free == seq![(0u64, 0u64)])
        &&& forall|i: int|
            0 <= i < self.free.len() ==> span_end(#[trigger] self.free[i]) <= self.buffer.capacity
        &&& forall|x: int|
            self.buffer.capacity - self.buffer.capacity as int % self.align() <= x
                < self.buffer.capacity ==> #[trigger] covers(self.free, x)
    }

    /// `handle` names an allocation of this pool: aligned, within the buffer, and not free.
    pub open spec fn holds(self, handle: VarLenHandle) -> bool {
        handle.count == 0 || {
            &&& handle.offset as int % self.align() == 0
            &&& handle.offset + self.reserved(handle.count) <= self.buffer.capacity
            &&& forall|x: int|
                handle.offset <= x < handle.offset + self.reserved(handle.count) ==> !#[trigger] covers(
                    self.free,
                    x,
                )
        }
    }

    /// The space reserved for two handles does not overlap.
    pub open spec fn apart(self, a: VarLenHandle, b: VarLenHandle) -> bool {
        ||| a.count == 0
        ||| b.count == 0
        ||| a.offset + self.reserved(a.count) <= b.offset
        ||| b.offset + self.reserved(b.count) <= a.offset
    }

    /// The pool after `handle`'s space is given back.
    pub open spec fn after_free(self, handle: VarLenHandle) -> PoolState {
        if handle.count == 0 {
            self
        } else {
            PoolState {
                free: given_back(
                    self.free,
                    handle.offset as u64,
                    self.reserved(handle.count) as u64,
                ),
                ..self
            }
        }
    }

    /// Where `count` elements would be allocated without growing.
    pub open spec fn fit(self, count: u32) -> Option<int> {
        fit_offset(self.free, self.reserved(count) as u64, self.align() as u64)
    }

    /// The pool once the buffer has grown for `count` more elements.
    pub open spec fn after_growth(self, count: u32) -> PoolState {
        let grown = self.buffer.grown(self.buffer.capacity + self.reserved(count));
        PoolState {
            buffer: grown,
            free: extended(self.free, self.buffer.capacity as u64, grown.capacity as u64),
        }
    }

    /// Whether `count` elements need a larger buffer.
    pub open spec fn must_grow(self, count: u32) -> bool {
        count > 0 && self.fit(count) is None
    }

    /// Whether the device cannot hold `count` more elements.
    pub open spec fn refuses(self, count: u32) -> bool {
        self.must_grow(count) && self.buffer.capacity + self.reserved(count) > self.buffer.limit
    }

    /// The pool in which `count` elements are allocated: grown if need be.
    pub open spec fn ready(self, count: u32) -> PoolState {
        if self.must_grow(count) {
            self.after_growth(count)
        } else {
            self
        }
    }

    /// The handle an allocation of `count` elements gets.
    pub open spec fn handle_for(self, count: u32) -> VarLenHandle {
        if count == 0 {
            VarLenHandle { offset: 0, count: 0 }
        } else {
            VarLenHandle { offset: self.ready(count).fit(count)->0 as u32, count }
        }
    }

    /// The pool after `count` elements are allocated.
    pub open spec fn after_take(self, count: u32) -> PoolState {
        if count == 0 {
            self
        } else {
            PoolState {
                free: after_fit(
                    self.ready(count).free,
                    self.reserved(count) as u64,
                    self.align() as u64,
                ),
                ..self.ready(count)
            }
        }
    }

    /// The pool after a row is rewritten: its old space given back, then new space taken, unless
    /// the device refuses that.
    pub open spec fn after_write(self, prev: VarLenHandle, count: u32) -> PoolState {
        let released = self.after_free(prev);
        if released.refuses(count) {
            released
        } else {
            released.after_take(count)
        }
    }
}

/// What the device is told for a row written as `data` at `handle`.
pub open spec fn upload_of(upload: Option<Upload>, state: PoolState, handle: VarLenHandle, data: Seq<u8>) -> bool {
    match upload {
        None => data.len() == 0,
        Some(up) => {
            &&& data.len() > 0
            &&& up.offset == handle.offset * state.buffer.elem_size
            &&& up.bytes@ == padded_bytes(data)
        },
    }
}

/// Shared growable pool of variable-length rows.
pub struct VarLenGpuPool {
    buf: DynamicGpuBuffer,
    free: RangeList,
}

impl View for VarLenGpuPool {
    type V = PoolState;

    closed spec fn view(&self) -> PoolState {
        PoolState { buffer: self.buf@, free: self.free@ }
    }
}

impl VarLenGpuPool {
    /// The invariant every operation keeps.
    pub closed spec fn wf(&self) -> bool {
        &&& self@.consistent()
        &&& self.buf.wf()
        &&& self.free.wf()
    }

    /// The invariant gives a consistent state.
    pub proof fn lemma_wf(&self)
        requires
            self.wf(),
        ensures
            self@.consistent(),
    {
    }

    /// A pool of `initial_capacity` elements of `elem_size` bytes, all free.
    pub fn new(elem_size: u32, initial_capacity: u32, limit: u32) -> (pool: Self)
        requires
            elem_size > 0,
            initial_capacity <= limit,
        ensures
            pool.wf(),
            pool@ == (PoolState {
                buffer: DynamicState { elem_size, capacity: initial_capacity, limit, epoch: 0 },
                free: seq![(0u64, initial_capacity as u64)],
            }),
    {
        let buf = DynamicGpuBuffer::new(elem_size, initial_capacity, limit);
        let free = RangeList::new(initial_capacity as u64);
        let pool = VarLenGpuPool { buf, free };
        proof {
            let spans = pool@.free;
            assert forall|x: int| 0 <= x < initial_capacity implies #[trigger] covers(spans, x) by {
                assert(in_span(spans[0], x));
            }
            lemma_mod(initial_capacity as int, pool@.align());
        }
        pool
    }

    /// Rewrites a row: gives `prev`'s space back and, if `data` is not empty, takes new space for
    /// it, growing the buffer first if nothing free can hold it. Refused only when the device
    /// cannot hold that; `prev` is given back all the same.
    pub fn write_var_row(&mut self, prev: VarLenHandle, data: &[u8]) -> (r: Result<
        VarRowWrite,
        CapacityError,
    >)
        requires
            old(self).wf(),
            old(self)@.holds(prev),
            data@.len() as int % old(self)@.buffer.elem_size as int == 0,
            data@.len() as int / old(self)@.buffer.elem_size as int <= u32::MAX,
        ensures
            final(self).wf(),
            ({
                let count = (data@.len() as int / old(self)@.buffer.elem_size as int) as u32;
                let released = old(self)@.after_free(prev);
                &&& final(self)@ == old(self)@.after_write(prev, count)
                &&& match r {
                    Ok(w) => {
                        &&& !released.refuses(count)
                        &&& w.handle == released.handle_for(count)
                        &&& w.grown_to == if released.must_grow(count) {
                            Some(final(self)@.buffer.capacity)
                        } else {
                            None
                        }
                        &&& upload_of(w.upload, final(self)@, w.handle, data@)
                        &&& final(self)@.holds(w.handle)
                        &&& forall|h: VarLenHandle| #[trigger]
                            old(self)@.holds(h) && old(self)@.apart(h, prev) ==> final(self)@.holds(
                                h,
                            ) && final(self)@.apart(h, w.handle)
                    },
                    Err(e) => {
                        &&& released.refuses(count)
                        &&& e.limit == released.buffer.limit
                        &&& e.requested == released.buffer.capacity + released.reserved(count)
                        &&& forall|h: VarLenHandle| #[trigger]
                            old(self)@.holds(h) && old(self)@.apart(h, prev) ==> final(self)@.holds(
                                h,
                            )
                    },
                }
            }),
    {
        let elem_size: u32 = self.buf.elem_size();
        let align: u64 = elem_align(elem_size);
        let total: usize = data.len();
        let ghost size = elem_size as int;
        proof {
            if total as int / size > 0 {
                assert(usize::MAX <= u64::MAX);
            }
        }
        let count: u32 = ((total as u64) / (elem_size as u64)) as u32;
        let ghost before = self@;
        proof {
            lemma_frame_free(before, prev);
            assert(count == (data@.len() as int / size) as u32);
            vstd::arithmetic::div_mod::lemma_fundamental_div_mod(total as int, size);
            assert(count == 0 <==> total == 0) by (nonlinear_arith)
                requires
                    total as int == size * (total as int / size) + total as int % size,
                    total as int % size == 0,
                    count == total as int / size,
                    size > 0,
            ;
        }
        self.free_handle(prev);
        let ghost released = self@;
        if count == 0 {
            let handle = VarLenHandle::default();
            proof {
                assert(released.after_take(0) =~= released);
            }
            return Ok(VarRowWrite { handle, grown_to: None, upload: None });
        }
        let need: u64 = padded_alloc_len(count, align);
        proof {
            lemma_reserved(released, count);
            lemma_take(released, count);
            lemma_consistent_ordered(released);
        }
        let mut grown_to: Option<u32> = None;
        let offset: u64 = match self.free.allocate(need, align) {
            Some(offset) => offset,
            None => {
                let old_total: u64 = self.buf.capacity() as u64;
                match self.buf.ensure_capacity(old_total + need) {
                    Ok(()) => {},
                    Err(e) => {
                        assert(self@ =~= released);
                        return Err(e);
                    },
                }
                let new_total: u64 = self.buf.capacity() as u64;
                self.free.extend_total(old_total, new_total);
                grown_to = Some(self.buf.capacity());
                assert(self@ =~= released.after_growth(count));
                match self.free.allocate(need, align) {
                    Some(offset) => offset,
                    None => {
                        assert(false);
                        0
                    },
                }
            },
        };
        proof {
            assert(self@ =~= released.after_take(count));
            lemma_frame_take(released, count);
        }
        let handle = VarLenHandle { offset: offset as u32, count };
        assert(handle == released.handle_for(count));
        let bytes = pad_for_copy(data);
        assert(offset * elem_size <= u32::MAX * u32::MAX) by (nonlinear_arith)
            requires
                0 <= offset <= u32::MAX,
                0 <= elem_size <= u32::MAX,
        ;
        let upload = Upload { offset: offset * (elem_size as u64), bytes };
        Ok(VarRowWrite { handle, grown_to, upload: Some(upload) })
    }

    /// Gives `handle`'s space back. A handle without allocation is a no-op.
    pub fn free_handle(&mut self, handle: VarLenHandle)
        requires
            old(self).wf(),
            old(self)@.holds(handle),
        ensures
            final(self).wf(),
            final(self)@ == old(self)@.after_free(handle),
            forall|h: VarLenHandle| #[trigger]
                old(self)@.holds(h) && old(self)@.apart(h, handle) ==> final(self)@.holds(h),
    {
        if handle.count == 0 {
            return ;
        }
        let align: u64 = elem_align(self.buf.elem_size());
        let len: u64 = padded_alloc_len(handle.count, align);
        proof {
            lemma_reserved(self@, handle.count);
            lemma_frame_free(self@, handle);
        }
        self.free.free(handle.offset as u64, len);
        assert(self@ =~= old(self)@.after_free(handle));
    }

    /// Overwrites part of an allocation in place: no allocation, no free, no move.
    pub fn write_at_offset(&self, offset: u32, data: &[u8]) -> (upload: Upload)
        requires
            self.wf(),
            offset as int % self@.align() == 0,
            data@.len() as int % self@.buffer.elem_size as int == 0,
            offset + data@.len() as int / self@.buffer.elem_size as int <= self@.buffer.capacity,
        ensures
            upload.offset == offset * self@.buffer.elem_size,
            upload.bytes@ == padded_bytes(data@),
            upload.offset % 4 == 0,
    {
        let elem_size: u32 = self.buf.elem_size();
        assert(offset * elem_size <= u32::MAX * u32::MAX) by (nonlinear_arith)
            requires
                0 <= offset <= u32::MAX,
                0 <= elem_size <= u32::MAX,
        ;
        proof {
            lemma_copy_aligned(offset as int, elem_size as int);
        }
        Upload { offset: (offset as u64) * (elem_size as u64), bytes: pad_for_copy(data) }
    }

    /// The number of replacements of the buffer so far.
    pub fn epoch(&self) -> (epoch: u64)
        ensures
            epoch == self@.buffer.epoch,
    {
        self.buf.epoch()
    }

    /// Elements the buffer holds.
    pub fn capacity(&self) -> (capacity: u32)
        ensures
            capacity == self@.buffer.capacity,
    {
        self.buf.capacity()
    }

    /// Bytes per element.
    pub fn elem_size(&self) -> (size: u32)
        ensures
            size == self@.buffer.elem_size,
    {
        self.buf.elem_size()
    }
}

proof fn lemma_mod(n: int, align: int)
    requires
        n >= 0,
        align == 1 || align == 2 || align == 4,
    ensures
        0 <= n % align < align,
        0 <= n - n % align,
        (n - n % align) % align == 0,
{
    if align == 1 {
    } else if align == 2 {
        assert((n - n % 2) % 2 == 0);
    } else {
        assert((n - n % 4) % 4 == 0);
    }
}

proof fn lemma_reserved(state: PoolState, count: u32)
    ensures
        state.reserved(count) % state.align() == 0,
        count <= state.reserved(count) < count + 4,
        state.align() == 1 || state.align() == 2 || state.align() == 4,
{
    let n = count as int;
    if state.align() == 1 {
    } else if state.align() == 2 {
        assert((n + (2 - n % 2)) % 2 == 0);
    } else {
        assert(n % 4 != 0 ==> (n + (4 - n % 4)) % 4 == 0);
    }
}

/// An aligned allocation within the buffer ends before the part that is no whole unit.
proof fn lemma_whole_units(offset: int, len: int, capacity: int, align: int)
    requires
        align == 1 || align == 2 || align == 4,
        offset >= 0,
        len >= 0,
        offset % align == 0,
        len % align == 0,
        offset + len <= capacity,
    ensures
        offset + len <= capacity - capacity % align,
{
    let end = offset + len;
    if align == 2 {
        assert(end % 2 == 0);
        assert(end <= capacity - capacity % 2);
    } else if align == 4 {
        assert(end % 4 == 0);
        assert(end <= capacity - capacity % 4);
    }
}

proof fn lemma_consistent_ordered(state: PoolState)
    requires
        state.consistent(),
    ensures
        ordered(state.free),
{
}

/// An element offset at a whole unit is a byte offset at a multiple of the copy alignment.
pub proof fn lemma_copy_aligned(offset: int, elem_size: int)
    requires
        offset >= 0,
        elem_size > 0,
        offset % elem_align_spec(elem_size) == 0,
    ensures
        (offset * elem_size) % 4 == 0,
{
    let align = elem_align_spec(elem_size);
    if align == 1 {
        let k = elem_size / 4;
        assert(elem_size == 4 * k);
        assert(offset * elem_size == (offset * k) * 4) by (nonlinear_arith)
            requires
                elem_size == 4 * k,
        ;
    } else if align == 2 {
        let k = elem_size / 2;
        let m = offset / 2;
        assert(elem_size == 2 * k && offset == 2 * m);
        assert(offset * elem_size == (m * k) * 4) by (nonlinear_arith)
            requires
                elem_size == 2 * k,
                offset == 2 * m,
        ;
    } else {
        let m = offset / 4;
        assert(offset == 4 * m);
        assert(offset * elem_size == (m * elem_size) * 4) by (nonlinear_arith)
            requires
                offset == 4 * m,
        ;
    }
}

/// Giving a held allocation back keeps the pool consistent and every other allocation held.
pub proof fn lemma_frame_free(state: PoolState, handle: VarLenHandle)
    requires
        state.consistent(),
        state.holds(handle),
    ensures
        state.after_free(handle).consistent(),
        handle.count > 0 ==> disjoint(
            state.free,
            handle.offset as u64,
            state.reserved(handle.count) as u64,
        ),
        forall|h: VarLenHandle| #[trigger]
            state.holds(h) && state.apart(h, handle) ==> state.after_free(handle).holds(h),
{
    if handle.count > 0 {
        lemma_reserved(state, handle.count);
        let offset = handle.offset as u64;
        let len = state.reserved(handle.count) as u64;
        assert forall|i: int| 0 <= i < state.free.len() implies offset + len <= (
        #[trigger] state.free[i]).0 || (span_end(state.free[i]) <= offset && state.free[i].0
            < offset) by {
            let span = state.free[i];
            if !(offset + len <= span.0 || (span_end(span) <= offset && span.0 < offset)) {
                assert(span.1 > 0);
                let x = if span.0 > offset {
                    span.0 as int
                } else {
                    offset as int
                };
                assert(in_span(state.free[i], x));
                assert(covers(state.free, x));
            }
        }
        let after = state.after_free(handle);
        crate::gpu::freelist::lemma_given_back(state.free, offset, len);
        assert forall|i: int| 0 <= i < after.free.len() implies span_end(#[trigger] after.free[i])
            <= state.buffer.capacity by {
            let span = after.free[i];
            if canonical(after.free) {
                let x = span_end(span) - 1;
                assert(in_span(after.free[i], x));
                assert(covers(after.free, x));
                assert(covers(state.free, x) || offset <= x < offset + len);
                if covers(state.free, x) {
                    let k = choose|k: int|
                        0 <= k < state.free.len() && #[trigger] in_span(state.free[k], x);
                    assert(span_end(state.free[k]) <= state.buffer.capacity);
                }
            }
        }
        assert forall|h: VarLenHandle| #[trigger]
            state.holds(h) && state.apart(h, handle) implies after.holds(h) by {
            if h.count > 0 {
                assert forall|x: int|
                    h.offset <= x < h.offset + after.reserved(h.count) implies !#[trigger] covers(
                    after.free,
                    x,
                ) by {
                    assert(!covers(state.free, x));
                }
            }
        }
    }
}

/// Growth keeps the pool consistent and every allocation held, and makes room.
proof fn lemma_growth(state: PoolState, count: u32)
    requires
        state.consistent(),
        count > 0,
        state.buffer.capacity + state.reserved(count) <= state.buffer.limit,
    ensures
        state.after_growth(count).consistent(),
        canonical(state.after_growth(count).free),
        state.after_growth(count).fit(count) is Some,
        state.buffer.capacity + state.reserved(count) <= state.after_growth(count).buffer.capacity
            <= state.buffer.limit,
        forall|h: VarLenHandle| #[trigger] state.holds(h) ==> state.after_growth(count).holds(h),
{
    lemma_reserved(state, count);
    let after = state.after_growth(count);
    let old_total = state.buffer.capacity as u64;
    let new_total = after.buffer.capacity as u64;
    let align = state.align();
    lemma_mod(old_total as int, align);
    lemma_mod(new_total as int, align);
    assert(new_total >= old_total + state.reserved(count));
    crate::gpu::freelist::lemma_extended(state.free, old_total, new_total);
    let base = old_total - old_total as int % align;
    assert forall|x: int| base <= x < new_total implies #[trigger] covers(after.free, x) by {
        if x < old_total {
            assert(covers(state.free, x));
        }
    }
    if !canonical(state.free) {
        assert(after.free =~= seq![(0u64, new_total)]);
    }
    assert forall|i: int| 0 <= i < after.free.len() implies span_end(#[trigger] after.free[i])
        <= new_total by {
        if i < state.free.len() {
            assert(span_end(state.free[i]) <= old_total);
        }
    }
    crate::gpu::freelist::law_first_fit_is_lowest(
        after.free,
        state.reserved(count) as u64,
        align as u64,
        base,
    );
    assert forall|h: VarLenHandle| #[trigger] state.holds(h) implies after.holds(h) by {
        if h.count > 0 {
            assert forall|x: int|
                h.offset <= x < h.offset + after.reserved(h.count) implies !#[trigger] covers(
                after.free,
                x,
            ) by {
                assert(!covers(state.free, x));
            }
        }
    }
}

/// What an allocation needs on the way.
proof fn lemma_take(state: PoolState, count: u32)
    requires
        state.consistent(),
        count > 0,
    ensures
        state.must_grow(count) && !state.refuses(count) ==> {
            &&& state.after_growth(count).consistent()
            &&& ordered(state.after_growth(count).free)
            &&& state.after_growth(count).fit(count) is Some
        },
{
    if state.must_grow(count) && !state.refuses(count) {
        lemma_growth(state, count);
    }
}

/// An allocation keeps the pool consistent, is held, and overlaps no other allocation.
pub proof fn lemma_frame_take(state: PoolState, count: u32)
    requires
        state.consistent(),
        !state.refuses(count),
    ensures
        state.after_take(count).consistent(),
        state.after_take(count).holds(state.handle_for(count)),
        count > 0 ==> state.ready(count).fit(count) is Some && 0 <= state.ready(count).fit(count)->0
            <= u32::MAX,
        forall|h: VarLenHandle| #[trigger]
            state.holds(h) ==> state.after_take(count).holds(h) && state.after_take(count).apart(
                h,
                state.handle_for(count),
            ),
{
    if count > 0 {
        lemma_reserved(state, count);
        if state.must_grow(count) {
            lemma_growth(state, count);
        }
        let ready = state.ready(count);
        let after = state.after_take(count);
        let align = state.align();
        let len = state.reserved(count) as u64;
        assert(ready.fit(count) is Some);
        let offset = ready.fit(count)->0;
        crate::gpu::freelist::lemma_after_fit(ready.free, len, align as u64);
        // The allocation is within the buffer, in whole units.
        assert(offset + len <= ready.buffer.capacity) by {
            assert(covers(ready.free, offset + len - 1));
            let k = choose|k: int|
                0 <= k < ready.free.len() && #[trigger] in_span(ready.free[k], offset + len - 1);
            assert(span_end(ready.free[k]) <= ready.buffer.capacity);
        }
        let capacity = ready.buffer.capacity as int;
        lemma_mod(capacity, align);
        lemma_whole_units(offset, len as int, capacity, align);
        assert(canonical(ready.free)) by {
            if !canonical(ready.free) {
                assert(ready.buffer.capacity == 0);
            }
        }
        assert(canonical(after.free));
        assert forall|i: int| 0 <= i < after.free.len() implies span_end(#[trigger] after.free[i])
            <= capacity by {
            let x = span_end(after.free[i]) - 1;
            assert(in_span(after.free[i], x));
            assert(covers(after.free, x));
            assert(covers(ready.free, x));
            let k = choose|k: int|
                0 <= k < ready.free.len() && #[trigger] in_span(ready.free[k], x);
            assert(span_end(ready.free[k]) <= capacity);
        }
        assert forall|x: int| capacity - capacity % align <= x < capacity implies #[trigger] covers(
            after.free,
            x,
        ) by {
            assert(covers(ready.free, x));
        }
        assert forall|h: VarLenHandle| #[trigger] state.holds(h) implies after.holds(h)
            && after.apart(h, state.handle_for(count)) by {
            assert(ready.holds(h));
            if h.count > 0 {
                lemma_reserved(state, h.count);
                assert forall|x: int|
                    h.offset <= x < h.offset + after.reserved(h.count) implies !#[trigger] covers(
                    after.free,
                    x,
                ) by {
                    assert(!covers(ready.free, x));
                }
                if !after.apart(h, state.handle_for(count)) {
                    let x = if h.offset > offset {
                        h.offset as int
                    } else {
                        offset
                    };
                    assert(covers(ready.free, x));
                    assert(!covers(ready.free, x));
                }
            }
        }
    }
}

/// Every device write of a row starts and ends at a multiple of the copy alignment and stays
/// within the space reserved for the row, whatever the element size.
pub proof fn law_uploads_are_aligned_and_contained(
    state: PoolState,
    handle: VarLenHandle,
    data: Seq<u8>,
)
    requires
        state.buffer.elem_size > 0,
        state.holds(handle),
        data.len() > 0,
        data.len() == handle.count * state.buffer.elem_size,
    ensures
        (handle.offset * state.buffer.elem_size) % 4 == 0,
        padded_bytes(data).len() % 4 == 0,
        padded_bytes(data).len() <= state.reserved(handle.count) * state.buffer.elem_size,
        padded_bytes(data).take(data.len() as int) == data,
{
    let size = state.buffer.elem_size as int;
    let len = state.reserved(handle.count);
    assert(handle.count > 0) by (nonlinear_arith)
        requires
            data.len() > 0,
            data.len() == handle.count * size,
            size > 0,
            handle.count >= 0,
    ;
    lemma_reserved(state, handle.count);
    lemma_copy_aligned(handle.offset as int, size);
    lemma_copy_aligned(len, size);
    assert(handle.count * size <= len * size) by (nonlinear_arith)
        requires
            handle.count <= len,
            size > 0,
    ;
    assert(padded_bytes(data).take(data.len() as int) =~= data);
}

/// Rewriting a row never touches what another row holds: the bytes written for the new handle and
/// the bytes of any other held handle are disjoint.
pub proof fn law_writes_disturb_no_other_row(
    state: PoolState,
    prev: VarLenHandle,
    count: u32,
    other: VarLenHandle,
)
    requires
        state.consistent(),
        state.holds(prev),
        state.holds(other),
        state.apart(other, prev),
        other.count > 0,
        count > 0,
        !state.after_free(prev).refuses(count),
    ensures
        ({
            let after = state.after_write(prev, count);
            let written = state.after_free(prev).handle_for(count);
            let size = state.buffer.elem_size;
            &&& after.holds(other)
            &&& after.holds(written)
            &&& (other.offset + other.count) * size <= written.offset * size || (written.offset
                + after.reserved(count)) * size <= other.offset * size
        }),
{
    lemma_frame_free(state, prev);
    let released = state.after_free(prev);
    assert(released.holds(other));
    lemma_frame_take(released, count);
    let after = state.after_write(prev, count);
    let written = released.handle_for(count);
    let size = state.buffer.elem_size as int;
    lemma_reserved(after, other.count);
    let a = (other.offset + other.count) as int;
    let b = written.offset as int;
    let c = written.offset + after.reserved(count);
    let d = other.offset as int;
    assert(a <= b || c <= d);
    if a <= b {
        assert(a * size <= b * size) by (nonlinear_arith)
            requires
                a <= b,
                size >= 0,
        ;
    } else {
        assert(c * size <= d * size) by (nonlinear_arith)
            requires
                c <= d,
                size >= 0,
        ;
    }
}

/// Every element of a pool is free or reserved, and never lost: giving an allocation back frees what
/// it reserved and nothing else, and an allocation takes what it reserves and nothing else, out of
/// what was free or was added by growing.
pub proof fn law_elements_are_free_or_reserved(
    state: PoolState,
    handle: VarLenHandle,
    count: u32,
    x: int,
)
    requires
        state.consistent(),
        state.holds(handle),
        !state.refuses(count),
    ensures
        ({
            let freed = state.after_free(handle);
            let taken = state.after_take(count);
            let new = state.handle_for(count);
            let given = handle.count > 0 && handle.offset <= x < handle.offset + state.reserved(
                handle.count,
            );
            let kept = count > 0 && new.offset <= x < new.offset + state.reserved(count);
            &&& covers(freed.free, x) <==> covers(state.free, x) || given
            &&& freed.buffer == state.buffer
            &&& new.count == count
            &&& covers(taken.free, x) <==> (covers(state.free, x) || state.buffer.capacity <= x
                < taken.buffer.capacity) && !kept
            &&& kept ==> covers(state.free, x) || state.buffer.capacity <= x
                < taken.buffer.capacity
            &&& taken.buffer.capacity >= state.buffer.capacity
        }),
{
    lemma_consistent_ordered(state);
    lemma_reserved(state, count);
    if handle.count > 0 {
        lemma_reserved(state, handle.count);
        lemma_frame_free(state, handle);
        crate::gpu::freelist::lemma_given_back(
            state.free,
            handle.offset as u64,
            state.reserved(handle.count) as u64,
        );
    }
    if count > 0 {
        lemma_frame_take(state, count);
        let ready = state.ready(count);
        if state.must_grow(count) {
            lemma_growth(state, count);
            crate::gpu::freelist::lemma_extended(
                state.free,
                state.buffer.capacity as u64,
                ready.buffer.capacity as u64,
            );
        }
        crate::gpu::freelist::lemma_after_fit(
            ready.free,
            state.reserved(count) as u64,
            state.align() as u64,
        );
        let taken = state.after_take(count);
        let new = state.handle_for(count);
        assert(covers(taken.free, x) <==> covers(ready.free, x) && !(new.offset <= x < new.offset
            + state.reserved(count)));
        assert(covers(ready.free, x) <==> covers(state.free, x) || state.buffer.capacity <= x
            < taken.buffer.capacity);
        if new.offset <= x < new.offset + state.reserved(count) {
            assert(covers(ready.free, x));
        }
    }
}

/// A pool grows only where no run of free elements, at a whole unit, is long enough, and refuses only
/// where the buffer with what is missing would be beyond its limit.
pub proof fn law_growth_is_for_want_of_room(state: PoolState, count: u32, x: int)
    requires
        state.consistent(),
        count > 0,
    ensures
        state.must_grow(count) && x >= 0 && x % state.align() == 0 ==> exists|y: int|
            x <= y < x + state.reserved(count) && !#[trigger] covers(state.free, y),
        !state.must_grow(count) ==> state.after_take(count).buffer == state.buffer,
        state.refuses(count) <==> state.must_grow(count) && state.buffer.capacity + state.reserved(
            count,
        ) > state.buffer.limit,
{
    lemma_reserved(state, count);
    if state.must_grow(count) && x >= 0 && x % state.align() == 0 {
        if forall|y: int|
            x <= y < x + state.reserved(count) ==> #[trigger] covers(state.free, y) {
            if canonical(state.free) {
                crate::gpu::freelist::law_first_fit_is_lowest(
                    state.free,
                    state.reserved(count) as u64,
                    state.align() as u64,
                    x,
                );
            } else {
                assert(covers(state.free, x));
                let k = choose|k: int|
                    0 <= k < state.free.len() && #[trigger] in_span(state.free[k], x);
                assert(false);
            }
        }
    }
}

/// The upload of a row is there if and only if the row has bytes. It starts at the first byte of what
/// is reserved for the row and begins with its bytes, the rest being zeros.
pub proof fn law_upload_holds_the_row(
    upload: Option<Upload>,
    state: PoolState,
    handle: VarLenHandle,
    data: Seq<u8>,
    i: int,
)
    requires
        upload_of(upload, state, handle, data),
    ensures
        upload is Some <==> data.len() > 0,
        upload matches Some(up) ==> {
            &&& up.offset == handle.offset * state.buffer.elem_size
            &&& data.len() <= up.bytes@.len() < data.len() + 4
            &&& 0 <= i < data.len() ==> up.bytes@[i] == data[i]
            &&& data.len() <= i < up.bytes@.len() ==> up.bytes@[i] == 0
        },
{
    crate::gpu::dynamic_buffer::law_padding_adds_the_fewest_zeros(data, i);
}

} // verus!
