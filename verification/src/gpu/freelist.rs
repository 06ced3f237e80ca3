//! First-fit range suballocator.
//!
//! Unit-agnostic: callers decide whether `len` and `align` mean bytes or elements. The type only
//! tracks free spans and never touches a buffer.
use vstd::prelude::*;

verus! {

/// A free span: its offset, then its length.
pub type Span = (u64, u64);

/// One past the last unit of a span.
pub open spec fn span_end(span: Span) -> int {
    span.0 + span.1
}

/// Whether unit `x` lies in `span`.
pub open spec fn in_span(span: Span, x: int) -> bool {
    span.0 <= x < span_end(span)
}

/// Whether unit `x` is free.
pub open spec fn covers(spans: Seq<Span>, x: int) -> bool {
    exists|i: int| 0 <= i < spans.len() && #[trigger] in_span(spans[i], x)
}

/// Whether every unit of `[start, start + len)` is free.
pub open spec fn covers_range(spans: Seq<Span>, start: int, len: int) -> bool {
    forall|x: int| start <= x < start + len ==> #[trigger] covers(spans, x)
}

/// Units to skip from `off` up to the next multiple of `align`.
pub open spec fn pad_of(off: int, align: int) -> int
    recommends
        align > 0,
{
    if off % align == 0 {
        0
    } else {
        align - off % align
    }
}

/// Whether an aligned allocation of `len` units fits in `span`.
pub open spec fn fits(span: Span, len: u64, align: u64) -> bool {
    pad_of(span.0 as int, align as int) + len <= span.1
}

/// `i` is the first span in which the allocation fits.
pub open spec fn first_fit(spans: Seq<Span>, len: u64, align: u64, i: int) -> bool {
    &&& 0 <= i < spans.len()
    &&& fits(spans[i], len, align)
    &&& forall|j: int| 0 <= j < i ==> !#[trigger] fits(spans[j], len, align)
}

/// What is left of a span once the allocation is cut out of it: the alignment pad and the tail,
/// each only if it is not empty.
pub open spec fn remainder(span: Span, len: u64, align: u64) -> Seq<Span> {
    let pad = pad_of(span.0 as int, align as int);
    let tail = span.1 - pad - len;
    let pads: Seq<Span> = if pad > 0 {
        seq![(span.0, pad as u64)]
    } else {
        seq![]
    };
    let tails: Seq<Span> = if tail > 0 {
        seq![((span.0 + pad + len) as u64, tail as u64)]
    } else {
        seq![]
    };
    pads + tails
}

/// The spans after the allocation is cut out of span `i`.
pub open spec fn carved(spans: Seq<Span>, len: u64, align: u64, i: int) -> Seq<Span> {
    spans.take(i) + remainder(spans[i], len, align) + spans.skip(i + 1)
}

/// `i` is where a span starting at `offset` belongs.
pub open spec fn insertion_point(spans: Seq<Span>, offset: u64, i: int) -> bool {
    &&& 0 <= i <= spans.len()
    &&& forall|j: int| 0 <= j < i ==> (#[trigger] spans[j]).0 < offset
    &&& forall|j: int| i <= j < spans.len() ==> (#[trigger] spans[j]).0 >= offset
}

/// Merges span `i` with span `i + 1` where the one ends at the other's start.
pub open spec fn merged_at(spans: Seq<Span>, i: int) -> Seq<Span> {
    if 0 <= i && i + 1 < spans.len() && span_end(spans[i]) == spans[i + 1].0 {
        spans.remove(i + 1).update(i, (spans[i].0, (spans[i].1 + spans[i + 1].1) as u64))
    } else {
        spans
    }
}

/// The spans after `[offset, offset + len)` is given back at position `i` and coalesced with its
/// neighbours.
pub open spec fn freed(spans: Seq<Span>, offset: u64, len: u64, i: int) -> Seq<Span> {
    merged_at(merged_at(spans.insert(i, (offset, len)), i), i - 1)
}

/// The spans after the tracked range grows from `old_total` to `new_total`.
pub open spec fn extended(spans: Seq<Span>, old_total: u64, new_total: u64) -> Seq<Span> {
    let added = (new_total - old_total) as u64;
    if new_total == old_total {
        spans
    } else if spans.len() > 0 && span_end(spans.last()) == old_total {
        spans.update(spans.len() - 1, (spans.last().0, (spans.last().1 + added) as u64))
    } else {
        spans.push((old_total, added))
    }
}

/// Where an allocation of `len` units lands, if anywhere: the padded start of the first span that
/// can hold it.
pub open spec fn fit_offset(spans: Seq<Span>, len: u64, align: u64) -> Option<int> {
    if exists|i: int| first_fit(spans, len, align, i) {
        let i = choose|i: int| first_fit(spans, len, align, i);
        Some(spans[i].0 + pad_of(spans[i].0 as int, align as int))
    } else {
        None
    }
}

/// The spans after that allocation; unchanged where nothing can hold it.
pub open spec fn after_fit(spans: Seq<Span>, len: u64, align: u64) -> Seq<Span> {
    if exists|i: int| first_fit(spans, len, align, i) {
        carved(spans, len, align, choose|i: int| first_fit(spans, len, align, i))
    } else {
        spans
    }
}

/// The spans after `[offset, offset + len)` is given back; unchanged for an empty range.
pub open spec fn given_back(spans: Seq<Span>, offset: u64, len: u64) -> Seq<Span> {
    if len == 0 {
        spans
    } else {
        freed(spans, offset, len, choose|i: int| insertion_point(spans, offset, i))
    }
}

/// Spans are sorted by offset, do not overlap and end within `u64`.
pub open spec fn ordered(spans: Seq<Span>) -> bool {
    &&& forall|i: int| 0 <= i < spans.len() ==> span_end(#[trigger] spans[i]) <= u64::MAX
    &&& forall|i: int, j: int|
        #![trigger spans[i], spans[j]]
        0 <= i < j < spans.len() ==> spans[i].0 < spans[j].0 && span_end(spans[i]) <= spans[j].0
}

/// Spans are sorted, not empty and not adjacent: each is a maximal free range.
pub open spec fn canonical(spans: Seq<Span>) -> bool {
    &&& forall|i: int|
        0 <= i < spans.len() ==> span_end(#[trigger] spans[i]) <= u64::MAX && spans[i].1 > 0
    &&& forall|i: int, j: int|
        #![trigger spans[i], spans[j]]
        0 <= i < j < spans.len() ==> span_end(spans[i]) < spans[j].0
}

/// No free span overlaps `[offset, offset + len)` or starts in it.
pub open spec fn disjoint(spans: Seq<Span>, offset: u64, len: u64) -> bool {
    forall|i: int|
        0 <= i < spans.len() ==> offset + len <= (#[trigger] spans[i]).0 || (span_end(spans[i])
            <= offset && spans[i].0 < offset)
}

/// Sorted free spans over one linear range. First-fit allocation, coalescing on free.
pub struct RangeList {
    free: Vec<Span>,
}

impl View for RangeList {
    type V = Seq<Span>;

    closed spec fn view(&self) -> Seq<Span> {
        self.free@
    }
}

impl RangeList {
    /// The invariant every operation keeps.
    pub open spec fn wf(&self) -> bool {
        ordered(self@)
    }

    /// All of `[0, total)` is free.
    pub fn new(total: u64) -> (list: Self)
        ensures
            list@ == seq![(0u64, total)],
            list.wf(),
            total > 0 ==> canonical(list@),
    {
        let mut free: Vec<Span> = Vec::new();
        free.push((0, total));
        RangeList { free }
    }

    /// Takes `len` units at a multiple of `align` out of the first span that can hold them.
    pub fn allocate(&mut self, len: u64, align: u64) -> (offset: Option<u64>)
        requires
            old(self).wf(),
            align > 0,
        ensures
            final(self).wf(),
            match offset {
                Some(offset) => fit_offset(old(self)@, len, align) == Some(offset as int),
                None => fit_offset(old(self)@, len, align) is None,
            },
            final(self)@ == after_fit(old(self)@, len, align),
            offset is None <==> forall|i: int|
                0 <= i < old(self)@.len() ==> !#[trigger] fits(old(self)@[i], len, align),
            offset matches Some(offset) ==> {
                &&& offset % align == 0
                &&& offset + len <= u64::MAX
                &&& covers_range(old(self)@, offset as int, len as int)
                &&& forall|x: int| #[trigger]
                    covers(final(self)@, x) <==> covers(old(self)@, x) && !(offset <= x < offset
                        + len)
            },
            len > 0 && canonical(old(self)@) ==> canonical(final(self)@),
    {
        let mut i: usize = 0;
        while i < self.free.len()
            invariant
                self.wf(),
                self@ == old(self)@,
                align > 0,
                i <= self@.len(),
                forall|j: int| 0 <= j < i ==> !#[trigger] fits(self@[j], len, align),
            decreases self@.len() - i,
        {
            let (off, span) = self.free[i];
            assert(self@[i as int] == (off, span));
            assert(span_end(self@[i as int]) <= u64::MAX);
            let rem: u64 = off % align;
            let pad: u64 = if rem == 0 {
                0
            } else {
                align - rem
            };
            if len <= span && pad <= span - len {
                let aligned: u64 = off + pad;
                let tail: u64 = span - pad - len;
                proof {
                    assert(first_fit(old(self)@, len, align, i as int));
                    lemma_fit_unique(old(self)@, len, align, i as int);
                    lemma_aligned(off as int, align as int);
                    lemma_carved(self@, len, align, i as int);
                }
                self.free.remove(i);
                if tail > 0 {
                    self.free.insert(i, (aligned + len, tail));
                }
                if pad > 0 {
                    self.free.insert(i, (off, pad));
                }
                assert(self@ =~= carved(old(self)@, len, align, i as int));
                return Some(aligned);
            }
            i = i + 1;
        }
        None
    }

    /// Gives `[offset, offset + len)` back. An empty range is a no-op.
    pub fn free(&mut self, offset: u64, len: u64)
        requires
            old(self).wf(),
            len > 0 ==> offset + len <= u64::MAX && disjoint(old(self)@, offset, len),
        ensures
            final(self).wf(),
            final(self)@ == given_back(old(self)@, offset, len),
            forall|x: int| #[trigger]
                covers(final(self)@, x) <==> covers(old(self)@, x) || offset <= x < offset + len,
            canonical(old(self)@) ==> canonical(final(self)@),
    {
        if len == 0 {
            return ;
        }
        let mut idx: usize = 0;
        while idx < self.free.len() && self.free[idx].0 < offset
            invariant
                self@ == old(self)@,
                idx <= self@.len(),
                forall|j: int| 0 <= j < idx ==> (#[trigger] self@[j]).0 < offset,
            decreases self@.len() - idx,
        {
            idx = idx + 1;
        }
        proof {
            assert forall|j: int| idx <= j < self@.len() implies (#[trigger] self@[j]).0
                >= offset by {
                assert(self@[idx as int].0 <= self@[j].0);
            }
            assert(insertion_point(old(self)@, offset, idx as int));
            lemma_insertion_unique(old(self)@, offset, idx as int);
            lemma_freed(self@, offset, len, idx as int);
        }
        let ghost inserted = self@.insert(idx as int, (offset, len));
        self.free.insert(idx, (offset, len));
        assert(self@ == inserted);
        assert(span_end(inserted[idx as int]) <= u64::MAX);
        let end: u64 = self.free[idx].0 + self.free[idx].1;
        if self.free.len() - idx > 1 && end == self.free[idx + 1].0 {
            assert(span_end(inserted[idx + 1]) <= u64::MAX);
            let grown: u64 = self.free[idx].1 + self.free[idx + 1].1;
            let start: u64 = self.free[idx].0;
            self.free.remove(idx + 1);
            self.free.set(idx, (start, grown));
        }
        let ghost once = merged_at(inserted, idx as int);
        assert(self@ =~= once);
        if idx > 0 {
            assert(span_end(once[idx - 1]) <= u64::MAX && span_end(once[idx as int]) <= u64::MAX);
            let prev_end: u64 = self.free[idx - 1].0 + self.free[idx - 1].1;
            if prev_end == self.free[idx].0 {
                let start: u64 = self.free[idx - 1].0;
                let grown: u64 = self.free[idx - 1].1 + self.free[idx].1;
                self.free.remove(idx);
                self.free.set(idx - 1, (start, grown));
            }
        }
        assert(self@ =~= freed(old(self)@, offset, len, idx as int));
    }

    /// Adds `[old_total, new_total)` as free, after the backing storage grew.
    pub fn extend_total(&mut self, old_total: u64, new_total: u64)
        requires
            old(self).wf(),
            new_total >= old_total,
            forall|i: int|
                0 <= i < old(self)@.len() ==> span_end(#[trigger] old(self)@[i]) <= old_total,
        ensures
            final(self).wf(),
            final(self)@ == extended(old(self)@, old_total, new_total),
            forall|x: int| #[trigger]
                covers(final(self)@, x) <==> covers(old(self)@, x) || old_total <= x < new_total,
            canonical(old(self)@) ==> canonical(final(self)@),
    {
        proof {
            lemma_extended(self@, old_total, new_total);
        }
        if new_total == old_total {
            return ;
        }
        let added: u64 = new_total - old_total;
        let n: usize = self.free.len();
        if n > 0 {
            let last = self.free[n - 1];
            assert(self@.last() == last);
            assert(span_end(self@[n - 1]) <= old_total);
            if last.0 + last.1 == old_total {
                self.free.set(n - 1, (last.0, last.1 + added));
                return ;
            }
        }
        self.free.push((old_total, added));
    }
}

/// An allocation keeps the order, takes an aligned free range and nothing else.
pub proof fn lemma_after_fit(spans: Seq<Span>, len: u64, align: u64)
    requires
        ordered(spans),
        align > 0,
    ensures
        ordered(after_fit(spans, len, align)),
        len > 0 && canonical(spans) ==> canonical(after_fit(spans, len, align)),
        fit_offset(spans, len, align) matches Some(offset) ==> {
            &&& offset >= 0
            &&& offset % (align as int) == 0
            &&& covers_range(spans, offset, len as int)
            &&& forall|x: int| #[trigger]
                covers(after_fit(spans, len, align), x) <==> covers(spans, x) && !(offset <= x
                    < offset + len)
        },
{
    if exists|i: int| first_fit(spans, len, align, i) {
        let i = choose|i: int| first_fit(spans, len, align, i);
        lemma_aligned(spans[i].0 as int, align as int);
        lemma_carved(spans, len, align, i);
    }
}

/// Giving a range back keeps the order and adds exactly its units.
pub proof fn lemma_given_back(spans: Seq<Span>, offset: u64, len: u64)
    requires
        ordered(spans),
        len > 0,
        offset + len <= u64::MAX,
        disjoint(spans, offset, len),
    ensures
        ordered(given_back(spans, offset, len)),
        canonical(spans) ==> canonical(given_back(spans, offset, len)),
        forall|x: int| #[trigger]
            covers(given_back(spans, offset, len), x) <==> covers(spans, x) || offset <= x < offset
                + len,
{
    lemma_insertion_exists(spans, offset);
    lemma_freed(spans, offset, len, choose|i: int| insertion_point(spans, offset, i));
}

/// There is at most one first fit.
proof fn lemma_fit_unique(spans: Seq<Span>, len: u64, align: u64, i: int)
    requires
        first_fit(spans, len, align, i),
    ensures
        (choose|k: int| first_fit(spans, len, align, k)) == i,
{
    let k = choose|k: int| first_fit(spans, len, align, k);
    assert(first_fit(spans, len, align, k));
    if k < i {
        assert(!fits(spans[k], len, align));
    } else if i < k {
        assert(!fits(spans[i], len, align));
    }
}

/// There is at most one place for a span.
proof fn lemma_insertion_unique(spans: Seq<Span>, offset: u64, i: int)
    requires
        insertion_point(spans, offset, i),
    ensures
        (choose|k: int| insertion_point(spans, offset, k)) == i,
{
    let k = choose|k: int| insertion_point(spans, offset, k);
    assert(insertion_point(spans, offset, k));
    if k < i {
        assert(spans[k].0 < offset);
    } else if i < k {
        assert(spans[i].0 < offset);
    }
}

proof fn lemma_aligned(off: int, align: int)
    requires
        off >= 0,
        align > 0,
    ensures
        (off + pad_of(off, align)) % align == 0,
        0 <= pad_of(off, align) < align,
{
    vstd::arithmetic::div_mod::lemma_fundamental_div_mod(off, align);
    vstd::arithmetic::div_mod::lemma_mod_bound(off, align);
    let q = off / align;
    if off % align == 0 {
    } else {
        assert(off + pad_of(off, align) == (q + 1) * align) by (nonlinear_arith)
            requires
                off == align * q + off % align,
                pad_of(off, align) == align - off % align,
        ;
        vstd::arithmetic::div_mod::lemma_mod_multiples_basic(q + 1, align);
    }
}

/// Of the multiples of `align` at or above `off`, the padded one is the lowest.
proof fn lemma_pad_is_least(off: int, align: int, x: int)
    requires
        0 <= off <= x,
        align > 0,
        x % align == 0,
    ensures
        off + pad_of(off, align) <= x,
{
    lemma_aligned(off, align);
    let start = off + pad_of(off, align);
    if start > x {
        vstd::arithmetic::div_mod::lemma_fundamental_div_mod(start, align);
        vstd::arithmetic::div_mod::lemma_fundamental_div_mod(x, align);
        assert(start / align > x / align) by (nonlinear_arith)
            requires
                start > x,
                start == align * (start / align),
                x == align * (x / align),
                align > 0,
        ;
        assert(start - x >= align) by (nonlinear_arith)
            requires
                start == align * (start / align),
                x == align * (x / align),
                start / align >= x / align + 1,
                align > 0,
        ;
    }
}

/// Coverage of a concatenation.
proof fn lemma_covers_add(a: Seq<Span>, b: Seq<Span>)
    ensures
        forall|x: int| #[trigger] covers(a + b, x) <==> covers(a, x) || covers(b, x),
{
    assert forall|x: int| #[trigger] covers(a + b, x) <==> covers(a, x) || covers(b, x) by {
        if covers(a + b, x) {
            let i = choose|i: int| 0 <= i < (a + b).len() && #[trigger] in_span((a + b)[i], x);
            if i < a.len() {
                assert(in_span(a[i], x));
            } else {
                assert(in_span(b[i - a.len()], x));
            }
        }
        if covers(a, x) {
            let i = choose|i: int| 0 <= i < a.len() && #[trigger] in_span(a[i], x);
            assert(in_span((a + b)[i], x));
        }
        if covers(b, x) {
            let i = choose|i: int| 0 <= i < b.len() && #[trigger] in_span(b[i], x);
            assert(in_span((a + b)[i + a.len()], x));
        }
    }
}

/// Coverage of one span.
proof fn lemma_covers_one(span: Span)
    ensures
        forall|x: int| #[trigger] covers(seq![span], x) <==> in_span(span, x),
{
    assert forall|x: int| #[trigger] covers(seq![span], x) <==> in_span(span, x) by {
        assert(seq![span][0] == span);
        if in_span(span, x) {
            assert(in_span(seq![span][0], x));
        }
    }
}

/// Coverage split around span `i`.
proof fn lemma_covers_split(spans: Seq<Span>, i: int)
    requires
        0 <= i < spans.len(),
    ensures
        forall|x: int| #[trigger]
            covers(spans, x) <==> covers(spans.take(i), x) || in_span(spans[i], x) || covers(
                spans.skip(i + 1),
                x,
            ),
{
    lemma_covers_add(spans.take(i), seq![spans[i]]);
    lemma_covers_add(spans.take(i) + seq![spans[i]], spans.skip(i + 1));
    lemma_covers_one(spans[i]);
    assert(spans.take(i) + seq![spans[i]] + spans.skip(i + 1) =~= spans);
}

proof fn lemma_remainder(span: Span, len: u64, align: u64)
    requires
        align > 0,
        fits(span, len, align),
        span_end(span) <= u64::MAX,
    ensures
        forall|x: int| #[trigger]
            covers(remainder(span, len, align), x) <==> in_span(span, x) && !(span.0 + pad_of(
                span.0 as int,
                align as int,
            ) <= x < span.0 + pad_of(span.0 as int, align as int) + len),
        forall|k: int|
            0 <= k < remainder(span, len, align).len() ==> {
                let s = #[trigger] remainder(span, len, align)[k];
                span.0 <= s.0 && span_end(s) <= span_end(span) && s.1 > 0
            },
        remainder(span, len, align).len() <= 2,
        remainder(span, len, align).len() == 2 ==> span_end(remainder(span, len, align)[0]) + len
            == remainder(span, len, align)[1].0,
{
    lemma_aligned(span.0 as int, align as int);
    let pad = pad_of(span.0 as int, align as int);
    let tail = span.1 - pad - len;
    let first = (span.0, pad as u64);
    let second = ((span.0 + pad + len) as u64, tail as u64);
    let pads: Seq<Span> = if pad > 0 {
        seq![first]
    } else {
        seq![]
    };
    let tails: Seq<Span> = if tail > 0 {
        seq![second]
    } else {
        seq![]
    };
    lemma_covers_add(pads, tails);
    lemma_covers_one(first);
    lemma_covers_one(second);
    assert forall|x: int| #[trigger]
        covers(remainder(span, len, align), x) <==> in_span(span, x) && !(span.0 + pad <= x
            < span.0 + pad + len) by {
        assert(covers(pads, x) <==> pad > 0 && in_span(first, x));
        assert(covers(tails, x) <==> tail > 0 && in_span(second, x));
    }
}

proof fn lemma_carved(spans: Seq<Span>, len: u64, align: u64, i: int)
    requires
        ordered(spans),
        align > 0,
        0 <= i < spans.len(),
        fits(spans[i], len, align),
    ensures
        ordered(carved(spans, len, align, i)),
        len > 0 && canonical(spans) ==> canonical(carved(spans, len, align, i)),
        covers_range(
            spans,
            spans[i].0 + pad_of(spans[i].0 as int, align as int),
            len as int,
        ),
        forall|x: int| #[trigger]
            covers(carved(spans, len, align, i), x) <==> covers(spans, x) && !(spans[i].0
                + pad_of(spans[i].0 as int, align as int) <= x < spans[i].0 + pad_of(
                spans[i].0 as int,
                align as int,
            ) + len),
{
    let start = spans[i].0 + pad_of(spans[i].0 as int, align as int);
    let rest = remainder(spans[i], len, align);
    let out = carved(spans, len, align, i);
    assert(span_end(spans[i]) <= u64::MAX);
    lemma_aligned(spans[i].0 as int, align as int);
    lemma_remainder(spans[i], len, align);
    lemma_covers_split(spans, i);
    lemma_covers_add(spans.take(i), rest);
    lemma_covers_add(spans.take(i) + rest, spans.skip(i + 1));
    assert forall|x: int| start <= x < start + len implies #[trigger] covers(spans, x) by {
        assert(in_span(spans[i], x));
    }
    assert forall|x: int| #[trigger]
        covers(out, x) <==> covers(spans, x) && !(start <= x < start + len) by {
        if start <= x < start + len {
            assert(in_span(spans[i], x));
            if covers(spans.take(i), x) {
                let k = choose|k: int|
                    0 <= k < spans.take(i).len() && #[trigger] in_span(spans.take(i)[k], x);
                assert(spans.take(i)[k] == spans[k]);
                assert(span_end(spans[k]) <= spans[i].0);
            }
            if covers(spans.skip(i + 1), x) {
                let k = choose|k: int|
                    0 <= k < spans.skip(i + 1).len() && #[trigger] in_span(
                        spans.skip(i + 1)[k],
                        x,
                    );
                assert(spans.skip(i + 1)[k] == spans[k + i + 1]);
                assert(span_end(spans[i]) <= spans[k + i + 1].0);
            }
        }
    }
    let n = rest.len();
    assert forall|j: int| 0 <= j < out.len() implies span_end(#[trigger] out[j])
        <= u64::MAX by {
        if j < i {
            assert(out[j] == spans[j]);
        } else if j < i + n {
            assert(out[j] == rest[j - i]);
        } else {
            assert(out[j] == spans[j - n + 1]);
        }
    }
    assert forall|j: int, k: int|
        #![trigger out[j], out[k]]
        0 <= j < k < out.len() implies out[j].0 < out[k].0 && span_end(out[j]) <= out[k].0 by {
        lemma_carved_at(spans, len, align, i, j);
        lemma_carved_at(spans, len, align, i, k);
    }
    if len > 0 && canonical(spans) {
        assert forall|j: int, k: int|
            #![trigger out[j], out[k]]
            0 <= j < k < out.len() implies span_end(out[j]) < out[k].0 by {
            lemma_carved_at(spans, len, align, i, j);
            lemma_carved_at(spans, len, align, i, k);
        }
        assert forall|j: int| 0 <= j < out.len() implies span_end(#[trigger] out[j]) <= u64::MAX
            && out[j].1 > 0 by {
            lemma_carved_at(spans, len, align, i, j);
        }
    }
}

/// Where entry `j` of the carved list comes from.
proof fn lemma_carved_at(spans: Seq<Span>, len: u64, align: u64, i: int, j: int)
    requires
        align > 0,
        0 <= i < spans.len(),
        0 <= j < carved(spans, len, align, i).len(),
    ensures
        ({
            let out = carved(spans, len, align, i);
            let rest = remainder(spans[i], len, align);
            &&& j < i ==> out[j] == spans[j]
            &&& i <= j < i + rest.len() ==> out[j] == rest[j - i]
            &&& i + rest.len() <= j ==> i < j - rest.len() + 1 < spans.len() && out[j] == spans[j
                - rest.len() + 1]
        }),
{
}

proof fn lemma_freed(spans: Seq<Span>, offset: u64, len: u64, i: int)
    requires
        ordered(spans),
        len > 0,
        offset + len <= u64::MAX,
        disjoint(spans, offset, len),
        insertion_point(spans, offset, i),
    ensures
        ordered(spans.insert(i, (offset, len))),
        ordered(merged_at(spans.insert(i, (offset, len)), i)),
        ordered(freed(spans, offset, len, i)),
        canonical(spans) ==> canonical(freed(spans, offset, len, i)),
        forall|x: int| #[trigger]
            covers(freed(spans, offset, len, i), x) <==> covers(spans, x) || offset <= x < offset
                + len,
{
    let s1 = spans.insert(i, (offset, len));
    assert forall|j: int| 0 <= j < s1.len() implies span_end(#[trigger] s1[j]) <= u64::MAX by {
        if j < i {
            assert(s1[j] == spans[j]);
        } else if j > i {
            assert(s1[j] == spans[j - 1]);
        }
    }
    assert forall|j: int, k: int|
        #![trigger s1[j], s1[k]]
        0 <= j < k < s1.len() implies s1[j].0 < s1[k].0 && span_end(s1[j]) <= s1[k].0 by {
        if j < i {
            assert(s1[j] == spans[j]);
        } else if j > i {
            assert(s1[j] == spans[j - 1]);
        }
        if k < i {
            assert(s1[k] == spans[k]);
        } else if k > i {
            assert(s1[k] == spans[k - 1]);
        }
    }
    lemma_covers_split(s1, i);
    lemma_covers_add(spans.take(i), spans.skip(i));
    assert(s1.take(i) =~= spans.take(i));
    assert(s1.skip(i + 1) =~= spans.skip(i));
    assert(spans.take(i) + spans.skip(i) =~= spans);
    let s2 = merged_at(s1, i);
    lemma_merged(s1, i);
    lemma_merged(s2, i - 1);
    if canonical(spans) {
        assert(apart_but(s1, i - 1, i)) by {
            assert forall|j: int| 0 <= j < s1.len() implies (#[trigger] s1[j]).1 > 0 by {
                if j < i {
                    assert(s1[j] == spans[j]);
                } else if j > i {
                    assert(s1[j] == spans[j - 1]);
                }
            }
            assert forall|j: int, k: int|
                #![trigger s1[j], s1[k]]
                0 <= j < k < s1.len() && !(k == j + 1 && (j == i - 1 || j == i)) implies span_end(
                s1[j],
            ) < s1[k].0 by {
                if j < i {
                    assert(s1[j] == spans[j]);
                } else if j > i {
                    assert(s1[j] == spans[j - 1]);
                }
                if k < i {
                    assert(s1[k] == spans[k]);
                } else if k > i {
                    assert(s1[k] == spans[k - 1]);
                }
                if j == i {
                    assert(span_end(spans[i]) < spans[k - 1].0);
                }
                if k == i {
                    assert(span_end(spans[j]) < spans[i - 1].0);
                }
            }
        }
        lemma_merged_apart(s1, i, i - 1);
        lemma_merged_apart(s2, i - 1, i - 1);
        assert(ordered(freed(spans, offset, len, i)));
    }
}

/// Spans are not empty, and only the pairs starting at `a` and `b` may touch.
spec fn apart_but(spans: Seq<Span>, a: int, b: int) -> bool {
    &&& forall|i: int| 0 <= i < spans.len() ==> (#[trigger] spans[i]).1 > 0
    &&& forall|i: int, j: int|
        #![trigger spans[i], spans[j]]
        0 <= i < j < spans.len() && !(j == i + 1 && (i == a || i == b)) ==> span_end(spans[i])
            < spans[j].0
}

/// Merging a pair leaves no gapless pair there.
proof fn lemma_merged_apart(spans: Seq<Span>, i: int, other: int)
    requires
        ordered(spans),
        apart_but(spans, i, other),
        other <= i,
    ensures
        ordered(merged_at(spans, i)),
        other < i ==> apart_but(merged_at(spans, i), other, other),
        other == i ==> canonical(merged_at(spans, i)),
{
    lemma_merged(spans, i);
    let out = merged_at(spans, i);
    if 0 <= i && i + 1 < spans.len() && span_end(spans[i]) == spans[i + 1].0 {
        assert(span_end(spans[i + 1]) <= u64::MAX);
        assert(span_end(out[i]) == span_end(spans[i + 1]));
        assert(forall|j: int| 0 <= j < i ==> #[trigger] out[j] == spans[j]);
        assert(forall|j: int| i < j < out.len() ==> #[trigger] out[j] == spans[j + 1]);
        assert forall|j: int| 0 <= j < out.len() implies (#[trigger] out[j]).1 > 0 by {
            let jj = if j > i {
                j + 1
            } else {
                j
            };
            assert(spans[jj].1 > 0);
        }
        assert forall|j: int, k: int|
            #![trigger out[j], out[k]]
            0 <= j < k < out.len() && !(k == j + 1 && j == other && other < i) implies span_end(
            out[j],
        ) < out[k].0 by {
            let jj = if j >= i {
                j + 1
            } else {
                j
            };
            let kk = if k > i {
                k + 1
            } else {
                k
            };
            assert(span_end(spans[jj]) < spans[kk].0);
        }
    } else {
        assert forall|j: int, k: int|
            #![trigger out[j], out[k]]
            0 <= j < k < out.len() && !(k == j + 1 && j == other && other < i) implies span_end(
            out[j],
        ) < out[k].0 by {
            assert(span_end(spans[j]) <= spans[k].0);
        }
    }
}

/// Merging keeps the order and the coverage.
proof fn lemma_merged(spans: Seq<Span>, i: int)
    requires
        ordered(spans),
    ensures
        ordered(merged_at(spans, i)),
        forall|x: int| #[trigger] covers(merged_at(spans, i), x) <==> covers(spans, x),
{
    if 0 <= i && i + 1 < spans.len() && span_end(spans[i]) == spans[i + 1].0 {
        let out = merged_at(spans, i);
        assert(span_end(spans[i + 1]) <= u64::MAX);
        assert(span_end(out[i]) == span_end(spans[i + 1]));
        assert(forall|j: int| 0 <= j < i ==> #[trigger] out[j] == spans[j]);
        assert(forall|j: int| i < j < out.len() ==> #[trigger] out[j] == spans[j + 1]);
        assert forall|j: int, k: int|
            #![trigger out[j], out[k]]
            0 <= j < k < out.len() implies out[j].0 < out[k].0 && span_end(out[j]) <= out[k].0 by {
            let jj = if j > i {
                j + 1
            } else {
                j
            };
            let kk = if k > i {
                k + 1
            } else {
                k
            };
            assert(spans[jj].0 < spans[kk].0);
            if j == i {
                assert(span_end(spans[i + 1]) <= spans[kk].0);
            }
        }
        assert forall|x: int| #[trigger] covers(out, x) <==> covers(spans, x) by {
            if covers(out, x) {
                let k = choose|k: int| 0 <= k < out.len() && #[trigger] in_span(out[k], x);
                if k == i {
                    if x < span_end(spans[i]) {
                        assert(in_span(spans[i], x));
                    } else {
                        assert(in_span(spans[i + 1], x));
                    }
                } else if k < i {
                    assert(in_span(spans[k], x));
                } else {
                    assert(in_span(spans[k + 1], x));
                }
            }
            if covers(spans, x) {
                let k = choose|k: int| 0 <= k < spans.len() && #[trigger] in_span(spans[k], x);
                if k <= i {
                    assert(in_span(out[k], x));
                } else if k == i + 1 {
                    assert(in_span(out[i], x));
                } else {
                    assert(out[k - 1] == spans[k]);
                    assert(in_span(out[k - 1], x));
                }
            }
        }
    }
}

/// Growing the tracked range keeps the order and adds exactly the new units.
pub proof fn lemma_extended(spans: Seq<Span>, old_total: u64, new_total: u64)
    requires
        ordered(spans),
        new_total >= old_total,
        forall|i: int| 0 <= i < spans.len() ==> span_end(#[trigger] spans[i]) <= old_total,
    ensures
        ordered(extended(spans, old_total, new_total)),
        canonical(spans) ==> canonical(extended(spans, old_total, new_total)),
        forall|x: int| #[trigger]
            covers(extended(spans, old_total, new_total), x) <==> covers(spans, x) || old_total
                <= x < new_total,
{
    let out = extended(spans, old_total, new_total);
    let added = (new_total - old_total) as u64;
    if new_total != old_total {
        if spans.len() > 0 && span_end(spans.last()) == old_total {
            let n = spans.len() - 1;
            assert(out[n].0 == spans[n].0 && span_end(out[n]) == new_total);
            assert(forall|j: int| 0 <= j < n ==> #[trigger] out[j] == spans[j]);
            assert forall|j: int, k: int|
                #![trigger out[j], out[k]]
                0 <= j < k < out.len() implies out[j].0 < out[k].0 && span_end(out[j]) <= out[k].0 by {}
            assert forall|x: int| #[trigger]
                covers(out, x) <==> covers(spans, x) || old_total <= x < new_total by {
                if covers(out, x) {
                    let k = choose|k: int| 0 <= k < out.len() && #[trigger] in_span(out[k], x);
                    assert(in_span(spans[k], x) || old_total <= x < new_total);
                }
                if covers(spans, x) {
                    let k = choose|k: int| 0 <= k < spans.len() && #[trigger] in_span(spans[k], x);
                    assert(in_span(out[k], x));
                }
                if old_total <= x < new_total {
                    assert(in_span(out[n], x));
                }
            }
        } else {
            lemma_covers_add(spans, seq![(old_total, added)]);
            lemma_covers_one((old_total, added));
            assert(spans + seq![(old_total, added)] =~= out);
            assert(span_end((old_total, added)) == new_total);
            assert(forall|j: int| 0 <= j < spans.len() ==> #[trigger] out[j] == spans[j]);
            assert(out[spans.len() as int] == (old_total, added));
            if canonical(spans) {
                assert forall|j: int| 0 <= j < spans.len() implies span_end(#[trigger] spans[j])
                    < old_total by {
                    if j < spans.len() - 1 {
                        assert(span_end(spans[j]) < spans[spans.len() - 1].0);
                    }
                }
            }
        }
    }
}

/// Giving back what was just allocated restores exactly the free units there were before.
pub proof fn law_allocate_then_free_restores(spans: Seq<Span>, len: u64, align: u64, offset: u64)
    requires
        ordered(spans),
        align > 0,
        len > 0,
        fit_offset(spans, len, align) == Some(offset as int),
    ensures
        disjoint(after_fit(spans, len, align), offset, len),
        forall|x: int| #[trigger]
            covers(given_back(after_fit(spans, len, align), offset, len), x) <==> covers(spans, x),
        canonical(spans) ==> given_back(after_fit(spans, len, align), offset, len) == spans,
{
    let i = choose|i: int| first_fit(spans, len, align, i);
    let taken = carved(spans, len, align, i);
    assert(span_end(spans[i]) <= u64::MAX);
    lemma_aligned(spans[i].0 as int, align as int);
    lemma_carved(spans, len, align, i);
    lemma_remainder(spans[i], len, align);
    assert forall|k: int| 0 <= k < taken.len() implies offset + len <= (#[trigger] taken[k]).0
        || (span_end(taken[k]) <= offset && taken[k].0 < offset) by {
        lemma_carved_at(spans, len, align, i, k);
        if !(offset + len <= taken[k].0 || span_end(taken[k]) <= offset) {
            let x = if taken[k].0 > offset {
                taken[k].0 as int
            } else {
                offset as int
            };
            if taken[k].1 > 0 {
                assert(in_span(taken[k], x));
                assert(covers(taken, x));
            }
        }
    }
    assert(disjoint(taken, offset, len));
    lemma_insertion_exists(taken, offset);
    let at = choose|k: int| insertion_point(taken, offset, k);
    lemma_freed(taken, offset, len, at);
    if canonical(spans) {
        law_canonical_is_unique(given_back(taken, offset, len), spans);
    }
}

proof fn lemma_insertion_exists(spans: Seq<Span>, offset: u64)
    requires
        ordered(spans),
    ensures
        exists|i: int| insertion_point(spans, offset, i),
    decreases spans.len(),
{
    if spans.len() == 0 || spans.last().0 < offset {
        assert forall|j: int| 0 <= j < spans.len() implies (#[trigger] spans[j]).0 < offset by {
            if j < spans.len() - 1 {
                assert(spans[j].0 < spans[spans.len() - 1].0);
            }
        }
        assert(insertion_point(spans, offset, spans.len() as int));
    } else {
        let front = spans.drop_last();
        lemma_insertion_exists(front, offset);
        let i = choose|i: int| insertion_point(front, offset, i);
        assert forall|j: int| 0 <= j < i implies (#[trigger] spans[j]).0 < offset by {
            assert(front[j] == spans[j]);
        }
        assert forall|j: int| i <= j < spans.len() implies (#[trigger] spans[j]).0 >= offset by {
            if j < front.len() {
                assert(front[j] == spans[j]);
            }
        }
        assert(insertion_point(spans, offset, i));
    }
}

/// Maximal free ranges are determined by which units are free: two canonical lists that cover the
/// same units are equal.
pub proof fn law_canonical_is_unique(a: Seq<Span>, b: Seq<Span>)
    requires
        canonical(a),
        canonical(b),
        forall|x: int| #[trigger] covers(a, x) <==> covers(b, x),
    ensures
        a == b,
{
    lemma_canonical_prefix(a, b, a.len() as int);
    lemma_canonical_prefix(b, a, b.len() as int);
    assert(a =~= b);
}

proof fn lemma_canonical_prefix(a: Seq<Span>, b: Seq<Span>, n: int)
    requires
        canonical(a),
        canonical(b),
        forall|x: int| #[trigger] covers(a, x) <==> covers(b, x),
        0 <= n <= a.len(),
    ensures
        n <= b.len(),
        forall|i: int| 0 <= i < n ==> a[i] == b[i],
    decreases n,
{
    if n > 0 {
        lemma_canonical_prefix(a, b, n - 1);
        let m = n - 1;
        let start = a[m].0 as int;
        assert(in_span(a[m], start));
        assert(covers(a, start));
        let j = choose|j: int| 0 <= j < b.len() && #[trigger] in_span(b[j], start);
        if j < m {
            assert(a[j] == b[j]);
            assert(span_end(a[j]) < a[m].0);
        }
        // `b[m]` starts where `a[m]` does: no unit below is free past the common prefix.
        let low = b[m].0 as int;
        assert(in_span(b[m], low));
        assert(covers(b, low));
        assert(covers(a, low));
        let k = choose|k: int| 0 <= k < a.len() && #[trigger] in_span(a[k], low);
        if k < m {
            assert(a[k] == b[k]);
            assert(span_end(b[k]) < b[m].0);
        }
        if j > m {
            assert(span_end(b[m]) < b[j].0);
            if k > m {
                assert(span_end(a[m]) < a[k].0);
            }
        }
        assert(j == m);
        if low < start {
            if k > m {
                assert(span_end(a[m]) < a[k].0);
            }
        }
        lemma_same_end(a, b, m);
        lemma_same_end(b, a, m);
    }
}

/// Two canonical spans with one start end together.
proof fn lemma_same_end(a: Seq<Span>, b: Seq<Span>, m: int)
    requires
        canonical(a),
        canonical(b),
        forall|x: int| #[trigger] covers(a, x) <==> covers(b, x),
        0 <= m < a.len(),
        m < b.len(),
        a[m].0 == b[m].0,
    ensures
        span_end(a[m]) <= span_end(b[m]),
{
    let end = span_end(b[m]);
    if end < span_end(a[m]) {
        assert(in_span(a[m], end));
        assert(covers(a, end));
        assert(covers(b, end));
        let j = choose|j: int| 0 <= j < b.len() && #[trigger] in_span(b[j], end);
        if j < m {
            assert(span_end(b[j]) < b[m].0);
        } else if j > m {
            assert(span_end(b[m]) < b[j].0);
        }
    }
}

/// Among maximal free ranges, first fit answers with the lowest aligned offset at which `len`
/// free units start, and refuses only when there is none.
pub proof fn law_first_fit_is_lowest(spans: Seq<Span>, len: u64, align: u64, x: int)
    requires
        canonical(spans),
        align > 0,
        len > 0,
        x >= 0,
        x % (align as int) == 0,
        covers_range(spans, x, len as int),
    ensures
        fit_offset(spans, len, align) matches Some(offset) && offset <= x,
{
    assert(covers(spans, x));
    let k = choose|k: int| 0 <= k < spans.len() && #[trigger] in_span(spans[k], x);
    // The whole range lies in span `k`, since the unit just past a span is never free.
    if x + len > span_end(spans[k]) {
        let y = span_end(spans[k]);
        assert(covers(spans, y));
        let m = choose|m: int| 0 <= m < spans.len() && #[trigger] in_span(spans[m], y);
        if m < k {
            assert(span_end(spans[m]) < spans[k].0);
        } else if m > k {
            assert(span_end(spans[k]) < spans[m].0);
        }
        assert(false);
    }
    lemma_pad_is_least(spans[k].0 as int, align as int, x);
    assert(fits(spans[k], len, align));
    lemma_first_fit_exists(spans, len, align, k);
    let i = choose|i: int| i <= k && #[trigger] first_fit(spans, len, align, i);
    if i < k {
        lemma_aligned(spans[i].0 as int, align as int);
        assert(span_end(spans[i]) < spans[k].0);
    }
    lemma_fit_unique(spans, len, align, i);
}

proof fn lemma_first_fit_exists(spans: Seq<Span>, len: u64, align: u64, k: int)
    requires
        0 <= k < spans.len(),
        fits(spans[k], len, align),
    ensures
        exists|i: int| i <= k && #[trigger] first_fit(spans, len, align, i),
    decreases k,
{
    if exists|j: int| 0 <= j < k && #[trigger] fits(spans[j], len, align) {
        let j = choose|j: int| 0 <= j < k && #[trigger] fits(spans[j], len, align);
        lemma_first_fit_exists(spans, len, align, j);
        let i = choose|i: int| i <= j && #[trigger] first_fit(spans, len, align, i);
        assert(i <= k && first_fit(spans, len, align, i));
    } else {
        assert(first_fit(spans, len, align, k));
    }
}

} // verus!
