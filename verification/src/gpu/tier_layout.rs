//! Which parts of a payload move together between storage tiers.
//!
//! A payload type has either no layout, and then moves as a whole, or a list of segments, each with a
//! rank. Segments of one rank form a unit; units are admitted in ascending order of rank and
//! withdrawn in descending order, so that what is resident is always a prefix of the ranks.
use crate::gpu::buffer_registry::TypeKey;
use vstd::prelude::*;
use vstd::string::*;

verus! {

/// `len` bytes of a payload from `offset` on, moved with everything else of the same rank.
#[derive(Clone, Copy, Debug, PartialEq, Eq, Structural)]
pub struct Segment {
    pub offset: u64,
    pub len: u64,
    pub rank: u32,
}

impl Segment {
    pub fn new(offset: u64, len: u64, rank: u32) -> (segment: Self)
        ensures
            segment == (Segment { offset, len, rank }),
    {
        Segment { offset, len, rank }
    }
}

/// Why a layout was refused.
#[derive(Clone, Copy, Debug, PartialEq, Eq, Structural)]
pub enum LayoutError {
    /// A segment without bytes.
    ZeroLengthSegment,
    /// Two segments claim the same byte.
    OverlappingSegments,
    /// The type already has another layout.
    ConflictingLayout,
}

impl LayoutError {
    /// The message.
    pub open spec fn message(self) -> Seq<char> {
        match self {
            LayoutError::ZeroLengthSegment => "segment layout contains a zero-length segment"@,
            LayoutError::OverlappingSegments => "segment layout contains overlapping byte ranges"@,
            LayoutError::ConflictingLayout =>
                "segment layout conflicts with an already-registered layout for this type"@,
        }
    }

    /// The message.
    pub fn describe(&self) -> (text: String)
        ensures
            text@ == self.message(),
    {
        match self {
            LayoutError::ZeroLengthSegment => {
                "segment layout contains a zero-length segment".to_owned()
            },
            LayoutError::OverlappingSegments => {
                "segment layout contains overlapping byte ranges".to_owned()
            },
            LayoutError::ConflictingLayout => {
                "segment layout conflicts with an already-registered layout for this type".to_owned()
            },
        }
    }
}

/// The segments share a byte.
pub open spec fn overlap(a: Segment, b: Segment) -> bool {
    a.offset < b.offset + b.len && b.offset < a.offset + a.len
}

/// Some segment has no bytes.
pub open spec fn has_empty(segments: Seq<Segment>) -> bool {
    exists|i: int| 0 <= i < segments.len() && (#[trigger] segments[i]).len == 0
}

/// Two segments share a byte.
pub open spec fn has_overlap(segments: Seq<Segment>) -> bool {
    exists|i: int, j: int|
        0 <= i < j < segments.len() && overlap(#[trigger] segments[i], #[trigger] segments[j])
}

/// What is wrong with a list of segments, if anything.
pub open spec fn layout_error(segments: Seq<Segment>) -> Option<LayoutError> {
    if has_empty(segments) {
        Some(LayoutError::ZeroLengthSegment)
    } else if has_overlap(segments) {
        Some(LayoutError::OverlappingSegments)
    } else {
        None
    }
}

fn validate(segments: &Vec<Segment>) -> (r: Result<(), LayoutError>)
    ensures
        match r {
            Ok(()) => layout_error(segments@) is None,
            Err(e) => layout_error(segments@) == Some(e),
        },
{
    let mut i: usize = 0;
    while i < segments.len()
        invariant
            i <= segments@.len(),
            forall|k: int| 0 <= k < i ==> (#[trigger] segments@[k]).len != 0,
        decreases segments@.len() - i,
    {
        if segments[i].len == 0 {
            assert(segments@[i as int].len == 0);
            return Err(LayoutError::ZeroLengthSegment);
        }
        i = i + 1;
    }
    let mut j: usize = 0;
    while j < segments.len()
        invariant
            j <= segments@.len(),
            !has_empty(segments@),
            forall|a: int, b: int|
                #![trigger segments@[a], segments@[b]]
                0 <= a < b < j ==> !overlap(segments@[a], segments@[b]),
        decreases segments@.len() - j,
    {
        let mut a: usize = 0;
        while a < j
            invariant
                a <= j < segments@.len(),
                !has_empty(segments@),
                forall|k: int|
                    0 <= k < a ==> !overlap(#[trigger] segments@[k], segments@[j as int]),
            decreases j - a,
        {
            let x: Segment = segments[a];
            let y: Segment = segments[j];
            let shared: bool = if x.offset <= y.offset {
                y.offset - x.offset < x.len
            } else {
                x.offset - y.offset < y.len
            };
            assert(segments@[a as int].len != 0 && segments@[j as int].len != 0);
            assert(shared == overlap(x, y));
            if shared {
                assert(overlap(segments@[a as int], segments@[j as int]));
                return Err(LayoutError::OverlappingSegments);
            }
            a = a + 1;
        }
        j = j + 1;
    }
    Ok(())
}

/// A segment put in its place among segments in ascending order of rank, behind those of its own
/// rank.
pub open spec fn placed(sorted: Seq<Segment>, segment: Segment) -> Seq<Segment>
    decreases sorted.len(),
{
    if sorted.len() == 0 || sorted.last().rank <= segment.rank {
        sorted.push(segment)
    } else {
        placed(sorted.drop_last(), segment).push(sorted.last())
    }
}

/// The segments in ascending order of rank, those of one rank in the order given.
pub open spec fn ranked(segments: Seq<Segment>) -> Seq<Segment>
    decreases segments.len(),
{
    if segments.len() == 0 {
        seq![]
    } else {
        placed(ranked(segments.drop_last()), segments.last())
    }
}

/// The ranks never go down.
pub open spec fn ranks_ascend(segments: Seq<Segment>) -> bool {
    forall|i: int, j: int|
        #![trigger segments[i], segments[j]]
        0 <= i < j < segments.len() ==> segments[i].rank <= segments[j].rank
}

/// The segments of one rank, in order.
pub open spec fn of_rank(segments: Seq<Segment>, rank: u32) -> Seq<Segment>
    decreases segments.len(),
{
    if segments.len() == 0 {
        seq![]
    } else if segments.last().rank == rank {
        of_rank(segments.drop_last(), rank).push(segments.last())
    } else {
        of_rank(segments.drop_last(), rank)
    }
}

proof fn lemma_placed(sorted: Seq<Segment>, segment: Segment, at: int)
    requires
        0 <= at <= sorted.len(),
        at == 0 || sorted[at - 1].rank <= segment.rank,
        forall|k: int| at <= k < sorted.len() ==> (#[trigger] sorted[k]).rank > segment.rank,
    ensures
        placed(sorted, segment) == sorted.insert(at, segment),
    decreases sorted.len(),
{
    if at == sorted.len() {
        assert(sorted.insert(at, segment) =~= sorted.push(segment));
    } else {
        lemma_placed(sorted.drop_last(), segment, at);
        assert(sorted.drop_last().insert(at, segment).push(sorted.last()) =~= sorted.insert(
            at,
            segment,
        ));
    }
}

/// Where a segment is placed.
proof fn lemma_place(sorted: Seq<Segment>, segment: Segment) -> (at: int)
    ensures
        0 <= at <= sorted.len(),
        at == 0 || sorted[at - 1].rank <= segment.rank,
        forall|k: int| at <= k < sorted.len() ==> (#[trigger] sorted[k]).rank > segment.rank,
        placed(sorted, segment) == sorted.insert(at, segment),
    decreases sorted.len(),
{
    if sorted.len() == 0 || sorted.last().rank <= segment.rank {
        assert(sorted.insert(sorted.len() as int, segment) =~= sorted.push(segment));
        sorted.len() as int
    } else {
        let at = lemma_place(sorted.drop_last(), segment);
        assert forall|k: int| at <= k < sorted.len() implies (#[trigger] sorted[k]).rank
            > segment.rank by {
            if k < sorted.len() - 1 {
                assert(sorted.drop_last()[k] == sorted[k]);
            }
        }
        lemma_placed(sorted, segment, at);
        at
    }
}

proof fn lemma_placed_of_rank(sorted: Seq<Segment>, segment: Segment, rank: u32)
    ensures
        of_rank(placed(sorted, segment), rank) == of_rank(sorted.push(segment), rank),
    decreases sorted.len(),
{
    assert(sorted.push(segment).drop_last() =~= sorted);
    if sorted.len() > 0 && sorted.last().rank > segment.rank {
        let front = sorted.drop_last();
        lemma_placed_of_rank(front, segment, rank);
        reveal_with_fuel(of_rank, 3);
        assert(placed(sorted, segment).drop_last() =~= placed(front, segment));
        assert(front.push(segment).drop_last() =~= front);
    }
}

proof fn lemma_same_of_rank(a: Seq<Segment>, b: Seq<Segment>, segment: Segment, rank: u32)
    requires
        of_rank(a, rank) == of_rank(b, rank),
    ensures
        of_rank(a.push(segment), rank) == of_rank(b.push(segment), rank),
{
    assert(a.push(segment).drop_last() =~= a);
    assert(b.push(segment).drop_last() =~= b);
}

/// Ranking keeps the segments, each as often as it is given, puts them in ascending order of rank,
/// and leaves those of one rank in the order given.
pub proof fn law_ranking_is_stable(segments: Seq<Segment>, rank: u32)
    ensures
        ranked(segments).to_multiset() == segments.to_multiset(),
        ranks_ascend(ranked(segments)),
        of_rank(ranked(segments), rank) == of_rank(segments, rank),
    decreases segments.len(),
{
    if segments.len() > 0 {
        let front = segments.drop_last();
        let last = segments.last();
        let sorted = ranked(front);
        law_ranking_is_stable(front, rank);
        let at = lemma_place(sorted, last);
        broadcast use vstd::seq_lib::group_to_multiset_ensures;

        assert(front.push(last) =~= segments);
        assert(sorted.insert(at, last).to_multiset() == sorted.to_multiset().insert(last));
        assert(ranks_ascend(sorted.insert(at, last)));
        lemma_placed_of_rank(sorted, last, rank);
        lemma_same_of_rank(sorted, front, last, rank);
    } else {
        assert(ranked(segments) =~= segments);
    }
}

proof fn lemma_ranked_layout(segments: Seq<Segment>)
    requires
        layout_error(segments) is None,
    ensures
        layout_error(ranked(segments)) is None,
        ranks_ascend(ranked(segments)),
        forall|i: int|
            0 <= i < ranked(segments).len() ==> segments.contains(#[trigger] ranked(segments)[i]),
    decreases segments.len(),
{
    law_ranking_is_stable(segments, 0);
    if segments.len() > 0 {
        let front = segments.drop_last();
        let last = segments.last();
        let n = front.len() as int;
        assert forall|i: int| 0 <= i < n implies (#[trigger] front[i]).len != 0 by {
            assert(segments[i].len != 0);
        }
        assert forall|i: int, j: int| 0 <= i < j < n implies !overlap(
            #[trigger] front[i],
            #[trigger] front[j],
        ) by {
            assert(!overlap(segments[i], segments[j]));
        }
        lemma_ranked_layout(front);
        let sorted = ranked(front);
        let at = lemma_place(sorted, last);
        let all = sorted.insert(at, last);
        assert forall|i: int| 0 <= i < all.len() implies segments.contains(#[trigger] all[i]) by {
            if i == at {
                assert(segments[n] == last);
            } else {
                let k = if i < at {
                    i
                } else {
                    i - 1
                };
                assert(front.contains(sorted[k]));
                let f = choose|f: int| 0 <= f < front.len() && front[f] == sorted[k];
                assert(segments[f] == all[i]);
            }
        }
        assert forall|k: int| 0 <= k < sorted.len() implies !overlap(#[trigger] sorted[k], last) by {
            assert(front.contains(sorted[k]));
            let f = choose|f: int| 0 <= f < front.len() && front[f] == sorted[k];
            assert(!overlap(segments[f], segments[n]));
        }
        assert(!has_empty(all)) by {
            assert forall|i: int| 0 <= i < all.len() implies (#[trigger] all[i]).len != 0 by {
                assert(segments.contains(all[i]));
            }
        }
        assert(!has_overlap(all)) by {
            assert forall|i: int, j: int| 0 <= i < j < all.len() implies !overlap(
                #[trigger] all[i],
                #[trigger] all[j],
            ) by {
                if i == at {
                    assert(all[j] == sorted[j - 1]);
                } else if j == at {
                    assert(all[i] == sorted[i]);
                } else {
                    let a = if i < at {
                        i
                    } else {
                        i - 1
                    };
                    let b = if j < at {
                        j
                    } else {
                        j - 1
                    };
                    assert(!overlap(sorted[a], sorted[b]));
                }
            }
        }
    }
}

/// The layouts by payload type: the segments as they were declared, and in order of rank. A layout,
/// once set, stays.
pub struct SegmentLayouts {
    entries: Vec<(TypeKey, Vec<Segment>, Vec<Segment>)>,
}

/// A type and its segments as they were declared.
pub type Layout = (TypeKey, Seq<Segment>);

/// Whether `ty` has a layout.
pub open spec fn has_layout(layouts: Seq<Layout>, ty: TypeKey) -> bool {
    exists|i: int| 0 <= i < layouts.len() && (#[trigger] layouts[i]).0 == ty
}

/// The segments of `ty` as they were declared.
pub open spec fn declared_for(layouts: Seq<Layout>, ty: TypeKey) -> Seq<Segment> {
    layouts[layout_at(layouts, ty)].1
}

/// The layout of `ty`: its segments in ascending order of rank.
pub open spec fn layout_of(layouts: Seq<Layout>, ty: TypeKey) -> Seq<Segment> {
    ranked(declared_for(layouts, ty))
}

pub open spec fn layout_at(layouts: Seq<Layout>, ty: TypeKey) -> int {
    choose|i: int| 0 <= i < layouts.len() && (#[trigger] layouts[i]).0 == ty
}

impl View for SegmentLayouts {
    type V = Seq<Layout>;

    closed spec fn view(&self) -> Seq<Layout> {
        Seq::new(self.entries@.len(), |i: int| (self.entries@[i].0, self.entries@[i].1@))
    }
}

/// Each layout is sound, and no type has two.
pub open spec fn layouts_consistent(layouts: Seq<Layout>) -> bool {
    &&& forall|i: int| 0 <= i < layouts.len() ==> layout_error((#[trigger] layouts[i]).1) is None
    &&& forall|i: int, j: int|
        #![trigger layouts[i], layouts[j]]
        0 <= i < j < layouts.len() ==> layouts[i].0 != layouts[j].0
}

/// The error a registration gets, if any: first what is wrong with the segments, then that the type
/// was declared with another list.
pub open spec fn register_error(
    layouts: Seq<Layout>,
    ty: TypeKey,
    segments: Seq<Segment>,
) -> Option<LayoutError> {
    match layout_error(segments) {
        Some(e) => Some(e),
        None => if has_layout(layouts, ty) && declared_for(layouts, ty) != segments {
            Some(LayoutError::ConflictingLayout)
        } else {
            None
        },
    }
}

/// The layouts after a registration. Nothing is replaced.
pub open spec fn registered_layouts(
    layouts: Seq<Layout>,
    ty: TypeKey,
    segments: Seq<Segment>,
) -> Seq<Layout> {
    if register_error(layouts, ty, segments) is Some || has_layout(layouts, ty) {
        layouts
    } else {
        layouts.push((ty, segments))
    }
}

/// Whether two lists of segments are equal.
fn same_segments(a: &Vec<Segment>, b: &Vec<Segment>) -> (same: bool)
    ensures
        same == (a@ == b@),
{
    if a.len() != b.len() {
        return false;
    }
    let mut i: usize = 0;
    while i < a.len()
        invariant
            i <= a@.len() == b@.len(),
            forall|k: int| 0 <= k < i ==> a@[k] == b@[k],
        decreases a@.len() - i,
    {
        if a[i] != b[i] {
            assert(a@[i as int] != b@[i as int]);
            return false;
        }
        i = i + 1;
    }
    assert(a@ =~= b@);
    true
}

fn copied_segments(segments: &Vec<Segment>) -> (copy: Vec<Segment>)
    ensures
        copy@ == segments@,
{
    let mut copy: Vec<Segment> = Vec::new();
    let mut i: usize = 0;
    while i < segments.len()
        invariant
            i <= segments@.len(),
            copy@ == segments@.take(i as int),
        decreases segments@.len() - i,
    {
        copy.push(segments[i]);
        i = i + 1;
        assert(segments@.take(i as int) =~= segments@.take(i - 1).push(segments@[i - 1]));
    }
    assert(segments@.take(i as int) =~= segments@);
    copy
}

/// The segments in ascending order of rank.
fn rank_segments(segments: &Vec<Segment>) -> (sorted: Vec<Segment>)
    ensures
        sorted@ == ranked(segments@),
{
    let mut sorted: Vec<Segment> = Vec::new();
    let mut i: usize = 0;
    assert(segments@.take(0) =~= seq![]);
    while i < segments.len()
        invariant
            i <= segments@.len(),
            sorted@ == ranked(segments@.take(i as int)),
        decreases segments@.len() - i,
    {
        let segment: Segment = segments[i];
        let mut at: usize = sorted.len();
        while at > 0 && sorted[at - 1].rank > segment.rank
            invariant
                at <= sorted@.len(),
                forall|k: int|
                    at <= k < sorted@.len() ==> (#[trigger] sorted@[k]).rank > segment.rank,
            decreases at,
        {
            at = at - 1;
        }
        proof {
            lemma_placed(sorted@, segment, at as int);
            assert(segments@.take(i + 1).drop_last() =~= segments@.take(i as int));
            assert(segments@.take(i + 1).last() == segment);
        }
        sorted.insert(at, segment);
        i = i + 1;
    }
    assert(segments@.take(i as int) =~= segments@);
    sorted
}

impl SegmentLayouts {
    /// The layouts are consistent, and beside each declared list stands the same in order of rank.
    pub closed spec fn wf(&self) -> bool {
        &&& layouts_consistent(self@)
        &&& forall|i: int|
            0 <= i < self.entries@.len() ==> (#[trigger] self.entries@[i]).2@ == ranked(
                self.entries@[i].1@,
            )
    }

    /// What is registered is consistent.
    pub proof fn lemma_wf(&self)
        requires
            self.wf(),
        ensures
            layouts_consistent(self@),
    {
    }

    /// No type has a layout.
    pub fn new() -> (layouts: Self)
        ensures
            layouts.wf(),
            layouts@.len() == 0,
    {
        SegmentLayouts { entries: Vec::new() }
    }

    fn find(&self, ty: TypeKey) -> (at: Option<usize>)
        requires
            self.wf(),
        ensures
            match at {
                Some(i) => has_layout(self@, ty) && i == layout_at(self@, ty) && i < self@.len(),
                None => !has_layout(self@, ty),
            },
    {
        let mut i: usize = 0;
        while i < self.entries.len()
            invariant
                self.wf(),
                i <= self.entries@.len(),
                forall|k: int| 0 <= k < i ==> (#[trigger] self@[k]).0 != ty,
            decreases self.entries@.len() - i,
        {
            assert(self@[i as int].0 == self.entries@[i as int].0);
            if self.entries[i].0 == ty {
                proof {
                    let k = layout_at(self@, ty);
                    assert(self@[k].0 == ty);
                }
                return Some(i);
            }
            i = i + 1;
        }
        None
    }

    /// The layout of `ty` in ascending order of rank, if it has one.
    pub fn layout_for(&self, ty: TypeKey) -> (layout: Option<&Vec<Segment>>)
        requires
            self.wf(),
        ensures
            match layout {
                Some(layout) => has_layout(self@, ty) && layout@ == layout_of(self@, ty)
                    && ranks_ascend(layout@),
                None => !has_layout(self@, ty),
            },
    {
        match self.find(ty) {
            Some(at) => {
                proof {
                    assert(self@[at as int].1 == self.entries@[at as int].1@);
                    lemma_ranked_layout(self@[at as int].1);
                }
                Some(&self.entries[at].2)
            },
            None => None,
        }
    }

    /// What is to move, and in which order, for a payload of `ty` with `payload_bytes` bytes: by its
    /// layout, or the whole at rank 0 if it has none.
    pub fn execution_plan(&self, ty: TypeKey, payload_bytes: u64) -> (plan: Vec<RankUnit>)
        requires
            self.wf(),
        ensures
            has_layout(self@, ty) ==> is_plan(plan@, layout_of(self@, ty), payload_bytes as int),
            !has_layout(self@, ty) ==> is_plan(
                plan@,
                seq![Segment { offset: 0, len: payload_bytes, rank: 0 }],
                payload_bytes as int,
            ),
    {
        match self.find(ty) {
            Some(at) => {
                proof {
                    assert(self@[at as int].1 == self.entries@[at as int].1@);
                    lemma_ranked_layout(self@[at as int].1);
                }
                plan_from_segments(&self.entries[at].2, payload_bytes)
            },
            None => {
                let mut whole: Vec<Segment> = Vec::new();
                let ghost atomic = seq![Segment { offset: 0, len: payload_bytes, rank: 0 }];
                if payload_bytes == 0 {
                    let plan: Vec<RankUnit> = Vec::new();
                    assert forall|i: int| 0 <= i < atomic.len() implies !moves(
                        #[trigger] atomic[i],
                        0,
                    ) by {}
                    return plan;
                }
                whole.push(Segment { offset: 0, len: payload_bytes, rank: 0 });
                assert(whole@ =~= atomic);
                plan_from_segments(&whole, payload_bytes)
            },
        }
    }
}

/// Sets the layout of a payload type. Declaring the same segments in the same order again is
/// accepted; any other list is refused, and the layout stays.
pub fn register_segment_layout(
    layouts: &mut SegmentLayouts,
    ty: TypeKey,
    segments: &Vec<Segment>,
) -> (r: Result<(), LayoutError>)
    requires
        old(layouts).wf(),
    ensures
        final(layouts).wf(),
        final(layouts)@ == registered_layouts(old(layouts)@, ty, segments@),
        match r {
            Ok(()) => register_error(old(layouts)@, ty, segments@) is None,
            Err(e) => register_error(old(layouts)@, ty, segments@) == Some(e),
        },
{
    register_segment_layout_for_type(layouts, ty, segments)
}

/// Sets the layout of a payload type that is known only by its key.
pub fn register_segment_layout_for_type(
    layouts: &mut SegmentLayouts,
    ty: TypeKey,
    segments: &Vec<Segment>,
) -> (r: Result<(), LayoutError>)
    requires
        old(layouts).wf(),
    ensures
        final(layouts).wf(),
        final(layouts)@ == registered_layouts(old(layouts)@, ty, segments@),
        match r {
            Ok(()) => register_error(old(layouts)@, ty, segments@) is None,
            Err(e) => register_error(old(layouts)@, ty, segments@) == Some(e),
        },
{
    match validate(segments) {
        Ok(()) => {},
        Err(e) => return Err(e),
    }
    match layouts.find(ty) {
        Some(at) => {
            assert(layouts@[at as int].1 == layouts.entries@[at as int].1@);
            if same_segments(&layouts.entries[at].1, segments) {
                Ok(())
            } else {
                Err(LayoutError::ConflictingLayout)
            }
        },
        None => {
            let ghost before = layouts@;
            let sorted = rank_segments(segments);
            let declared = copied_segments(segments);
            layouts.entries.push((ty, declared, sorted));
            proof {
                assert(layouts@ =~= before.push((ty, segments@)));
                law_first_layout_stays(before, ty, segments@, segments@, ty);
            }
            Ok(())
        },
    }
}

/// A slice of a payload: where it starts, and how long it is.
pub type Slice = (u64, u64);

/// Everything of one rank: its slices of the payload in ascending order, and their bytes together.
#[derive(Debug)]
pub struct RankUnit {
    pub rank: u32,
    pub slices: Vec<Slice>,
    pub bytes: u64,
}

/// Where a segment starts in a payload of `payload` bytes.
pub open spec fn clamped_start(s: Segment, payload: int) -> int {
    if s.offset < payload {
        s.offset as int
    } else {
        payload
    }
}

/// Where a segment ends in a payload of `payload` bytes.
pub open spec fn clamped_end(s: Segment, payload: int) -> int {
    if s.offset + s.len < payload {
        s.offset + s.len
    } else {
        payload
    }
}

/// The segment has bytes in a payload of `payload` bytes.
pub open spec fn moves(s: Segment, payload: int) -> bool {
    clamped_start(s, payload) < clamped_end(s, payload)
}

/// The slice a segment is in a payload of `payload` bytes.
pub open spec fn slice_of(s: Segment, payload: int) -> Slice {
    (
        clamped_start(s, payload) as u64,
        (clamped_end(s, payload) - clamped_start(s, payload)) as u64,
    )
}

/// Bytes of all slices.
pub open spec fn slices_len(slices: Seq<Slice>) -> int
    decreases slices.len(),
{
    if slices.len() == 0 {
        0
    } else {
        slices_len(slices.drop_last()) + slices.last().1
    }
}

/// `slice` is what some segment of `rank` is in the payload.
pub open spec fn is_slice(layout: Seq<Segment>, payload: int, rank: u32, slice: Slice) -> bool {
    exists|i: int|
        0 <= i < layout.len() && (#[trigger] layout[i]).rank == rank && moves(layout[i], payload)
            && slice_of(layout[i], payload) == slice
}

/// The plan has segment `s`.
pub open spec fn planned(plan: Seq<RankUnit>, s: Segment, payload: int) -> bool {
    exists|u: int|
        0 <= u < plan.len() && (#[trigger] plan[u]).rank == s.rank && plan[u].slices@.contains(
            slice_of(s, payload),
        )
}

/// Slices in ascending order, without a common byte, none empty.
pub open spec fn ascending(slices: Seq<Slice>) -> bool {
    &&& forall|i: int| 0 <= i < slices.len() ==> (#[trigger] slices[i]).1 > 0
    &&& forall|i: int, j: int|
        #![trigger slices[i], slices[j]]
        0 <= i < j < slices.len() ==> slices[i].0 + slices[i].1 <= slices[j].0
}

/// The plan of a payload of `payload` bytes: units in ascending order of rank, each with exactly the
/// slices of its segments, in ascending order; segments that fall outside the payload are left out.
pub open spec fn is_plan(plan: Seq<RankUnit>, layout: Seq<Segment>, payload: int) -> bool {
    &&& forall|u: int, v: int|
        #![trigger plan[u], plan[v]]
        0 <= u < v < plan.len() ==> plan[u].rank < plan[v].rank
    &&& forall|u: int|
        0 <= u < plan.len() ==> {
            &&& (#[trigger] plan[u]).slices@.len() > 0
            &&& ascending(plan[u].slices@)
            &&& plan[u].bytes == slices_len(plan[u].slices@)
        }
    &&& forall|u: int, k: int|
        0 <= u < plan.len() && 0 <= k < plan[u].slices@.len() ==> is_slice(
            layout,
            payload,
            plan[u].rank,
            #[trigger] plan[u].slices@[k],
        )
    &&& forall|i: int|
        0 <= i < layout.len() && moves(#[trigger] layout[i], payload) ==> planned(
            plan,
            layout[i],
            payload,
        )
}

/// The plan of a payload by a sound layout.
pub fn plan_from_segments(layout: &Vec<Segment>, payload_bytes: u64) -> (plan: Vec<RankUnit>)
    requires
        layout_error(layout@) is None,
    ensures
        is_plan(plan@, layout@, payload_bytes as int),
{
    let ghost payload = payload_bytes as int;
    let mut plan: Vec<RankUnit> = Vec::new();
    let mut i: usize = 0;
    while i < layout.len()
        invariant
            i <= layout@.len(),
            layout_error(layout@) is None,
            payload == payload_bytes,
            is_plan(plan@, layout@.take(i as int), payload),
        decreases layout@.len() - i,
    {
        let s: Segment = layout[i];
        let start: u64 = if s.offset < payload_bytes {
            s.offset
        } else {
            payload_bytes
        };
        let end: u64 = if s.offset >= payload_bytes || s.len >= payload_bytes - s.offset {
            payload_bytes
        } else {
            s.offset + s.len
        };
        let ghost before = plan@;
        if end <= start {
            proof {
                lemma_plan_skips(before, layout@, payload, i as int);
            }
        } else {
            let slice: Slice = (start, end - start);
            assert(slice == slice_of(s, payload));
            let mut u: usize = 0;
            while u < plan.len() && plan[u].rank < s.rank
                invariant
                    u <= plan@.len(),
                    plan@ == before,
                    forall|k: int| 0 <= k < u ==> (#[trigger] before[k]).rank < s.rank,
                decreases plan@.len() - u,
            {
                u = u + 1;
            }
            if u < plan.len() && plan[u].rank == s.rank {
                let ghost slices = plan@[u as int].slices@;
                proof {
                    lemma_apart_from_unit(before, layout@, payload, i as int, u as int);
                }
                let mut k: usize = 0;
                while k < plan[u].slices.len() && plan[u].slices[k].0 < start
                    invariant
                        u < plan@.len(),
                        plan@ == before,
                        slices == plan@[u as int].slices@,
                        k <= slices.len(),
                        forall|j: int| 0 <= j < k ==> (#[trigger] slices[j]).0 < start,
                    decreases slices.len() - k,
                {
                    k = k + 1;
                }
                proof {
                    lemma_insert_slice(slices, slice, k as int, payload);
                }
                let bytes: u64 = plan[u].bytes + (end - start);
                plan[u].slices.insert(k, slice);
                plan[u].bytes = bytes;
                proof {
                    lemma_plan_joined(before, plan@, layout@, payload, i as int, u as int, k as int);
                }
            } else {
                let mut slices: Vec<Slice> = Vec::new();
                slices.push(slice);
                assert(slices@.drop_last() =~= seq![]);
                assert(slices_len(slices@) == slice.1) by {
                    reveal_with_fuel(slices_len, 2);
                }
                let unit = RankUnit { rank: s.rank, slices, bytes: end - start };
                plan.insert(u, unit);
                proof {
                    lemma_plan_added(before, plan@, layout@, payload, i as int, u as int);
                }
            }
        }
        i = i + 1;
    }
    assert(layout@.take(i as int) =~= layout@);
    plan
}

/// A segment without bytes in the payload changes nothing.
proof fn lemma_plan_skips(plan: Seq<RankUnit>, layout: Seq<Segment>, payload: int, i: int)
    requires
        0 <= i < layout.len(),
        is_plan(plan, layout.take(i), payload),
        !moves(layout[i], payload),
    ensures
        is_plan(plan, layout.take(i + 1), payload),
{
    let front = layout.take(i);
    let more = layout.take(i + 1);
    assert forall|u: int, k: int|
        0 <= u < plan.len() && 0 <= k < plan[u].slices@.len() implies is_slice(
        more,
        payload,
        plan[u].rank,
        #[trigger] plan[u].slices@[k],
    ) by {
        lemma_slice_kept(layout, payload, i, plan[u].rank, plan[u].slices@[k]);
    }
    assert forall|j: int|
        0 <= j < more.len() && moves(#[trigger] more[j], payload) implies planned(
        plan,
        more[j],
        payload,
    ) by {
        assert(j < i);
        assert(front[j] == more[j]);
    }
}

proof fn lemma_slice_kept(
    layout: Seq<Segment>,
    payload: int,
    i: int,
    rank: u32,
    slice: Slice,
)
    requires
        0 <= i < layout.len(),
        is_slice(layout.take(i), payload, rank, slice),
    ensures
        is_slice(layout.take(i + 1), payload, rank, slice),
{
    let front = layout.take(i);
    let more = layout.take(i + 1);
    let j = choose|j: int|
        0 <= j < front.len() && (#[trigger] front[j]).rank == rank && moves(front[j], payload)
            && slice_of(front[j], payload) == slice;
    assert(more[j] == front[j]);
}

/// The slices of a unit share no byte with a later segment.
proof fn lemma_apart_from_unit(
    plan: Seq<RankUnit>,
    layout: Seq<Segment>,
    payload: int,
    i: int,
    u: int,
)
    requires
        0 <= i < layout.len(),
        layout_error(layout) is None,
        is_plan(plan, layout.take(i), payload),
        0 <= u < plan.len(),
        moves(layout[i], payload),
    ensures
        forall|k: int|
            0 <= k < plan[u].slices@.len() ==> apart_slices(
                #[trigger] plan[u].slices@[k],
                slice_of(layout[i], payload),
            ) && plan[u].slices@[k].0 + plan[u].slices@[k].1 <= payload,
{
    let front = layout.take(i);
    assert forall|k: int| 0 <= k < plan[u].slices@.len() implies apart_slices(
        #[trigger] plan[u].slices@[k],
        slice_of(layout[i], payload),
    ) && plan[u].slices@[k].0 + plan[u].slices@[k].1 <= payload by {
        let slice = plan[u].slices@[k];
        assert(is_slice(front, payload, plan[u].rank, slice));
        let j = choose|j: int|
            0 <= j < front.len() && (#[trigger] front[j]).rank == plan[u].rank && moves(
                front[j],
                payload,
            ) && slice_of(front[j], payload) == slice;
        assert(layout[j] == front[j]);
        assert(!overlap(layout[j], layout[i]));
    }
}

/// The slices share no byte.
pub open spec fn apart_slices(a: Slice, b: Slice) -> bool {
    a.0 + a.1 <= b.0 || b.0 + b.1 <= a.0
}

proof fn lemma_slices_len_insert(slices: Seq<Slice>, slice: Slice, k: int)
    requires
        0 <= k <= slices.len(),
    ensures
        slices_len(slices.insert(k, slice)) == slices_len(slices) + slice.1,
    decreases slices.len(),
{
    let longer = slices.insert(k, slice);
    if k == slices.len() {
        assert(longer.drop_last() =~= slices);
    } else {
        assert(longer.drop_last() =~= slices.drop_last().insert(k, slice));
        assert(longer.last() == slices.last());
        lemma_slices_len_insert(slices.drop_last(), slice, k);
    }
}

/// Ascending slices within a payload hold no more bytes than it.
proof fn lemma_slices_fit(slices: Seq<Slice>, payload: int)
    requires
        ascending(slices),
        forall|k: int|
            0 <= k < slices.len() ==> (#[trigger] slices[k]).0 + slices[k].1 <= payload,
        payload >= 0,
    ensures
        0 <= slices_len(slices) <= payload,
    decreases slices.len(),
{
    if slices.len() > 0 {
        let front = slices.drop_last();
        let last = slices.last();
        assert forall|k: int| 0 <= k < front.len() implies (#[trigger] front[k]).0 + front[k].1
            <= last.0 by {
            assert(slices[k].0 + slices[k].1 <= slices[slices.len() - 1].0);
        }
        assert(ascending(front)) by {
            assert forall|a: int, b: int|
                #![trigger front[a], front[b]]
                0 <= a < b < front.len() implies front[a].0 + front[a].1 <= front[b].0 by {
                assert(slices[a].0 + slices[a].1 <= slices[b].0);
            }
            assert forall|a: int| 0 <= a < front.len() implies (#[trigger] front[a]).1 > 0 by {
                assert(slices[a].1 > 0);
            }
        }
        lemma_slices_fit(front, last.0 as int);
        assert(slices[slices.len() - 1].0 + slices[slices.len() - 1].1 <= payload);
    }
}

/// A slice apart from all others finds its place among them.
proof fn lemma_insert_slice(slices: Seq<Slice>, slice: Slice, k: int, payload: int)
    requires
        0 <= k <= slices.len(),
        ascending(slices),
        slice.1 > 0,
        slice.0 + slice.1 <= payload,
        payload <= u64::MAX,
        forall|j: int|
            0 <= j < slices.len() ==> apart_slices(#[trigger] slices[j], slice) && slices[j].0
                + slices[j].1 <= payload,
        forall|j: int| 0 <= j < k ==> (#[trigger] slices[j]).0 < slice.0,
        k < slices.len() ==> slices[k].0 >= slice.0,
    ensures
        ascending(slices.insert(k, slice)),
        slices_len(slices.insert(k, slice)) == slices_len(slices) + slice.1,
        slices_len(slices) + slice.1 <= u64::MAX,
{
    let longer = slices.insert(k, slice);
    lemma_slices_len_insert(slices, slice, k);
    assert forall|a: int| 0 <= a < longer.len() implies (#[trigger] longer[a]).1 > 0 && longer[a].0
        + longer[a].1 <= payload by {
        if a < k {
            assert(slices[a].1 > 0);
        } else if a > k {
            assert(slices[a - 1].1 > 0);
        }
    }
    assert forall|a: int, b: int|
        #![trigger longer[a], longer[b]]
        0 <= a < b < longer.len() implies longer[a].0 + longer[a].1 <= longer[b].0 by {
        if b < k {
            assert(slices[a].0 + slices[a].1 <= slices[b].0);
        } else if b == k {
            assert(slices[a].0 < slice.0);
            assert(apart_slices(slices[a], slice));
        } else if a == k {
            assert(slices[b - 1].1 > 0);
            assert(apart_slices(slices[b - 1], slice));
            if b - 1 > k {
                assert(slices[k].0 + slices[k].1 <= slices[b - 1].0);
            }
        } else {
            let x = if a < k {
                a
            } else {
                a - 1
            };
            assert(slices[x].0 + slices[x].1 <= slices[b - 1].0);
        }
    }
    lemma_slices_fit(longer, payload);
}

/// A segment joins the unit of its rank.
proof fn lemma_plan_joined(
    before: Seq<RankUnit>,
    after: Seq<RankUnit>,
    layout: Seq<Segment>,
    payload: int,
    i: int,
    u: int,
    k: int,
)
    requires
        0 <= i < layout.len(),
        is_plan(before, layout.take(i), payload),
        moves(layout[i], payload),
        0 <= u < before.len(),
        0 <= k <= before[u].slices@.len(),
        before[u].rank == layout[i].rank,
        after.len() == before.len(),
        forall|v: int| 0 <= v < before.len() && v != u ==> after[v] == before[v],
        after[u].rank == before[u].rank,
        after[u].slices@ == before[u].slices@.insert(k, slice_of(layout[i], payload)),
        ascending(after[u].slices@),
        after[u].bytes == slices_len(after[u].slices@),
    ensures
        is_plan(after, layout.take(i + 1), payload),
{
    let front = layout.take(i);
    let more = layout.take(i + 1);
    let slice = slice_of(layout[i], payload);
    let old_slices = before[u].slices@;
    let new_slices = after[u].slices@;
    assert forall|x: int, y: int|
        #![trigger after[x], after[y]]
        0 <= x < y < after.len() implies after[x].rank < after[y].rank by {
        assert(before[x].rank < before[y].rank);
    }
    assert forall|v: int| 0 <= v < after.len() implies {
        &&& (#[trigger] after[v]).slices@.len() > 0
        &&& ascending(after[v].slices@)
        &&& after[v].bytes == slices_len(after[v].slices@)
    } by {
        if v != u {
            assert(before[v].slices@.len() > 0);
        }
    }
    assert forall|v: int, j: int|
        0 <= v < after.len() && 0 <= j < after[v].slices@.len() implies is_slice(
        more,
        payload,
        after[v].rank,
        #[trigger] after[v].slices@[j],
    ) by {
        if v != u {
            assert(is_slice(front, payload, before[v].rank, before[v].slices@[j]));
            lemma_slice_kept(layout, payload, i, before[v].rank, before[v].slices@[j]);
        } else if j == k {
            assert(more[i] == layout[i]);
        } else {
            let x = if j < k {
                j
            } else {
                j - 1
            };
            assert(new_slices[j] == old_slices[x]);
            assert(is_slice(front, payload, before[u].rank, before[u].slices@[x]));
            lemma_slice_kept(layout, payload, i, before[u].rank, before[u].slices@[x]);
        }
    }
    assert forall|j: int|
        0 <= j < more.len() && moves(#[trigger] more[j], payload) implies planned(
        after,
        more[j],
        payload,
    ) by {
        if j < i {
            assert(front[j] == more[j]);
            assert(planned(before, front[j], payload));
            let v = choose|v: int|
                0 <= v < before.len() && (#[trigger] before[v]).rank == front[j].rank
                    && before[v].slices@.contains(slice_of(front[j], payload));
            let wanted = slice_of(front[j], payload);
            let x = choose|x: int| 0 <= x < before[v].slices@.len() && before[v].slices@[x] == wanted;
            if v == u {
                let y = if x < k {
                    x
                } else {
                    x + 1
                };
                assert(after[v].slices@[y] == wanted);
            } else {
                assert(after[v].slices@[x] == wanted);
            }
            assert(after[v].rank == more[j].rank);
        } else {
            assert(new_slices[k] == slice);
            assert(after[u].rank == more[j].rank);
        }
    }
}

/// A segment of a new rank makes a unit.
proof fn lemma_plan_added(
    before: Seq<RankUnit>,
    after: Seq<RankUnit>,
    layout: Seq<Segment>,
    payload: int,
    i: int,
    u: int,
)
    requires
        0 <= i < layout.len(),
        is_plan(before, layout.take(i), payload),
        moves(layout[i], payload),
        0 <= u <= before.len(),
        after.len() == before.len() + 1,
        after == before.insert(u, after[u]),
        after[u].rank == layout[i].rank,
        after[u].slices@ == seq![slice_of(layout[i], payload)],
        after[u].bytes == slices_len(after[u].slices@),
        forall|v: int| 0 <= v < u ==> (#[trigger] before[v]).rank < layout[i].rank,
        u < before.len() ==> before[u].rank > layout[i].rank,
    ensures
        is_plan(after, layout.take(i + 1), payload),
{
    let front = layout.take(i);
    let more = layout.take(i + 1);
    assert forall|v: int| u <= v < before.len() implies (#[trigger] before[v]).rank
        > layout[i].rank by {
        if v > u {
            assert(before[u].rank < before[v].rank);
        }
    }
    assert forall|x: int, y: int|
        #![trigger after[x], after[y]]
        0 <= x < y < after.len() implies after[x].rank < after[y].rank by {
        if y < u {
            assert(before[x].rank < before[y].rank);
        } else if y == u {
            assert(before[x].rank < layout[i].rank);
        } else if x == u {
            assert(before[y - 1].rank > layout[i].rank);
        } else {
            let a = if x < u {
                x
            } else {
                x - 1
            };
            assert(before[a].rank < before[y - 1].rank);
        }
    }
    assert forall|v: int| 0 <= v < after.len() implies {
        &&& (#[trigger] after[v]).slices@.len() > 0
        &&& ascending(after[v].slices@)
        &&& after[v].bytes == slices_len(after[v].slices@)
    } by {
        if v < u {
            assert(before[v].slices@.len() > 0);
        } else if v > u {
            assert(before[v - 1].slices@.len() > 0);
        }
    }
    assert forall|v: int, j: int|
        0 <= v < after.len() && 0 <= j < after[v].slices@.len() implies is_slice(
        more,
        payload,
        after[v].rank,
        #[trigger] after[v].slices@[j],
    ) by {
        if v == u {
            assert(more[i] == layout[i]);
        } else {
            let x = if v < u {
                v
            } else {
                v - 1
            };
            assert(is_slice(front, payload, before[x].rank, before[x].slices@[j]));
            lemma_slice_kept(layout, payload, i, before[x].rank, before[x].slices@[j]);
        }
    }
    assert forall|j: int|
        0 <= j < more.len() && moves(#[trigger] more[j], payload) implies planned(
        after,
        more[j],
        payload,
    ) by {
        if j < i {
            assert(front[j] == more[j]);
            assert(planned(before, front[j], payload));
            let v = choose|v: int|
                0 <= v < before.len() && (#[trigger] before[v]).rank == front[j].rank
                    && before[v].slices@.contains(slice_of(front[j], payload));
            let y = if v < u {
                v
            } else {
                v + 1
            };
            assert(after[y] == before[v]);
        } else {
            assert(after[u].slices@[0] == slice_of(layout[i], payload));
            assert(after[u].rank == more[j].rank);
        }
    }
}

/// A type's layout is the one declared first: once a list is registered, the same list is accepted
/// again, any other sound one conflicts, and no registration changes a layout that is there or that
/// of another type.
pub proof fn law_first_layout_stays(
    layouts: Seq<Layout>,
    ty: TypeKey,
    segments: Seq<Segment>,
    later: Seq<Segment>,
    other: TypeKey,
)
    requires
        layouts_consistent(layouts),
    ensures
        ({
            let after = registered_layouts(layouts, ty, segments);
            &&& layouts_consistent(after)
            &&& register_error(layouts, ty, segments) is None ==> {
                &&& has_layout(after, ty)
                &&& declared_for(after, ty) == segments
                &&& register_error(after, ty, later) == match layout_error(later) {
                    Some(e) => Some(e),
                    None => if later == segments {
                        None
                    } else {
                        Some(LayoutError::ConflictingLayout)
                    },
                }
            }
            &&& other != ty ==> has_layout(after, other) == has_layout(layouts, other)
            &&& has_layout(layouts, other) ==> {
                &&& has_layout(after, other)
                &&& declared_for(after, other) == declared_for(layouts, other)
                &&& layout_of(after, other) == layout_of(layouts, other)
            }
        }),
{
    let after = registered_layouts(layouts, ty, segments);
    if has_layout(layouts, other) {
        let at = layout_at(layouts, other);
        assert(after[at].0 == other);
        let found = layout_at(after, other);
        assert(after[found].0 == other);
        assert(found == at) by {
            if found < layouts.len() {
                if found < at {
                    assert(layouts[found].0 != layouts[at].0);
                } else if at < found {
                    assert(layouts[at].0 != layouts[found].0);
                }
            }
        }
    }
    if other != ty && has_layout(after, other) {
        let found = layout_at(after, other);
        assert(layouts[found].0 == other);
    }
    if register_error(layouts, ty, segments) is None && !has_layout(layouts, ty) {
        let n = layouts.len() as int;
        assert(after[n].0 == ty);
        let found = layout_at(after, ty);
        if found < n {
            assert(layouts[found].0 == ty);
        }
    }
    assert forall|i: int, j: int|
        #![trigger after[i], after[j]]
        0 <= i < j < after.len() implies after[i].0 != after[j].0 by {
        if j < layouts.len() {
            assert(layouts[i].0 != layouts[j].0);
        } else {
            assert(layouts[i].0 != ty);
        }
    }
    assert forall|i: int| 0 <= i < after.len() implies layout_error(
        (#[trigger] after[i]).1,
    ) is None by {
        if i < layouts.len() {
            assert(layout_error(layouts[i].1) is None);
        }
    }
}

/// No byte of a payload is counted twice: slices of different units, and different slices of one
/// unit, have none in common, and every slice lies within the payload.
pub proof fn law_plan_counts_no_byte_twice(
    plan: Seq<RankUnit>,
    layout: Seq<Segment>,
    payload: int,
    u: int,
    k: int,
    v: int,
    l: int,
)
    requires
        0 <= payload <= u64::MAX,
        layout_error(layout) is None,
        is_plan(plan, layout, payload),
        0 <= u < plan.len(),
        0 <= k < plan[u].slices@.len(),
        0 <= v < plan.len(),
        0 <= l < plan[v].slices@.len(),
        (u, k) != (v, l),
    ensures
        apart_slices(plan[u].slices@[k], plan[v].slices@[l]),
        plan[u].slices@[k].0 + plan[u].slices@[k].1 <= payload,
{
    let a = plan[u].slices@[k];
    let b = plan[v].slices@[l];
    assert(is_slice(layout, payload, plan[u].rank, a));
    assert(is_slice(layout, payload, plan[v].rank, b));
    let i = choose|i: int|
        0 <= i < layout.len() && (#[trigger] layout[i]).rank == plan[u].rank && moves(
            layout[i],
            payload,
        ) && slice_of(layout[i], payload) == a;
    let j = choose|j: int|
        0 <= j < layout.len() && (#[trigger] layout[j]).rank == plan[v].rank && moves(
            layout[j],
            payload,
        ) && slice_of(layout[j], payload) == b;
    if u == v {
        assert(ascending(plan[u].slices@));
        if k < l {
            assert(plan[u].slices@[k].0 + plan[u].slices@[k].1 <= plan[u].slices@[l].0);
        } else {
            assert(plan[u].slices@[l].0 + plan[u].slices@[l].1 <= plan[u].slices@[k].0);
        }
    } else {
        if u < v {
            assert(plan[u].rank < plan[v].rank);
        } else {
            assert(plan[v].rank < plan[u].rank);
        }
        assert(i != j);
        if i < j {
            assert(!overlap(layout[i], layout[j]));
        } else {
            assert(!overlap(layout[j], layout[i]));
        }
    }
}

/// A payload without a layout moves as a whole, at rank 0, in one unit; an empty one not at all.
pub proof fn law_payload_without_layout_is_one_unit(plan: Seq<RankUnit>, payload: u64)
    requires
        is_plan(plan, seq![Segment { offset: 0, len: payload, rank: 0 }], payload as int),
    ensures
        payload == 0 ==> plan.len() == 0,
        payload > 0 ==> plan.len() == 1 && plan[0].rank == 0 && plan[0].slices@ == seq![
            (0u64, payload),
        ] && plan[0].bytes == payload,
{
    let layout = seq![Segment { offset: 0, len: payload, rank: 0 }];
    let whole = (0u64, payload);
    assert forall|u: int, k: int|
        0 <= u < plan.len() && 0 <= k < plan[u].slices@.len() implies plan[u].rank == 0 && (
    #[trigger] plan[u].slices@[k]) == whole && payload > 0 by {
        assert(is_slice(layout, payload as int, plan[u].rank, plan[u].slices@[k]));
        let i = choose|i: int|
            0 <= i < layout.len() && (#[trigger] layout[i]).rank == plan[u].rank && moves(
                layout[i],
                payload as int,
            ) && slice_of(layout[i], payload as int) == plan[u].slices@[k];
        assert(layout[i] == layout[0]);
    }
    if plan.len() > 0 {
        assert(plan[0].slices@.len() > 0);
        assert(plan[0].slices@[0] == whole);
        if plan.len() > 1 {
            assert(plan[1].slices@.len() > 0);
            assert(plan[1].slices@[0] == whole);
            assert(plan[0].rank < plan[1].rank);
        }
        if plan[0].slices@.len() > 1 {
            assert(plan[0].slices@[1] == whole);
            assert(ascending(plan[0].slices@));
        }
        assert(plan[0].slices@ =~= seq![whole]);
        assert(plan[0].slices@.drop_last() =~= seq![]);
        reveal_with_fuel(slices_len, 2);
    }
    if payload > 0 {
        assert(moves(layout[0], payload as int));
        assert(planned(plan, layout[0], payload as int));
    }
}

/// Units move by rank, so what has moved after some units is complete: every segment that moves at
/// all, of a rank up to that of the last of them, is among them.
pub proof fn law_prefix_is_complete(
    plan: Seq<RankUnit>,
    layout: Seq<Segment>,
    payload: int,
    n: int,
    i: int,
)
    requires
        is_plan(plan, layout, payload),
        0 < n <= plan.len(),
        0 <= i < layout.len(),
        moves(layout[i], payload),
        layout[i].rank <= plan[n - 1].rank,
    ensures
        planned(plan.take(n), layout[i], payload),
{
    assert(planned(plan, layout[i], payload));
    let v = choose|v: int|
        0 <= v < plan.len() && (#[trigger] plan[v]).rank == layout[i].rank
            && plan[v].slices@.contains(slice_of(layout[i], payload));
    if v >= n {
        assert(plan[n - 1].rank < plan[v].rank);
    }
    assert(plan.take(n)[v] == plan[v]);
}

/// The segment holds byte `x`.
pub open spec fn holds_byte(s: Segment, x: int) -> bool {
    s.offset <= x < s.offset + s.len
}

/// The segment holds no byte at all.
pub open spec fn holds_nothing(s: Segment) -> bool {
    forall|x: int| !#[trigger] holds_byte(s, x)
}

/// Some byte is in both segments.
pub open spec fn share_a_byte(a: Segment, b: Segment) -> bool {
    exists|x: int| #[trigger] holds_byte(a, x) && holds_byte(b, x)
}

proof fn lemma_segment_bytes(a: Segment, b: Segment)
    ensures
        holds_nothing(a) <==> a.len == 0,
        a.len > 0 && b.len > 0 ==> (share_a_byte(a, b) <==> overlap(a, b)),
{
    if a.len > 0 {
        assert(holds_byte(a, a.offset as int));
    }
    if a.len > 0 && b.len > 0 && overlap(a, b) {
        let x = if a.offset > b.offset {
            a.offset as int
        } else {
            b.offset as int
        };
        assert(holds_byte(a, x) && holds_byte(b, x));
    }
}

/// A layout is refused if and only if a segment holds no byte or two segments share one; for want of
/// bytes first.
pub proof fn law_layout_is_refused_for_a_reason(segments: Seq<Segment>)
    ensures
        ({
            let empty = exists|i: int|
                0 <= i < segments.len() && holds_nothing(#[trigger] segments[i]);
            let shared = exists|i: int, j: int|
                0 <= i < j < segments.len() && share_a_byte(
                    #[trigger] segments[i],
                    #[trigger] segments[j],
                );
            &&& layout_error(segments) == Some(LayoutError::ZeroLengthSegment) <==> empty
            &&& layout_error(segments) == Some(LayoutError::OverlappingSegments) <==> !empty
                && shared
            &&& layout_error(segments) is None <==> !empty && !shared
        }),
{
    assert forall|i: int| 0 <= i < segments.len() implies holds_nothing(#[trigger] segments[i]) == (
    segments[i].len == 0) by {
        lemma_segment_bytes(segments[i], segments[i]);
    }
    assert forall|i: int, j: int|
        0 <= i < j < segments.len() && segments[i].len > 0 && segments[j].len > 0 implies
        share_a_byte(#[trigger] segments[i], #[trigger] segments[j]) == overlap(
        segments[i],
        segments[j],
    ) by {
        lemma_segment_bytes(segments[i], segments[j]);
    }
    if !has_empty(segments) {
        assert(forall|i: int| 0 <= i < segments.len() ==> (#[trigger] segments[i]).len > 0);
        if has_overlap(segments) {
            let (i, j) = choose|i: int, j: int|
                0 <= i < j < segments.len() && overlap(
                    #[trigger] segments[i],
                    #[trigger] segments[j],
                );
            assert(share_a_byte(segments[i], segments[j]));
        }
    } else {
        let i = choose|i: int| 0 <= i < segments.len() && (#[trigger] segments[i]).len == 0;
        assert(holds_nothing(segments[i]));
    }
}

/// What is moved of a segment is the bytes of it that the payload has, and it is moved if and only if
/// there are any.
pub proof fn law_slice_is_the_segment_within_the_payload(s: Segment, payload: int, x: int)
    requires
        0 <= payload <= u64::MAX,
    ensures
        slice_of(s, payload).0 <= x < slice_of(s, payload).0 + slice_of(s, payload).1 <==> (
        holds_byte(s, x) && x < payload),
        moves(s, payload) <==> exists|y: int| #[trigger] holds_byte(s, y) && y < payload,
{
    if moves(s, payload) {
        assert(holds_byte(s, s.offset as int) && s.offset < payload);
    }
}

/// The bytes of slices add up.
pub proof fn law_slices_add_up(a: Seq<Slice>, b: Seq<Slice>)
    ensures
        slices_len(a + b) == slices_len(a) + slices_len(b),
        a.len() == 1 ==> slices_len(a) == a[0].1,
        a.len() == 0 ==> slices_len(a) == 0,
    decreases b.len(),
{
    reveal_with_fuel(slices_len, 2);
    if b.len() > 0 {
        law_slices_add_up(a, b.drop_last());
        assert((a + b).drop_last() =~= a + b.drop_last());
    } else {
        assert(a + b =~= a);
    }
}

/// Some slice holds byte `x`.
pub open spec fn covered(slices: Seq<Slice>, x: int) -> bool {
    exists|k: int| 0 <= k < slices.len() && (#[trigger] slices[k]).0 <= x < slices[k].0 + slices[k].1
}

/// Some segment of that rank holds byte `x`, which the payload has.
pub open spec fn of_rank_at(layout: Seq<Segment>, payload: int, rank: u32, x: int) -> bool {
    x < payload && exists|i: int|
        0 <= i < layout.len() && (#[trigger] layout[i]).rank == rank && holds_byte(layout[i], x)
}

/// The units of a plan go up in rank, one for each rank that moves anything. A unit moves the bytes of
/// the payload that the segments of its rank hold, and no other, and counts them.
pub proof fn law_unit_moves_the_bytes_of_its_rank(
    plan: Seq<RankUnit>,
    layout: Seq<Segment>,
    payload: int,
    u: int,
    rank: u32,
    x: int,
)
    requires
        0 <= payload <= u64::MAX,
        is_plan(plan, layout, payload),
        0 <= u < plan.len(),
    ensures
        covered(plan[u].slices@, x) <==> of_rank_at(layout, payload, plan[u].rank, x),
        plan[u].bytes == slices_len(plan[u].slices@),
        u > 0 ==> plan[u - 1].rank < plan[u].rank,
        of_rank_at(layout, payload, rank, x) ==> exists|v: int|
            0 <= v < plan.len() && (#[trigger] plan[v]).rank == rank,
{
    let slices = plan[u].slices@;
    if covered(slices, x) {
        let k = choose|k: int|
            0 <= k < slices.len() && (#[trigger] slices[k]).0 <= x < slices[k].0 + slices[k].1;
        assert(is_slice(layout, payload, plan[u].rank, plan[u].slices@[k]));
        let i = choose|i: int|
            0 <= i < layout.len() && (#[trigger] layout[i]).rank == plan[u].rank && moves(
                layout[i],
                payload,
            ) && slice_of(layout[i], payload) == slices[k];
        law_slice_is_the_segment_within_the_payload(layout[i], payload, x);
        assert(layout[i].rank == plan[u].rank && holds_byte(layout[i], x));
    }
    if of_rank_at(layout, payload, plan[u].rank, x) {
        let v = lemma_rank_is_planned(plan, layout, payload, plan[u].rank, x);
        if v < u {
            assert(plan[v].rank < plan[u].rank);
        } else if u < v {
            assert(plan[u].rank < plan[v].rank);
        }
    }
    if of_rank_at(layout, payload, rank, x) {
        let v = lemma_rank_is_planned(plan, layout, payload, rank, x);
        assert(plan[v].rank == rank);
    }
    if u > 0 {
        assert(plan[u - 1].rank < plan[u].rank);
    }
}

proof fn lemma_rank_is_planned(
    plan: Seq<RankUnit>,
    layout: Seq<Segment>,
    payload: int,
    rank: u32,
    x: int,
) -> (v: int)
    requires
        0 <= payload <= u64::MAX,
        is_plan(plan, layout, payload),
        of_rank_at(layout, payload, rank, x),
    ensures
        0 <= v < plan.len(),
        plan[v].rank == rank,
        covered(plan[v].slices@, x),
{
    let i = choose|i: int|
        0 <= i < layout.len() && (#[trigger] layout[i]).rank == rank && holds_byte(layout[i], x);
    law_slice_is_the_segment_within_the_payload(layout[i], payload, x);
    assert(moves(layout[i], payload));
    assert(planned(plan, layout[i], payload));
    let v = choose|v: int|
        0 <= v < plan.len() && (#[trigger] plan[v]).rank == layout[i].rank
            && plan[v].slices@.contains(slice_of(layout[i], payload));
    let slices = plan[v].slices@;
    let k = choose|k: int| 0 <= k < slices.len() && slices[k] == slice_of(layout[i], payload);
    assert(slices[k].0 <= x < slices[k].0 + slices[k].1);
    v
}

} // verus!
