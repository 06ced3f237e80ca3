//! Reference counting of asset handles.
//!
//! A handle is an opaque identity. Components carry handles in their fields; every insert,
//! overwrite, removal and despawn is a count transition recorded here. Counting has multiset
//! semantics: two fields naming one asset count twice. The zero identity means "no asset" and
//! never reaches the table.
use crate::entity::ComponentId;
use std::collections::{HashMap, HashSet};
use vstd::prelude::*;

verus! {

broadcast use vstd::std_specs::hash::group_hash_axioms;

/// A fixed-size asset identity. The bits are opaque; only equality and zero matter.
#[derive(Clone, Copy, Debug, PartialEq, Eq, Hash, Structural)]
pub struct HandleId(pub u128);

impl HandleId {
    /// The "no asset" identity.
    pub fn zero() -> (id: HandleId)
        ensures
            id == HandleId(0),
    {
        HandleId(0)
    }

    /// Whether this is the "no asset" identity.
    pub fn is_zero(self) -> (zero: bool)
        ensures
            zero == (self.0 == 0),
            zero == (self == HandleId(0)),
    {
        self.0 == 0
    }
}

impl Default for HandleId {
    fn default() -> (id: Self)
        ensures
            id == HandleId(0),
    {
        HandleId(0)
    }
}

/// A value that can name its own content.
///
/// Values with equal content return the same identity, values that differ return different
/// ones. Returning zero opts the value out of sharing.
pub trait ContentAddressed {
    fn content_id(&self) -> HandleId;
}

/// A component type with handle fields, and what copies the handles out of a component.
#[derive(Debug)]
pub struct HandleLedgerRegistration<C> {
    pub component_id: ComponentId,
    /// Lists the handles in the order of the fields.
    pub collect_from_value: C,
}

/// What is registered for `id`: the last registration counts.
pub open spec fn collector_of<C>(
    registrations: Seq<HandleLedgerRegistration<C>>,
    id: ComponentId,
) -> Option<C>
    decreases registrations.len(),
{
    if registrations.len() == 0 {
        None
    } else if registrations.last().component_id == id {
        Some(registrations.last().collect_from_value)
    } else {
        collector_of(registrations.drop_last(), id)
    }
}

/// What copies the handles out of a component of type `id`; `None` if and only if the type has no
/// handle fields.
pub fn collect_fn_for<C>(
    registrations: &Vec<HandleLedgerRegistration<C>>,
    id: ComponentId,
) -> (collector: Option<&C>)
    ensures
        match collector {
            Some(collector) => collector_of(registrations@, id) == Some(*collector),
            None => collector_of(registrations@, id) is None,
        },
{
    let mut i: usize = registrations.len();
    assert(registrations@.take(i as int) =~= registrations@);
    while i > 0
        invariant
            i <= registrations@.len(),
            collector_of(registrations@, id) == collector_of(registrations@.take(i as int), id),
        decreases i,
    {
        i = i - 1;
        assert(registrations@.take(i + 1).drop_last() =~= registrations@.take(i as int));
        if registrations[i].component_id == id {
            return Some(&registrations[i].collect_from_value);
        }
    }
    assert(registrations@.take(0).len() == 0);
    None
}

/// Live references per identity. An identity without references has no entry.
pub type Counts = Map<u128, i64>;

/// How often `id` is referenced.
pub open spec fn count_of(counts: Counts, id: HandleId) -> int {
    if counts.dom().contains(id.0) {
        counts[id.0] as int
    } else {
        0
    }
}

/// No entry lingers at zero or below.
pub open spec fn all_positive(counts: Counts) -> bool {
    forall|id: u128| #[trigger] counts.dom().contains(id) ==> counts[id] > 0
}

/// `extra` more references to any identity still fit the counter.
pub open spec fn has_room(counts: Counts, extra: int) -> bool {
    forall|id: HandleId| #[trigger] count_of(counts, id) + extra <= i64::MAX
}

/// One more reference to `id`.
pub open spec fn acquired(counts: Counts, id: HandleId) -> Counts {
    counts.insert(id.0, (count_of(counts, id) + 1) as i64)
}

/// One fewer reference to `id`; the last one removes the entry, and there is nothing below zero.
pub open spec fn released(counts: Counts, id: HandleId) -> Counts {
    if count_of(counts, id) <= 1 {
        counts.remove(id.0)
    } else {
        counts.insert(id.0, (count_of(counts, id) - 1) as i64)
    }
}

/// `acquired`, except that zero is no asset.
pub open spec fn acquired_unless_zero(counts: Counts, id: HandleId) -> Counts {
    if id == HandleId(0) {
        counts
    } else {
        acquired(counts, id)
    }
}

/// `released`, except that zero is no asset.
pub open spec fn released_unless_zero(counts: Counts, id: HandleId) -> Counts {
    if id == HandleId(0) {
        counts
    } else {
        released(counts, id)
    }
}

/// One field changing from `old` to `new`: nothing if they are equal.
pub open spec fn swapped(counts: Counts, old: HandleId, new: HandleId) -> Counts {
    if old == new {
        counts
    } else {
        acquired_unless_zero(released_unless_zero(counts, old), new)
    }
}

/// The first `n` fields acquired in order.
pub open spec fn acquired_all(counts: Counts, ids: Seq<HandleId>, n: nat) -> Counts
    decreases n,
{
    if n == 0 {
        counts
    } else {
        acquired_unless_zero(acquired_all(counts, ids, (n - 1) as nat), ids[n - 1])
    }
}

/// The first `n` fields released in order.
pub open spec fn released_all(counts: Counts, ids: Seq<HandleId>, n: nat) -> Counts
    decreases n,
{
    if n == 0 {
        counts
    } else {
        released_unless_zero(released_all(counts, ids, (n - 1) as nat), ids[n - 1])
    }
}

/// The first `n` fields swapped in order.
pub open spec fn swapped_all(
    counts: Counts,
    old: Seq<HandleId>,
    new: Seq<HandleId>,
    n: nat,
) -> Counts
    decreases n,
{
    if n == 0 {
        counts
    } else {
        swapped(swapped_all(counts, old, new, (n - 1) as nat), old[n - 1], new[n - 1])
    }
}

/// What is known of releases of identities that were not referenced.
#[verifier::ext_equal]
pub struct Underflows {
    /// The identities it happened to.
    pub warned: Set<u128>,
    /// Those it happened to for the first time, in order, since the reports were last taken.
    pub reports: Seq<HandleId>,
}

impl Underflows {
    /// After one fewer reference to `id` where the references were `counts`.
    pub open spec fn after_release(self, counts: Counts, id: HandleId) -> Underflows {
        if count_of(counts, id) != 0 {
            self
        } else {
            Underflows {
                warned: self.warned.insert(id.0),
                reports: if self.warned.contains(id.0) {
                    self.reports
                } else {
                    self.reports.push(id)
                },
            }
        }
    }

    /// Every report is of an identity that was warned of, and no two are of the same.
    pub open spec fn sound(self) -> bool {
        &&& self.reports.no_duplicates()
        &&& forall|i: int|
            0 <= i < self.reports.len() ==> self.warned.contains((#[trigger] self.reports[i]).0)
    }

    /// `later` came from here by releases: what was warned of stays so, and what is reported on top
    /// was not warned of before.
    pub open spec fn leads_to(self, later: Underflows) -> bool {
        &&& later.sound()
        &&& self.warned.subset_of(later.warned)
        &&& self.reports.len() <= later.reports.len()
        &&& self.reports == later.reports.take(self.reports.len() as int)
        &&& forall|i: int|
            self.reports.len() <= i < later.reports.len() ==> !self.warned.contains(
                (#[trigger] later.reports[i]).0,
            )
    }
}

/// The underflows after the first `n` fields were released in order.
pub open spec fn release_underflows(
    start: Underflows,
    counts: Counts,
    ids: Seq<HandleId>,
    n: nat,
) -> Underflows
    decreases n,
{
    if n == 0 {
        start
    } else {
        let before = release_underflows(start, counts, ids, (n - 1) as nat);
        if ids[n - 1] == HandleId(0) {
            before
        } else {
            before.after_release(released_all(counts, ids, (n - 1) as nat), ids[n - 1])
        }
    }
}

/// The underflows after the first `n` fields were swapped in order.
pub open spec fn swap_underflows(
    start: Underflows,
    counts: Counts,
    old: Seq<HandleId>,
    new: Seq<HandleId>,
    n: nat,
) -> Underflows
    decreases n,
{
    if n == 0 {
        start
    } else {
        let before = swap_underflows(start, counts, old, new, (n - 1) as nat);
        if old[n - 1] == new[n - 1] || old[n - 1] == HandleId(0) {
            before
        } else {
            before.after_release(swapped_all(counts, old, new, (n - 1) as nat), old[n - 1])
        }
    }
}

/// The multiset of live references, keyed by identity.
pub struct HandleCounts {
    counts: HashMap<u128, i64>,
    warned_underflow: HashSet<u128>,
    reports: Vec<HandleId>,
}

impl View for HandleCounts {
    type V = Counts;

    closed spec fn view(&self) -> Counts {
        self.counts@
    }
}

impl Default for HandleCounts {
    fn default() -> (counts: Self)
        ensures
            counts.wf(),
            counts@ == Map::<u128, i64>::empty(),
            counts.warned() == Set::<u128>::empty(),
            counts.underflows().reports.len() == 0,
    {
        HandleCounts {
            counts: HashMap::new(),
            warned_underflow: HashSet::new(),
            reports: Vec::new(),
        }
    }
}

impl HandleCounts {
    /// No entry lingers at zero or below.
    pub open spec fn wf(&self) -> bool {
        all_positive(self@)
    }

    /// The releases of what was not referenced.
    pub closed spec fn underflows(&self) -> Underflows {
        Underflows { warned: self.warned_underflow@, reports: self.reports@ }
    }

    /// The identities that were released once without being referenced.
    pub open spec fn warned(&self) -> Set<u128> {
        self.underflows().warned
    }

    /// One more live reference to `id`.
    pub fn acquire(&mut self, id: HandleId)
        requires
            old(self).wf(),
            count_of(old(self)@, id) < i64::MAX,
        ensures
            final(self).wf(),
            final(self)@ == acquired(old(self)@, id),
            final(self).underflows() == old(self).underflows(),
    {
        let current: i64 = self.get(id);
        self.counts.insert(id.0, current + 1);
    }

    /// One fewer live reference to `id`. Releasing what is not referenced changes no count; the
    /// result tells whether that happened for the first time, and `take_underflows` hands `id` out
    /// once, so that it can be reported.
    pub fn release(&mut self, id: HandleId) -> (first_underflow: bool)
        requires
            old(self).wf(),
        ensures
            final(self).wf(),
            final(self)@ == released(old(self)@, id),
            first_underflow == (count_of(old(self)@, id) == 0 && !old(self).warned().contains(
                id.0,
            )),
            final(self).underflows() == old(self).underflows().after_release(old(self)@, id),
    {
        let current: i64 = self.get(id);
        if current == 0 {
            assert(self@.remove(id.0) =~= self@);
            let first: bool = self.warned_underflow.insert(id.0);
            if first {
                self.reports.push(id);
            }
            first
        } else {
            if current <= 1 {
                self.counts.remove(&id.0);
            } else {
                self.counts.insert(id.0, current - 1);
            }
            false
        }
    }

    /// Hands out, in order, the identities that were released for the first time without being
    /// referenced since this was last called.
    pub fn take_underflows(&mut self) -> (reports: Vec<HandleId>)
        requires
            old(self).wf(),
        ensures
            final(self).wf(),
            final(self)@ == old(self)@,
            reports@ == old(self).underflows().reports,
            final(self).underflows() == (Underflows {
                reports: seq![],
                ..old(self).underflows()
            }),
    {
        let mut reports: Vec<HandleId> = Vec::new();
        std::mem::swap(&mut reports, &mut self.reports);
        assert(self.reports@ =~= seq![]);
        reports
    }

    /// Current live reference count for `id`.
    pub fn get(&self, id: HandleId) -> (count: i64)
        requires
            self.wf(),
        ensures
            count == count_of(self@, id),
            count == 0 <==> !self@.dom().contains(id.0),
    {
        match self.counts.get(&id.0) {
            Some(count) => *count,
            None => 0,
        }
    }

    /// The number of identities with a live reference.
    pub fn len(&self) -> (n: usize)
        ensures
            n == self@.len(),
    {
        self.counts.len()
    }
}

/// Records that a component whose handle fields were `old` now has the handle fields `new`:
/// equal fields produce nothing, the others release the old identity unless zero and acquire the
/// new one unless zero.
pub fn report_value_swap(counts: &mut HandleCounts, old_ids: &[HandleId], new_ids: &[HandleId])
    requires
        old(counts).wf(),
        old_ids@.len() > 0 ==> old_ids@.len() == new_ids@.len(),
        has_room(old(counts)@, old_ids@.len() as int),
    ensures
        final(counts).wf(),
        final(counts)@ == swapped_all(old(counts)@, old_ids@, new_ids@, old_ids@.len()),
        final(counts).underflows() == swap_underflows(
            old(counts).underflows(),
            old(counts)@,
            old_ids@,
            new_ids@,
            old_ids@.len(),
        ),
{
    let n: usize = old_ids.len();
    if n == 0 {
        return ;
    }
    report_captured_swap(counts, old_ids, new_ids);
}

/// The same swap rule for a write through a mutable guard: `captured_old` was snapshotted when the
/// guard was made.
pub fn report_captured_swap(
    counts: &mut HandleCounts,
    captured_old: &[HandleId],
    new_ids: &[HandleId],
)
    requires
        old(counts).wf(),
        captured_old@.len() == new_ids@.len(),
        has_room(old(counts)@, new_ids@.len() as int),
    ensures
        final(counts).wf(),
        final(counts)@ == swapped_all(old(counts)@, captured_old@, new_ids@, new_ids@.len()),
        final(counts).underflows() == swap_underflows(
            old(counts).underflows(),
            old(counts)@,
            captured_old@,
            new_ids@,
            new_ids@.len(),
        ),
{
    let mut i: usize = 0;
    while i < new_ids.len()
        invariant
            i <= new_ids@.len(),
            captured_old@.len() == new_ids@.len(),
            counts.wf(),
            counts@ == swapped_all(old(counts)@, captured_old@, new_ids@, i as nat),
            counts.underflows() == swap_underflows(
                old(counts).underflows(),
                old(counts)@,
                captured_old@,
                new_ids@,
                i as nat,
            ),
            has_room(old(counts)@, new_ids@.len() as int),
            forall|id: HandleId| #[trigger]
                count_of(counts@, id) <= count_of(old(counts)@, id) + i,
        decreases new_ids@.len() - i,
    {
        let o: HandleId = captured_old[i];
        let v: HandleId = new_ids[i];
        if o != v {
            let ghost before = counts@;
            if !o.is_zero() {
                counts.release(o);
            }
            proof {
                assert(count_of(before, v) <= count_of(old(counts)@, v) + i);
                assert(count_of(old(counts)@, v) + new_ids@.len() <= i64::MAX);
            }
            if !v.is_zero() {
                counts.acquire(v);
            }
            proof {
                assert forall|id: HandleId| #[trigger]
                    count_of(counts@, id) <= count_of(old(counts)@, id) + i + 1 by {
                    assert(count_of(before, id) <= count_of(old(counts)@, id) + i);
                }
            }
        }
        i = i + 1;
    }
}

/// First insert: acquires every nonzero handle field.
pub fn report_value_acquire(counts: &mut HandleCounts, ids: &[HandleId])
    requires
        old(counts).wf(),
        has_room(old(counts)@, ids@.len() as int),
    ensures
        final(counts).wf(),
        final(counts)@ == acquired_all(old(counts)@, ids@, ids@.len()),
        final(counts).underflows() == old(counts).underflows(),
{
    let mut i: usize = 0;
    while i < ids.len()
        invariant
            i <= ids@.len(),
            counts.wf(),
            counts@ == acquired_all(old(counts)@, ids@, i as nat),
            counts.underflows() == old(counts).underflows(),
            has_room(old(counts)@, ids@.len() as int),
            forall|id: HandleId| #[trigger]
                count_of(counts@, id) <= count_of(old(counts)@, id) + i,
        decreases ids@.len() - i,
    {
        let id: HandleId = ids[i];
        proof {
            assert(count_of(counts@, id) <= count_of(old(counts)@, id) + i);
            assert(count_of(old(counts)@, id) + ids@.len() <= i64::MAX);
        }
        let ghost before = counts@;
        if !id.is_zero() {
            counts.acquire(id);
        }
        proof {
            assert forall|other: HandleId| #[trigger]
                count_of(counts@, other) <= count_of(old(counts)@, other) + i + 1 by {
                assert(count_of(before, other) <= count_of(old(counts)@, other) + i);
            }
        }
        i = i + 1;
    }
}

/// Removal: releases every nonzero handle field.
pub fn report_value_release(counts: &mut HandleCounts, ids: &[HandleId])
    requires
        old(counts).wf(),
    ensures
        final(counts).wf(),
        final(counts)@ == released_all(old(counts)@, ids@, ids@.len()),
        final(counts).underflows() == release_underflows(
            old(counts).underflows(),
            old(counts)@,
            ids@,
            ids@.len(),
        ),
{
    let mut i: usize = 0;
    while i < ids.len()
        invariant
            i <= ids@.len(),
            counts.wf(),
            counts@ == released_all(old(counts)@, ids@, i as nat),
            counts.underflows() == release_underflows(
                old(counts).underflows(),
                old(counts)@,
                ids@,
                i as nat,
            ),
        decreases ids@.len() - i,
    {
        let id: HandleId = ids[i];
        if !id.is_zero() {
            counts.release(id);
        }
        i = i + 1;
    }
}

/// Despawn: releases every nonzero identity collected from a dying row, duplicates one by one.
pub fn release_row(counts: &mut HandleCounts, row: &[HandleId])
    requires
        old(counts).wf(),
    ensures
        final(counts).wf(),
        final(counts)@ == released_all(old(counts)@, row@, row@.len()),
        final(counts).underflows() == release_underflows(
            old(counts).underflows(),
            old(counts)@,
            row@,
            row@.len(),
        ),
{
    report_value_release(counts, row);
}

/// Releasing what was just acquired leaves the table as it was, with no entry at zero.
pub proof fn law_acquire_then_release(counts: Counts, id: HandleId)
    requires
        all_positive(counts),
        count_of(counts, id) < i64::MAX,
    ensures
        released(acquired(counts, id), id) == counts,
{
    assert(released(acquired(counts, id), id) =~= counts);
}

proof fn lemma_leads_on(start: Underflows, u: Underflows, counts: Counts, id: HandleId)
    requires
        start.leads_to(u),
    ensures
        start.leads_to(u.after_release(counts, id)),
{
    let after = u.after_release(counts, id);
    let n = u.reports.len() as int;
    if after.reports.len() > n {
        assert forall|i: int, j: int|
            0 <= i < after.reports.len() && 0 <= j < after.reports.len() && i
                != j implies after.reports[i] != after.reports[j] by {
            if i < n && j < n {
                assert(u.reports[i] != u.reports[j]);
            } else if i < n {
                assert(u.warned.contains(u.reports[i].0));
            } else {
                assert(u.warned.contains(u.reports[j].0));
            }
        }
        assert forall|i: int| 0 <= i < after.reports.len() implies after.warned.contains(
            (#[trigger] after.reports[i]).0,
        ) by {
            if i < n {
                assert(u.warned.contains(u.reports[i].0));
            }
        }
        assert(after.reports.take(start.reports.len() as int) =~= start.reports);
        assert forall|i: int|
            start.reports.len() <= i < after.reports.len() implies !start.warned.contains(
            (#[trigger] after.reports[i]).0,
        ) by {
            if i < n {
                assert(!start.warned.contains(u.reports[i].0));
            }
        }
    } else {
        assert forall|i: int| 0 <= i < after.reports.len() implies after.warned.contains(
            (#[trigger] after.reports[i]).0,
        ) by {
            assert(u.warned.contains(u.reports[i].0));
        }
    }
}

/// An underflow is reported once: whatever fields and rows are released and fields swapped, no
/// identity is among the reports twice, and none that was warned of before is reported again.
pub proof fn law_underflow_is_reported_once(
    start: Underflows,
    counts: Counts,
    ids: Seq<HandleId>,
    new: Seq<HandleId>,
    n: nat,
)
    requires
        start.sound(),
        n <= ids.len(),
        n <= new.len(),
    ensures
        start.leads_to(release_underflows(start, counts, ids, n)),
        start.leads_to(swap_underflows(start, counts, ids, new, n)),
    decreases n,
{
    if n == 0 {
        assert(start.reports.take(start.reports.len() as int) =~= start.reports);
    } else {
        let m = (n - 1) as nat;
        law_underflow_is_reported_once(start, counts, ids, new, m);
        let id = ids[n - 1];
        lemma_leads_on(
            start,
            release_underflows(start, counts, ids, m),
            released_all(counts, ids, m),
            id,
        );
        lemma_leads_on(
            start,
            swap_underflows(start, counts, ids, new, m),
            swapped_all(counts, ids, new, m),
            id,
        );
    }
}

/// How often `id` is among the first `n` fields.
pub open spec fn occurrences(ids: Seq<HandleId>, id: HandleId, n: nat) -> nat
    decreases n,
{
    if n == 0 {
        0
    } else {
        occurrences(ids, id, (n - 1) as nat) + if ids[n - 1] == id {
            1nat
        } else {
            0nat
        }
    }
}

/// Acquiring a list of fields counts every nonzero identity once per occurrence and never touches
/// zero.
pub proof fn law_acquire_counts_occurrences(
    counts: Counts,
    ids: Seq<HandleId>,
    n: nat,
    id: HandleId,
)
    requires
        n <= ids.len(),
        has_room(counts, n as int),
    ensures
        count_of(acquired_all(counts, ids, n), id) == count_of(counts, id) + if id
            == HandleId(0) {
            0nat
        } else {
            occurrences(ids, id, n)
        },
    decreases n,
{
    assert(count_of(counts, id) + n <= i64::MAX);
    lemma_occurrences_bound(ids, id, n);
    if n > 0 {
        let last = ids[n - 1];
        assert forall|other: HandleId| #[trigger] count_of(counts, other) + (n - 1)
            <= i64::MAX by {
            assert(count_of(counts, other) + n <= i64::MAX);
        }
        law_acquire_counts_occurrences(counts, ids, (n - 1) as nat, id);
        law_acquire_counts_occurrences(counts, ids, (n - 1) as nat, last);
        lemma_occurrences_bound(ids, last, (n - 1) as nat);
        assert(count_of(counts, last) + n <= i64::MAX);
    }
}

proof fn lemma_occurrences_bound(ids: Seq<HandleId>, id: HandleId, n: nat)
    ensures
        occurrences(ids, id, n) <= n,
    decreases n,
{
    if n > 0 {
        lemma_occurrences_bound(ids, id, (n - 1) as nat);
    }
}

/// Releasing fields or a row's identities takes off each nonzero one its number of occurrences, but
/// never below zero, and leaves zero alone.
pub proof fn law_release_row_counts_duplicates(
    counts: Counts,
    ids: Seq<HandleId>,
    n: nat,
    id: HandleId,
)
    requires
        n <= ids.len(),
        all_positive(counts),
    ensures
        all_positive(released_all(counts, ids, n)),
        count_of(released_all(counts, ids, n), id) == if id == HandleId(0) {
            count_of(counts, id)
        } else if count_of(counts, id) <= occurrences(ids, id, n) {
            0
        } else {
            count_of(counts, id) - occurrences(ids, id, n)
        },
    decreases n,
{
    if n > 0 {
        law_release_row_counts_duplicates(counts, ids, (n - 1) as nat, id);
        law_release_row_counts_duplicates(counts, ids, (n - 1) as nat, ids[n - 1]);
    }
}

/// What inserting a component acquires, removing it releases: the table is as it was.
pub proof fn law_insert_then_remove_balances(counts: Counts, ids: Seq<HandleId>)
    requires
        all_positive(counts),
        has_room(counts, ids.len() as int),
    ensures
        released_all(acquired_all(counts, ids, ids.len()), ids, ids.len()) == counts,
{
    let n = ids.len();
    let up = acquired_all(counts, ids, n);
    let down = released_all(up, ids, n);
    lemma_acquired_all_positive(counts, ids, n);
    assert forall|id: HandleId| #[trigger] count_of(down, id) == count_of(counts, id) by {
        law_acquire_counts_occurrences(counts, ids, n, id);
        law_release_row_counts_duplicates(up, ids, n, id);
    }
    law_release_row_counts_duplicates(up, ids, n, HandleId(0));
    lemma_counts_determine(down, counts);
}

proof fn lemma_counts_determine(a: Counts, b: Counts)
    requires
        all_positive(a),
        all_positive(b),
        forall|id: HandleId| #[trigger] count_of(a, id) == count_of(b, id),
    ensures
        a == b,
{
    assert forall|k: u128| a.dom().contains(k) == b.dom().contains(k) && (a.dom().contains(k)
        ==> a[k] == b[k]) by {
        assert(count_of(a, HandleId(k)) == count_of(b, HandleId(k)));
    }
    assert(a =~= b);
}

proof fn lemma_acquired_all_positive(counts: Counts, ids: Seq<HandleId>, n: nat)
    requires
        all_positive(counts),
        n <= ids.len(),
        has_room(counts, n as int),
    ensures
        all_positive(acquired_all(counts, ids, n)),
    decreases n,
{
    if n > 0 {
        assert forall|other: HandleId| #[trigger] count_of(counts, other) + (n - 1)
            <= i64::MAX by {
            assert(count_of(counts, other) + n <= i64::MAX);
        }
        lemma_acquired_all_positive(counts, ids, (n - 1) as nat);
        let last = ids[n - 1];
        law_acquire_counts_occurrences(counts, ids, (n - 1) as nat, last);
        lemma_occurrences_bound(ids, last, (n - 1) as nat);
        assert(count_of(counts, last) + n <= i64::MAX);
    }
}

/// Rewriting a component with unchanged handles churns nothing.
pub proof fn law_equal_swap_is_silent(counts: Counts, ids: Seq<HandleId>, n: nat)
    requires
        n <= ids.len(),
    ensures
        swapped_all(counts, ids, ids, n) == counts,
    decreases n,
{
    if n > 0 {
        law_equal_swap_is_silent(counts, ids, (n - 1) as nat);
    }
}

/// Zero never reaches the table: no component event counts it, and none warns of it or reports it.
pub proof fn law_zero_is_never_counted(
    start: Underflows,
    counts: Counts,
    old_ids: Seq<HandleId>,
    new_ids: Seq<HandleId>,
    n: nat,
)
    requires
        n <= old_ids.len(),
        n <= new_ids.len(),
        count_of(counts, HandleId(0)) == 0,
        !start.warned.contains(0),
        !start.reports.contains(HandleId(0)),
    ensures
        count_of(swapped_all(counts, old_ids, new_ids, n), HandleId(0)) == 0,
        count_of(acquired_all(counts, new_ids, n), HandleId(0)) == 0,
        count_of(released_all(counts, old_ids, n), HandleId(0)) == 0,
        ({
            let released = release_underflows(start, counts, old_ids, n);
            let swapped = swap_underflows(start, counts, old_ids, new_ids, n);
            &&& !released.warned.contains(0)
            &&& !released.reports.contains(HandleId(0))
            &&& !swapped.warned.contains(0)
            &&& !swapped.reports.contains(HandleId(0))
        }),
    decreases n,
{
    if n > 0 {
        let m = (n - 1) as nat;
        law_zero_is_never_counted(start, counts, old_ids, new_ids, m);
        let id = old_ids[n - 1];
        if id != HandleId(0) {
            lemma_zero_unreported(
                release_underflows(start, counts, old_ids, m),
                released_all(counts, old_ids, m),
                id,
            );
            lemma_zero_unreported(
                swap_underflows(start, counts, old_ids, new_ids, m),
                swapped_all(counts, old_ids, new_ids, m),
                id,
            );
        }
    }
}

proof fn lemma_zero_unreported(u: Underflows, counts: Counts, id: HandleId)
    requires
        id != HandleId(0),
        !u.warned.contains(0),
        !u.reports.contains(HandleId(0)),
    ensures
        !u.after_release(counts, id).warned.contains(0),
        !u.after_release(counts, id).reports.contains(HandleId(0)),
{
    let after = u.after_release(counts, id);
    if after.reports.contains(HandleId(0)) {
        let k = choose|k: int| 0 <= k < after.reports.len() && after.reports[k] == HandleId(0);
        assert(u.reports[k] == HandleId(0));
    }
}

/// A swap moves references from what the fields named to what they name: where every identity is
/// counted at least as often as the old fields name it, each nonzero one then has as many references
/// more as it is named by the new fields, and as many fewer as it was named by the old ones.
pub proof fn law_swap_moves_references(
    counts: Counts,
    old: Seq<HandleId>,
    new: Seq<HandleId>,
    n: nat,
    id: HandleId,
)
    requires
        n <= old.len(),
        n <= new.len(),
        all_positive(counts),
        has_room(counts, n as int),
        forall|x: HandleId|
            x != HandleId(0) ==> #[trigger] count_of(counts, x) >= occurrences(old, x, n),
    ensures
        all_positive(swapped_all(counts, old, new, n)),
        id != HandleId(0) ==> count_of(swapped_all(counts, old, new, n), id) == count_of(counts, id)
            + occurrences(new, id, n) - occurrences(old, id, n),
        id == HandleId(0) ==> count_of(swapped_all(counts, old, new, n), id) == count_of(
            counts,
            id,
        ),
    decreases n,
{
    if n > 0 {
        let m = (n - 1) as nat;
        assert forall|x: HandleId| #[trigger] count_of(counts, x) + m <= i64::MAX by {
            assert(count_of(counts, x) + n <= i64::MAX);
        }
        assert forall|x: HandleId| x != HandleId(0) implies #[trigger] count_of(counts, x)
            >= occurrences(old, x, m) by {
            assert(count_of(counts, x) >= occurrences(old, x, n));
        }
        lemma_count_not_negative(counts, old[n - 1]);
        law_swap_moves_references(counts, old, new, m, id);
        law_swap_moves_references(counts, old, new, m, old[n - 1]);
        law_swap_moves_references(counts, old, new, m, new[n - 1]);
        if old[n - 1] != HandleId(0) {
            assert(count_of(counts, old[n - 1]) >= occurrences(old, old[n - 1], n));
        }
        assert(count_of(counts, new[n - 1]) + n <= i64::MAX);
        lemma_occurrences_bound(new, new[n - 1], m);
        lemma_occurrences_bound(new, old[n - 1], m);
        assert(count_of(counts, old[n - 1]) + n <= i64::MAX);
    }
}

/// Overwriting a component's handles leaves what inserting the new component alone would have left.
pub proof fn law_overwritten_component_counts_as_the_new_one(
    counts: Counts,
    old: Seq<HandleId>,
    new: Seq<HandleId>,
)
    requires
        all_positive(counts),
        old.len() == new.len(),
        has_room(counts, (old.len() + new.len()) as int),
    ensures
        swapped_all(acquired_all(counts, old, old.len()), old, new, new.len()) == acquired_all(
            counts,
            new,
            new.len(),
        ),
{
    let n = old.len();
    assert forall|x: HandleId| #[trigger] count_of(counts, x) + n <= i64::MAX by {
        assert(count_of(counts, x) + (old.len() + new.len()) <= i64::MAX);
    }
    let held = acquired_all(counts, old, n);
    lemma_acquired_all_positive(counts, old, n);
    lemma_acquired_all_positive(counts, new, n);
    assert forall|x: HandleId| #[trigger] count_of(held, x) + n <= i64::MAX by {
        assert(count_of(counts, x) + (old.len() + new.len()) <= i64::MAX);
        law_acquire_counts_occurrences(counts, old, n, x);
        lemma_occurrences_bound(old, x, n);
    }
    assert forall|x: HandleId| x != HandleId(0) implies #[trigger] count_of(held, x)
        >= occurrences(old, x, n) by {
        law_acquire_counts_occurrences(counts, old, n, x);
        lemma_count_not_negative(counts, x);
    }
    let swapped = swapped_all(held, old, new, n);
    let fresh = acquired_all(counts, new, n);
    law_swap_moves_references(held, old, new, n, HandleId(0));
    assert forall|x: HandleId| #[trigger] count_of(swapped, x) == count_of(fresh, x) by {
        law_swap_moves_references(held, old, new, n, x);
        law_acquire_counts_occurrences(counts, old, n, x);
        law_acquire_counts_occurrences(counts, new, n, x);
    }
    lemma_counts_determine(swapped, fresh);
}

proof fn lemma_count_not_negative(counts: Counts, id: HandleId)
    requires
        all_positive(counts),
    ensures
        count_of(counts, id) >= 0,
{
}

/// A swap of one field, whatever is counted: equal identities change nothing; otherwise the old one
/// loses a reference, if it has any, and the new one gains one, unless they are zero, and no other
/// identity is touched.
pub proof fn law_one_swapped_field(
    counts: Counts,
    old: HandleId,
    new: HandleId,
    id: HandleId,
)
    requires
        all_positive(counts),
        count_of(counts, new) < i64::MAX,
    ensures
        ({
            let after = count_of(swapped_all(counts, seq![old], seq![new], 1), id);
            let before = count_of(counts, id);
            &&& old == new ==> after == before
            &&& old != new && id == old && id != HandleId(0) ==> after == if before > 0 {
                before - 1
            } else {
                0
            }
            &&& old != new && id == new && id != HandleId(0) ==> after == before + 1
            &&& id != old && id != new || id == HandleId(0) ==> after == before
        }),
{
    reveal_with_fuel(swapped_all, 2);
    assert(swapped_all(counts, seq![old], seq![new], 0) == counts);
}

/// Releasing warns of a nonzero identity if and only if it is named more often than it is counted.
pub proof fn law_underflow_is_release_without_reference(
    start: Underflows,
    counts: Counts,
    ids: Seq<HandleId>,
    n: nat,
    id: HandleId,
)
    requires
        all_positive(counts),
        n <= ids.len(),
        id != HandleId(0),
    ensures
        release_underflows(start, counts, ids, n).warned.contains(id.0) <==> start.warned.contains(
            id.0,
        ) || occurrences(ids, id, n) > count_of(counts, id),
        !start.warned.contains(id.0) && occurrences(ids, id, n) > count_of(counts, id)
            ==> release_underflows(start, counts, ids, n).reports.contains(id),
    decreases n,
{
    lemma_count_not_negative(counts, id);
    if n > 0 {
        let m = (n - 1) as nat;
        law_underflow_is_release_without_reference(start, counts, ids, m, id);
        law_release_row_counts_duplicates(counts, ids, m, id);
        let before = release_underflows(start, counts, ids, m);
        let after = release_underflows(start, counts, ids, n);
        if before.reports.contains(id) {
            let k = choose|k: int| 0 <= k < before.reports.len() && before.reports[k] == id;
            assert(after.reports[k] == id);
        } else if after.reports.len() > before.reports.len() && ids[m as int] == id {
            assert(after.reports[before.reports.len() as int] == id);
        }
    }
}

/// Fields are swapped one by one, each on what the ones before it left, and a field whose old identity
/// goes unreferenced is noted, the first time as a report, if and only if the identities differ and the
/// old one is not zero.
pub proof fn law_fields_are_swapped_one_by_one(
    start: Underflows,
    counts: Counts,
    old: Seq<HandleId>,
    new: Seq<HandleId>,
    n: nat,
    id: HandleId,
)
    requires
        n < old.len(),
        n < new.len(),
    ensures
        ({
            let before = swapped_all(counts, old, new, n);
            let noted = swap_underflows(start, counts, old, new, n);
            let after = swap_underflows(start, counts, old, new, (n + 1) as nat);
            let under = old[n as int] != new[n as int] && old[n as int] != HandleId(0) && count_of(
                before,
                old[n as int],
            ) == 0;
            &&& swapped_all(counts, old, new, (n + 1) as nat) == swapped_all(
                before,
                seq![old[n as int]],
                seq![new[n as int]],
                1,
            )
            &&& swapped_all(counts, old, new, 0) == counts
            &&& swap_underflows(start, counts, old, new, 0) == start
            &&& after.warned.contains(id.0) <==> noted.warned.contains(id.0) || (under && id
                == old[n as int])
            &&& after.reports == if under && !noted.warned.contains(old[n as int].0) {
                noted.reports.push(old[n as int])
            } else {
                noted.reports
            }
        }),
{
    reveal_with_fuel(swapped_all, 2);
    let before = swapped_all(counts, old, new, n);
    assert(swapped_all(before, seq![old[n as int]], seq![new[n as int]], 0) == before);
}

/// Of the collectors registered for a component the last counts, and it is nobody else's.
pub proof fn law_last_collector_counts<C>(
    registrations: Seq<HandleLedgerRegistration<C>>,
    more: HandleLedgerRegistration<C>,
    other: ComponentId,
)
    ensures
        collector_of(registrations.push(more), more.component_id) == Some(more.collect_from_value),
        other != more.component_id ==> collector_of(registrations.push(more), other)
            == collector_of(registrations, other),
        collector_of(Seq::<HandleLedgerRegistration<C>>::empty(), other) is None,
{
    assert(registrations.push(more).drop_last() =~= registrations);
}

} // verus!
