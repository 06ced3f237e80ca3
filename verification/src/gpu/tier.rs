//! What the storage tiers are called: the ladder, the resources that move along it, the errors, and
//! what a pending transition asks for.
//!
//! A resource is authoritative in exactly one tier. Transitions are queued when they are asked for
//! and carried out together later; a fetch of bytes that lie below RAM is completed once.
use crate::entity::ComponentId;
use crate::gpu::buffer_registry::BufferKey;
use crate::gpu::var_len_pool::VarLenHandle;
use crate::handle_ledger::HandleId;
use crate::text::push_decimal;
use vstd::prelude::*;
use vstd::string::*;

verus! {

use crate::text::decimal;

/// A storage tier, in the order of promotion.
#[derive(Clone, Copy, Debug, PartialEq, Eq, PartialOrd, Ord, Hash, Structural)]
pub enum Tier {
    /// The spill arena.
    Disk,
    /// Staging in memory; for rows of a mirrored column, the host copy itself.
    Ram,
    /// Resident on the device.
    Vram,
}

impl Tier {
    /// How far up the ladder the tier is.
    pub open spec fn rung(self) -> int {
        match self {
            Tier::Disk => 0,
            Tier::Ram => 1,
            Tier::Vram => 2,
        }
    }

    /// The next tier down, or `None` at the bottom.
    pub fn lower(self) -> (tier: Option<Tier>)
        ensures
            match tier {
                Some(tier) => tier.rung() == self.rung() - 1,
                None => self.rung() == 0,
            },
    {
        match self {
            Tier::Vram => Some(Tier::Ram),
            Tier::Ram => Some(Tier::Disk),
            Tier::Disk => None,
        }
    }

    /// The tier as a byte.
    pub fn as_u8(self) -> (byte: u8)
        ensures
            byte == self.rung(),
    {
        match self {
            Tier::Disk => 0,
            Tier::Ram => 1,
            Tier::Vram => 2,
        }
    }

    /// The tier a byte stands for, if any.
    pub fn from_u8(b: u8) -> (tier: Option<Tier>)
        ensures
            match tier {
                Some(tier) => tier.rung() == b,
                None => b > 2,
            },
    {
        if b == 0 {
            Some(Tier::Disk)
        } else if b == 1 {
            Some(Tier::Ram)
        } else if b == 2 {
            Some(Tier::Vram)
        } else {
            None
        }
    }
}

/// A tier is known by its rung, so the byte form loses nothing.
pub proof fn law_tier_bytes_round_trip(a: Tier, b: Tier)
    requires
        a.rung() == b.rung(),
    ensures
        a == b,
{
}

/// The byte ceilings of the two upper tiers.
#[derive(Clone, Copy, Debug, PartialEq, Eq, Structural)]
pub struct TierConfig {
    pub vram_budget_bytes: u64,
    pub ram_budget_bytes: u64,
}

/// The resource a request is about. It must exist already.
#[derive(Clone, Copy, Debug, PartialEq, Eq)]
pub enum TierSelector {
    /// A content-addressed entry, static while it is referenced.
    Interned { pool: BufferKey, id: HandleId },
    /// One payload of a variable-length pool. The handle's count is part of the identity, so that a
    /// recycled offset is not taken for its former tenant.
    PoolSlot { pool: BufferKey, handle: VarLenHandle },
    /// One row of a mirrored column.
    Row { column: ComponentId, row: u32 },
}

/// What a selector names.
pub enum Target {
    Interned { pool: Seq<char>, id: HandleId },
    PoolSlot { pool: Seq<char>, handle: VarLenHandle },
    Row { column: ComponentId, row: u32 },
}

impl View for TierSelector {
    type V = Target;

    open spec fn view(&self) -> Target {
        match *self {
            TierSelector::Interned { pool, id } => Target::Interned { pool: pool@, id },
            TierSelector::PoolSlot { pool, handle } => Target::PoolSlot { pool: pool@, handle },
            TierSelector::Row { column, row } => Target::Row { column, row },
        }
    }
}

impl TierSelector {
    /// Whether both name the same resource.
    pub fn same(self, other: TierSelector) -> (same: bool)
        ensures
            same == (self@ == other@),
    {
        match (self, other) {
            (
                TierSelector::Interned { pool: a, id: x },
                TierSelector::Interned { pool: b, id: y },
            ) => x.0 == y.0 && a.same(b),
            (
                TierSelector::PoolSlot { pool: a, handle: x },
                TierSelector::PoolSlot { pool: b, handle: y },
            ) => x == y && a.same(b),
            (
                TierSelector::Row { column: a, row: x },
                TierSelector::Row { column: b, row: y },
            ) => a.0 == b.0 && x == y,
            _ => false,
        }
    }
}

/// How much of a payload in segments a request covers.
#[derive(Clone, Copy, Debug, PartialEq, Eq, Structural)]
pub enum TierSpan {
    /// Every rank.
    Whole,
    /// The ranks up to this one, which is included.
    ThroughRank(u32),
}

/// Why a request was refused.
#[derive(Clone, Copy, Debug, PartialEq, Eq, Structural)]
pub enum TierError {
    /// The budgets were never set.
    NotConfigured,
    /// The selector names nothing that exists.
    UnknownResource,
    /// A static entry stays where it is while it is referenced.
    Pinned,
    /// The resource moved since the caller looked.
    StaleGeneration { expected: u64, current: u64 },
    /// The handle's count is not that of the live allocation.
    StaleHandle,
    /// A length is not the one it has to be.
    LengthMismatch { expected: u64, provided: u64 },
    /// There is no room, and nothing left to evict.
    BudgetExhausted { needed: u64, budget: u64 },
    /// The fetch was completed before.
    AlreadyCompleted,
    /// The fetch has not been carried out yet.
    NotYetReady,
    /// The bytes cannot be read from the host as things are.
    ReadUnsupported,
}

impl TierError {
    /// The message.
    pub open spec fn message(self) -> Seq<char> {
        match self {
            TierError::NotConfigured =>
                "tier subsystem not configured (call configure_tiers first)"@,
            TierError::UnknownResource => "selector names no live tiered resource"@,
            TierError::Pinned => "entry is a pinned static (referenced); demotion refused"@,
            TierError::StaleGeneration { expected, current } =>
                "stale resolve: expected generation "@ + decimal(expected as nat)
                    + ", current is "@ + decimal(current as nat),
            TierError::StaleHandle =>
                "stale var-len handle: count disagrees with the live allocation"@,
            TierError::LengthMismatch { expected, provided } => "tier_read output window is "@
                + decimal(provided as nat) + " bytes; payload is "@ + decimal(expected as nat),
            TierError::BudgetExhausted { needed, budget } => "budget exhausted: need "@ + decimal(
                needed as nat,
            ) + " bytes against budget "@ + decimal(budget as nat)
                + " with nothing evictable left"@,
            TierError::AlreadyCompleted =>
                "tier fetch already completed (completion is exactly-once)"@,
            TierError::NotYetReady => "tier fetch not yet executed -- flush first"@,
            TierError::ReadUnsupported =>
                "CPU reads unsupported for this entry's residency (VRAM-only static)"@,
        }
    }

    /// The message.
    pub fn describe(&self) -> (text: String)
        ensures
            text@ == self.message(),
    {
        match *self {
            TierError::NotConfigured => {
                "tier subsystem not configured (call configure_tiers first)".to_owned()
            },
            TierError::UnknownResource => "selector names no live tiered resource".to_owned(),
            TierError::Pinned => {
                "entry is a pinned static (referenced); demotion refused".to_owned()
            },
            TierError::StaleGeneration { expected, current } => {
                let mut text = "stale resolve: expected generation ".to_owned();
                push_decimal(&mut text, expected);
                text.append(", current is ");
                push_decimal(&mut text, current);
                text
            },
            TierError::StaleHandle => {
                "stale var-len handle: count disagrees with the live allocation".to_owned()
            },
            TierError::LengthMismatch { expected, provided } => {
                let mut text = "tier_read output window is ".to_owned();
                push_decimal(&mut text, provided);
                text.append(" bytes; payload is ");
                push_decimal(&mut text, expected);
                text
            },
            TierError::BudgetExhausted { needed, budget } => {
                let mut text = "budget exhausted: need ".to_owned();
                push_decimal(&mut text, needed);
                text.append(" bytes against budget ");
                push_decimal(&mut text, budget);
                text.append(" with nothing evictable left");
                text
            },
            TierError::AlreadyCompleted => {
                "tier fetch already completed (completion is exactly-once)".to_owned()
            },
            TierError::NotYetReady => "tier fetch not yet executed -- flush first".to_owned(),
            TierError::ReadUnsupported => {
                "CPU reads unsupported for this entry's residency (VRAM-only static)".to_owned()
            },
        }
    }
}

/// Stands for one fetch of bytes that lie below RAM.
#[derive(Clone, Copy, Debug, PartialEq, Eq, Hash, Structural)]
pub struct TierFetch {
    ticket: u64,
}

impl View for TierFetch {
    type V = u64;

    closed spec fn view(&self) -> u64 {
        self.ticket
    }
}

impl TierFetch {
    /// The fetch with this ticket.
    pub(crate) fn with_ticket(ticket: u64) -> (fetch: Self)
        ensures
            fetch@ == ticket,
    {
        TierFetch { ticket }
    }

    /// The ticket.
    pub(crate) fn ticket(&self) -> (ticket: u64)
        ensures
            ticket == self@,
    {
        self.ticket
    }
}

/// Whether bytes can be read now.
#[derive(Clone, Copy, Debug, PartialEq, Eq, Structural)]
pub enum TierPeek {
    /// They can, as long as the generation stays the same.
    Resident { generation: u64 },
    /// They have been asked for; the fetch is completed once they are there.
    Pending(TierFetch),
}

/// What a round of transitions did.
#[derive(Clone, Copy, Debug, PartialEq, Eq, Structural)]
pub struct TierStats {
    /// Units promoted.
    pub promoted: u32,
    /// Units demoted.
    pub demoted: u32,
    /// Payloads moved from RAM to disk.
    pub spilled: u32,
    /// Payloads moved back.
    pub unspilled: u32,
    /// Requests dropped because their resource was gone.
    pub cancelled: u32,
    /// Promotions refused for want of room.
    pub declined_budget: u32,
    /// Of the spilled payloads, those moved to stay within the RAM budget.
    pub pressure_spilled: u32,
}

impl Default for TierStats {
    /// Nothing was done.
    fn default() -> (stats: Self)
        ensures
            stats == (TierStats {
                promoted: 0,
                demoted: 0,
                spilled: 0,
                unspilled: 0,
                cancelled: 0,
                declined_budget: 0,
                pressure_spilled: 0,
            }),
    {
        TierStats {
            promoted: 0,
            demoted: 0,
            spilled: 0,
            unspilled: 0,
            cancelled: 0,
            declined_budget: 0,
            pressure_spilled: 0,
        }
    }
}

impl TierStats {
    /// No count of the sum is too large.
    pub open spec fn can_add(self, rhs: TierStats) -> bool {
        &&& self.promoted + rhs.promoted <= u32::MAX
        &&& self.demoted + rhs.demoted <= u32::MAX
        &&& self.spilled + rhs.spilled <= u32::MAX
        &&& self.unspilled + rhs.unspilled <= u32::MAX
        &&& self.cancelled + rhs.cancelled <= u32::MAX
        &&& self.declined_budget + rhs.declined_budget <= u32::MAX
        &&& self.pressure_spilled + rhs.pressure_spilled <= u32::MAX
    }

    /// Adds the counts of another round.
    pub fn accumulate(&mut self, rhs: TierStats)
        requires
            old(self).can_add(rhs),
        ensures
            final(self).promoted == old(self).promoted + rhs.promoted,
            final(self).demoted == old(self).demoted + rhs.demoted,
            final(self).spilled == old(self).spilled + rhs.spilled,
            final(self).unspilled == old(self).unspilled + rhs.unspilled,
            final(self).cancelled == old(self).cancelled + rhs.cancelled,
            final(self).declined_budget == old(self).declined_budget + rhs.declined_budget,
            final(self).pressure_spilled == old(self).pressure_spilled + rhs.pressure_spilled,
    {
        self.promoted = self.promoted + rhs.promoted;
        self.demoted = self.demoted + rhs.demoted;
        self.spilled = self.spilled + rhs.spilled;
        self.unspilled = self.unspilled + rhs.unspilled;
        self.cancelled = self.cancelled + rhs.cancelled;
        self.declined_budget = self.declined_budget + rhs.declined_budget;
        self.pressure_spilled = self.pressure_spilled + rhs.pressure_spilled;
    }
}

/// `len` bytes from `offset` on.
#[derive(Clone, Copy, Debug, PartialEq, Eq, Structural)]
pub struct ByteRange {
    pub offset: u64,
    pub len: u64,
}

/// How much residency a demotion withdraws, from the highest rank down.
#[derive(Clone, Copy, Debug, PartialEq, Eq, Structural)]
pub enum DemoteExtent {
    /// All of it.
    All,
    /// What is ranked above this.
    AboveRank(u32),
}

/// What a transition does.
#[derive(Clone, Copy, Debug, PartialEq, Eq, Structural)]
pub enum TransitionKind {
    /// Makes the ranks up to this one resident.
    Promote { through_rank: u32 },
    /// Withdraws residency.
    Demote(DemoteExtent),
    /// Moves the staging from RAM to disk.
    Spill,
    /// Moves the staging back.
    Unspill,
    /// Moves the resource to exactly this tier, whatever it was before.
    SetTo { tier: Tier, through_rank: u32 },
}

/// A transition that was asked for, with the clock's stamp of that moment.
#[derive(Clone, Copy, Debug)]
pub struct PendingTransition {
    pub target: TierSelector,
    pub kind: TransitionKind,
    pub seq: u64,
}

/// Every one of them names a tier outright.
pub open spec fn all_absolute(kinds: Seq<TransitionKind>) -> bool {
    forall|i: int| 0 <= i < kinds.len() ==> (#[trigger] kinds[i]) is SetTo
}

/// The net effect of the transitions of one resource: of requests that each name a tier outright
/// only the last one counts, while anything relative is carried out step by step.
pub open spec fn folded(kinds: Seq<TransitionKind>) -> Seq<TransitionKind> {
    if kinds.len() > 1 && all_absolute(kinds) {
        seq![kinds.last()]
    } else {
        kinds
    }
}

/// The net effect of the transitions of one resource.
pub fn fold_kinds(kinds: &[TransitionKind]) -> (net: Vec<TransitionKind>)
    ensures
        net@ == folded(kinds@),
{
    let mut copy: Vec<TransitionKind> = Vec::new();
    let mut absolute: bool = true;
    let mut i: usize = 0;
    while i < kinds.len()
        invariant
            i <= kinds@.len(),
            copy@ == kinds@.take(i as int),
            absolute == all_absolute(kinds@.take(i as int)),
        decreases kinds@.len() - i,
    {
        let kind: TransitionKind = kinds[i];
        let sets: bool = match kind {
            TransitionKind::SetTo { .. } => true,
            _ => false,
        };
        proof {
            let front = kinds@.take(i as int);
            let more = kinds@.take(i + 1);
            if all_absolute(more) {
                assert forall|k: int| 0 <= k < front.len() implies (#[trigger] front[k]) is SetTo by {
                    assert(more[k] is SetTo);
                }
                assert(more[i as int] is SetTo);
            }
            if all_absolute(front) && sets {
                assert forall|k: int| 0 <= k < more.len() implies (#[trigger] more[k]) is SetTo by {
                    if k < i {
                        assert(front[k] is SetTo);
                    }
                }
            }
        }
        absolute = absolute && sets;
        copy.push(kind);
        i = i + 1;
        assert(copy@ =~= kinds@.take(i as int));
    }
    assert(kinds@.take(i as int) =~= kinds@);
    if kinds.len() > 1 && absolute {
        let mut last: Vec<TransitionKind> = Vec::new();
        last.push(kinds[kinds.len() - 1]);
        assert(last@ =~= seq![kinds@.last()]);
        last
    } else {
        copy
    }
}

/// Folding does not depend on how requests that name a tier outright were batched: folding a batch
/// first and then the rest gives what folding everything gives.
pub proof fn law_absolute_requests_fold_alike(a: Seq<TransitionKind>, b: Seq<TransitionKind>)
    requires
        all_absolute(a),
        all_absolute(b),
        b.len() > 0,
    ensures
        folded(folded(a) + b) == folded(a + b),
        folded(a + b) == seq![b.last()],
{
    let whole = a + b;
    let part = folded(a) + b;
    assert(all_absolute(whole)) by {
        assert forall|i: int| 0 <= i < whole.len() implies (#[trigger] whole[i]) is SetTo by {
            if i < a.len() {
                assert(a[i] is SetTo);
            } else {
                assert(b[i - a.len()] is SetTo);
            }
        }
    }
    assert(all_absolute(part)) by {
        assert forall|i: int| 0 <= i < part.len() implies (#[trigger] part[i]) is SetTo by {
            if i < folded(a).len() {
                assert(a[i] is SetTo);
                assert(a[a.len() - 1] is SetTo);
            } else {
                assert(b[i - folded(a).len()] is SetTo);
            }
        }
    }
    assert(whole.last() == b.last());
    assert(part.last() == b.last());
    if whole.len() == 1 {
        assert(whole =~= seq![b.last()]);
    }
    if part.len() == 1 {
        assert(part =~= seq![b.last()]);
    }
}

/// What an audit record is about.
#[derive(Clone, Copy, Debug, PartialEq, Eq, Hash)]
pub enum TierAuditKey {
    Interned(BufferKey, HandleId),
    PoolSlot(BufferKey, u64),
    Row(ComponentId, u32),
}

/// Where one resource is.
#[derive(Clone, Copy, Debug, PartialEq, Eq)]
pub struct TierAuditRecord {
    pub key: TierAuditKey,
    pub tier: Tier,
    pub generation: u64,
    pub last_use: u64,
    /// Static and referenced.
    pub pinned: bool,
    /// Bytes placed on the device.
    pub vram_bytes: u64,
    /// Bytes staged in memory; none for rows, whose home is the host copy.
    pub staging_bytes: u64,
}

/// Requests are dropped only where every one of them is absolute, and then all but the last: one that
/// is relative to where an entry stands keeps all of them, in their order.
pub proof fn law_relative_requests_are_all_kept(kinds: Seq<TransitionKind>, i: int)
    ensures
        0 <= i < kinds.len() && kinds[i] !is SetTo ==> folded(kinds) == kinds,
        kinds.len() <= 1 ==> folded(kinds) == kinds,
        kinds.len() > 1 && (forall|j: int| 0 <= j < kinds.len() ==> (#[trigger] kinds[j]) is SetTo)
            ==> folded(kinds) == seq![kinds[kinds.len() - 1]],
{
}

/// The disk is the lowest rung, the device the highest.
pub proof fn law_tiers_stand_in_order(tier: Tier)
    ensures
        Tier::Disk.rung() == 0,
        Tier::Ram.rung() == Tier::Disk.rung() + 1,
        Tier::Vram.rung() == Tier::Ram.rung() + 1,
        Tier::Disk.rung() <= tier.rung() <= Tier::Vram.rung(),
{
}

} // verus!
