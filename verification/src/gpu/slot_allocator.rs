//! Dense slot allocator: LIFO reuse of freed indices, with a generation per index that tells a
//! stale handle from a live one.
use vstd::prelude::*;

verus! {

/// A claim on a slot: a dense `index` plus the `generation` it was handed out for.
#[derive(Copy, Clone, Debug, PartialEq, Eq, Hash, Structural)]
pub struct SlotHandle {
    pub index: u32,
    pub generation: u32,
}

/// What an allocator holds.
#[verifier::ext_equal]
pub struct SlotState {
    /// The current generation of each index ever issued.
    pub generations: Seq<u32>,
    /// Whether each index is claimed.
    pub live: Seq<bool>,
    /// The freed indices, the one to reuse next last.
    pub free: Seq<u32>,
}

/// The generation after `generation`, wrapping.
pub open spec fn next_generation(generation: u32) -> u32 {
    if generation == u32::MAX {
        0
    } else {
        (generation + 1) as u32
    }
}

/// How many of the flags are set.
pub open spec fn count_set(flags: Seq<bool>) -> nat
    decreases flags.len(),
{
    if flags.len() == 0 {
        0
    } else {
        count_set(flags.drop_last()) + if flags.last() {
            1nat
        } else {
            0nat
        }
    }
}

impl SlotState {
    /// No slot issued yet.
    pub open spec fn empty() -> SlotState {
        SlotState { generations: seq![], live: seq![], free: seq![] }
    }

    /// The free list holds exactly the indices that are not claimed, each once.
    pub open spec fn consistent(self) -> bool {
        &&& self.generations.len() == self.live.len()
        &&& self.live.len() <= u32::MAX
        &&& self.free.no_duplicates()
        &&& forall|i: int| 0 <= i < self.free.len() ==> (#[trigger] self.free[i]) < self.live.len()
            && !self.live[self.free[i] as int]
        &&& forall|x: int| 0 <= x < self.live.len() && !#[trigger] self.live[x]
            ==> self.free.contains(x as u32)
    }

    /// `handle` names a claimed slot at its current generation.
    pub open spec fn valid(self, handle: SlotHandle) -> bool {
        &&& handle.index < self.live.len()
        &&& self.live[handle.index as int]
        &&& self.generations[handle.index as int] == handle.generation
    }

    /// The handle the next allocation returns.
    pub open spec fn next_handle(self) -> SlotHandle {
        if self.free.len() > 0 {
            SlotHandle {
                index: self.free.last(),
                generation: self.generations[self.free.last() as int],
            }
        } else {
            SlotHandle { index: self.live.len() as u32, generation: 0 }
        }
    }

    /// The state after an allocation.
    pub open spec fn after_allocate(self) -> SlotState {
        if self.free.len() > 0 {
            SlotState {
                live: self.live.update(self.free.last() as int, true),
                free: self.free.drop_last(),
                ..self
            }
        } else {
            SlotState {
                generations: self.generations.push(0),
                live: self.live.push(true),
                free: self.free,
            }
        }
    }

    /// The state after slot `index` is given back.
    pub open spec fn after_free(self, index: u32) -> SlotState {
        SlotState {
            generations: self.generations.update(
                index as int,
                next_generation(self.generations[index as int]),
            ),
            live: self.live.update(index as int, false),
            free: self.free.push(index),
        }
    }
}

/// Dense slot allocator.
pub struct SlotAllocator {
    free: Vec<u32>,
    generations: Vec<u32>,
    claimed: Vec<bool>,
    live: u32,
}

impl View for SlotAllocator {
    type V = SlotState;

    closed spec fn view(&self) -> SlotState {
        SlotState { generations: self.generations@, live: self.claimed@, free: self.free@ }
    }
}

impl Default for SlotAllocator {
    fn default() -> (slots: Self)
        ensures
            slots.wf(),
            slots@ == SlotState::empty(),
    {
        Self::new()
    }
}

impl SlotAllocator {
    /// The invariant every operation keeps.
    pub closed spec fn wf(&self) -> bool {
        &&& self@.consistent()
        &&& self.live == count_set(self@.live)
    }

    /// The invariant gives a consistent state.
    pub proof fn lemma_wf(&self)
        requires
            self.wf(),
        ensures
            self@.consistent(),
    {
    }

    /// A fresh, empty allocator.
    pub fn new() -> (slots: Self)
        ensures
            slots.wf(),
            slots@ == SlotState::empty(),
    {
        let slots = SlotAllocator {
            free: Vec::new(),
            generations: Vec::new(),
            claimed: Vec::new(),
            live: 0,
        };
        assert(slots@ =~= SlotState::empty());
        slots
    }

    /// Claims a slot: the most recently freed index if there is one, else the next new index.
    pub fn allocate(&mut self) -> (handle: SlotHandle)
        requires
            old(self).wf(),
            old(self)@.free.len() > 0 || old(self)@.live.len() < u32::MAX,
        ensures
            final(self).wf(),
            handle == old(self)@.next_handle(),
            final(self)@ == old(self)@.after_allocate(),
            final(self)@.valid(handle),
            !old(self)@.valid(handle),
    {
        proof {
            lemma_count_bound(self.claimed@);
        }
        let handle = match self.free.pop() {
            Some(index) => {
                let ghost at = old(self).free@.len() - 1;
                assert(old(self).free@[at] == index);
                proof {
                    lemma_count_update(self.claimed@, index as int, true);
                    lemma_count_bound(self.claimed@.update(index as int, true));
                }
                let generation: u32 = self.generations[index as usize];
                self.claimed.set(index as usize, true);
                SlotHandle { index, generation }
            },
            None => {
                let index: u32 = self.generations.len() as u32;
                self.generations.push(0);
                self.claimed.push(true);
                proof {
                    assert(self.claimed@.drop_last() =~= old(self).claimed@);
                }
                SlotHandle { index, generation: 0 }
            },
        };
        proof {
            lemma_allocate_consistent(old(self)@);
            assert(self@ =~= old(self)@.after_allocate());
            lemma_count_bound(self.claimed@);
        }
        self.live = self.live + 1;
        handle
    }

    /// Gives `handle`'s slot back and bumps its generation. Returns `false` and changes nothing
    /// if the handle does not name a claimed slot at its current generation.
    pub fn free(&mut self, handle: SlotHandle) -> (released: bool)
        requires
            old(self).wf(),
        ensures
            final(self).wf(),
            released == old(self)@.valid(handle),
            released ==> final(self)@ == old(self)@.after_free(handle.index),
            !released ==> final(self)@ == old(self)@,
            !final(self)@.valid(handle),
    {
        if !self.is_valid(handle) {
            return false;
        }
        proof {
            lemma_count_update(self.claimed@, handle.index as int, false);
            lemma_free_consistent(self@, handle.index);
        }
        let current: u32 = self.generations[handle.index as usize];
        let bumped: u32 = current.wrapping_add(1);
        self.generations.set(handle.index as usize, bumped);
        self.claimed.set(handle.index as usize, false);
        self.free.push(handle.index);
        self.live = self.live - 1;
        assert(self@ =~= old(self)@.after_free(handle.index));
        true
    }

    /// Whether `handle` still names a claimed slot.
    pub fn is_valid(&self, handle: SlotHandle) -> (valid: bool)
        requires
            self.wf(),
        ensures
            valid == self@.valid(handle),
    {
        let index: usize = handle.index as usize;
        index < self.generations.len() && self.claimed[index] && self.generations[index]
            == handle.generation
    }

    /// Number of claimed slots.
    pub fn live_count(&self) -> (count: u32)
        requires
            self.wf(),
        ensures
            count == count_set(self@.live),
    {
        self.live
    }

    /// One past the highest index ever issued.
    pub fn capacity(&self) -> (capacity: u32)
        requires
            self.wf(),
        ensures
            capacity == self@.live.len(),
    {
        self.generations.len() as u32
    }
}

proof fn lemma_count_bound(flags: Seq<bool>)
    ensures
        count_set(flags) <= flags.len(),
    decreases flags.len(),
{
    if flags.len() > 0 {
        lemma_count_bound(flags.drop_last());
    }
}

proof fn lemma_count_update(flags: Seq<bool>, i: int, value: bool)
    requires
        0 <= i < flags.len(),
    ensures
        count_set(flags.update(i, value)) + (if flags[i] {
            1int
        } else {
            0
        }) == count_set(flags) + (if value {
            1int
        } else {
            0
        }),
        flags[i] ==> count_set(flags) > 0,
    decreases flags.len(),
{
    let after = flags.update(i, value);
    if i == flags.len() - 1 {
        assert(after.drop_last() =~= flags.drop_last());
    } else {
        lemma_count_update(flags.drop_last(), i, value);
        assert(after.drop_last() =~= flags.drop_last().update(i, value));
    }
}

proof fn lemma_allocate_consistent(state: SlotState)
    requires
        state.consistent(),
        state.free.len() > 0 || state.live.len() < u32::MAX,
    ensures
        state.after_allocate().consistent(),
        !state.valid(state.next_handle()),
        state.after_allocate().valid(state.next_handle()),
{
    let after = state.after_allocate();
    if state.free.len() > 0 {
        let last = state.free.len() - 1;
        assert forall|x: int| 0 <= x < after.live.len() && !#[trigger] after.live[x] implies after.free.contains(
            x as u32,
        ) by {
            assert(!state.live[x]);
            assert(state.free.contains(x as u32));
            let k = choose|k: int| 0 <= k < state.free.len() && state.free[k] == x as u32;
            assert(k != last);
            assert(after.free[k] == x as u32);
        }
        assert forall|i: int| 0 <= i < after.free.len() implies (#[trigger] after.free[i])
            < after.live.len() && !after.live[after.free[i] as int] by {
            assert(state.free[i] == after.free[i]);
            assert(state.free[i] != state.free[last]);
        }
    } else {
        assert forall|x: int| 0 <= x < after.live.len() && !#[trigger] after.live[x] implies after.free.contains(
            x as u32,
        ) by {
            assert(!state.live[x]);
        }
    }
}

proof fn lemma_free_consistent(state: SlotState, index: u32)
    requires
        state.consistent(),
        index < state.live.len(),
        state.live[index as int],
    ensures
        state.after_free(index).consistent(),
{
    let after = state.after_free(index);
    let n = state.free.len();
    assert forall|i: int, j: int| 0 <= i < after.free.len() && 0 <= j < after.free.len() && i
        != j implies after.free[i] != after.free[j] by {
        if i < n {
            assert(!state.live[state.free[i] as int]);
        }
        if j < n {
            assert(!state.live[state.free[j] as int]);
        }
    }
    assert forall|x: int| 0 <= x < after.live.len() && !#[trigger] after.live[x] implies after.free.contains(
        x as u32,
    ) by {
        if x == index {
            assert(after.free[n as int] == index);
        } else {
            assert(!state.live[x]);
            let k = choose|k: int| 0 <= k < n && state.free[k] == x as u32;
            assert(after.free[k] == x as u32);
        }
    }
    assert forall|i: int| 0 <= i < after.free.len() implies (#[trigger] after.free[i])
        < after.live.len() && !after.live[after.free[i] as int] by {
        if i < n {
            assert(state.free[i] == after.free[i]);
        }
    }
}

/// A call on an allocator.
pub enum SlotCall {
    Allocate,
    Free(SlotHandle),
}

impl SlotState {
    /// There is a slot to hand out.
    pub open spec fn has_room(self) -> bool {
        self.free.len() > 0 || self.live.len() < u32::MAX
    }

    /// The state after a call.
    pub open spec fn after_call(self, call: SlotCall) -> SlotState {
        match call {
            SlotCall::Allocate => self.after_allocate(),
            SlotCall::Free(handle) => if self.valid(handle) {
                self.after_free(handle.index)
            } else {
                self
            },
        }
    }

    /// The state after the first `n` calls.
    pub open spec fn after_calls(self, calls: Seq<SlotCall>, n: int) -> SlotState
        decreases n,
    {
        if n <= 0 {
            self
        } else {
            self.after_calls(calls, n - 1).after_call(calls[n - 1])
        }
    }

    /// How many of the first `n` calls hand out a slot.
    pub open spec fn allocations(self, calls: Seq<SlotCall>, n: int) -> int
        decreases n,
    {
        if n <= 0 {
            0
        } else if calls[n - 1] is Allocate {
            self.allocations(calls, n - 1) + 1
        } else {
            self.allocations(calls, n - 1)
        }
    }

    /// How many of the first `n` calls give a slot back.
    pub open spec fn releases(self, calls: Seq<SlotCall>, n: int) -> int
        decreases n,
    {
        if n <= 0 {
            0
        } else if calls[n - 1] matches SlotCall::Free(handle) && self.after_calls(
            calls,
            n - 1,
        ).valid(handle) {
            self.releases(calls, n - 1) + 1
        } else {
            self.releases(calls, n - 1)
        }
    }

    /// Every allocation among the calls finds a slot to hand out.
    pub open spec fn serves(self, calls: Seq<SlotCall>) -> bool {
        forall|i: int|
            0 <= i < calls.len() && (#[trigger] calls[i]) is Allocate ==> self.after_calls(
                calls,
                i,
            ).has_room()
    }
}

/// Over any calls, the live count is the allocations less the slots given back, and no index is
/// ever withdrawn. Freeing the same handle again, or a handle that is stale, is none of them.
pub proof fn law_live_count_is_allocations_less_releases(
    state: SlotState,
    calls: Seq<SlotCall>,
    n: int,
)
    requires
        state.consistent(),
        state.serves(calls),
        0 <= n <= calls.len(),
    ensures
        state.after_calls(calls, n).consistent(),
        count_set(state.after_calls(calls, n).live) == count_set(state.live) + state.allocations(
            calls,
            n,
        ) - state.releases(calls, n),
        state.after_calls(calls, n).live.len() >= state.live.len(),
    decreases n,
{
    if n > 0 {
        law_live_count_is_allocations_less_releases(state, calls, n - 1);
        let before = state.after_calls(calls, n - 1);
        match calls[n - 1] {
            SlotCall::Allocate => {
                assert(before.has_room());
                lemma_allocate_consistent(before);
                if before.free.len() > 0 {
                    let last = before.free.len() - 1;
                    assert(!before.live[before.free[last] as int]);
                    lemma_count_update(before.live, before.free.last() as int, true);
                } else {
                    assert(before.live.push(true).drop_last() =~= before.live);
                }
            },
            SlotCall::Free(handle) => {
                if before.valid(handle) {
                    lemma_count_update(before.live, handle.index as int, false);
                    lemma_free_consistent(before, handle.index);
                }
            },
        }
    }
}

/// Two valid handles on one index are the same handle.
pub proof fn law_one_live_handle_per_index(state: SlotState, a: SlotHandle, b: SlotHandle)
    requires
        state.valid(a),
        state.valid(b),
        a.index == b.index,
    ensures
        a == b,
{
}

/// An allocation takes nobody's slot: every handle valid before stays valid, and none of them
/// has the new handle's index.
pub proof fn law_allocation_disturbs_no_handle(state: SlotState, other: SlotHandle)
    requires
        state.consistent(),
        state.free.len() > 0 || state.live.len() < u32::MAX,
        state.valid(other),
    ensures
        state.after_allocate().valid(other),
        state.next_handle().index != other.index,
{
    if state.free.len() > 0 {
        let last = state.free.len() - 1;
        assert(!state.live[state.free[last] as int]);
    }
}

/// A freed slot comes back first, under another generation, and the handle it had before stays
/// invalid.
pub proof fn law_reuse_is_lifo_with_a_new_generation(state: SlotState, handle: SlotHandle)
    requires
        state.consistent(),
        state.valid(handle),
    ensures
        ({
            let freed = state.after_free(handle.index);
            &&& freed.next_handle().index == handle.index
            &&& freed.next_handle().generation != handle.generation
            &&& handle.generation < u32::MAX ==> freed.next_handle().generation
                == handle.generation + 1
            &&& freed.after_allocate().live.len() == state.live.len()
            &&& !freed.valid(handle)
            &&& !freed.after_allocate().valid(handle)
        }),
{
    let freed = state.after_free(handle.index);
    assert(freed.free.last() == handle.index);
}

/// Freeing one slot leaves every other valid handle valid.
pub proof fn law_free_disturbs_no_other_handle(
    state: SlotState,
    handle: SlotHandle,
    other: SlotHandle,
)
    requires
        state.consistent(),
        state.valid(handle),
        state.valid(other),
        other != handle,
    ensures
        state.after_free(handle.index).valid(other),
        count_set(state.after_free(handle.index).live) + 1 == count_set(state.live),
{
    lemma_count_update(state.live, handle.index as int, false);
}

/// What an allocation hands out is valid from then on and was not before, and where no index is free
/// it is the first that was never used, at generation 0. In a new allocator nothing is valid.
pub proof fn law_allocated_handle_is_valid(state: SlotState, handle: SlotHandle)
    requires
        state.consistent(),
        state.free.len() > 0 || state.live.len() < u32::MAX,
    ensures
        !state.valid(state.next_handle()),
        state.after_allocate().valid(state.next_handle()),
        handle != state.next_handle() ==> state.after_allocate().valid(handle) == state.valid(
            handle,
        ),
        count_set(state.after_allocate().live) == count_set(state.live) + 1,
        state.free.len() == 0 ==> state.next_handle() == (SlotHandle {
            index: state.live.len() as u32,
            generation: 0,
        }),
        !SlotState::empty().valid(handle),
{
    if state.free.len() > 0 {
        assert(state.free[state.free.len() - 1] == state.next_handle().index);
        lemma_count_update(state.live, state.next_handle().index as int, true);
    } else {
        assert(state.live.push(true).drop_last() =~= state.live);
    }
}

} // verus!
