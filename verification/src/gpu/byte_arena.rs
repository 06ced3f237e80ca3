//! A slab of byte payloads behind recycled slots. Payloads move in and out without being copied.
use vstd::prelude::*;

verus! {

/// The payload behind each slot, and the free slots in the order in which they were freed.
pub struct ArenaState {
    pub slots: Seq<Option<Seq<u8>>>,
    pub free: Seq<u32>,
}

/// Bytes of all payloads.
pub open spec fn payload_bytes(slots: Seq<Option<Seq<u8>>>) -> int
    decreases slots.len(),
{
    if slots.len() == 0 {
        0
    } else {
        payload_bytes(slots.drop_last()) + match slots.last() {
            Some(bytes) => bytes.len() as int,
            None => 0,
        }
    }
}

impl ArenaState {
    /// No slots.
    pub open spec fn empty() -> ArenaState {
        ArenaState { slots: seq![], free: seq![] }
    }

    /// The free slots are exactly those without a payload, each listed once.
    pub open spec fn consistent(self) -> bool {
        &&& forall|i: int|
            0 <= i < self.free.len() ==> (#[trigger] self.free[i]) < self.slots.len()
                && self.slots[self.free[i] as int] is None
        &&& forall|i: int, j: int|
            #![trigger self.free[i], self.free[j]]
            0 <= i < j < self.free.len() ==> self.free[i] != self.free[j]
        &&& forall|s: int|
            0 <= s < self.slots.len() && (#[trigger] self.slots[s]) is None ==> self.free.contains(
                s as u32,
            )
        &&& self.slots.len() <= u32::MAX
    }

    /// Bytes of all payloads.
    pub open spec fn used(self) -> int {
        payload_bytes(self.slots)
    }

    /// The payload behind `slot`, if there is one.
    pub open spec fn at(self, slot: u32) -> Option<Seq<u8>> {
        if slot < self.slots.len() {
            self.slots[slot as int]
        } else {
            None
        }
    }

    /// Where the next payload goes: the slot freed last, or a new one.
    pub open spec fn next_slot(self) -> u32 {
        if self.free.len() > 0 {
            self.free.last()
        } else {
            self.slots.len() as u32
        }
    }

    /// There is room for `len` more bytes: a slot below the one value that stands for none, and a
    /// byte count.
    pub open spec fn has_room(self, len: int) -> bool {
        &&& self.free.len() > 0 || self.slots.len() < u32::MAX
        &&& self.used() + len <= u64::MAX
    }

    /// A payload is put into the next slot.
    pub open spec fn put(self, bytes: Seq<u8>) -> ArenaState {
        if self.free.len() > 0 {
            ArenaState {
                slots: self.slots.update(self.free.last() as int, Some(bytes)),
                free: self.free.drop_last(),
            }
        } else {
            ArenaState { slots: self.slots.push(Some(bytes)), free: self.free }
        }
    }

    /// The payload behind `slot`, if there is one, is taken out.
    pub open spec fn take(self, slot: u32) -> ArenaState {
        match self.at(slot) {
            Some(_) => ArenaState {
                slots: self.slots.update(slot as int, None),
                free: self.free.push(slot),
            },
            None => self,
        }
    }

    /// The first bytes of the payload behind `slot` are overwritten.
    pub open spec fn overwrite(self, slot: u32, bytes: Seq<u8>) -> ArenaState {
        match self.at(slot) {
            Some(existing) => ArenaState {
                slots: self.slots.update(
                    slot as int,
                    Some(bytes + existing.skip(bytes.len() as int)),
                ),
                ..self
            },
            None => self,
        }
    }
}

proof fn lemma_payload_bytes_update(
    slots: Seq<Option<Seq<u8>>>,
    i: int,
    value: Option<Seq<u8>>,
)
    requires
        0 <= i < slots.len(),
    ensures
        payload_bytes(slots.update(i, value)) == payload_bytes(slots) - payload_len(slots[i])
            + payload_len(value),
    decreases slots.len(),
{
    let updated = slots.update(i, value);
    if i == slots.len() - 1 {
        assert(updated.drop_last() =~= slots.drop_last());
    } else {
        assert(updated.drop_last() =~= slots.drop_last().update(i, value));
        lemma_payload_bytes_update(slots.drop_last(), i, value);
    }
}

/// Bytes of one payload, if there is one.
pub open spec fn payload_len(payload: Option<Seq<u8>>) -> int {
    match payload {
        Some(bytes) => bytes.len() as int,
        None => 0,
    }
}

proof fn lemma_payload_within(slots: Seq<Option<Seq<u8>>>, i: int)
    requires
        0 <= i < slots.len(),
    ensures
        0 <= payload_len(slots[i]) <= payload_bytes(slots),
    decreases slots.len(),
{
    if slots.len() > 1 {
        lemma_payload_within(slots.drop_last(), 0);
    } else {
        assert(slots.drop_last() =~= seq![]);
        assert(payload_bytes(slots.drop_last()) == 0);
    }
    if i < slots.len() - 1 {
        lemma_payload_within(slots.drop_last(), i);
    }
}

/// Putting a payload keeps the arena consistent and adds its bytes.
pub proof fn lemma_put(state: ArenaState, bytes: Seq<u8>)
    requires
        state.consistent(),
        state.has_room(bytes.len() as int),
    ensures
        state.put(bytes).consistent(),
        state.put(bytes).used() == state.used() + bytes.len(),
        state.put(bytes).at(state.next_slot()) == Some(bytes),
        state.at(state.next_slot()) is None,
{
    let after = state.put(bytes);
    if state.free.len() > 0 {
        let slot = state.free.last();
        assert(state.free[state.free.len() - 1] == slot);
        lemma_payload_bytes_update(state.slots, slot as int, Some(bytes));
        assert forall|i: int| 0 <= i < after.free.len() implies (#[trigger] after.free[i])
            < after.slots.len() && after.slots[after.free[i] as int] is None by {
            assert(state.free[i] != state.free[state.free.len() - 1]);
        }
        assert forall|i: int, j: int|
            #![trigger after.free[i], after.free[j]]
            0 <= i < j < after.free.len() implies after.free[i] != after.free[j] by {
            assert(state.free[i] != state.free[j]);
        }
        assert forall|s: int|
            0 <= s < after.slots.len() && (#[trigger] after.slots[s]) is None implies
            after.free.contains(s as u32) by {
            assert(s != slot);
            assert(state.slots[s] is None);
            let k = choose|k: int| 0 <= k < state.free.len() && state.free[k] == s as u32;
            assert(after.free[k] == s as u32);
        }
    } else {
        assert(after.slots.drop_last() =~= state.slots);
        assert forall|s: int|
            0 <= s < after.slots.len() && (#[trigger] after.slots[s]) is None implies
            after.free.contains(s as u32) by {
            assert(state.slots[s] is None);
        }
    }
}

/// Taking a payload keeps the arena consistent and subtracts its bytes.
pub proof fn lemma_take(state: ArenaState, slot: u32)
    requires
        state.consistent(),
    ensures
        state.take(slot).consistent(),
        state.take(slot).used() == state.used() - payload_len(state.at(slot)),
        state.take(slot).at(slot) is None,
        payload_len(state.at(slot)) <= state.used(),
        state.used() >= 0,
{
    let after = state.take(slot);
    if state.slots.len() > 0 {
        lemma_payload_within(state.slots, 0);
    }
    if state.at(slot) is Some {
        lemma_payload_within(state.slots, slot as int);
        lemma_payload_bytes_update(state.slots, slot as int, None);
        assert forall|i: int| 0 <= i < after.free.len() implies (#[trigger] after.free[i])
            < after.slots.len() && after.slots[after.free[i] as int] is None by {
            if i < state.free.len() {
                assert(state.slots[state.free[i] as int] is None);
            }
        }
        assert forall|i: int, j: int|
            #![trigger after.free[i], after.free[j]]
            0 <= i < j < after.free.len() implies after.free[i] != after.free[j] by {
            if j == state.free.len() {
                assert(state.slots[state.free[i] as int] is None);
            } else {
                assert(state.free[i] != state.free[j]);
            }
        }
        assert forall|s: int|
            0 <= s < after.slots.len() && (#[trigger] after.slots[s]) is None implies
            after.free.contains(s as u32) by {
            if s == slot {
                assert(after.free[state.free.len() as int] == slot);
            } else {
                assert(state.slots[s] is None);
                let k = choose|k: int| 0 <= k < state.free.len() && state.free[k] == s as u32;
                assert(after.free[k] == s as u32);
            }
        }
    }
}

/// Overwriting the first bytes of a payload changes neither the slots nor the byte count.
pub proof fn lemma_overwrite(state: ArenaState, slot: u32, bytes: Seq<u8>)
    requires
        state.consistent(),
        state.at(slot) matches Some(existing) && existing.len() >= bytes.len(),
    ensures
        state.overwrite(slot, bytes).consistent(),
        state.overwrite(slot, bytes).used() == state.used(),
{
    let existing = state.slots[slot as int]->0;
    let after = state.overwrite(slot, bytes);
    lemma_payload_bytes_update(
        state.slots,
        slot as int,
        Some(bytes + existing.skip(bytes.len() as int)),
    );
    assert forall|i: int| 0 <= i < after.free.len() implies (#[trigger] after.free[i])
        < after.slots.len() && after.slots[after.free[i] as int] is None by {
        assert(state.slots[state.free[i] as int] is None);
    }
    assert forall|s: int|
        0 <= s < after.slots.len() && (#[trigger] after.slots[s]) is None implies
        after.free.contains(s as u32) by {
        assert(state.slots[s] is None);
    }
}

/// What was put into the arena comes out of its slot again, and the arena is then as it was, with
/// the slot free.
pub proof fn law_take_undoes_put(state: ArenaState, bytes: Seq<u8>)
    requires
        state.consistent(),
        state.has_room(bytes.len() as int),
    ensures
        state.put(bytes).at(state.next_slot()) == Some(bytes),
        state.put(bytes).take(state.next_slot()).used() == state.used(),
        state.free.len() > 0 ==> state.put(bytes).take(state.next_slot()) == state,
{
    lemma_put(state, bytes);
    lemma_take(state.put(bytes), state.next_slot());
    if state.free.len() > 0 {
        let again = state.put(bytes).take(state.next_slot());
        assert(state.slots[state.free[state.free.len() - 1] as int] is None);
        assert(again.slots =~= state.slots);
        assert(again.free =~= state.free);
    }
}

/// Neither putting a payload nor taking one touches the other payloads.
pub proof fn law_other_payloads_stay(state: ArenaState, bytes: Seq<u8>, taken: u32, other: u32)
    requires
        state.consistent(),
        state.has_room(bytes.len() as int),
    ensures
        other != state.next_slot() ==> state.put(bytes).at(other) == state.at(other),
        other != taken ==> state.take(taken).at(other) == state.at(other),
{
    lemma_put(state, bytes);
}

/// The slot freed last is the first to be used again.
pub proof fn law_freed_slot_is_used_next(state: ArenaState, slot: u32)
    requires
        state.consistent(),
        state.at(slot) is Some,
    ensures
        state.take(slot).next_slot() == slot,
{
}

/// A slab of byte payloads.
pub struct ByteArena {
    slots: Vec<Option<Vec<u8>>>,
    free: Vec<u32>,
    used: u64,
}

spec fn payloads(slots: Seq<Option<Vec<u8>>>) -> Seq<Option<Seq<u8>>> {
    Seq::new(
        slots.len(),
        |i: int|
            match slots[i] {
                Some(bytes) => Some(bytes@),
                None => None,
            },
    )
}

impl View for ByteArena {
    type V = ArenaState;

    closed spec fn view(&self) -> ArenaState {
        ArenaState { slots: payloads(self.slots@), free: self.free@ }
    }
}

impl ByteArena {
    /// The slots are consistent, and the bytes are accounted.
    pub closed spec fn wf(&self) -> bool {
        &&& self@.consistent()
        &&& self.used == self@.used()
    }

    pub(crate) proof fn lemma_wf(&self)
        requires
            self.wf(),
        ensures
            self@.consistent(),
            0 <= self@.used() <= u64::MAX,
    {
    }

    /// An arena without payloads.
    pub fn new() -> (arena: Self)
        ensures
            arena.wf(),
            arena@ == ArenaState::empty(),
    {
        let arena = ByteArena { slots: Vec::new(), free: Vec::new(), used: 0 };
        assert(arena@.slots =~= seq![]);
        assert(arena@.free =~= seq![]);
        arena
    }

    /// Bytes of all payloads.
    pub fn used(&self) -> (used: u64)
        requires
            self.wf(),
        ensures
            used == self@.used(),
    {
        self.used
    }

    /// Puts a payload into the slot freed last, or into a new one. Returns the slot.
    pub fn put(&mut self, bytes: Vec<u8>) -> (slot: u32)
        requires
            old(self).wf(),
            old(self)@.has_room(bytes@.len() as int),
        ensures
            final(self).wf(),
            final(self)@ == old(self)@.put(bytes@),
            slot == old(self)@.next_slot(),
    {
        let ghost before = self@;
        let ghost content = bytes@;
        proof {
            lemma_put(before, content);
        }
        self.used = self.used + bytes.len() as u64;
        match self.free.pop() {
            Some(slot) => {
                assert(before.free[before.free.len() - 1] == slot);
                self.slots.set(slot as usize, Some(bytes));
                assert(self@.slots =~= before.put(content).slots);
                slot
            },
            None => {
                let slot: u32 = self.slots.len() as u32;
                self.slots.push(Some(bytes));
                assert(self@.slots =~= before.put(content).slots);
                slot
            },
        }
    }

    /// Takes the payload out of `slot`, which is then free. `None`, and no change, if it has none.
    pub fn take(&mut self, slot: u32) -> (bytes: Option<Vec<u8>>)
        requires
            old(self).wf(),
        ensures
            final(self).wf(),
            final(self)@ == old(self)@.take(slot),
            match bytes {
                Some(bytes) => old(self)@.at(slot) == Some(bytes@),
                None => old(self)@.at(slot) is None,
            },
    {
        let ghost before = self@;
        proof {
            lemma_take(before, slot);
        }
        if slot as usize >= self.slots.len() {
            return None;
        }
        assert(before.slots[slot as int] == payloads(self.slots@)[slot as int]);
        let taken = self.slots[slot as usize].take();
        match taken {
            Some(bytes) => {
                self.used = self.used - bytes.len() as u64;
                self.free.push(slot);
                assert(self@.slots =~= before.take(slot).slots);
                Some(bytes)
            },
            None => {
                assert(self@.slots =~= before.slots);
                None
            },
        }
    }

    /// The payload behind `slot`, if there is one.
    pub fn slot_slice(&self, slot: u32) -> (bytes: Option<&Vec<u8>>)
        ensures
            match bytes {
                Some(bytes) => self@.at(slot) == Some(bytes@),
                None => self@.at(slot) is None,
            },
    {
        if slot as usize >= self.slots.len() {
            return None;
        }
        match &self.slots[slot as usize] {
            Some(bytes) => Some(bytes),
            None => None,
        }
    }

    /// Drops the payload behind `slot`. Returns its length.
    pub fn discard(&mut self, slot: u32) -> (len: Option<u64>)
        requires
            old(self).wf(),
        ensures
            final(self).wf(),
            final(self)@ == old(self)@.take(slot),
            match len {
                Some(len) => old(self)@.at(slot) is Some && len == payload_len(old(self)@.at(slot)),
                None => old(self)@.at(slot) is None,
            },
    {
        match self.take(slot) {
            Some(bytes) => Some(bytes.len() as u64),
            None => None,
        }
    }

    /// Overwrites the first bytes of the payload behind `slot`, if it has one that is long enough.
    /// Whether it had.
    pub fn overwrite(&mut self, slot: u32, bytes: &[u8]) -> (done: bool)
        requires
            old(self).wf(),
        ensures
            final(self).wf(),
            done == (payload_fits(old(self)@.at(slot), bytes@)),
            final(self)@ == if done {
                old(self)@.overwrite(slot, bytes@)
            } else {
                old(self)@
            },
    {
        let ghost before = self@;
        if slot as usize >= self.slots.len() {
            return false;
        }
        assert(before.slots[slot as int] == payloads(self.slots@)[slot as int]);
        let taken = self.slots[slot as usize].take();
        match taken {
            None => {
                assert(self@.slots =~= before.slots);
                false
            },
            Some(mut existing) => {
                let ghost content = existing@;
                let fits: bool = existing.len() >= bytes.len();
                if fits {
                    proof {
                        lemma_overwrite(before, slot, bytes@);
                    }
                    let mut i: usize = 0;
                    while i < bytes.len()
                        invariant
                            i <= bytes@.len() <= existing@.len() == content.len(),
                            existing@ == bytes@.take(i as int) + content.skip(i as int),
                        decreases bytes@.len() - i,
                    {
                        existing.set(i, bytes[i]);
                        i = i + 1;
                        assert(existing@ =~= bytes@.take(i as int) + content.skip(i as int));
                    }
                    assert(bytes@.take(i as int) =~= bytes@);
                }
                self.slots.set(slot as usize, Some(existing));
                if fits {
                    assert(self@.slots =~= before.overwrite(slot, bytes@).slots);
                } else {
                    assert(self@.slots =~= before.slots);
                }
                fits
            },
        }
    }
}

/// The payload is at least as long as `bytes`.
pub open spec fn payload_fits(payload: Option<Seq<u8>>, bytes: Seq<u8>) -> bool {
    payload is Some && payload_len(payload) >= bytes.len()
}

/// The bytes in use are counted up by what is put in and down by what is taken out; nothing is in use
/// at first.
pub proof fn law_used_bytes_are_counted(state: ArenaState, bytes: Seq<u8>, slot: u32)
    requires
        state.consistent(),
        state.has_room(bytes.len() as int),
    ensures
        ArenaState::empty().used() == 0,
        ArenaState::empty().at(slot) is None,
        state.put(bytes).used() == state.used() + bytes.len(),
        state.at(slot) matches Some(payload) ==> state.take(slot).used() == state.used()
            - payload.len(),
        state.at(slot) is None ==> state.take(slot) == state,
        state.take(slot).at(slot) is None,
        state.at(state.next_slot()) is None,
        state.free.len() == 0 ==> state.next_slot() == state.slots.len(),
{
    lemma_put(state, bytes);
    lemma_take(state, slot);
}

/// Overwriting replaces the first bytes of a payload, as many as are given, and keeps its length, the
/// rest of it, and every other payload.
pub proof fn law_overwriting_keeps_the_rest(
    state: ArenaState,
    slot: u32,
    bytes: Seq<u8>,
    other: u32,
    i: int,
)
    requires
        state.at(slot) matches Some(existing) && existing.len() >= bytes.len(),
    ensures
        ({
            let existing = state.at(slot)->0;
            let after = state.overwrite(slot, bytes);
            &&& after.at(slot) matches Some(now) && now.len() == existing.len() && (0 <= i
                < existing.len() ==> now[i] == if i < bytes.len() {
                bytes[i]
            } else {
                existing[i]
            })
            &&& other != slot ==> after.at(other) == state.at(other)
            &&& after.free == state.free
        }),
{
}

} // verus!
