//! A growable device buffer, as the bookkeeping sees it: its capacity, its growth rule and the
//! writes it asks for. The device performs them.
use vstd::prelude::*;

verus! {

/// Device writes must start and end at multiples of this many bytes.
pub const COPY_ALIGNMENT: u64 = 4;

/// A growth request beyond what the device can hold.
#[derive(Clone, Copy, Debug, PartialEq, Eq, Structural)]
pub struct CapacityError {
    /// Elements asked for.
    pub requested: u64,
    /// Elements the device can hold.
    pub limit: u32,
}

/// Bytes to write to a device buffer, starting at byte `offset`.
#[derive(Debug)]
pub struct Upload {
    pub offset: u64,
    pub bytes: Vec<u8>,
}

/// How many elements it takes to reach a multiple of the copy alignment.
pub open spec fn elem_align_spec(elem_size: int) -> int {
    if elem_size % 4 == 0 {
        1
    } else if elem_size % 2 == 0 {
        2
    } else {
        4
    }
}

/// How many elements it takes to reach a multiple of the copy alignment.
pub fn elem_align(elem_size: u32) -> (align: u64)
    ensures
        align == elem_align_spec(elem_size as int),
        (align * elem_size) % 4 == 0,
        forall|fewer: int|
            0 < fewer < align ==> (#[trigger] (fewer * elem_size)) % 4 != 0,
{
    let align: u64 = if elem_size % 4 == 0 {
        1
    } else if elem_size % 2 == 0 {
        2
    } else {
        4
    };
    proof {
        assert((align * elem_size) % 4 == 0) by {
            if align == 2 {
                assert((2 * elem_size) % 4 == 0);
            }
        }
        assert forall|fewer: int| 0 < fewer < align implies (#[trigger] (fewer * elem_size)) % 4
            != 0 by {
            if fewer == 1 {
                assert(fewer * elem_size == elem_size);
            } else if fewer == 2 {
                assert(fewer * elem_size == 2 * elem_size);
            } else {
                assert(fewer * elem_size == 3 * elem_size);
            }
        }
    }
    align
}

/// `n` rounded up to a multiple of `unit`.
pub open spec fn rounded_up(n: int, unit: int) -> int {
    if n % unit == 0 {
        n
    } else {
        n + (unit - n % unit)
    }
}

/// `data` with zeros behind it up to a multiple of the copy alignment.
pub open spec fn padded_bytes(data: Seq<u8>) -> Seq<u8> {
    data + Seq::new((rounded_up(data.len() as int, 4) - data.len()) as nat, |i: int| 0u8)
}

/// The bytes of a device write: `data`, zero-padded to a multiple of the copy alignment.
pub fn pad_for_copy(data: &[u8]) -> (bytes: Vec<u8>)
    ensures
        bytes@ == padded_bytes(data@),
        bytes@.len() % 4 == 0,
{
    let mut bytes: Vec<u8> = Vec::new();
    bytes.extend_from_slice(data);
    let pad: usize = (4 - data.len() % 4) % 4;
    let mut i: usize = 0;
    assert(bytes@ =~= data@);
    while i < pad
        invariant
            i <= pad < 4,
            bytes@ == data@ + Seq::new(i as nat, |i: int| 0u8),
        decreases pad - i,
    {
        bytes.push(0);
        i = i + 1;
        assert(bytes@ =~= data@ + Seq::new(i as nat, |i: int| 0u8));
    }
    assert(bytes@ =~= padded_bytes(data@));
    bytes
}

/// The epoch after `epoch`, wrapping.
pub open spec fn next_epoch(epoch: u64) -> u64 {
    if epoch == u64::MAX {
        0
    } else {
        (epoch + 1) as u64
    }
}

/// The capacity after growing to hold `min` elements: at least double, at most the limit.
pub open spec fn grown_capacity(capacity: int, min: int, limit: int) -> int {
    if min <= capacity {
        capacity
    } else if min >= 2 * capacity {
        min
    } else if 2 * capacity <= limit {
        2 * capacity
    } else {
        limit
    }
}

/// A growable device buffer of equally sized elements.
#[derive(Debug)]
pub struct DynamicGpuBuffer {
    elem_size: u32,
    capacity: u32,
    limit: u32,
    epoch: u64,
}

/// What is known of a growable buffer.
pub struct DynamicState {
    /// Bytes per element.
    pub elem_size: u32,
    /// Elements it holds.
    pub capacity: u32,
    /// Elements it can ever hold.
    pub limit: u32,
    /// How often it was replaced by one of another size, wrapping.
    pub epoch: u64,
}

impl DynamicState {
    /// The buffer after making room for `min` elements.
    pub open spec fn grown(self, min: int) -> DynamicState {
        let capacity = grown_capacity(self.capacity as int, min, self.limit as int);
        DynamicState {
            capacity: capacity as u32,
            epoch: if capacity == self.capacity {
                self.epoch
            } else {
                next_epoch(self.epoch)
            },
            ..self
        }
    }

    /// The buffer after giving back what lies beyond `target` elements.
    pub open spec fn shrunk(self, target: int) -> DynamicState {
        if target < self.capacity {
            DynamicState { capacity: target as u32, epoch: next_epoch(self.epoch), ..self }
        } else {
            self
        }
    }
}

impl View for DynamicGpuBuffer {
    type V = DynamicState;

    closed spec fn view(&self) -> DynamicState {
        DynamicState {
            elem_size: self.elem_size,
            capacity: self.capacity,
            limit: self.limit,
            epoch: self.epoch,
        }
    }
}

impl DynamicGpuBuffer {
    /// The capacity respects the limit.
    pub open spec fn wf(&self) -> bool {
        &&& self@.elem_size > 0
        &&& self@.capacity <= self@.limit
    }

    /// A buffer of `capacity` elements of `elem_size` bytes, on a device that holds `limit`.
    pub fn new(elem_size: u32, capacity: u32, limit: u32) -> (buffer: Self)
        requires
            elem_size > 0,
            capacity <= limit,
        ensures
            buffer.wf(),
            buffer@ == (DynamicState { elem_size, capacity, limit, epoch: 0 }),
    {
        DynamicGpuBuffer { elem_size, capacity, limit, epoch: 0 }
    }

    /// Makes room for `min` elements. Refused if and only if the device cannot hold them.
    pub fn ensure_capacity(&mut self, min: u64) -> (r: Result<(), CapacityError>)
        requires
            old(self).wf(),
        ensures
            final(self).wf(),
            match r {
                Ok(()) => min <= old(self)@.limit && final(self)@ == old(self)@.grown(min as int)
                    && final(self)@.capacity >= min,
                Err(e) => min > old(self)@.limit && *final(self) == *old(self) && e == (
                CapacityError { requested: min, limit: old(self)@.limit }),
            },
    {
        if min > self.limit as u64 {
            return Err(CapacityError { requested: min, limit: self.limit });
        }
        let min: u32 = min as u32;
        if min <= self.capacity {
            return Ok(());
        }
        let doubled: u64 = 2 * (self.capacity as u64);
        let capacity: u32 = if min as u64 >= doubled {
            min
        } else if doubled <= self.limit as u64 {
            doubled as u32
        } else {
            self.limit
        };
        self.capacity = capacity;
        self.epoch = self.epoch.wrapping_add(1);
        Ok(())
    }

    /// Gives back what lies beyond `target` elements. False if there is nothing beyond.
    pub fn shrink_to(&mut self, target: u32) -> (shrank: bool)
        requires
            old(self).wf(),
        ensures
            final(self).wf(),
            shrank == (target < old(self)@.capacity),
            final(self)@ == old(self)@.shrunk(target as int),
    {
        if target >= self.capacity {
            return false;
        }
        self.capacity = target;
        self.epoch = self.epoch.wrapping_add(1);
        true
    }

    pub fn elem_size(&self) -> (size: u32)
        ensures
            size == self@.elem_size,
    {
        self.elem_size
    }

    pub fn capacity(&self) -> (capacity: u32)
        ensures
            capacity == self@.capacity,
    {
        self.capacity
    }

    /// The most rows the device can hold.
    pub fn limit(&self) -> (limit: u32)
        ensures
            limit == self@.limit,
    {
        self.limit
    }

    /// The number of replacements so far: a bind group made at another epoch is stale.
    pub fn epoch(&self) -> (epoch: u64)
        ensures
            epoch == self@.epoch,
    {
        self.epoch
    }
}

/// A buffer that is asked for what it holds stays as it is. One that grows holds what was asked for,
/// no more than the limit, and, unless the limit stops it, no more than what was asked for or twice
/// what it held, and no less than either; it is a new allocation, which the epoch tells.
pub proof fn law_growth_doubles_within_the_limit(state: DynamicState, min: int)
    requires
        0 <= state.capacity <= state.limit,
        min <= state.limit,
    ensures
        ({
            let after = state.grown(min);
            &&& after.elem_size == state.elem_size
            &&& after.limit == state.limit
            &&& min <= state.capacity ==> after == state
            &&& min > state.capacity ==> {
                &&& min <= after.capacity <= state.limit
                &&& after.capacity == state.limit || after.capacity >= 2 * state.capacity
                &&& after.capacity == min || after.capacity <= 2 * state.capacity
                &&& after.epoch == (state.epoch + 1) % 0x1_0000_0000_0000_0000
            }
        }),
{
}

/// A buffer is never larger than what it is shrunk to, and is a new allocation if it was.
pub proof fn law_shrinking_keeps_the_lesser(state: DynamicState, target: int)
    requires
        0 <= target,
    ensures
        ({
            let after = state.shrunk(target);
            &&& after.elem_size == state.elem_size
            &&& after.limit == state.limit
            &&& target >= state.capacity ==> after == state
            &&& target < state.capacity ==> after.capacity == target && after.epoch == (state.epoch
                + 1) % 0x1_0000_0000_0000_0000
        }),
{
}

/// Padding adds zeros, as few as reach a multiple of four bytes, and keeps the data.
pub proof fn law_padding_adds_the_fewest_zeros(data: Seq<u8>, i: int)
    ensures
        padded_bytes(data).len() % 4 == 0,
        data.len() <= padded_bytes(data).len() < data.len() + 4,
        0 <= i < data.len() ==> padded_bytes(data)[i] == data[i],
        data.len() <= i < padded_bytes(data).len() ==> padded_bytes(data)[i] == 0,
{
}

/// A number rounded up is the least multiple of the unit that is not below it.
pub proof fn law_rounded_up_is_the_least_multiple(n: int, unit: int, multiple: int)
    requires
        n >= 0,
        unit > 0,
        multiple % unit == 0,
        multiple >= n,
    ensures
        rounded_up(n, unit) % unit == 0,
        n <= rounded_up(n, unit) <= multiple,
{
    let r = n % unit;
    let q = n / unit;
    let m = multiple / unit;
    vstd::arithmetic::div_mod::lemma_fundamental_div_mod(n, unit);
    vstd::arithmetic::div_mod::lemma_fundamental_div_mod(multiple, unit);
    vstd::arithmetic::div_mod::lemma_mod_bound(n, unit);
    if r != 0 {
        assert(rounded_up(n, unit) == unit * (q + 1)) by (nonlinear_arith)
            requires
                n == unit * q + r,
                rounded_up(n, unit) == n + (unit - r),
        ;
        vstd::arithmetic::div_mod::lemma_mod_multiples_basic(q + 1, unit);
        assert(unit * (q + 1) == (q + 1) * unit) by (nonlinear_arith);
        assert(m > q) by (nonlinear_arith)
            requires
                unit * m >= unit * q + r,
                r > 0,
                unit > 0,
        ;
        assert(unit * m >= unit * (q + 1)) by (nonlinear_arith)
            requires
                m >= q + 1,
                unit > 0,
        ;
    }
}

/// An epoch is followed by the number after it, modulo two to the sixty-fourth: it always changes, and
/// no two epochs are followed by the same one.
pub proof fn law_epochs_move_on(epoch: u64, other: u64)
    ensures
        next_epoch(epoch) == (epoch + 1) % 0x1_0000_0000_0000_0000,
        next_epoch(epoch) != epoch,
        next_epoch(epoch) == next_epoch(other) ==> epoch == other,
{
}
} // verus!
