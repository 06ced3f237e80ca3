//! Where a resource is cached: a column holds a light reference, the resource itself is interned.
use crate::handle_ledger::HandleId;
use vstd::prelude::*;

verus! {

use vstd::arithmetic::div_mod::{lemma_mod_multiples_vanish, lemma_mul_mod_noop_left, lemma_small_mod};

/// Marks a reference to an interned resource.
#[derive(Clone, Copy, Debug, PartialEq, Eq, Hash, Default)]
pub struct GpuHeavy<T>(pub T);

impl<T> GpuHeavy<T> {
    /// The reference.
    pub fn into_inner(self) -> (reference: T)
        ensures
            reference == self.0,
    {
        self.0
    }
}

impl<T> std::ops::Deref for GpuHeavy<T> {
    type Target = T;

    /// The reference.
    fn deref(&self) -> (reference: &T)
        ensures
            *reference == self.0,
    {
        &self.0
    }
}

impl<T: Copy> From<T> for GpuHeavy<T> {
    fn from(value: T) -> (heavy: Self) {
        GpuHeavy(value)
    }
}

impl<T: Copy> vstd::std_specs::convert::FromSpecImpl<T> for GpuHeavy<T> {
    open spec fn obeys_from_spec() -> bool {
        true
    }

    open spec fn from_spec(value: T) -> Self {
        GpuHeavy(value)
    }
}

/// A reference that one value stands for the absence of. An absent reference keeps its place.
pub trait GpuRef: Copy {
    /// The value that stands for no reference.
    spec fn null_value() -> Self;

    /// The value that stands for no reference.
    fn null() -> (reference: Self)
        ensures
            reference == Self::null_value(),
    ;

    /// Whether this stands for no reference.
    fn is_null(self) -> (null: bool)
        ensures
            null == (self == Self::null_value()),
    ;
}

impl GpuRef for u32 {
    open spec fn null_value() -> u32 {
        0
    }

    fn null() -> (reference: u32) {
        0
    }

    fn is_null(self) -> (null: bool) {
        self == 0
    }
}

impl GpuRef for i32 {
    open spec fn null_value() -> i32 {
        0
    }

    fn null() -> (reference: i32) {
        0
    }

    fn is_null(self) -> (null: bool) {
        self == 0
    }
}

impl GpuRef for u64 {
    open spec fn null_value() -> u64 {
        0
    }

    fn null() -> (reference: u64) {
        0
    }

    fn is_null(self) -> (null: bool) {
        self == 0
    }
}

/// Where the first lane starts.
pub const LANE_A_BASIS: u64 = 0xcbf2_9ce4_8422_2325;

/// Where the second lane starts.
pub const LANE_B_BASIS: u64 = 0x6c62_272e_07bb_0142;

/// What a lane is multiplied by at each byte.
pub const LANE_PRIME: u64 = 0x0000_0100_0000_01b3;

/// One step of a lane.
pub open spec fn lane_step(lane: u64, word: u64) -> u64 {
    (((lane ^ word) * LANE_PRIME) % 0x1_0000_0000_0000_0000) as u64
}

/// The first lane over `bytes`.
pub open spec fn lane_a(bytes: Seq<u8>) -> u64
    decreases bytes.len(),
{
    if bytes.len() == 0 {
        LANE_A_BASIS
    } else {
        lane_step(lane_a(bytes.drop_last()), bytes.last() as u64)
    }
}

/// `byte` as a word, rotated to the right by `by` places.
pub open spec fn rotated(byte: u8, by: u64) -> u64 {
    if by == 0 {
        byte as u64
    } else {
        ((byte as u64) >> by) | ((byte as u64) << ((64 - by) as u64))
    }
}

/// The second lane over `bytes`, into which each byte goes by its place.
pub open spec fn lane_b(bytes: Seq<u8>) -> u64
    decreases bytes.len(),
{
    if bytes.len() == 0 {
        LANE_B_BASIS
    } else {
        lane_step(
            lane_b(bytes.drop_last()),
            rotated(bytes.last(), ((bytes.len() - 1) % 8) as u64),
        )
    }
}

/// The identity of a list of references, given by its bytes: the two lanes side by side.
pub open spec fn content_id(bytes: Seq<u8>) -> u128 {
    (((lane_a(bytes) as u128) << 64u128) | (lane_b(bytes) as u128))
}

/// The identity of a list of references, given by its bytes.
pub fn structural_content_id(bytes: &[u8]) -> (id: HandleId)
    ensures
        id.0 == content_id(bytes@),
{
    let mut a: u64 = LANE_A_BASIS;
    let mut b: u64 = LANE_B_BASIS;
    let mut i: usize = 0;
    while i < bytes.len()
        invariant
            i <= bytes@.len(),
            a == lane_a(bytes@.take(i as int)),
            b == lane_b(bytes@.take(i as int)),
        decreases bytes@.len() - i,
    {
        let byte: u8 = bytes[i];
        let by: u64 = (i % 8) as u64;
        let word: u64 = if by == 0 {
            byte as u64
        } else {
            ((byte as u64) >> by) | ((byte as u64) << (64 - by))
        };
        a = (a ^ (byte as u64)).wrapping_mul(LANE_PRIME);
        b = (b ^ word).wrapping_mul(LANE_PRIME);
        i = i + 1;
        proof {
            let front = bytes@.take(i as int);
            assert(front.drop_last() =~= bytes@.take(i - 1));
            assert(front.last() == byte);
        }
    }
    assert(bytes@.take(i as int) =~= bytes@);
    HandleId(((a as u128) << 64u128) | (b as u128))
}

/// A step of a lane loses nothing: different lanes stay different, and so do different words.
proof fn lemma_step_is_one_to_one(a: u64, b: u64)
    requires
        (a * LANE_PRIME) % 0x1_0000_0000_0000_0000 == (b * LANE_PRIME) % 0x1_0000_0000_0000_0000,
    ensures
        a == b,
{
    lemma_undone(a);
    lemma_undone(b);
}

/// The number that undoes a multiplication by the prime.
pub const LANE_PRIME_INVERSE: u64 = 0xce965057aff6957b;

proof fn lemma_undone(a: u64)
    ensures
        (((a * LANE_PRIME) % 0x1_0000_0000_0000_0000) * LANE_PRIME_INVERSE)
            % 0x1_0000_0000_0000_0000 == a,
{
    let m = 0x1_0000_0000_0000_0000int;
    let p = LANE_PRIME as int;
    let q = LANE_PRIME_INVERSE as int;
    let x = a as int;
    lemma_mul_mod_noop_left(x * p, q, m);
    let wraps = (p * q - 1) / m;
    assert(p * q == wraps * m + 1);
    assert(x * p * q == m * (x * wraps) + x) by (nonlinear_arith)
        requires
            p * q == wraps * m + 1,
    ;
    lemma_mod_multiples_vanish(x * wraps, x, m);
    lemma_small_mod(a as nat, 0x1_0000_0000_0000_0000nat);
}

proof fn lemma_lane_a_differs(a: Seq<u8>, b: Seq<u8>, i: int)
    requires
        0 <= i < a.len(),
        a.len() == b.len(),
        a[i] != b[i],
        forall|k: int| 0 <= k < a.len() && k != i ==> a[k] == b[k],
    ensures
        lane_a(a) != lane_a(b),
    decreases a.len(),
{
    let x = lane_a(a.drop_last());
    let y = lane_a(b.drop_last());
    let u = a.last() as u64;
    let v = b.last() as u64;
    if i == a.len() - 1 {
        assert(a.drop_last() =~= b.drop_last());
        assert(x ^ u != x ^ v) by (bit_vector)
            requires
                u != v,
        ;
    } else {
        lemma_lane_a_differs(a.drop_last(), b.drop_last(), i);
        assert(x ^ u != y ^ u) by (bit_vector)
            requires
                x != y,
        ;
    }
    if lane_a(a) == lane_a(b) {
        lemma_step_is_one_to_one(x ^ u, y ^ v);
    }
}

/// Lists of references that differ in one byte only have different identities.
pub proof fn law_one_changed_byte_changes_the_id(a: Seq<u8>, b: Seq<u8>, i: int)
    requires
        0 <= i < a.len(),
        a.len() == b.len(),
        a[i] != b[i],
        forall|k: int| 0 <= k < a.len() && k != i ==> a[k] == b[k],
    ensures
        content_id(a) != content_id(b),
{
    lemma_lane_a_differs(a, b, i);
    let x = lane_a(a);
    let y = lane_a(b);
    let u = lane_b(a);
    let v = lane_b(b);
    assert((((x as u128) << 64u128) | (u as u128)) != (((y as u128) << 64u128) | (v as u128)))
        by (bit_vector)
        requires
            x != y,
    ;
}

/// The identity of a list is two lanes side by side. Each starts from its basis and takes in the bytes
/// one after the other, by the prime; the second takes each turned right by its place, over eight
/// places.
pub proof fn law_identity_is_two_lanes(bytes: Seq<u8>, byte: u8)
    ensures
        content_id(bytes) as int == lane_a(bytes) * 0x1_0000_0000_0000_0000 + lane_b(bytes),
        lane_a(seq![]) == 0xcbf29ce484222325,
        lane_a(bytes.push(byte)) as int == ((lane_a(bytes) ^ (byte as u64)) * 0x100000001b3)
            % 0x1_0000_0000_0000_0000,
        lane_b(bytes.push(byte)) as int == ((lane_b(bytes) ^ rotated(
            byte,
            (bytes.len() % 8) as u64,
        )) * 0x100000001b3) % 0x1_0000_0000_0000_0000,
{
    let a = lane_a(bytes);
    let b = lane_b(bytes);
    assert((((a as u128) << 64u128) | (b as u128)) == (a as u128) * 0x1_0000_0000_0000_0000u128 + (
    b as u128)) by (bit_vector);
    assert(bytes.push(byte).drop_last() =~= bytes);
}

} // verus!
