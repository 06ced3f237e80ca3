//! The machinery every storage class shares: the staging and spill arenas, the queue of pending
//! transitions, the byte budgets, the pending fetches, the residency tables of mirrored rows, and
//! the textures that promoted payloads are written to.
//!
//! Transitions are queued in shards by what they target, so that everything about one resource
//! stays in the order in which it was asked for. A fetch is completed once and never again.
//! `T` is the handle of a texture.
use crate::entity::ComponentId;
use crate::gpu::buffer_registry::BufferKey;
use crate::gpu::byte_arena::ByteArena;
use crate::gpu::tier::{
    ByteRange, PendingTransition, Tier, TierConfig, TierError, TierFetch, TierSelector,
};
use vstd::prelude::*;
use vstd::string::*;

verus! {

use crate::gpu::byte_arena::{
    lemma_put, lemma_take, payload_fits, payload_len, ArenaState,
};
use crate::gpu::tier::Target;
use vstd::utf8::encode_utf8;

/// Number of shards of the queue.
pub const PENDING_SHARDS: usize = 64;

/// Stands for no slot of an arena.
pub const NO_SLOT: u32 = u32::MAX;

/// Alignment of a row of texels.
pub const ROW_ALIGN: u64 = 256;

/// The residency of one row of a mirrored column.
#[derive(Debug)]
pub struct RowTier {
    pub tier: Tier,
    /// Raised whenever the row is demoted.
    pub generation: u64,
    /// The clock when the row was last asked for.
    pub last_use: u64,
    /// The rank up to which it is resident.
    pub resident_through: u32,
    /// Its ranges on the device with their ranks, in ascending order of rank.
    pub seg_ranges: Vec<(u32, ByteRange)>,
    /// Whether it has been written to the spill arena, and there to `disk_slot`.
    pub spilled: bool,
    pub disk_slot: u32,
    /// Whether anything was ever asked of the row.
    pub present: bool,
    /// The stamp of the newest transition carried out.
    pub last_seq: u64,
}

/// The residency of one row.
pub struct RowTierState {
    pub tier: Tier,
    pub generation: u64,
    pub last_use: u64,
    pub resident_through: u32,
    pub seg_ranges: Seq<(u32, ByteRange)>,
    pub spilled: bool,
    pub disk_slot: u32,
    pub present: bool,
    pub last_seq: u64,
}

impl View for RowTier {
    type V = RowTierState;

    open spec fn view(&self) -> RowTierState {
        RowTierState {
            tier: self.tier,
            generation: self.generation,
            last_use: self.last_use,
            resident_through: self.resident_through,
            seg_ranges: self.seg_ranges@,
            spilled: self.spilled,
            disk_slot: self.disk_slot,
            present: self.present,
            last_seq: self.last_seq,
        }
    }
}

impl RowTierState {
    /// How a row is of which nothing was ever asked: in RAM.
    pub open spec fn untouched() -> RowTierState {
        RowTierState {
            tier: Tier::Ram,
            generation: 0,
            last_use: 0,
            resident_through: 0,
            seg_ranges: seq![],
            spilled: false,
            disk_slot: NO_SLOT,
            present: false,
            last_seq: 0,
        }
    }
}

/// The residency of the rows of one column. A row past the end is untouched.
#[derive(Debug)]
pub struct RowTierTable {
    pub rows: Vec<RowTier>,
}

impl View for RowTierTable {
    type V = Seq<RowTierState>;

    open spec fn view(&self) -> Seq<RowTierState> {
        Seq::new(self.rows@.len(), |i: int| self.rows@[i]@)
    }
}

/// The table grown so that it has row `row`.
pub open spec fn grown(rows: Seq<RowTierState>, row: int) -> Seq<RowTierState> {
    if row >= rows.len() {
        rows + Seq::new((row + 1 - rows.len()) as nat, |i: int| RowTierState::untouched())
    } else {
        rows
    }
}

impl RowTierTable {
    /// No rows.
    pub fn new() -> (table: Self)
        ensures
            table@ == Seq::<RowTierState>::empty(),
    {
        let table = RowTierTable { rows: Vec::new() };
        assert(table@ =~= seq![]);
        table
    }

    /// Makes the table have row `row`; the rows added are untouched.
    pub fn grow_to(&mut self, row: usize)
        ensures
            final(self)@ == grown(old(self)@, row as int),
    {
        let ghost before = self@;
        while self.rows.len() <= row
            invariant
                before == old(self)@,
                self.rows@.len() >= before.len(),
                self.rows@.len() == before.len() || self.rows@.len() <= row + 1,
                self@ == before + Seq::new(
                    (self.rows@.len() - before.len()) as nat,
                    |i: int| RowTierState::untouched(),
                ),
            decreases row + 1 - self.rows@.len(),
        {
            let untouched = RowTier {
                tier: Tier::Ram,
                generation: 0,
                last_use: 0,
                resident_through: 0,
                seg_ranges: Vec::new(),
                spilled: false,
                disk_slot: NO_SLOT,
                present: false,
                last_seq: 0,
            };
            let ghost was = self@;
            assert(untouched@.seg_ranges =~= seq![]);
            assert(untouched@ == RowTierState::untouched());
            self.rows.push(untouched);
            assert(self@ =~= was.push(RowTierState::untouched()));
            assert(self@ =~= before + Seq::new(
                (self.rows@.len() - before.len()) as nat,
                |i: int| RowTierState::untouched(),
            ));
        }
        assert(self@ =~= grown(before, row as int));
    }
}

/// How far a fetch is.
#[derive(Clone, Copy, Debug)]
pub enum FetchState {
    /// The bytes have been asked for.
    Queued { target: TierSelector },
    /// They are there.
    Ready { target: TierSelector },
    /// The fetch was completed.
    Consumed,
}

/// How far a fetch is, and of what.
pub enum FetchPhase {
    Queued(Target),
    Ready(Target),
    Consumed,
}

impl View for FetchState {
    type V = FetchPhase;

    open spec fn view(&self) -> FetchPhase {
        match *self {
            FetchState::Queued { target } => FetchPhase::Queued(target@),
            FetchState::Ready { target } => FetchPhase::Ready(target@),
            FetchState::Consumed => FetchPhase::Consumed,
        }
    }
}

/// The bytes of `target` are there: what waited for them is ready.
pub open spec fn readied(phase: FetchPhase, target: Target) -> FetchPhase {
    if phase == FetchPhase::Queued(target) {
        FetchPhase::Ready(target)
    } else {
        phase
    }
}

/// `wgpu::TextureFormat`. It is carried through; what is read of it are the two names below.
#[verifier::external_type_specification]
#[verifier::external_body]
pub struct ExTextureFormat(wgpu::TextureFormat);

/// The dimensions of a block of texels of a format, as `wgpu::TextureFormat::block_dimensions`
/// gives them.
pub uninterp spec fn block_dimensions_of(format: wgpu::TextureFormat) -> (u32, u32);

/// The bytes of a block of texels of a format, all aspects together, as
/// `wgpu::TextureFormat::block_copy_size` gives them.
pub uninterp spec fn block_copy_size_of(format: wgpu::TextureFormat) -> Option<u32>;

/// `wgpu::TextureFormat::block_dimensions`. It depends on the format alone and is named, not
/// described.
#[verifier::external_body]
fn block_dimensions(format: wgpu::TextureFormat) -> (dimensions: (u32, u32))
    ensures
        dimensions == block_dimensions_of(format),
{
    format.block_dimensions()
}

/// `wgpu::TextureFormat::block_copy_size` for no particular aspect. It depends on the format alone
/// and is named, not described.
#[verifier::external_body]
fn block_copy_size(format: wgpu::TextureFormat) -> (size: Option<u32>)
    ensures
        size == block_copy_size_of(format),
{
    format.block_copy_size(None)
}

/// Promoted payloads of `source_pool` are written to a texture of this format and size. Formats
/// whose blocks are larger than a texel are refused.
#[derive(Clone, Copy, Debug)]
pub struct MaterializationSpec {
    pub source_pool: BufferKey,
    pub format: wgpu::TextureFormat,
    pub width: u32,
    pub height: u32,
}

/// The bytes of a row of texels, or why no texture is made: the format must have blocks of one
/// texel and a size, a row must be aligned, and the texture must hold a payload exactly if the
/// length of one is given.
pub open spec fn texel_row(
    dimensions: (u32, u32),
    copy_size: Option<u32>,
    width: u32,
    height: u32,
    payload: Option<u64>,
) -> Result<u64, TierError> {
    if dimensions != (1u32, 1u32) {
        Err(TierError::ReadUnsupported)
    } else {
        match copy_size {
            None => Err(TierError::ReadUnsupported),
            Some(size) => {
                let row = (size * width) as int;
                if row % 256 != 0 {
                    Err(
                        TierError::LengthMismatch {
                            expected: (row - row % 256 + 256) as u64,
                            provided: row as u64,
                        },
                    )
                } else if payload is Some && row * height != payload->0 {
                    Err(TierError::ReadUnsupported)
                } else {
                    Ok(row as u64)
                }
            },
        }
    }
}

/// The bytes of a row of texels of a texture, from what is known of its format, or why no texture is
/// made.
pub fn texel_row_bytes(
    dimensions: (u32, u32),
    copy_size: Option<u32>,
    width: u32,
    height: u32,
    payload: Option<u64>,
) -> (row: Result<u64, TierError>)
    ensures
        row == texel_row(dimensions, copy_size, width, height, payload),
{
    if dimensions.0 != 1 || dimensions.1 != 1 {
        return Err(TierError::ReadUnsupported);
    }
    let size: u32 = match copy_size {
        Some(size) => size,
        None => return Err(TierError::ReadUnsupported),
    };
    assert(size * width <= 0xffff_fffe_0000_0001) by (nonlinear_arith)
        requires
            size <= 0xffff_ffff,
            width <= 0xffff_ffff,
    ;
    assert(size * width >= 0) by (nonlinear_arith);
    let row: u64 = size as u64 * width as u64;
    if row % ROW_ALIGN != 0 {
        return Err(
            TierError::LengthMismatch {
                expected: row - row % ROW_ALIGN + ROW_ALIGN,
                provided: row,
            },
        );
    }
    assert(row * height <= 0xffff_fffe_0000_0001 * 0xffff_ffff) by (nonlinear_arith)
        requires
            row <= 0xffff_fffe_0000_0001,
            height <= 0xffff_ffff,
    ;
    let total: u128 = row as u128 * height as u128;
    match payload {
        Some(len) => {
            if total != len as u128 {
                return Err(TierError::ReadUnsupported);
            }
        },
        None => {},
    }
    Ok(row)
}

/// A texture that the payloads of a pool are written to.
#[derive(Debug)]
pub struct TextureBinding<T> {
    pub texture: T,
    pub width: u32,
    pub height: u32,
    pub bytes_per_texel_row: u64,
}

/// What the engine knows.
pub struct EngineState<T> {
    pub config: Option<TierConfig>,
    pub clock: u64,
    pub ram: ArenaState,
    pub disk: ArenaState,
    pub shards: Seq<Seq<PendingTransition>>,
    pub fetches: Seq<FetchPhase>,
    pub textures: Seq<(Seq<char>, TextureBinding<T>)>,
    pub vram_used: u64,
    pub rows: Seq<(ComponentId, Seq<RowTierState>)>,
}

/// The bytes of a name, hashed.
pub open spec fn name_hash(bytes: Seq<u8>) -> u64
    decreases bytes.len(),
{
    if bytes.len() == 0 {
        0xcbf2_9ce4_8422_2325
    } else {
        wrapping_product(name_hash(bytes.drop_last()) ^ (bytes.last() as u64), 0x100_0000_01b3)
    }
}

/// The product modulo 2^64.
pub open spec fn wrapping_product(a: u64, b: u64) -> u64 {
    ((a * b) % 0x1_0000_0000_0000_0000) as u64
}

/// The low half of an identity.
pub open spec fn low_half(id: u128) -> u64 {
    (id % 0x1_0000_0000_0000_0000) as u64
}

/// The words of a target, mixed.
pub open spec fn target_seed(target: Target) -> u64 {
    match target {
        Target::Interned { pool, id } => 0x1000u64 ^ (name_hash(encode_utf8(pool))
            ^ wrapping_product(low_half(id.0), 0x9E37_79B9_7F4A_7C15)),
        Target::PoolSlot { pool, handle } => 0x2000u64 ^ (name_hash(encode_utf8(pool))
            ^ wrapping_product(handle.offset as u64, 0xBF58_476D_1CE4_E5B9)),
        Target::Row { column, row } => 0x4000u64 ^ (wrapping_product(
            column.0 as u64,
            0x94D0_49BB_1331_11EB,
        ) ^ (row as u64)),
    }
}

/// The shard of a target.
pub open spec fn shard_of(target: Target) -> int {
    let a = target_seed(target);
    let b = a ^ (a << 13u64);
    let c = b ^ (b >> 7u64);
    let d = c ^ (c << 17u64);
    (d % 64) as int
}

/// The shards that are not empty, in order.
pub open spec fn batches_of(shards: Seq<Seq<PendingTransition>>) -> Seq<Seq<PendingTransition>>
    decreases shards.len(),
{
    if shards.len() == 0 {
        seq![]
    } else if shards.last().len() == 0 {
        batches_of(shards.drop_last())
    } else {
        batches_of(shards.drop_last()).push(shards.last())
    }
}

/// Where `column` stands among the tables; past the end if it has none.
pub open spec fn table_at(rows: Seq<(ComponentId, Seq<RowTierState>)>, column: ComponentId) -> int
    decreases rows.len(),
{
    if rows.len() == 0 {
        0
    } else if rows[0].0 == column {
        0
    } else {
        1 + table_at(rows.skip(1), column)
    }
}

proof fn lemma_table_at(rows: Seq<(ComponentId, Seq<RowTierState>)>, column: ComponentId, at: int)
    requires
        0 <= at <= rows.len(),
        forall|i: int| 0 <= i < at ==> (#[trigger] rows[i]).0 != column,
        at < rows.len() ==> rows[at].0 == column,
    ensures
        table_at(rows, column) == at,
    decreases rows.len(),
{
    if rows.len() > 0 && rows[0].0 != column {
        let rest = rows.skip(1);
        assert forall|i: int| 0 <= i < at - 1 implies (#[trigger] rest[i]).0 != column by {
            assert(rows[i + 1].0 != column);
        }
        lemma_table_at(rest, column, at - 1);
    }
}

/// The texture of a pool, if it has one.
pub open spec fn texture_of<T>(
    textures: Seq<(Seq<char>, TextureBinding<T>)>,
    pool: Seq<char>,
) -> Option<TextureBinding<T>>
    decreases textures.len(),
{
    if textures.len() == 0 {
        None
    } else if textures.last().0 == pool {
        Some(textures.last().1)
    } else {
        texture_of(textures.drop_last(), pool)
    }
}

impl<T> EngineState<T> {
    /// The engine as it is made.
    pub open spec fn initial() -> EngineState<T> {
        EngineState {
            config: None,
            clock: 1,
            ram: ArenaState::empty(),
            disk: ArenaState::empty(),
            shards: Seq::new(64, |i: int| Seq::<PendingTransition>::empty()),
            fetches: seq![],
            textures: seq![],
            vram_used: 0,
            rows: seq![],
        }
    }

    /// The arenas are consistent, and there are as many shards as there should be.
    pub open spec fn consistent(self) -> bool {
        &&& self.ram.consistent()
        &&& self.disk.consistent()
        &&& self.shards.len() == 64
    }

    /// The clock moves on.
    pub open spec fn ticked(self) -> EngineState<T> {
        EngineState {
            clock: if self.clock == u64::MAX {
                0
            } else {
                (self.clock + 1) as u64
            },
            ..self
        }
    }

    /// A transition joins the end of its target's shard.
    pub open spec fn queued(self, t: PendingTransition) -> EngineState<T> {
        let shard = shard_of(t.target@);
        EngineState {
            shards: self.shards.update(shard, self.shards[shard].push(t)),
            ..self
        }
    }

    /// All shards are empty.
    pub open spec fn drained(self) -> EngineState<T> {
        EngineState {
            shards: Seq::new(64, |i: int| Seq::<PendingTransition>::empty()),
            ..self
        }
    }

    /// How far the fetch with this ticket is; `Consumed` if there is none.
    pub open spec fn fetch(self, ticket: u64) -> FetchPhase {
        if 1 <= ticket <= self.fetches.len() {
            self.fetches[ticket - 1]
        } else {
            FetchPhase::Consumed
        }
    }

    /// The bytes of `target` are there.
    pub open spec fn fetched(self, target: Target) -> EngineState<T> {
        EngineState {
            fetches: self.fetches.map_values(|phase: FetchPhase| readied(phase, target)),
            ..self
        }
    }

    /// The staged payload goes to the spill arena.
    pub open spec fn spilled(self, slot: u32) -> EngineState<T> {
        EngineState {
            ram: self.ram.take(slot),
            disk: self.disk.put(self.ram.at(slot)->0),
            ..self
        }
    }

    /// The spilled payload comes back.
    pub open spec fn unspilled(self, slot: u32) -> EngineState<T> {
        EngineState {
            disk: self.disk.take(slot),
            ram: self.ram.put(self.disk.at(slot)->0),
            ..self
        }
    }

    /// Bytes are staged where `prev` was, if they fit there, or in a new place, `prev` being dropped.
    pub open spec fn restaged(self, prev: Option<u32>, bytes: Seq<u8>) -> EngineState<T> {
        EngineState {
            ram: match prev {
                Some(slot) => if payload_fits(self.ram.at(slot), bytes) {
                    self.ram.overwrite(slot, bytes)
                } else {
                    self.ram.take(slot).put(bytes)
                },
                None => self.ram.put(bytes),
            },
            ..self
        }
    }

    /// Where bytes are staged.
    pub open spec fn restaged_slot(self, prev: Option<u32>, bytes: Seq<u8>) -> u32 {
        match prev {
            Some(slot) => if payload_fits(self.ram.at(slot), bytes) {
                slot
            } else {
                self.ram.take(slot).next_slot()
            },
            None => self.ram.next_slot(),
        }
    }

    /// There is room to stage the bytes.
    pub open spec fn can_restage(self, prev: Option<u32>, bytes: Seq<u8>) -> bool {
        match prev {
            Some(slot) => payload_fits(self.ram.at(slot), bytes) || self.ram.take(slot).has_room(
                bytes.len() as int,
            ),
            None => self.ram.has_room(bytes.len() as int),
        }
    }
}

/// `out` after a window of `payload` from `rel` on was copied over it; `None` if the window is not
/// within the payload.
pub open spec fn windowed(payload: Option<Seq<u8>>, rel: int, len: int) -> Option<Seq<u8>> {
    match payload {
        Some(bytes) => if rel + len <= bytes.len() {
            Some(bytes.subrange(rel, rel + len))
        } else {
            None
        },
        None => None,
    }
}

fn copy_window(payload: Option<&Vec<u8>>, rel: u64, out: &mut Vec<u8>) -> (done: bool)
    ensures
        done == (windowed(
            match payload {
                Some(bytes) => Some(bytes@),
                None => None,
            },
            rel as int,
            old(out)@.len() as int,
        ) is Some),
        final(out)@ == match windowed(
            match payload {
                Some(bytes) => Some(bytes@),
                None => None,
            },
            rel as int,
            old(out)@.len() as int,
        ) {
            Some(window) => window,
            None => old(out)@,
        },
{
    let bytes = match payload {
        Some(bytes) => bytes,
        None => return false,
    };
    let ghost before = out@;
    assert(out.len() <= usize::MAX);
    if rel > bytes.len() as u64 || out.len() as u64 > bytes.len() as u64 - rel {
        return false;
    }
    let start: usize = rel as usize;
    assert(bytes.len() <= usize::MAX);
    let mut i: usize = 0;
    while i < out.len()
        invariant
            start == rel,
            before == old(out)@,
            i <= out@.len() == before.len(),
            start + before.len() <= bytes@.len() <= usize::MAX,
            out@ == bytes@.subrange(start as int, start + i) + before.skip(i as int),
        decreases out@.len() - i,
    {
        out.set(i, bytes[start + i]);
        i = i + 1;
        assert(out@ =~= bytes@.subrange(start as int, start + i) + before.skip(i as int));
    }
    assert(out@ =~= bytes@.subrange(start as int, start + before.len()));
    true
}

fn hash_name(name: &'static str) -> (hash: u64)
    ensures
        hash == name_hash(encode_utf8(name@)),
{
    let bytes = name.as_bytes();
    let mut hash: u64 = 0xcbf2_9ce4_8422_2325;
    let mut i: usize = 0;
    while i < bytes.len()
        invariant
            i <= bytes@.len(),
            hash == name_hash(bytes@.take(i as int)),
        decreases bytes@.len() - i,
    {
        hash = hash ^ (bytes[i] as u64);
        hash = hash.wrapping_mul(0x100_0000_01b3);
        i = i + 1;
        assert(bytes@.take(i as int).drop_last() =~= bytes@.take(i - 1));
        assert(bytes@.take(i as int).last() == bytes@[i - 1]);
    }
    assert(bytes@.take(i as int) =~= bytes@);
    hash
}

/// The engine.
pub struct TierEngine<T> {
    config: Option<TierConfig>,
    clock: u64,
    ram: ByteArena,
    disk: ByteArena,
    shards: Vec<Vec<PendingTransition>>,
    fetches: Vec<FetchState>,
    textures: Vec<(BufferKey, TextureBinding<T>)>,
    vram_used: u64,
    rows: Vec<(ComponentId, RowTierTable)>,
}

spec fn shard_views(shards: Seq<Vec<PendingTransition>>) -> Seq<Seq<PendingTransition>> {
    Seq::new(shards.len(), |i: int| shards[i]@)
}

spec fn fetch_views(fetches: Seq<FetchState>) -> Seq<FetchPhase> {
    Seq::new(fetches.len(), |i: int| fetches[i]@)
}

spec fn texture_views<T>(
    textures: Seq<(BufferKey, TextureBinding<T>)>,
) -> Seq<(Seq<char>, TextureBinding<T>)> {
    Seq::new(textures.len(), |i: int| (textures[i].0@, textures[i].1))
}

spec fn row_views(rows: Seq<(ComponentId, RowTierTable)>) -> Seq<(ComponentId, Seq<RowTierState>)> {
    Seq::new(rows.len(), |i: int| (rows[i].0, rows[i].1@))
}

impl<T> View for TierEngine<T> {
    type V = EngineState<T>;

    closed spec fn view(&self) -> EngineState<T> {
        EngineState {
            config: self.config,
            clock: self.clock,
            ram: self.ram@,
            disk: self.disk@,
            shards: shard_views(self.shards@),
            fetches: fetch_views(self.fetches@),
            textures: texture_views(self.textures@),
            vram_used: self.vram_used,
            rows: row_views(self.rows@),
        }
    }
}

impl<T> TierEngine<T> {
    /// The engine is sound.
    pub closed spec fn wf(&self) -> bool {
        &&& self.ram.wf()
        &&& self.disk.wf()
        &&& self.shards@.len() == 64
    }

    pub proof fn lemma_wf(&self)
        requires
            self.wf(),
        ensures
            self@.consistent(),
            0 <= self@.ram.used() <= u64::MAX,
            0 <= self@.disk.used() <= u64::MAX,
    {
        self.ram.lemma_wf();
        self.disk.lemma_wf();
    }

    /// An engine without budgets, payloads or requests.
    pub fn new() -> (engine: Self)
        ensures
            engine.wf(),
            engine@ == EngineState::<T>::initial(),
    {
        let mut shards: Vec<Vec<PendingTransition>> = Vec::new();
        let mut i: usize = 0;
        while i < PENDING_SHARDS
            invariant
                i <= 64,
                shards@.len() == i,
                forall|k: int| 0 <= k < i ==> (#[trigger] shards@[k])@.len() == 0,
            decreases 64 - i,
        {
            shards.push(Vec::new());
            i = i + 1;
        }
        let engine = TierEngine {
            config: None,
            clock: 1,
            ram: ByteArena::new(),
            disk: ByteArena::new(),
            shards,
            fetches: Vec::new(),
            textures: Vec::new(),
            vram_used: 0,
            rows: Vec::new(),
        };
        proof {
            let initial = EngineState::<T>::initial();
            assert forall|k: int| 0 <= k < 64 implies shard_views(engine.shards@)[k]
                == initial.shards[k] by {
                assert(engine.shards@[k]@.len() == 0);
                assert(engine.shards@[k]@ =~= Seq::<PendingTransition>::empty());
            }
            assert(engine@.shards =~= initial.shards);
            assert(engine@.fetches =~= initial.fetches);
            assert(engine@.textures =~= initial.textures);
            assert(engine@.rows =~= initial.rows);
        }
        engine
    }

    /// Sets the budgets. What is placed already stays.
    pub fn configure(&mut self, cfg: TierConfig)
        requires
            old(self).wf(),
        ensures
            final(self).wf(),
            final(self)@ == (EngineState { config: Some(cfg), ..old(self)@ }),
    {
        self.config = Some(cfg);
    }

    /// The budgets, once they are set.
    pub fn configured(&self) -> (cfg: Option<TierConfig>)
        ensures
            cfg == self@.config,
    {
        self.config
    }

    /// The clock, which then moves on: the moment a resource was asked for.
    pub fn stamp(&mut self) -> (now: u64)
        requires
            old(self).wf(),
        ensures
            final(self).wf(),
            final(self)@ == old(self)@.ticked(),
            now == old(self)@.clock,
    {
        let now: u64 = self.clock;
        self.clock = now.wrapping_add(1);
        now
    }

    /// The clock, which then moves on: the stamp of a request.
    pub fn tick(&mut self) -> (now: u64)
        requires
            old(self).wf(),
        ensures
            final(self).wf(),
            final(self)@ == old(self)@.ticked(),
            now == old(self)@.clock,
    {
        self.stamp()
    }

    /// Stages a payload. Returns its slot.
    pub fn stage_ram(&mut self, bytes: Vec<u8>) -> (slot: u32)
        requires
            old(self).wf(),
            old(self)@.ram.has_room(bytes@.len() as int),
        ensures
            final(self).wf(),
            final(self)@ == (EngineState { ram: old(self)@.ram.put(bytes@), ..old(self)@ }),
            slot == old(self)@.ram.next_slot(),
    {
        self.ram.put(bytes)
    }

    /// Takes a staged payload out.
    pub fn take_ram(&mut self, slot: u32) -> (bytes: Option<Vec<u8>>)
        requires
            old(self).wf(),
        ensures
            final(self).wf(),
            final(self)@ == (EngineState { ram: old(self)@.ram.take(slot), ..old(self)@ }),
            match bytes {
                Some(bytes) => old(self)@.ram.at(slot) == Some(bytes@),
                None => old(self)@.ram.at(slot) is None,
            },
    {
        self.ram.take(slot)
    }

    /// Drops a staged payload.
    pub fn discard_ram(&mut self, ram_slot: u32)
        requires
            old(self).wf(),
        ensures
            final(self).wf(),
            final(self)@ == (EngineState { ram: old(self)@.ram.take(ram_slot), ..old(self)@ }),
    {
        let _ = self.ram.discard(ram_slot);
    }

    /// Drops a spilled payload.
    pub fn discard_disk_export(&mut self, disk_slot: u32)
        requires
            old(self).wf(),
        ensures
            final(self).wf(),
            final(self)@ == (EngineState { disk: old(self)@.disk.take(disk_slot), ..old(self)@ }),
    {
        let _ = self.disk.discard(disk_slot);
    }

    /// Stages bytes. Where `prev` is a live slot whose payload is long enough, its first bytes are
    /// overwritten and it is kept; otherwise `prev` is dropped and the bytes get a slot of their own.
    pub fn restage_ram(&mut self, prev: Option<u32>, bytes: &[u8]) -> (slot: u32)
        requires
            old(self).wf(),
            old(self)@.can_restage(prev, bytes@),
        ensures
            final(self).wf(),
            final(self)@ == old(self)@.restaged(prev, bytes@),
            slot == old(self)@.restaged_slot(prev, bytes@),
    {
        match prev {
            Some(slot) => {
                if self.ram.overwrite(slot, bytes) {
                    return slot;
                }
                let _ = self.ram.discard(slot);
            },
            None => {},
        }
        let copy = vstd::slice::slice_to_vec(bytes);
        self.ram.put(copy)
    }

    /// Copies bytes of a staged payload, from `rel` on, over `out`. Whether they are all there.
    pub fn copy_ram_window(&self, slot: u32, rel: u64, out: &mut Vec<u8>) -> (done: bool)
        ensures
            done == (windowed(self@.ram.at(slot), rel as int, old(out)@.len() as int) is Some),
            final(out)@ == match windowed(
                self@.ram.at(slot),
                rel as int,
                old(out)@.len() as int,
            ) {
                Some(window) => window,
                None => old(out)@,
            },
    {
        copy_window(self.ram.slot_slice(slot), rel, out)
    }

    /// Copies bytes of a spilled payload, from `rel` on, over `out`. Whether they are all there.
    pub fn copy_disk_window(&self, slot: u32, rel: u64, out: &mut Vec<u8>) -> (done: bool)
        ensures
            done == (windowed(self@.disk.at(slot), rel as int, old(out)@.len() as int) is Some),
            final(out)@ == match windowed(
                self@.disk.at(slot),
                rel as int,
                old(out)@.len() as int,
            ) {
                Some(window) => window,
                None => old(out)@,
            },
    {
        copy_window(self.disk.slot_slice(slot), rel, out)
    }

    /// The table of `column`, made if it has none.
    pub fn row_table(&mut self, column: ComponentId) -> (table: &mut RowTierTable)
        requires
            old(self).wf(),
        ensures
            final(self).wf(),
            final(self)@.rows.len() == if table_at(old(self)@.rows, column)
                < old(self)@.rows.len() {
                old(self)@.rows.len()
            } else {
                old(self)@.rows.len() + 1
            },
            table@ == if table_at(old(self)@.rows, column) < old(self)@.rows.len() {
                old(self)@.rows[table_at(old(self)@.rows, column)].1
            } else {
                seq![]
            },
            final(self)@ == (EngineState {
                rows: if table_at(old(self)@.rows, column) < old(self)@.rows.len() {
                    old(self)@.rows.update(
                        table_at(old(self)@.rows, column),
                        (column, final(table)@),
                    )
                } else {
                    old(self)@.rows.push((column, final(table)@))
                },
                ..old(self)@
            }),
    {
        let ghost before = self@.rows;
        let ghost start = *self;
        let mut at: usize = 0;
        while at < self.rows.len() && self.rows[at].0 != column
            invariant
                *self == start,
                before == start@.rows,
                at <= self.rows@.len(),
                forall|k: int| 0 <= k < at ==> (#[trigger] before[k]).0 != column,
            decreases self.rows@.len() - at,
        {
            assert(before[at as int].0 == self.rows@[at as int].0);
            at = at + 1;
        }
        proof {
            if at < before.len() {
                assert(before[at as int].0 == self.rows@[at as int].0);
            }
            lemma_table_at(before, column, at as int);
        }
        if at == self.rows.len() {
            self.rows.push((column, RowTierTable::new()));
        }
        let ghost middle = row_views(self.rows@);
        let table = &mut self.rows[at].1;
        assert(row_views(after_borrow(*self).rows@) =~= middle.update(
            at as int,
            (column, final(table)@),
        ));
        assert(row_views(after_borrow(*self).rows@) =~= if at < before.len() {
            before.update(at as int, (column, final(table)@))
        } else {
            before.push((column, final(table)@))
        });
        table
    }

    /// The tables, with their columns.
    pub fn row_tables(&self) -> (tables: &Vec<(ComponentId, RowTierTable)>)
        ensures
            tables@.len() == self@.rows.len(),
            forall|i: int|
                0 <= i < tables@.len() ==> self@.rows[i] == (
                    (#[trigger] tables@[i]).0,
                    tables@[i].1@,
                ),
    {
        &self.rows
    }

    /// Moves a staged payload to the spill arena. Returns its slot there and its length.
    pub fn spill_ram_to_disk(&mut self, ram_slot: u32) -> (moved: (u32, u64))
        requires
            old(self).wf(),
            old(self)@.ram.at(ram_slot) is Some,
            old(self)@.disk.has_room(payload_len(old(self)@.ram.at(ram_slot))),
        ensures
            final(self).wf(),
            final(self)@ == old(self)@.spilled(ram_slot),
            moved.0 == old(self)@.disk.next_slot(),
            moved.1 == payload_len(old(self)@.ram.at(ram_slot)),
    {
        match self.ram.take(ram_slot) {
            Some(bytes) => {
                let len: u64 = bytes.len() as u64;
                (self.disk.put(bytes), len)
            },
            None => {
                assert(false);
                (NO_SLOT, 0)
            },
        }
    }

    /// Moves a spilled payload back to the staging arena. Returns its slot there and its length.
    pub fn unspill_disk_to_ram(&mut self, disk_slot: u32) -> (moved: (u32, u64))
        requires
            old(self).wf(),
            old(self)@.disk.at(disk_slot) is Some,
            old(self)@.ram.has_room(payload_len(old(self)@.disk.at(disk_slot))),
        ensures
            final(self).wf(),
            final(self)@ == old(self)@.unspilled(disk_slot),
            moved.0 == old(self)@.ram.next_slot(),
            moved.1 == payload_len(old(self)@.disk.at(disk_slot)),
    {
        match self.disk.take(disk_slot) {
            Some(bytes) => {
                let len: u64 = bytes.len() as u64;
                (self.stage_ram(bytes), len)
            },
            None => {
                assert(false);
                (NO_SLOT, 0)
            },
        }
    }

    /// Puts the bytes a row has now into the spill arena. Returns the slot and the length.
    pub fn export_row_snapshot(&mut self, bytes: Vec<u8>) -> (put: (u32, u64))
        requires
            old(self).wf(),
            old(self)@.disk.has_room(bytes@.len() as int),
        ensures
            final(self).wf(),
            final(self)@ == (EngineState { disk: old(self)@.disk.put(bytes@), ..old(self)@ }),
            put == (old(self)@.disk.next_slot(), bytes@.len() as u64),
    {
        let len: u64 = bytes.len() as u64;
        (self.disk.put(bytes), len)
    }

    /// Drops the spilled bytes of a row.
    pub fn drop_row_export(&mut self, disk_slot: u32)
        requires
            old(self).wf(),
        ensures
            final(self).wf(),
            final(self)@ == (EngineState { disk: old(self)@.disk.take(disk_slot), ..old(self)@ }),
    {
        let _ = self.disk.discard(disk_slot);
    }

    /// Accounts `bytes` more on the device, if the budget allows. Nothing is evicted.
    pub fn try_reserve_vram(&mut self, bytes: u64) -> (r: Result<(), TierError>)
        requires
            old(self).wf(),
        ensures
            final(self).wf(),
            match r {
                Ok(()) => {
                    &&& old(self)@.config matches Some(cfg)
                    &&& old(self)@.vram_used + bytes <= cfg.vram_budget_bytes
                    &&& final(self)@ == (EngineState {
                        vram_used: (old(self)@.vram_used + bytes) as u64,
                        ..old(self)@
                    })
                },
                Err(e) => {
                    &&& final(self)@ == old(self)@
                    &&& match old(self)@.config {
                        None => e == TierError::NotConfigured,
                        Some(cfg) => old(self)@.vram_used + bytes > cfg.vram_budget_bytes && e
                            == (TierError::BudgetExhausted {
                            needed: bytes,
                            budget: cfg.vram_budget_bytes,
                        }),
                    }
                },
            },
    {
        let budget: u64 = match self.config {
            Some(cfg) => cfg.vram_budget_bytes,
            None => return Err(TierError::NotConfigured),
        };
        if self.vram_used <= budget && bytes <= budget - self.vram_used {
            self.vram_used = self.vram_used + bytes;
            Ok(())
        } else {
            Err(TierError::BudgetExhausted { needed: bytes, budget })
        }
    }

    /// Accounts `bytes` fewer on the device. That many must have been reserved.
    pub fn release_vram(&mut self, bytes: u64)
        requires
            old(self).wf(),
            bytes <= old(self)@.vram_used,
        ensures
            final(self).wf(),
            final(self)@ == (EngineState {
                vram_used: (old(self)@.vram_used - bytes) as u64,
                ..old(self)@
            }),
    {
        self.vram_used = self.vram_used - bytes;
    }

    /// Bytes accounted on the device.
    pub fn vram_used(&self) -> (used: u64)
        ensures
            used == self@.vram_used,
    {
        self.vram_used
    }

    /// Bytes staged.
    pub fn ram_used(&self) -> (used: u64)
        requires
            self.wf(),
        ensures
            used == self@.ram.used(),
    {
        self.ram.used()
    }

    /// The shard of a target.
    pub fn shard_index(target: &TierSelector) -> (shard: usize)
        ensures
            shard == shard_of(target@),
            shard < 64,
    {
        let a: u64 = match *target {
            TierSelector::Interned { pool, id } => {
                let low: u64 = (id.0 % 0x1_0000_0000_0000_0000) as u64;
                0x1000u64 ^ (hash_name(pool.as_str()) ^ low.wrapping_mul(0x9E37_79B9_7F4A_7C15))
            },
            TierSelector::PoolSlot { pool, handle } => {
                0x2000u64 ^ (hash_name(pool.as_str()) ^ (handle.offset as u64).wrapping_mul(
                    0xBF58_476D_1CE4_E5B9,
                ))
            },
            TierSelector::Row { column, row } => {
                0x4000u64 ^ ((column.0 as u64).wrapping_mul(0x94D0_49BB_1331_11EB) ^ (row as u64))
            },
        };
        let b: u64 = a ^ (a << 13u64);
        let c: u64 = b ^ (b >> 7u64);
        let d: u64 = c ^ (c << 17u64);
        (d % 64) as usize
    }

    /// Queues a transition behind those of its shard.
    pub fn queue_transition(&mut self, t: PendingTransition)
        requires
            old(self).wf(),
        ensures
            final(self).wf(),
            final(self)@ == old(self)@.queued(t),
    {
        let ghost before = self@;
        let shard: usize = Self::shard_index(&t.target);
        self.shards[shard].push(t);
        assert(self@.shards =~= before.queued(t).shards);
    }

    /// Takes what is queued, shard by shard; shards with nothing queued are passed over.
    pub fn take_shard_batches(&mut self) -> (batches: Vec<Vec<PendingTransition>>)
        requires
            old(self).wf(),
        ensures
            final(self).wf(),
            final(self)@ == old(self)@.drained(),
            batches@.len() == batches_of(old(self)@.shards).len(),
            forall|i: int|
                0 <= i < batches@.len() ==> (#[trigger] batches@[i])@ == batches_of(
                    old(self)@.shards,
                )[i],
    {
        let ghost before = self@;
        let mut batches: Vec<Vec<PendingTransition>> = Vec::new();
        let mut i: usize = 0;
        while i < PENDING_SHARDS
            invariant
                before == old(self)@,
                before.shards.len() == 64,
                self.wf(),
                i <= 64,
                self@ == (EngineState { shards: self@.shards, ..before }),
                forall|k: int| 0 <= k < i ==> (#[trigger] self.shards@[k])@.len() == 0,
                forall|k: int| i <= k < 64 ==> (#[trigger] self.shards@[k])@ == before.shards[k],
                shard_views(batches@) == batches_of(before.shards.take(i as int)),
            decreases 64 - i,
        {
            proof {
                let more = before.shards.take(i + 1);
                assert(more.drop_last() =~= before.shards.take(i as int));
                assert(more.last() == before.shards[i as int]);
            }
            let mut batch: Vec<PendingTransition> = Vec::new();
            std::mem::swap(&mut batch, &mut self.shards[i]);
            assert(batch@ == before.shards[i as int]);
            if batch.len() > 0 {
                let ghost content = batch@;
                let ghost was = batches@;
                batches.push(batch);
                assert(shard_views(batches@) =~= shard_views(was).push(content));
            }
            i = i + 1;
        }
        proof {
            assert(before.shards.take(64) =~= before.shards);
            assert forall|k: int| 0 <= k < 64 implies shard_views(self.shards@)[k]
                == before.drained().shards[k] by {
                assert(self.shards@[k]@.len() == 0);
                assert(self.shards@[k]@ =~= Seq::<PendingTransition>::empty());
            }
            assert(self@.shards =~= before.drained().shards);
            assert forall|k: int| 0 <= k < batches@.len() implies (#[trigger] batches@[k])@
                == batches_of(before.shards)[k] by {
                assert(shard_views(batches@)[k] == batches@[k]@);
            }
        }
        batches
    }

    /// Opens a fetch. Tickets are numbered from one.
    pub fn open_fetch(&mut self, target: TierSelector) -> (fetch: TierFetch)
        requires
            old(self).wf(),
            old(self)@.fetches.len() < u64::MAX,
        ensures
            final(self).wf(),
            final(self)@ == (EngineState {
                fetches: old(self)@.fetches.push(FetchPhase::Queued(target@)),
                ..old(self)@
            }),
            fetch@ == old(self)@.fetches.len() + 1,
    {
        let ghost before = self@;
        let ticket: u64 = self.fetches.len() as u64 + 1;
        self.fetches.push(FetchState::Queued { target });
        assert(self@.fetches =~= before.fetches.push(FetchPhase::Queued(target@)));
        TierFetch::with_ticket(ticket)
    }

    /// Marks the fetches of a resource ready whose bytes are there now.
    pub fn mark_fetches_ready(&mut self, sel: &TierSelector)
        requires
            old(self).wf(),
        ensures
            final(self).wf(),
            final(self)@ == old(self)@.fetched(sel@),
    {
        let ghost before = self@;
        let mut i: usize = 0;
        while i < self.fetches.len()
            invariant
                before == old(self)@,
                self.wf(),
                i <= self.fetches@.len() == before.fetches.len(),
                self@ == (EngineState { fetches: self@.fetches, ..before }),
                forall|k: int|
                    0 <= k < i ==> (#[trigger] self.fetches@[k])@ == readied(
                        before.fetches[k],
                        sel@,
                    ),
                forall|k: int|
                    i <= k < before.fetches.len() ==> (#[trigger] self.fetches@[k])@
                        == before.fetches[k],
            decreases self.fetches@.len() - i,
        {
            assert(self.fetches@[i as int]@ == before.fetches[i as int]);
            match self.fetches[i] {
                FetchState::Queued { target } => {
                    if target.same(*sel) {
                        self.fetches.set(i, FetchState::Ready { target });
                    }
                },
                _ => {},
            }
            i = i + 1;
        }
        assert(self@.fetches =~= before.fetched(sel@).fetches) by {
            assert forall|k: int| 0 <= k < before.fetches.len() implies self@.fetches[k]
                == before.fetched(sel@).fetches[k] by {
                assert(self.fetches@[k]@ == readied(before.fetches[k], sel@));
            }
        }
    }

    /// Completes a fetch, once: not before its bytes are there, and never again after.
    pub fn claim_fetch(&mut self, fetch: &TierFetch) -> (r: Result<TierSelector, TierError>)
        requires
            old(self).wf(),
        ensures
            final(self).wf(),
            match r {
                Ok(target) => {
                    &&& old(self)@.fetch(fetch@) == FetchPhase::Ready(target@)
                    &&& final(self)@ == (EngineState {
                        fetches: old(self)@.fetches.update(
                            fetch@ - 1,
                            FetchPhase::Consumed,
                        ),
                        ..old(self)@
                    })
                },
                Err(e) => {
                    &&& final(self)@ == old(self)@
                    &&& match old(self)@.fetch(fetch@) {
                        FetchPhase::Queued(_) => e == TierError::NotYetReady,
                        FetchPhase::Ready(_) => false,
                        FetchPhase::Consumed => e == TierError::AlreadyCompleted,
                    }
                },
            },
    {
        let ghost before = self@;
        let ticket: u64 = fetch.ticket();
        if ticket == 0 || ticket > self.fetches.len() as u64 {
            return Err(TierError::AlreadyCompleted);
        }
        let at: usize = (ticket - 1) as usize;
        assert(before.fetches[at as int] == self.fetches@[at as int]@);
        match self.fetches[at] {
            FetchState::Queued { .. } => Err(TierError::NotYetReady),
            FetchState::Ready { target } => {
                self.fetches.set(at, FetchState::Consumed);
                assert(self@.fetches =~= before.fetches.update(at as int, FetchPhase::Consumed));
                Ok(target)
            },
            FetchState::Consumed => Err(TierError::AlreadyCompleted),
        }
    }

    /// The texture of a pool, if it has one.
    pub fn texture_binding(&self, pool: &BufferKey) -> (binding: Option<&TextureBinding<T>>)
        ensures
            match binding {
                Some(binding) => texture_of(self@.textures, pool@) == Some(*binding),
                None => texture_of(self@.textures, pool@) is None,
            },
    {
        let mut i: usize = self.textures.len();
        assert(self@.textures.take(i as int) =~= self@.textures);
        while i > 0
            invariant
                i <= self.textures@.len(),
                texture_of(self@.textures, pool@) == texture_of(
                    self@.textures.take(i as int),
                    pool@,
                ),
            decreases i,
        {
            i = i - 1;
            let ghost front = self@.textures.take(i + 1);
            assert(front.drop_last() =~= self@.textures.take(i as int));
            assert(front.last() == (self.textures@[i as int].0@, self.textures@[i as int].1));
            if self.textures[i].0.same(*pool) {
                return Some(&self.textures[i].1);
            }
        }
        assert(self@.textures.take(0).len() == 0);
        None
    }

    /// Makes a texture for the payloads of a pool, with `create`, and binds it; a texture the pool
    /// had before is no longer used. Nothing is made, and nothing changes, where the format or the
    /// size does not do.
    pub fn bind_texture<F: FnOnce(wgpu::TextureFormat, u32, u32) -> T>(
        &mut self,
        spec: &MaterializationSpec,
        max_payload_bytes: Option<u64>,
        create: F,
    ) -> (r: Result<(), TierError>)
        requires
            old(self).wf(),
            call_requires(create, (spec.format, spec.width, spec.height)),
        ensures
            final(self).wf(),
            match texel_row(
                block_dimensions_of(spec.format),
                block_copy_size_of(spec.format),
                spec.width,
                spec.height,
                max_payload_bytes,
            ) {
                Err(e) => r == Err::<(), TierError>(e) && final(self)@ == old(self)@,
                Ok(row) => {
                    &&& r is Ok
                    &&& exists|texture: T| #[trigger]
                        call_ensures(create, (spec.format, spec.width, spec.height), texture)
                            && final(self)@ == bound(
                            old(self)@,
                            spec.source_pool@,
                            texture,
                            spec.width,
                            spec.height,
                            row,
                        )
                },
            },
    {
        let ghost before = self@;
        match texel_row_bytes(
            block_dimensions(spec.format),
            block_copy_size(spec.format),
            spec.width,
            spec.height,
            max_payload_bytes,
        ) {
            Err(e) => Err(e),
            Ok(bytes_per_texel_row) => {
                let texture = create(spec.format, spec.width, spec.height);
                let binding = TextureBinding {
                    texture,
                    width: spec.width,
                    height: spec.height,
                    bytes_per_texel_row,
                };
                self.textures.push((spec.source_pool, binding));
                assert(self@.textures =~= before.textures.push((spec.source_pool@, binding)));
                Ok(())
            },
        }
    }
}

/// The engine after a texture was bound to a pool.
pub open spec fn bound<T>(
    state: EngineState<T>,
    pool: Seq<char>,
    texture: T,
    width: u32,
    height: u32,
    row: u64,
) -> EngineState<T> {
    EngineState {
        textures: state.textures.push(
            (pool, TextureBinding { texture, width, height, bytes_per_texel_row: row }),
        ),
        ..state
    }
}

/// A call that a fetch may notice. No other call of the engine touches the fetches.
pub enum FetchCall {
    Open(Target),
    MarkReady(Target),
    Claim(u64),
}

impl<T> EngineState<T> {
    /// The engine after a call.
    pub open spec fn after_fetch_call(self, call: FetchCall) -> EngineState<T> {
        match call {
            FetchCall::Open(target) => EngineState {
                fetches: self.fetches.push(FetchPhase::Queued(target)),
                ..self
            },
            FetchCall::MarkReady(target) => self.fetched(target),
            FetchCall::Claim(ticket) => if self.fetch(ticket) is Ready {
                EngineState {
                    fetches: self.fetches.update(ticket - 1, FetchPhase::Consumed),
                    ..self
                }
            } else {
                self
            },
        }
    }

    /// The engine after the first `n` calls.
    pub open spec fn after_fetch_calls(self, calls: Seq<FetchCall>, n: int) -> EngineState<T>
        decreases n,
    {
        if n <= 0 {
            self
        } else {
            self.after_fetch_calls(calls, n - 1).after_fetch_call(calls[n - 1])
        }
    }

    /// Call `i` completes the fetch with this ticket.
    pub open spec fn completes(self, calls: Seq<FetchCall>, ticket: u64, i: int) -> bool {
        calls[i] == FetchCall::Claim(ticket) && self.after_fetch_calls(calls, i).fetch(ticket) is Ready
    }
}

/// A fetch that was completed stays so, whatever is opened, marked ready and claimed after.
proof fn lemma_stays_consumed<T>(
    state: EngineState<T>,
    calls: Seq<FetchCall>,
    ticket: u64,
    i: int,
    j: int,
)
    requires
        0 <= i <= j <= calls.len(),
        1 <= ticket <= state.after_fetch_calls(calls, i).fetches.len(),
        state.after_fetch_calls(calls, i).fetch(ticket) is Consumed,
    ensures
        1 <= ticket <= state.after_fetch_calls(calls, j).fetches.len(),
        state.after_fetch_calls(calls, j).fetch(ticket) is Consumed,
    decreases j - i,
{
    if i < j {
        lemma_stays_consumed(state, calls, ticket, i, j - 1);
    }
}

/// A fetch is completed at most once, and not before its bytes are there: of all the claims of a
/// ticket, whatever is opened, marked ready and claimed in between, no two complete it, and every
/// claim after the one that does finds it completed.
pub proof fn law_fetch_completes_once<T>(
    state: EngineState<T>,
    calls: Seq<FetchCall>,
    ticket: u64,
    i: int,
    j: int,
)
    requires
        0 <= i < j < calls.len(),
        state.completes(calls, ticket, i),
    ensures
        !state.completes(calls, ticket, j),
        state.after_fetch_calls(calls, j).fetch(ticket) is Consumed,
{
    lemma_stays_consumed(state, calls, ticket, i + 1, j);
}

/// Marking a resource's fetches ready makes exactly its own queued fetches ready.
pub proof fn law_only_own_fetches_become_ready<T>(
    state: EngineState<T>,
    ticket: u64,
    target: Target,
)
    ensures
        state.fetched(target).fetch(ticket) == readied(state.fetch(ticket), target),
        state.fetches.len() == state.fetched(target).fetches.len(),
{
}

/// Spilling a payload moves it: the bytes staged and spilled together stay the same, and bringing
/// the payload back gives the same bytes.
pub proof fn law_spill_moves_bytes<T>(state: EngineState<T>, slot: u32)
    requires
        state.consistent(),
        state.ram.used() <= u64::MAX,
        state.ram.at(slot) is Some,
        state.disk.has_room(payload_len(state.ram.at(slot))),
    ensures
        ({
            let spilled = state.spilled(slot);
            let back = spilled.unspilled(state.disk.next_slot());
            &&& spilled.ram.used() + spilled.disk.used() == state.ram.used() + state.disk.used()
            &&& spilled.disk.at(state.disk.next_slot()) == state.ram.at(slot)
            &&& spilled.ram.at(slot) is None
            &&& back.ram.at(slot) == state.ram.at(slot)
            &&& back.ram.used() == state.ram.used()
            &&& back.disk.used() == state.disk.used()
        }),
{
    let bytes = state.ram.at(slot)->0;
    let spilled = state.spilled(slot);
    lemma_take(state.ram, slot);
    lemma_put(state.disk, bytes);
    lemma_take(spilled.disk, state.disk.next_slot());
    assert(spilled.ram.next_slot() == slot);
    lemma_put(spilled.ram, bytes);
}

/// What is queued for one resource is handed out in the order in which it was asked for: all of it
/// waits in one shard, behind what was there before.
pub proof fn law_requests_keep_their_order<T>(
    state: EngineState<T>,
    first: PendingTransition,
    second: PendingTransition,
)
    requires
        state.consistent(),
        first.target@ == second.target@,
    ensures
        state.queued(first).queued(second).shards[shard_of(first.target@)] == state.shards[shard_of(
            first.target@,
        )] + seq![first, second],
        forall|k: int|
            0 <= k < 64 && k != shard_of(first.target@) ==> (#[trigger] state.queued(first).queued(
                second,
            ).shards[k]) == state.shards[k],
{
    let shard = shard_of(first.target@);
    assert(0 <= shard < 64);
    assert(state.queued(first).queued(second).shards[shard] =~= state.shards[shard] + seq![
        first,
        second,
    ]);
}

/// Handing out what is queued loses nothing and invents nothing: the batches, one after the other,
/// are the shards, one after the other.
pub proof fn law_batches_hold_everything(shards: Seq<Seq<PendingTransition>>)
    ensures
        batches_of(shards).flatten_alt() == shards.flatten_alt(),
        forall|i: int|
            0 <= i < batches_of(shards).len() ==> (#[trigger] batches_of(shards)[i]).len() > 0,
    decreases shards.len(),
{
    if shards.len() > 0 {
        let front = shards.drop_last();
        law_batches_hold_everything(front);
        if shards.last().len() == 0 {
            assert(front.flatten_alt() + shards.last() =~= front.flatten_alt());
        } else {
            assert(batches_of(shards).drop_last() =~= batches_of(front));
        }
    }
}

/// A texture can be bound if and only if its texels are addressed one by one, the size of one is
/// known, a row of them is a multiple of 256 bytes, and the rows hold exactly the payload, where that is
/// limited. A row of another length is answered with the least length that would do.
pub proof fn law_texel_rows_are_aligned(
    dimensions: (u32, u32),
    copy_size: Option<u32>,
    width: u32,
    height: u32,
    payload: Option<u64>,
)
    ensures
        ({
            let row = texel_row(dimensions, copy_size, width, height, payload);
            let single = dimensions.0 == 1 && dimensions.1 == 1;
            match copy_size {
                None => row == Err::<u64, TierError>(TierError::ReadUnsupported),
                Some(size) => {
                    let bytes = size * width;
                    let aligned = bytes % 256 == 0;
                    let exact = payload matches Some(limit) ==> bytes * height == limit;
                    &&& row is Ok <==> single && aligned && exact
                    &&& row matches Ok(n) ==> n == bytes
                    &&& single && !aligned ==> (row matches Err(
                        TierError::LengthMismatch { expected, provided },
                    ) && provided == bytes && expected % 256 == 0 && bytes < expected < bytes
                        + 256)
                    &&& !single || (aligned && !exact) ==> row == Err::<u64, TierError>(
                        TierError::ReadUnsupported,
                    )
                },
            }
        }),
{
    if copy_size is Some {
        let size = copy_size->0;
        assert(0 <= size * width <= u32::MAX * u32::MAX) by (nonlinear_arith)
            requires
                0 <= size <= u32::MAX,
                0 <= width <= u32::MAX,
        ;
    }
}

/// A window of a payload is given if and only if it lies within, and holds its bytes in their place.
pub proof fn law_window_lies_within(payload: Option<Seq<u8>>, rel: int, len: int, i: int)
    requires
        0 <= rel,
        0 <= len,
    ensures
        ({
            let window = windowed(payload, rel, len);
            &&& window is Some <==> payload is Some && rel + len <= payload->0.len()
            &&& window is Some ==> window->0.len() == len
            &&& window is Some && 0 <= i < len ==> window->0[i] == payload->0[rel + i]
        }),
{
}

/// Staging a payload again puts it in front of what its slot held where that is long enough, and else
/// in a slot of its own, with the old one given up; no other slot is touched.
pub proof fn law_restaged_payload_is_there<T>(
    state: EngineState<T>,
    prev: Option<u32>,
    bytes: Seq<u8>,
    other: u32,
)
    requires
        state.consistent(),
        state.can_restage(prev, bytes),
        Some(other) != prev,
        other != state.restaged_slot(prev, bytes),
    ensures
        ({
            let after = state.restaged(prev, bytes);
            let slot = state.restaged_slot(prev, bytes);
            let fits = prev is Some && state.ram.at(prev->0) is Some && state.ram.at(
                prev->0,
            )->0.len() >= bytes.len();
            &&& after.ram.at(slot) is Some
            &&& after.ram.at(slot)->0.len() >= bytes.len()
            &&& after.ram.at(slot)->0.take(bytes.len() as int) == bytes
            &&& fits ==> slot == prev->0 && after.ram.at(slot)->0.len() == state.ram.at(
                slot,
            )->0.len()
            &&& !fits ==> after.ram.at(slot)->0.len() == bytes.len()
            &&& !fits && prev is Some && slot != prev->0 ==> after.ram.at(prev->0) is None
            &&& after.ram.at(other) == state.ram.at(other)
            &&& after == (EngineState { ram: after.ram, ..state })
        }),
{
    let after = state.restaged(prev, bytes);
    let slot = state.restaged_slot(prev, bytes);
    if prev is Some {
        crate::gpu::byte_arena::lemma_take(state.ram, prev->0);
        if payload_fits(state.ram.at(prev->0), bytes) {
        } else {
            let taken = state.ram.take(prev->0);
            crate::gpu::byte_arena::lemma_put(taken, bytes);
            crate::gpu::byte_arena::law_other_payloads_stay(taken, bytes, 0, other);
            crate::gpu::byte_arena::law_other_payloads_stay(taken, bytes, 0, prev->0);
        }
    } else {
        crate::gpu::byte_arena::lemma_put(state.ram, bytes);
        crate::gpu::byte_arena::law_other_payloads_stay(state.ram, bytes, 0, other);
    }
    assert(after.ram.at(slot)->0.take(bytes.len() as int) =~= bytes);
}

/// The table of a column with room for a row keeps the rows it had; the new ones are untouched, in
/// system memory and not present.
pub proof fn law_grown_table_keeps_its_rows(rows: Seq<RowTierState>, row: int, i: int)
    requires
        0 <= row,
    ensures
        ({
            let after = grown(rows, row);
            &&& after.len() > row
            &&& after.len() == rows.len() || after.len() == row + 1
            &&& 0 <= i < rows.len() ==> after[i] == rows[i]
            &&& rows.len() <= i < after.len() ==> {
                &&& after[i].tier == Tier::Ram
                &&& !after[i].present
                &&& !after[i].spilled
                &&& after[i].generation == 0
                &&& after[i].seg_ranges.len() == 0
            }
        }),
{
}

/// The table of a column is the first that is kept for it, and a new one is made only where there is
/// none.
pub proof fn law_column_has_its_first_table(
    rows: Seq<(ComponentId, Seq<RowTierState>)>,
    column: ComponentId,
    i: int,
)
    ensures
        0 <= table_at(rows, column) <= rows.len(),
        table_at(rows, column) < rows.len() ==> rows[table_at(rows, column)].0 == column,
        0 <= i < table_at(rows, column) ==> rows[i].0 != column,
    decreases rows.len(),
{
    if rows.len() > 0 && rows[0].0 != column {
        law_column_has_its_first_table(rows.skip(1), column, i - 1);
        if i > 0 && i < rows.len() {
            assert(rows.skip(1)[i - 1] == rows[i]);
        }
    }
}

/// A texture that is bound for a pool is the one found for it from then on; other pools keep theirs.
pub proof fn law_last_texture_counts<T>(
    state: EngineState<T>,
    pool: Seq<char>,
    texture: T,
    width: u32,
    height: u32,
    row: u64,
    other: Seq<char>,
)
    ensures
        ({
            let after = bound(state, pool, texture, width, height, row);
            &&& texture_of(after.textures, pool) == Some(
                TextureBinding { texture, width, height, bytes_per_texel_row: row },
            )
            &&& other != pool ==> texture_of(after.textures, other) == texture_of(
                state.textures,
                other,
            )
            &&& texture_of(Seq::<(Seq<char>, TextureBinding<T>)>::empty(), other) is None
        }),
{
    let after = bound(state, pool, texture, width, height, row);
    assert(after.textures.drop_last() =~= state.textures);
}

/// A fetch goes from queued to ready when its target is there, and from ready to consumed when it is
/// claimed; it changes at no other time.
pub proof fn law_fetch_goes_one_way<T>(
    state: EngineState<T>,
    ticket: u64,
    target: Target,
    other: Target,
)
    requires
        1 <= ticket <= state.fetches.len(),
        other != target,
    ensures
        state.fetch(ticket) == FetchPhase::Queued(target) ==> state.fetched(target).fetch(ticket)
            == FetchPhase::Ready(target),
        state.fetch(ticket) == FetchPhase::Queued(other) ==> state.fetched(target).fetch(ticket)
            == FetchPhase::Queued(other),
        state.fetch(ticket) !is Queued ==> state.fetched(target).fetch(ticket) == state.fetch(
            ticket,
        ),
        state.fetched(target) == (EngineState { fetches: state.fetched(target).fetches, ..state }),
{
}

/// The clock counts one for each reading, and starts over past its greatest value; a new engine has
/// nothing queued.
pub proof fn law_clock_counts_readings<T>(state: EngineState<T>, k: int)
    ensures
        state.ticked().clock == (state.clock + 1) % 0x1_0000_0000_0000_0000,
        state.ticked() == (EngineState { clock: state.ticked().clock, ..state }),
        0 <= k < 64 ==> EngineState::<T>::initial().shards[k].len() == 0
            && state.drained().shards[k].len() == 0,
        state.drained() == (EngineState { shards: state.drained().shards, ..state }),
{
}

/// A request is queued last in the shard of its target, whatever the other shards hold, and a target
/// always has the same shard.
pub proof fn law_request_is_queued_in_its_shard<T>(
    state: EngineState<T>,
    request: PendingTransition,
    k: int,
)
    requires
        state.consistent(),
        0 <= k < 64,
    ensures
        0 <= shard_of(request.target@) < 64,
        state.queued(request).shards.len() == 64,
        state.queued(request).shards[k] == if k == shard_of(request.target@) {
            state.shards[k].push(request)
        } else {
            state.shards[k]
        },
        state.queued(request) == (EngineState { shards: state.queued(request).shards, ..state }),
{
}

/// The hash of a name is taken over its bytes one after the other, so that a longer name goes on from
/// what a shorter one came to.
pub proof fn law_hash_goes_on_byte_by_byte(bytes: Seq<u8>, byte: u8)
    ensures
        name_hash(seq![]) == 0xcbf29ce484222325,
        name_hash(bytes.push(byte)) as int == ((name_hash(bytes) ^ (byte as u64)) * 0x100000001b3)
            % 0x1_0000_0000_0000_0000,
{
    assert(bytes.push(byte).drop_last() =~= bytes);
}

/// The shard of a target is the low six bits of its seed after three mixing steps. The seed takes in
/// what tells the target from others of its kind, and a bit of its own for each kind.
pub proof fn law_shard_mixes_what_tells_targets_apart(
    pool: Seq<char>,
    id: crate::handle_ledger::HandleId,
    handle: crate::gpu::var_len_pool::VarLenHandle,
    column: ComponentId,
    row: u32,
    target: Target,
)
    ensures
        ({
            let wrap = 0x1_0000_0000_0000_0000int;
            let a = target_seed(target);
            let b = a ^ (a << 13u64);
            let c = b ^ (b >> 7u64);
            let d = c ^ (c << 17u64);
            let name = name_hash(encode_utf8(pool));
            let by_id = (((id.0 as int % wrap) * 0x9E37_79B9_7F4A_7C15) % wrap) as u64;
            let by_offset = ((handle.offset * 0xBF58_476D_1CE4_E5B9) % wrap) as u64;
            let by_column = ((column.0 * 0x94D0_49BB_1331_11EB) % wrap) as u64;
            &&& shard_of(target) == d as int % 64
            &&& target_seed(Target::Interned { pool, id }) == 0x1000u64 ^ (name ^ by_id)
            &&& target_seed(Target::PoolSlot { pool, handle }) == 0x2000u64 ^ (name ^ by_offset)
            &&& target_seed(Target::Row { column, row }) == 0x4000u64 ^ (by_column ^ (row as u64))
        }),
{
}

} // verus!
