//! Content-addressed, reference-counted sharing of variable-length rows.
//!
//! Rows whose payload has an identity share one allocation per identity; the first writer's bytes
//! stay, and the last reference to go gives the space back at once. A row without an identity gets
//! a private allocation of its own.
use crate::gpu::dynamic_buffer::Upload;
use crate::gpu::var_len_pool::{VarLenGpuPool, VarLenHandle};
use crate::handle_ledger::HandleId;
use std::collections::{HashMap, HashSet};
use std::hash::{Hash, Hasher};
use vstd::prelude::*;

verus! {

use crate::gpu::var_len_pool::{upload_of, PoolState};
use crate::handle_ledger::occurrences;

broadcast use vstd::std_specs::hash::group_hash_axioms;

/// One shared allocation: where it lies, how many rows refer to it, and a fingerprint of the bytes
/// its first writer brought.
#[derive(Clone, Copy, Debug, PartialEq, Eq, Structural)]
pub struct InternEntry {
    pub range: VarLenHandle,
    pub refcount: u64,
    pub fingerprint: u64,
}

/// What a row write asks of the device, and what it reports.
#[derive(Debug)]
pub struct InternWrite {
    /// Where the row's payload lies.
    pub handle: VarLenHandle,
    /// The new capacity, if the buffer must be replaced by a larger one that keeps its contents.
    pub grown_to: Option<u32>,
    /// The bytes to write, if any.
    pub upload: Option<Upload>,
    /// The identity was already taken by other bytes, and this is the first such report for it.
    pub collision: bool,
}

/// Who holds an allocation: an identity, or a row privately.
pub enum Owner {
    Shared(u128),
    Row(int),
}

/// What an interned pool holds.
#[verifier::ext_equal]
pub struct InternState {
    pub pool: PoolState,
    pub entries: Map<u128, InternEntry>,
    /// The identity each row refers to; zero for none.
    pub ids: Seq<HandleId>,
    /// The private allocation of each row that refers to no identity.
    pub privates: Seq<VarLenHandle>,
    /// The identities for which a collision was reported.
    pub warned: Set<u128>,
}

/// The sequence with `value` at `row`, extended by `filler` as far as that takes.
pub open spec fn with_row<A>(rows: Seq<A>, row: int, value: A, filler: A) -> Seq<A> {
    Seq::new(
        if row < rows.len() {
            rows.len()
        } else {
            (row + 1) as nat
        },
        |i: int|
            if i == row {
                value
            } else if i < rows.len() {
                rows[i]
            } else {
                filler
            },
    )
}

/// No allocation.
pub open spec fn no_range() -> VarLenHandle {
    VarLenHandle { offset: 0, count: 0 }
}

impl InternState {
    pub open spec fn id_at_row(self, row: int) -> HandleId {
        if row < self.ids.len() {
            self.ids[row]
        } else {
            HandleId(0)
        }
    }

    pub open spec fn private_at_row(self, row: int) -> VarLenHandle {
        if row < self.privates.len() {
            self.privates[row]
        } else {
            no_range()
        }
    }

    /// How many rows refer to `id`.
    pub open spec fn references(self, id: u128) -> nat {
        occurrences(self.ids, HandleId(id), self.ids.len())
    }

    pub open spec fn owns(self, owner: Owner) -> bool {
        match owner {
            Owner::Shared(id) => self.entries.contains_key(id),
            Owner::Row(row) => 0 <= row < self.privates.len(),
        }
    }

    pub open spec fn range_of(self, owner: Owner) -> VarLenHandle {
        match owner {
            Owner::Shared(id) => self.entries[id].range,
            Owner::Row(row) => self.privates[row],
        }
    }

    /// Every allocation is held by the pool, and no two of them overlap.
    pub open spec fn storage_ok(self) -> bool {
        &&& self.pool.consistent()
        &&& self.ids.len() == self.privates.len()
        &&& self.ids.len() <= u32::MAX + 1
        &&& forall|o: Owner| #[trigger] self.owns(o) ==> self.pool.holds(self.range_of(o))
        &&& forall|a: Owner, b: Owner|
            a != b && #[trigger] self.owns(a) && #[trigger] self.owns(b) ==> self.pool.apart(
                self.range_of(a),
                self.range_of(b),
            )
    }

    /// An identity is resident exactly while a row refers to it, and its count is the number of
    /// those rows.
    pub open spec fn counted(self) -> bool {
        &&& forall|id: u128| #[trigger]
            self.entries.contains_key(id) ==> id != 0 && self.entries[id].refcount
                == self.references(id) && self.references(id) > 0
        &&& forall|row: int|
            0 <= row < self.ids.len() && (#[trigger] self.ids[row]).0 != 0
                ==> self.entries.contains_key(self.ids[row].0) && self.privates[row] == no_range()
    }

    pub open spec fn consistent(self) -> bool {
        &&& self.storage_ok()
        &&& self.counted()
    }

    /// The state with row `row` referring to `id`, or to a private allocation.
    pub open spec fn with_row(self, row: int, id: HandleId, private: VarLenHandle) -> InternState {
        InternState {
            ids: with_row(self.ids, row, id, HandleId(0)),
            privates: with_row(self.privates, row, private, no_range()),
            ..self
        }
    }

    /// One reference fewer to `id`; the last one gives its space back.
    pub open spec fn decref(self, id: u128) -> InternState {
        if !self.entries.contains_key(id) {
            self
        } else if self.entries[id].refcount <= 1 {
            InternState {
                pool: self.pool.after_free(self.entries[id].range),
                entries: self.entries.remove(id),
                ..self
            }
        } else {
            InternState {
                entries: self.entries.insert(
                    id,
                    InternEntry {
                        refcount: (self.entries[id].refcount - 1) as u64,
                        ..self.entries[id]
                    },
                ),
                ..self
            }
        }
    }

    /// The state after `row` lets go of what it holds.
    pub open spec fn released(self, row: int) -> InternState {
        let id = self.id_at_row(row);
        let vacated = if id.0 == 0 {
            InternState { pool: self.pool.after_free(self.private_at_row(row)), ..self }
        } else {
            self.decref(id.0)
        };
        if row < self.ids.len() {
            vacated.with_row(row, HandleId(0), no_range())
        } else {
            vacated
        }
    }

    /// The state in which `row` writes: what an identity change lets go of is gone.
    pub open spec fn before_write(self, row: int, new_id: HandleId) -> InternState {
        if new_id.0 == 0 && self.id_at_row(row).0 == 0 {
            self
        } else {
            self.released(row)
        }
    }

    /// Whether `row` already refers to `new_id`.
    pub open spec fn unchanged(self, row: int, new_id: HandleId) -> bool {
        new_id.0 != 0 && self.id_at_row(row) == new_id
    }

    /// Whether writing `row` takes new space of the pool.
    pub open spec fn allocates(self, row: int, new_id: HandleId) -> bool {
        !self.unchanged(row, new_id) && (new_id.0 == 0 || !self.before_write(
            row,
            new_id,
        ).entries.contains_key(new_id.0))
    }

    /// The pool `row` allocates from, once its own private space is given back.
    pub open spec fn pool_for(self, row: int, new_id: HandleId) -> PoolState {
        let ready = self.before_write(row, new_id);
        ready.pool.after_free(ready.private_at_row(row))
    }

    /// Whether writing `row` asks for more space than the device can hold.
    pub open spec fn refused(self, row: int, new_id: HandleId, count: u32) -> bool {
        self.allocates(row, new_id) && self.pool_for(row, new_id).refuses(count)
    }

    /// Where `row`'s payload lies after the write.
    pub open spec fn handle_after(self, row: int, new_id: HandleId, count: u32) -> VarLenHandle {
        if self.unchanged(row, new_id) {
            self.entries[new_id.0].range
        } else if self.allocates(row, new_id) {
            self.pool_for(row, new_id).handle_for(count)
        } else {
            self.before_write(row, new_id).entries[new_id.0].range
        }
    }

    /// Whether the identity is taken by other bytes, as far as fingerprints tell.
    pub open spec fn collides(self, row: int, new_id: HandleId, fingerprint: u64) -> bool {
        let ready = self.before_write(row, new_id);
        &&& !self.unchanged(row, new_id)
        &&& !self.allocates(row, new_id)
        &&& ready.entries[new_id.0].fingerprint != fingerprint
    }

    /// The state after `row` is written with `count` elements under `new_id`.
    pub open spec fn upserted(
        self,
        row: int,
        new_id: HandleId,
        count: u32,
        fingerprint: u64,
    ) -> InternState {
        let ready = self.before_write(row, new_id);
        let handle = self.handle_after(row, new_id, count);
        if self.unchanged(row, new_id) {
            self
        } else if new_id.0 == 0 {
            InternState {
                pool: ready.pool.after_write(ready.private_at_row(row), count),
                ..ready
            }.with_row(row, HandleId(0), handle)
        } else if self.allocates(row, new_id) {
            InternState {
                pool: ready.pool.after_write(no_range(), count),
                entries: ready.entries.insert(
                    new_id.0,
                    InternEntry { range: handle, refcount: 1, fingerprint },
                ),
                ..ready
            }.with_row(row, new_id, no_range())
        } else {
            InternState {
                entries: ready.entries.insert(
                    new_id.0,
                    InternEntry {
                        refcount: (ready.entries[new_id.0].refcount + 1) as u64,
                        ..ready.entries[new_id.0]
                    },
                ),
                warned: if self.collides(row, new_id, fingerprint) {
                    ready.warned.insert(new_id.0)
                } else {
                    ready.warned
                },
                ..ready
            }.with_row(row, new_id, no_range())
        }
    }
}

/// `ahash::AHasher::default`, then the hash of a byte slice: equal bytes hash alike within one
/// process. The keys are drawn when the first hasher of a process is made, so nothing is claimed
/// of the value, not even that it depends on the bytes alone.
#[verifier::external_body]
fn fingerprint(data: &[u8]) -> (hash: u64) {
    let mut hasher = ahash::AHasher::default();
    data.hash(&mut hasher);
    hasher.finish()
}

/// Content-addressed layer over a [`VarLenGpuPool`].
pub struct InternedVarLenPool {
    pool: VarLenGpuPool,
    entries: HashMap<u128, InternEntry>,
    id_by_row: Vec<HandleId>,
    private_by_row: Vec<VarLenHandle>,
    warned_collision: HashSet<u128>,
}

impl View for InternedVarLenPool {
    type V = InternState;

    closed spec fn view(&self) -> InternState {
        InternState {
            pool: self.pool@,
            entries: self.entries@,
            ids: self.id_by_row@,
            privates: self.private_by_row@,
            warned: self.warned_collision@,
        }
    }
}

impl InternedVarLenPool {
    /// The invariant every operation keeps.
    pub closed spec fn wf(&self) -> bool {
        &&& self@.consistent()
        &&& self.pool.wf()
    }

    /// The invariant gives a consistent state.
    pub proof fn lemma_wf(&self)
        requires
            self.wf(),
        ensures
            self@.consistent(),
    {
    }

    /// No row written yet.
    pub fn new(pool: VarLenGpuPool) -> (interned: Self)
        requires
            pool.wf(),
        ensures
            interned.wf(),
            interned@ == (InternState {
                pool: pool@,
                entries: Map::empty(),
                ids: seq![],
                privates: seq![],
                warned: Set::empty(),
            }),
    {
        proof {
            pool.lemma_wf();
        }
        InternedVarLenPool {
            pool,
            entries: HashMap::new(),
            id_by_row: Vec::new(),
            private_by_row: Vec::new(),
            warned_collision: HashSet::new(),
        }
    }

    /// The underlying pool.
    pub fn underlying(&self) -> (pool: &VarLenGpuPool)
        requires
            self.wf(),
        ensures
            pool@ == self@.pool,
            pool.wf(),
    {
        &self.pool
    }

    fn id_at_row(&self, row: usize) -> (id: HandleId)
        ensures
            id == self@.id_at_row(row as int),
    {
        if row < self.id_by_row.len() {
            self.id_by_row[row]
        } else {
            HandleId(0)
        }
    }

    fn private_at_row(&self, row: usize) -> (handle: VarLenHandle)
        ensures
            handle == self@.private_at_row(row as int),
    {
        if row < self.private_by_row.len() {
            self.private_by_row[row]
        } else {
            VarLenHandle { offset: 0, count: 0 }
        }
    }

    /// Sets what `row` holds, extending both tables together.
    fn set_row(&mut self, row: usize, id: HandleId, private: VarLenHandle)
        requires
            old(self)@.ids.len() == old(self)@.privates.len(),
            row < usize::MAX,
        ensures
            final(self)@ == old(self)@.with_row(row as int, id, private),
            final(self).pool == old(self).pool,
    {
        let ghost target: nat = with_row(self.id_by_row@, row as int, id, HandleId(0)).len();
        while self.id_by_row.len() <= row
            invariant
                self.id_by_row@.len() == self.private_by_row@.len(),
                old(self).id_by_row@.len() <= self.id_by_row@.len() <= target,
                old(self).id_by_row@.len() == old(self).private_by_row@.len(),
                target == if row < old(self).id_by_row@.len() {
                    old(self).id_by_row@.len()
                } else {
                    (row + 1) as nat
                },
                self.pool == old(self).pool,
                self.entries == old(self).entries,
                self.warned_collision == old(self).warned_collision,
                row < usize::MAX,
                forall|i: int|
                    0 <= i < self.id_by_row@.len() ==> self.id_by_row@[i] == (if i
                        < old(self).id_by_row@.len() {
                        old(self).id_by_row@[i]
                    } else {
                        HandleId(0)
                    }),
                forall|i: int|
                    0 <= i < self.id_by_row@.len() ==> self.private_by_row@[i] == (if i
                        < old(self).id_by_row@.len() {
                        old(self).private_by_row@[i]
                    } else {
                        no_range()
                    }),
            decreases row + 1 - self.id_by_row@.len(),
        {
            self.id_by_row.push(HandleId(0));
            self.private_by_row.push(VarLenHandle { offset: 0, count: 0 });
        }
        self.id_by_row.set(row, id);
        self.private_by_row.set(row, private);
        assert(self@ =~= old(self)@.with_row(row as int, id, private));
    }

    /// One reference fewer to `id`; the last one gives its space back.
    fn decref(&mut self, id: HandleId)
        requires
            old(self)@.storage_ok(),
            old(self).pool.wf(),
        ensures
            final(self)@ == old(self)@.decref(id.0),
            final(self)@.storage_ok(),
            final(self).pool.wf(),
    {
        proof {
            lemma_decref_storage(self@, id.0);
        }
        let entry: InternEntry = match self.entries.get(&id.0) {
            Some(entry) => *entry,
            None => return ,
        };
        if entry.refcount <= 1 {
            assert(self@.owns(Owner::Shared(id.0)));
            assert(self@.pool.holds(self@.range_of(Owner::Shared(id.0))));
            self.entries.remove(&id.0);
            self.pool.free_handle(entry.range);
        } else {
            let fewer = InternEntry {
                range: entry.range,
                refcount: entry.refcount - 1,
                fingerprint: entry.fingerprint,
            };
            self.entries.insert(id.0, fewer);
        }
        assert(self@ =~= old(self)@.decref(id.0));
    }

    /// Releases whatever `row` holds. A row that was never written is a no-op.
    pub fn release_row(&mut self, row: u32)
        requires
            old(self).wf(),
        ensures
            final(self).wf(),
            final(self)@ == old(self)@.released(row as int),
    {
        let at: usize = row as usize;
        proof {
            lemma_released(self@, row as int);
        }
        let id: HandleId = self.id_at_row(at);
        if id.is_zero() {
            let private: VarLenHandle = self.private_at_row(at);
            proof {
                if row < self@.ids.len() {
                    assert(self@.owns(Owner::Row(row as int)));
                    assert(self@.pool.holds(self@.range_of(Owner::Row(row as int))));
                }
            }
            self.pool.free_handle(private);
        } else {
            self.decref(id);
        }
        if at < self.id_by_row.len() {
            self.set_row(at, HandleId(0), VarLenHandle { offset: 0, count: 0 });
        }
        assert(self@ =~= old(self)@.released(row as int));
    }

    /// Writes `row`'s payload under the identity `new_id`, given the fingerprint of `data`.
    ///
    /// Without an identity the payload gets a private allocation. An unchanged identity is a
    /// no-op. Otherwise the row lets go of what it held and then refers to the identity's
    /// allocation, which its first writer made; later writers upload nothing.
    pub fn upsert_row_with(
        &mut self,
        row: u32,
        new_id: HandleId,
        data: &[u8],
        fingerprint: u64,
    ) -> (w: InternWrite)
        requires
            old(self).wf(),
            row < usize::MAX,
            data@.len() as int % old(self)@.pool.buffer.elem_size as int == 0,
            old(self)@.allocates(row as int, new_id) ==> data@.len() as int / old(
                self,
            )@.pool.buffer.elem_size as int <= u32::MAX,
            !old(self)@.refused(
                row as int,
                new_id,
                (data@.len() as int / old(self)@.pool.buffer.elem_size as int) as u32,
            ),
        ensures
            final(self).wf(),
            ({
                let count = (data@.len() as int / old(self)@.pool.buffer.elem_size as int) as u32;
                &&& final(self)@ == old(self)@.upserted(row as int, new_id, count, fingerprint)
                &&& w.handle == old(self)@.handle_after(row as int, new_id, count)
                &&& w.collision == (old(self)@.collides(row as int, new_id, fingerprint)
                    && !old(self)@.warned.contains(new_id.0))
                &&& old(self)@.allocates(row as int, new_id) ==> {
                    &&& upload_of(w.upload, final(self)@.pool, w.handle, data@)
                    &&& w.grown_to == if old(self)@.pool_for(row as int, new_id).must_grow(count) {
                        Some(final(self)@.pool.buffer.capacity)
                    } else {
                        None
                    }
                }
                &&& !old(self)@.allocates(row as int, new_id) ==> w.upload is None
                    && w.grown_to is None
            }),
    {
        let at: usize = row as usize;
        let ghost r = row as int;
        let ghost start = self@;
        let ghost count = (data@.len() as int / self@.pool.buffer.elem_size as int) as u32;
        proof {
            lemma_released(start, r);
            lemma_private(start, r);
            assert(start.before_write(r, new_id).pool.buffer == start.pool.buffer);
        }
        let old_id: HandleId = self.id_at_row(at);
        if new_id.is_zero() {
            if !old_id.is_zero() {
                self.release_row(row);
            }
            let ghost ready = self@;
            assert(ready == start.before_write(r, new_id));
            let private: VarLenHandle = self.private_at_row(at);
            proof {
                lemma_private(ready, r);
            }
            let w = match self.pool.write_var_row(private, data) {
                Ok(w) => w,
                Err(_) => {
                    assert(false);
                    return InternWrite {
                        handle: private,
                        grown_to: None,
                        upload: None,
                        collision: false,
                    };
                },
            };
            let handle = w.handle;
            let ghost mid = self@;
            self.set_row(at, HandleId(0), handle);
            proof {
                assert(mid =~= InternState { pool: mid.pool, ..ready });
                self.pool.lemma_wf();
                lemma_rewrite_private(ready, mid.pool, r, private, handle);
                assert(self@ =~= start.upserted(r, new_id, count, fingerprint));
            }
            return InternWrite {
                handle,
                grown_to: w.grown_to,
                upload: w.upload,
                collision: false,
            };
        }
        if old_id == new_id {
            proof {
                assert(start.ids[r].0 != 0);
                assert(start.entries.contains_key(start.ids[r].0));
            }
            let handle: VarLenHandle = match self.entries.get(&new_id.0) {
                Some(entry) => entry.range,
                None => {
                    assert(false);
                    VarLenHandle { offset: 0, count: 0 }
                },
            };
            return InternWrite { handle, grown_to: None, upload: None, collision: false };
        }
        self.release_row(row);
        let ghost ready = self@;
        assert(ready == start.before_write(r, new_id));
        proof {
            lemma_private(ready, r);
        }
        let existing: Option<InternEntry> = match self.entries.get(&new_id.0) {
            Some(entry) => Some(*entry),
            None => None,
        };
        match existing {
            Some(entry) => {
                proof {
                    lemma_reference_bound(ready.ids, HandleId(new_id.0), ready.ids.len());
                    assert(entry.refcount == ready.references(new_id.0));
                }
                let mismatch: bool = entry.fingerprint != fingerprint;
                let more = InternEntry {
                    range: entry.range,
                    refcount: entry.refcount + 1,
                    fingerprint: entry.fingerprint,
                };
                self.entries.insert(new_id.0, more);
                let collision: bool = if mismatch {
                    self.warned_collision.insert(new_id.0)
                } else {
                    false
                };
                self.set_row(at, new_id, VarLenHandle { offset: 0, count: 0 });
                proof {
                    lemma_link(ready, r, new_id.0, more, ready.pool);
                    assert(self@ =~= start.upserted(r, new_id, count, fingerprint));
                    lemma_warned_irrelevant(
                        InternState {
                            entries: ready.entries.insert(new_id.0, more),
                            ..ready
                        }.with_row(r, new_id, no_range()),
                        self@,
                    );
                }
                InternWrite { handle: entry.range, grown_to: None, upload: None, collision }
            },
            None => {
                let none = VarLenHandle { offset: 0, count: 0 };
                proof {
                    assert(ready.pool.after_free(none) == ready.pool);
                }
                let w = match self.pool.write_var_row(none, data) {
                    Ok(w) => w,
                    Err(_) => {
                        assert(false);
                        return InternWrite {
                            handle: none,
                            grown_to: None,
                            upload: None,
                            collision: false,
                        };
                    },
                };
                let handle = w.handle;
                let ghost grown = self.pool@;
                let entry = InternEntry { range: handle, refcount: 1, fingerprint };
                self.entries.insert(new_id.0, entry);
                self.set_row(at, new_id, none);
                proof {
                    self.pool.lemma_wf();
                    assert forall|o: Owner| #[trigger] ready.owns(o) implies grown.holds(
                        ready.range_of(o),
                    ) && grown.apart(ready.range_of(o), handle) by {
                        assert(ready.pool.holds(ready.range_of(o)));
                    }
                    lemma_no_references(ready, new_id.0);
                    lemma_link(ready, r, new_id.0, entry, grown);
                    assert(self@ =~= start.upserted(r, new_id, count, fingerprint));
                }
                InternWrite {
                    handle,
                    grown_to: w.grown_to,
                    upload: w.upload,
                    collision: false,
                }
            },
        }
    }

    /// Writes `row`'s payload under the identity `new_id`. Whatever the fingerprint of `data`
    /// turns out to be, it decides nothing but what is remembered of the first writer and whether
    /// a collision is reported.
    pub fn upsert_row(&mut self, row: u32, new_id: HandleId, data: &[u8]) -> (w: InternWrite)
        requires
            old(self).wf(),
            row < usize::MAX,
            data@.len() as int % old(self)@.pool.buffer.elem_size as int == 0,
            old(self)@.allocates(row as int, new_id) ==> data@.len() as int / old(
                self,
            )@.pool.buffer.elem_size as int <= u32::MAX,
            !old(self)@.refused(
                row as int,
                new_id,
                (data@.len() as int / old(self)@.pool.buffer.elem_size as int) as u32,
            ),
        ensures
            final(self).wf(),
            ({
                let count = (data@.len() as int / old(self)@.pool.buffer.elem_size as int) as u32;
                &&& exists|fp: u64|
                    final(self)@ == #[trigger] old(self)@.upserted(row as int, new_id, count, fp)
                        && w.collision == (old(self)@.collides(row as int, new_id, fp)
                        && !old(self)@.warned.contains(new_id.0))
                &&& w.handle == old(self)@.handle_after(row as int, new_id, count)
                &&& old(self)@.allocates(row as int, new_id) ==> {
                    &&& upload_of(w.upload, final(self)@.pool, w.handle, data@)
                    &&& w.grown_to == if old(self)@.pool_for(row as int, new_id).must_grow(count) {
                        Some(final(self)@.pool.buffer.capacity)
                    } else {
                        None
                    }
                }
                &&& !old(self)@.allocates(row as int, new_id) ==> w.upload is None
                    && w.grown_to is None
            }),
    {
        let hash: u64 = fingerprint(data);
        self.upsert_row_with(row, new_id, data, hash)
    }

    /// Where `id`'s payload lies, while a row refers to it.
    pub fn resolve(&self, id: HandleId) -> (range: Option<(u32, u32)>)
        requires
            self.wf(),
        ensures
            range is Some <==> id.0 != 0 && self@.references(id.0) > 0,
            range matches Some(r) ==> r == (
                self@.entries[id.0].range.offset,
                self@.entries[id.0].range.count,
            ),
    {
        proof {
            if self@.entries.contains_key(id.0) {
                assert(self@.references(id.0) > 0);
            } else if id.0 != 0 {
                lemma_no_references(self@, id.0);
            }
        }
        match self.entries.get(&id.0) {
            Some(entry) => Some((entry.range.offset, entry.range.count)),
            None => None,
        }
    }

    /// Every resident identity once, with its number of references and its size in bytes, in no
    /// particular order.
    pub fn audit(&self) -> (list: Vec<(HandleId, u64, u64)>)
        requires
            self.wf(),
        ensures
            list@.len() == self@.entries.len(),
            forall|id: u128| #[trigger]
                self@.entries.contains_key(id) ==> exists|i: int|
                    0 <= i < list@.len() && (#[trigger] list@[i]).0 == HandleId(id),
            forall|i: int|
                0 <= i < list@.len() ==> {
                    let (id, refs, bytes) = #[trigger] list@[i];
                    &&& self@.entries.contains_key(id.0)
                    &&& refs == self@.references(id.0)
                    &&& bytes == self@.entries[id.0].range.count * self@.pool.buffer.elem_size
                },
            forall|i: int, j: int|
                #![trigger list@[i], list@[j]]
                0 <= i < j < list@.len() ==> list@[i].0 != list@[j].0,
    {
        let elem_size: u64 = self.pool.elem_size() as u64;
        let mut list: Vec<(HandleId, u64, u64)> = Vec::new();
        for key in keys: self.entries.keys()
            invariant
                self.wf(),
                elem_size == self@.pool.buffer.elem_size,
                keys.seq().unref().to_set() == self.entries@.dom(),
                keys.seq().no_duplicates(),
                keys.seq().len() == self.entries@.dom().len(),
                list@.len() == keys.index(),
                forall|i: int|
                    0 <= i < list@.len() ==> {
                        let (id, refs, bytes) = #[trigger] list@[i];
                        &&& id.0 == *keys.seq()[i]
                        &&& self@.entries.contains_key(id.0)
                        &&& refs == self@.references(id.0)
                        &&& bytes == self@.entries[id.0].range.count * self@.pool.buffer.elem_size
                    },
        {
            let ghost at = list@.len() as int;
            proof {
                assert(keys.seq().unref()[at] == *key);
                assert(keys.seq().unref().contains(*key));
                assert(keys.seq().unref().to_set().contains(*key));
            }
            let entry: InternEntry = match self.entries.get(key) {
                Some(entry) => *entry,
                None => {
                    assert(false);
                    InternEntry {
                        range: VarLenHandle { offset: 0, count: 0 },
                        refcount: 0,
                        fingerprint: 0,
                    }
                },
            };
            assert(self@.entries.contains_key(*key));
            let count: u64 = entry.range.count as u64;
            assert(count * elem_size <= u32::MAX * u32::MAX) by (nonlinear_arith)
                requires
                    0 <= count <= u32::MAX,
                    0 <= elem_size <= u32::MAX,
            ;
            list.push((HandleId(*key), entry.refcount, count * elem_size));
        }
        proof {
            assert forall|id: u128| #[trigger] self@.entries.contains_key(id) implies exists|i: int|
                0 <= i < list@.len() && (#[trigger] list@[i]).0 == HandleId(id) by {
                lemma_listed(list@, self@.entries, id);
            }
        }
        list
    }
}

/// As many keys of a map as it has, all different, are all of them.
proof fn lemma_listed(list: Seq<(HandleId, u64, u64)>, entries: Map<u128, InternEntry>, id: u128)
    requires
        entries.dom().finite(),
        list.len() == entries.len(),
        forall|i: int| 0 <= i < list.len() ==> entries.contains_key((#[trigger] list[i]).0.0),
        forall|i: int, j: int|
            #![trigger list[i], list[j]]
            0 <= i < j < list.len() ==> list[i].0 != list[j].0,
        entries.contains_key(id),
    ensures
        exists|i: int| 0 <= i < list.len() && (#[trigger] list[i]).0 == HandleId(id),
{
    let keys = Seq::new(list.len(), |i: int| list[i].0.0);
    assert(keys.no_duplicates()) by {
        assert forall|i: int, j: int|
            0 <= i < keys.len() && 0 <= j < keys.len() && i != j implies keys[i] != keys[j] by {
            if i < j {
                assert(list[i].0 != list[j].0);
            } else {
                assert(list[j].0 != list[i].0);
            }
        }
    }
    keys.unique_seq_to_set();
    assert(keys.to_set().subset_of(entries.dom())) by {
        assert forall|k: u128| #[trigger] keys.to_set().contains(k) implies entries.dom().contains(
            k,
        ) by {
            let i = choose|i: int| 0 <= i < keys.len() && keys[i] == k;
            assert(entries.contains_key(list[i].0.0));
        }
    }
    vstd::set_lib::lemma_subset_equality(keys.to_set(), entries.dom());
    assert(keys.to_set().contains(id));
    let i = choose|i: int| 0 <= i < keys.len() && keys[i] == id;
    assert(list[i].0 == HandleId(id));
}

/// How counting changes when one row changes.
proof fn lemma_occurrences_with_row(
    ids: Seq<HandleId>,
    row: int,
    value: HandleId,
    id: HandleId,
    n: nat,
)
    requires
        row >= 0,
        id.0 != 0,
        n <= with_row(ids, row, value, HandleId(0)).len(),
    ensures
        occurrences(with_row(ids, row, value, HandleId(0)), id, n) == occurrences(
            ids,
            id,
            if n < ids.len() {
                n
            } else {
                ids.len()
            },
        ) - (if row < n && row < ids.len() && ids[row] == id {
            1int
        } else {
            0
        }) + (if row < n && value == id {
            1int
        } else {
            0
        }),
    decreases n,
{
    if n > 0 {
        lemma_occurrences_with_row(ids, row, value, id, (n - 1) as nat);
    }
}

proof fn lemma_reference_bound(ids: Seq<HandleId>, id: HandleId, n: nat)
    ensures
        occurrences(ids, id, n) <= n,
    decreases n,
{
    if n > 0 {
        lemma_reference_bound(ids, id, (n - 1) as nat);
    }
}

/// A row that refers to `id` counts.
proof fn lemma_reference_counts(ids: Seq<HandleId>, id: HandleId, n: nat, row: int)
    requires
        0 <= row < n <= ids.len(),
        ids[row] == id,
    ensures
        occurrences(ids, id, n) > 0,
    decreases n,
{
    if row < n - 1 {
        lemma_reference_counts(ids, id, (n - 1) as nat, row);
    }
}

/// Without an entry there is no reference.
proof fn lemma_no_references(state: InternState, id: u128)
    requires
        state.counted(),
        id != 0,
        !state.entries.contains_key(id),
    ensures
        state.references(id) == 0,
{
    lemma_zero_references(state, id, state.ids.len());
}

proof fn lemma_zero_references(state: InternState, id: u128, n: nat)
    requires
        state.counted(),
        id != 0,
        !state.entries.contains_key(id),
        n <= state.ids.len(),
    ensures
        occurrences(state.ids, HandleId(id), n) == 0,
    decreases n,
{
    if n > 0 {
        lemma_zero_references(state, id, (n - 1) as nat);
        if state.ids[n - 1] == HandleId(id) {
            assert(state.entries.contains_key(state.ids[n - 1].0));
        }
    }
}

/// A row's private allocation is held, and overlaps no other owner's.
proof fn lemma_private(state: InternState, row: int)
    requires
        state.storage_ok(),
        row >= 0,
    ensures
        state.pool.holds(state.private_at_row(row)),
        forall|o: Owner| #[trigger]
            state.owns(o) && o != Owner::Row(row) ==> state.pool.apart(
                state.range_of(o),
                state.private_at_row(row),
            ),
{
    if row < state.privates.len() {
        assert(state.owns(Owner::Row(row)));
        assert(state.pool.holds(state.range_of(Owner::Row(row))));
    }
}

proof fn lemma_decref_storage(state: InternState, id: u128)
    requires
        state.storage_ok(),
    ensures
        state.decref(id).storage_ok(),
{
    let after = state.decref(id);
    if state.entries.contains_key(id) {
        let me = Owner::Shared(id);
        assert(state.owns(me));
        if state.entries[id].refcount <= 1 {
            let range = state.entries[id].range;
            assert(state.pool.holds(range)) by {
                assert(state.pool.holds(state.range_of(me)));
            }
            crate::gpu::var_len_pool::lemma_frame_free(state.pool, range);
            assert forall|o: Owner| #[trigger] after.owns(o) implies after.pool.holds(
                after.range_of(o),
            ) by {
                assert(state.owns(o) && o != me);
                assert(state.pool.holds(state.range_of(o)));
                assert(state.pool.apart(state.range_of(o), range));
            }
            assert forall|a: Owner, b: Owner|
                a != b && #[trigger] after.owns(a) && #[trigger] after.owns(b) implies after.pool.apart(
                after.range_of(a),
                after.range_of(b),
            ) by {
                assert(state.owns(a) && state.owns(b));
            }
        } else {
            assert forall|o: Owner| #[trigger] after.owns(o) implies after.pool.holds(
                after.range_of(o),
            ) by {
                assert(state.owns(o));
                assert(after.range_of(o) == state.range_of(o));
            }
            assert forall|a: Owner, b: Owner|
                a != b && #[trigger] after.owns(a) && #[trigger] after.owns(b) implies after.pool.apart(
                after.range_of(a),
                after.range_of(b),
            ) by {
                assert(state.owns(a) && state.owns(b));
            }
        }
    }
}

/// Letting go of what a row holds keeps everything consistent and leaves the row empty.
proof fn lemma_released(state: InternState, row: int)
    requires
        state.consistent(),
        row >= 0,
    ensures
        state.released(row).consistent(),
        state.released(row).id_at_row(row) == HandleId(0),
        state.released(row).private_at_row(row) == no_range(),
        state.released(row).pool.buffer == state.pool.buffer,
        state.id_at_row(row).0 == 0 ==> state.pool.holds(state.private_at_row(row)),
        state.released(row).warned == state.warned,
{
    let id = state.id_at_row(row);
    let after = state.released(row);
    lemma_private(state, row);
    if id.0 == 0 {
        let private = state.private_at_row(row);
        crate::gpu::var_len_pool::lemma_frame_free(state.pool, private);
        assert forall|o: Owner| #[trigger] after.owns(o) implies after.pool.holds(
            after.range_of(o),
        ) by {
            if o != Owner::Row(row) {
                assert(state.owns(o));
                assert(state.pool.holds(state.range_of(o)));
                assert(after.range_of(o) == state.range_of(o));
            }
        }
        assert forall|a: Owner, b: Owner|
            a != b && #[trigger] after.owns(a) && #[trigger] after.owns(b) implies after.pool.apart(
            after.range_of(a),
            after.range_of(b),
        ) by {
            assert(state.owns(a) && state.owns(b));
            assert(state.pool.apart(state.range_of(a), state.range_of(b)));
        }
        assert(after.ids =~= state.ids);
        assert forall|i: int| 0 <= i < after.ids.len() && (#[trigger] after.ids[i]).0
            != 0 implies after.entries.contains_key(after.ids[i].0) && after.privates[i]
            == no_range() by {
            assert(state.ids[i].0 != 0);
        }
    } else {
        lemma_decref_storage(state, id.0);
        let mid = state.decref(id.0);
        assert(state.entries.contains_key(state.ids[row].0));
        assert(after.privates =~= state.privates);
        assert forall|o: Owner| #[trigger] after.owns(o) implies after.pool.holds(
            after.range_of(o),
        ) by {
            assert(mid.owns(o));
            assert(mid.pool.holds(mid.range_of(o)));
        }
        assert forall|a: Owner, b: Owner|
            a != b && #[trigger] after.owns(a) && #[trigger] after.owns(b) implies after.pool.apart(
            after.range_of(a),
            after.range_of(b),
        ) by {
            assert(mid.owns(a) && mid.owns(b));
        }
        assert forall|k: u128| #[trigger] after.entries.contains_key(k) implies k != 0
            && after.entries[k].refcount == after.references(k) && after.references(k) > 0 by {
            assert(state.entries.contains_key(k));
            lemma_occurrences_with_row(state.ids, row, HandleId(0), HandleId(k), after.ids.len());
        }
        assert forall|i: int| 0 <= i < after.ids.len() && (#[trigger] after.ids[i]).0
            != 0 implies after.entries.contains_key(after.ids[i].0) && after.privates[i]
            == no_range() by {
            assert(i != row);
            assert(state.ids[i].0 != 0);
            let k = state.ids[i].0;
            if k == id.0 {
                lemma_occurrences_with_row(
                    state.ids,
                    row,
                    HandleId(0),
                    HandleId(k),
                    after.ids.len(),
                );
                lemma_reference_counts(after.ids, HandleId(k), after.ids.len(), i);
                assert(state.entries[k].refcount == state.references(k));
            }
        }
    }
}

/// Rewriting a row's private allocation keeps everything consistent.
proof fn lemma_rewrite_private(
    state: InternState,
    pool: PoolState,
    row: int,
    private: VarLenHandle,
    handle: VarLenHandle,
)
    requires
        state.consistent(),
        0 <= row < u32::MAX + 1,
        state.id_at_row(row) == HandleId(0),
        private == state.private_at_row(row),
        pool.consistent(),
        pool.buffer.elem_size == state.pool.buffer.elem_size,
        pool.holds(handle),
        forall|h: VarLenHandle| #[trigger]
            state.pool.holds(h) && state.pool.apart(h, private) ==> pool.holds(h) && pool.apart(
                h,
                handle,
            ),
    ensures
        (InternState { pool, ..state }).with_row(row, HandleId(0), handle).consistent(),
{
    let after = (InternState { pool, ..state }).with_row(row, HandleId(0), handle);
    let me = Owner::Row(row);
    lemma_private(state, row);
    assert forall|o: Owner| #[trigger] after.owns(o) implies after.pool.holds(after.range_of(o))
        && (o != me ==> after.pool.apart(after.range_of(o), handle)) by {
        if o != me {
            if state.owns(o) {
                assert(state.pool.holds(state.range_of(o)));
                assert(after.range_of(o) == state.range_of(o));
            } else {
                assert(after.range_of(o) == no_range());
            }
        }
    }
    assert forall|a: Owner, b: Owner|
        a != b && #[trigger] after.owns(a) && #[trigger] after.owns(b) implies after.pool.apart(
        after.range_of(a),
        after.range_of(b),
    ) by {
        if a == me {
            assert(after.pool.apart(after.range_of(b), handle));
        } else if b == me {
            assert(after.pool.apart(after.range_of(a), handle));
        } else if state.owns(a) && state.owns(b) {
            assert(state.pool.apart(state.range_of(a), state.range_of(b)));
            assert(after.range_of(a) == state.range_of(a));
            assert(after.range_of(b) == state.range_of(b));
        } else if state.owns(a) {
            assert(after.range_of(b) == no_range());
        } else {
            assert(after.range_of(a) == no_range());
        }
    }
    assert forall|k: u128| #[trigger] after.entries.contains_key(k) implies k != 0
        && after.entries[k].refcount == after.references(k) && after.references(k) > 0 by {
        assert(state.entries.contains_key(k));
        lemma_occurrences_with_row(state.ids, row, HandleId(0), HandleId(k), after.ids.len());
    }
    assert forall|i: int| 0 <= i < after.ids.len() && (#[trigger] after.ids[i]).0
        != 0 implies after.entries.contains_key(after.ids[i].0) && after.privates[i]
        == no_range() by {
        assert(state.ids[i].0 != 0);
    }
}

/// Referring an empty row to an identity keeps everything consistent.
proof fn lemma_link(
    state: InternState,
    row: int,
    id: u128,
    entry: InternEntry,
    pool: PoolState,
)
    requires
        state.consistent(),
        0 <= row < u32::MAX + 1,
        state.id_at_row(row) == HandleId(0),
        state.private_at_row(row) == no_range(),
        id != 0,
        entry.refcount == state.references(id) + 1,
        state.entries.contains_key(id) ==> pool == state.pool && entry.range
            == state.entries[id].range,
        !state.entries.contains_key(id) ==> {
            &&& pool.consistent()
            &&& pool.buffer.elem_size == state.pool.buffer.elem_size
            &&& pool.holds(entry.range)
            &&& forall|o: Owner| #[trigger]
                state.owns(o) ==> pool.holds(state.range_of(o)) && pool.apart(
                    state.range_of(o),
                    entry.range,
                )
        },
    ensures
        (InternState { pool, entries: state.entries.insert(id, entry), ..state }).with_row(
            row,
            HandleId(id),
            no_range(),
        ).consistent(),
{
    let after = (InternState { pool, entries: state.entries.insert(id, entry), ..state }).with_row(
        row,
        HandleId(id),
        no_range(),
    );
    let me = Owner::Shared(id);
    assert forall|o: Owner| #[trigger] after.owns(o) implies after.pool.holds(after.range_of(o))
        && (o != me ==> after.pool.apart(after.range_of(o), entry.range)) by {
        if o == me {
            if state.entries.contains_key(id) {
                assert(state.owns(me));
                assert(state.pool.holds(state.range_of(me)));
            }
        } else if state.owns(o) {
            assert(after.range_of(o) == state.range_of(o) || after.range_of(o) == no_range());
            if state.entries.contains_key(id) {
                assert(state.owns(me));
                assert(state.pool.holds(state.range_of(o)));
                assert(state.pool.apart(state.range_of(o), state.range_of(me)));
            }
        } else {
            assert(after.range_of(o) == no_range());
        }
    }
    assert forall|a: Owner, b: Owner|
        a != b && #[trigger] after.owns(a) && #[trigger] after.owns(b) implies after.pool.apart(
        after.range_of(a),
        after.range_of(b),
    ) by {
        if a == me {
            assert(after.pool.apart(after.range_of(b), entry.range));
        } else if b == me {
            assert(after.pool.apart(after.range_of(a), entry.range));
        } else if state.owns(a) && state.owns(b) {
            assert(state.pool.apart(state.range_of(a), state.range_of(b)));
            assert(after.range_of(a) == state.range_of(a) || after.range_of(a) == no_range());
            assert(after.range_of(b) == state.range_of(b) || after.range_of(b) == no_range());
        } else if state.owns(a) {
            assert(after.range_of(b) == no_range());
        } else {
            assert(after.range_of(a) == no_range());
        }
    }
    assert forall|k: u128| #[trigger] after.entries.contains_key(k) implies k != 0
        && after.entries[k].refcount == after.references(k) && after.references(k) > 0 by {
        lemma_occurrences_with_row(state.ids, row, HandleId(id), HandleId(k), after.ids.len());
        if k != id {
            assert(state.entries.contains_key(k));
        }
    }
    assert forall|i: int| 0 <= i < after.ids.len() && (#[trigger] after.ids[i]).0
        != 0 implies after.entries.contains_key(after.ids[i].0) && after.privates[i]
        == no_range() by {
        if i != row {
            assert(state.ids[i].0 != 0);
        }
    }
}

/// The reports made play no part in consistency.
proof fn lemma_warned_irrelevant(a: InternState, b: InternState)
    requires
        a.consistent(),
        b == (InternState { warned: b.warned, ..a }),
    ensures
        b.consistent(),
{
    assert forall|o: Owner| #[trigger] b.owns(o) implies b.pool.holds(b.range_of(o)) by {
        assert(a.owns(o));
        assert(a.range_of(o) == b.range_of(o));
    }
    assert forall|x: Owner, y: Owner|
        x != y && #[trigger] b.owns(x) && #[trigger] b.owns(y) implies b.pool.apart(
        b.range_of(x),
        b.range_of(y),
    ) by {
        assert(a.owns(x) && a.owns(y));
        assert(a.range_of(x) == b.range_of(x));
        assert(a.range_of(y) == b.range_of(y));
    }
    assert forall|k: u128| #[trigger] b.entries.contains_key(k) implies k != 0
        && b.entries[k].refcount == b.references(k) && b.references(k) > 0 by {
        assert(a.entries.contains_key(k));
    }
    assert forall|i: int| 0 <= i < b.ids.len() && (#[trigger] b.ids[i]).0
        != 0 implies b.entries.contains_key(b.ids[i].0) && b.privates[i] == no_range() by {
        assert(a.ids[i].0 != 0);
    }
}

/// Letting go of the last reference tears the identity down at once and gives its space back; an
/// earlier one only counts down.
pub proof fn law_last_reference_frees(state: InternState, row: int)
    requires
        state.consistent(),
        0 <= row < state.ids.len(),
        state.ids[row].0 != 0,
    ensures
        ({
            let id = state.ids[row].0;
            let after = state.released(row);
            &&& after.consistent()
            &&& after.references(id) == state.references(id) - 1
            &&& state.references(id) == 1 ==> !after.entries.contains_key(id) && after.pool
                == state.pool.after_free(state.entries[id].range)
            &&& state.references(id) > 1 ==> after.entries.contains_key(id) && after.pool
                == state.pool && after.entries[id].range == state.entries[id].range
        }),
{
    let id = state.ids[row].0;
    assert(state.entries.contains_key(id));
    lemma_released(state, row);
    let after = state.released(row);
    lemma_occurrences_with_row(state.ids, row, HandleId(0), HandleId(id), after.ids.len());
}

/// Rows under one identity share one allocation, whoever wrote first: a later writer gets the
/// first writer's range, takes no space and uploads nothing.
pub proof fn law_first_writer_wins(
    state: InternState,
    row: int,
    id: HandleId,
    count: u32,
    fingerprint: u64,
    other: int,
)
    requires
        state.consistent(),
        0 <= row < u32::MAX + 1,
        0 <= other < state.ids.len(),
        other != row,
        state.ids[other] == id,
        id.0 != 0,
    ensures
        !state.allocates(row, id),
        state.handle_after(row, id, count) == state.entries[id.0].range,
        state.upserted(row, id, count, fingerprint).entries[id.0].range
            == state.entries[id.0].range,
        state.upserted(row, id, count, fingerprint).entries[id.0].fingerprint
            == state.entries[id.0].fingerprint,
{
    assert(state.entries.contains_key(state.ids[other].0));
    if !state.unchanged(row, id) {
        lemma_released(state, row);
        let ready = state.released(row);
        assert(ready.ids[other] == id);
        assert(ready.entries.contains_key(ready.ids[other].0));
        assert(state.id_at_row(row) != id);
    }
}

/// Rewriting a row under the identity it already has changes nothing.
pub proof fn law_equal_identity_is_a_no_op(
    state: InternState,
    row: int,
    count: u32,
    fingerprint: u64,
)
    requires
        state.consistent(),
        0 <= row < state.ids.len(),
        state.ids[row].0 != 0,
    ensures
        state.upserted(row, state.ids[row], count, fingerprint) == state,
{
}

/// A row without an identity keeps its payload to itself: no identity becomes resident by it, and
/// its allocation overlaps nobody's.
pub proof fn law_private_rows_are_never_shared(state: InternState, row: int, owner: Owner)
    requires
        state.consistent(),
        0 <= row < state.ids.len(),
        state.ids[row].0 == 0,
        state.owns(owner),
        owner != Owner::Row(row),
    ensures
        !state.entries.contains_key(0),
        state.pool.apart(state.range_of(owner), state.privates[row]),
{
    assert(state.owns(Owner::Row(row)));
    assert(state.range_of(Owner::Row(row)) == state.privates[row]);
}

/// A call on an interned pool.
pub enum InternCall {
    /// A row is written with `count` elements under an identity.
    Upsert { row: u32, id: HandleId, count: u32, fingerprint: u64 },
    /// A row lets go of what it holds.
    Release { row: u32 },
}

impl InternState {
    /// The state after a call.
    pub open spec fn after_call(self, call: InternCall) -> InternState {
        match call {
            InternCall::Upsert { row, id, count, fingerprint } => self.upserted(
                row as int,
                id,
                count,
                fingerprint,
            ),
            InternCall::Release { row } => self.released(row as int),
        }
    }

    /// The state after the first `n` calls.
    pub open spec fn after_calls(self, calls: Seq<InternCall>, n: int) -> InternState
        decreases n,
    {
        if n <= 0 {
            self
        } else {
            self.after_calls(calls, n - 1).after_call(calls[n - 1])
        }
    }

    /// No call asks for more space than the device can hold.
    pub open spec fn serves(self, calls: Seq<InternCall>) -> bool {
        forall|i: int|
            0 <= i < calls.len() ==> ((#[trigger] calls[i]) matches InternCall::Upsert {
                row,
                id,
                count,
                ..
            } ==> !self.after_calls(calls, i).refused(row as int, id, count))
    }

    /// The identity under which `row` was last written by the first `n` calls; zero if it was
    /// released since.
    pub open spec fn last_id(self, calls: Seq<InternCall>, row: int, n: int) -> HandleId
        decreases n,
    {
        if n <= 0 {
            self.id_at_row(row)
        } else {
            match calls[n - 1] {
                InternCall::Upsert { row: at, id, .. } => if at == row {
                    id
                } else {
                    self.last_id(calls, row, n - 1)
                },
                InternCall::Release { row: at } => if at == row {
                    HandleId(0)
                } else {
                    self.last_id(calls, row, n - 1)
                },
            }
        }
    }
}

/// Writing a row leaves everything consistent, and the row refers to what it was written under.
proof fn lemma_upserted(
    state: InternState,
    row: int,
    new_id: HandleId,
    count: u32,
    fingerprint: u64,
)
    requires
        state.consistent(),
        0 <= row < u32::MAX + 1,
        !state.refused(row, new_id, count),
    ensures
        state.upserted(row, new_id, count, fingerprint).consistent(),
        state.upserted(row, new_id, count, fingerprint).ids == with_row(
            state.ids,
            row,
            new_id,
            HandleId(0),
        ),
{
    let after = state.upserted(row, new_id, count, fingerprint);
    lemma_released(state, row);
    lemma_private(state, row);
    if state.unchanged(row, new_id) {
        assert(after.ids =~= with_row(state.ids, row, new_id, HandleId(0)));
    } else {
        let ready = state.before_write(row, new_id);
        let handle = state.handle_after(row, new_id, count);
        lemma_private(ready, row);
        assert(with_row(ready.ids, row, new_id, HandleId(0)) =~= with_row(
            state.ids,
            row,
            new_id,
            HandleId(0),
        ));
        if new_id.0 == 0 {
            let private = ready.private_at_row(row);
            let freed = ready.pool.after_free(private);
            crate::gpu::var_len_pool::lemma_frame_free(ready.pool, private);
            crate::gpu::var_len_pool::lemma_frame_take(freed, count);
            assert(ready.id_at_row(row) == HandleId(0));
            lemma_rewrite_private(ready, freed.after_take(count), row, private, handle);
            assert(new_id == HandleId(0));
        } else if state.allocates(row, new_id) {
            assert(ready.private_at_row(row) == no_range());
            assert(ready.pool.after_free(no_range()) == ready.pool);
            crate::gpu::var_len_pool::lemma_frame_take(ready.pool, count);
            let grown = ready.pool.after_take(count);
            assert forall|o: Owner| #[trigger] ready.owns(o) implies grown.holds(
                ready.range_of(o),
            ) && grown.apart(ready.range_of(o), handle) by {
                assert(ready.pool.holds(ready.range_of(o)));
            }
            lemma_no_references(ready, new_id.0);
            lemma_link(
                ready,
                row,
                new_id.0,
                InternEntry { range: handle, refcount: 1, fingerprint },
                grown,
            );
        } else {
            lemma_reference_bound(ready.ids, HandleId(new_id.0), ready.ids.len());
            let more = InternEntry {
                refcount: (ready.entries[new_id.0].refcount + 1) as u64,
                ..ready.entries[new_id.0]
            };
            lemma_link(ready, row, new_id.0, more, ready.pool);
            lemma_warned_irrelevant(
                InternState {
                    entries: ready.entries.insert(new_id.0, more),
                    ..ready
                }.with_row(row, new_id, no_range()),
                after,
            );
        }
    }
}

/// Whatever is written and released, each row refers to the identity it was last written under,
/// and what is resident stays counted right.
#[verifier::spinoff_prover]
pub proof fn law_rows_refer_to_what_they_were_last_written_under(
    state: InternState,
    calls: Seq<InternCall>,
    n: int,
)
    requires
        state.consistent(),
        state.serves(calls),
        0 <= n <= calls.len(),
    ensures
        state.after_calls(calls, n).consistent(),
        forall|row: int|
            0 <= row ==> #[trigger] state.after_calls(calls, n).id_at_row(row) == state.last_id(
                calls,
                row,
                n,
            ),
    decreases n,
{
    if n > 0 {
        law_rows_refer_to_what_they_were_last_written_under(state, calls, n - 1);
        let before = state.after_calls(calls, n - 1);
        match calls[n - 1] {
            InternCall::Upsert { row, id, count, fingerprint } => {
                lemma_upserted(before, row as int, id, count, fingerprint);
            },
            InternCall::Release { row } => {
                lemma_released(before, row as int);
            },
        }
        let after = state.after_calls(calls, n);
        assert forall|row: int| 0 <= row implies #[trigger] after.id_at_row(row) == state.last_id(
            calls,
            row,
            n,
        ) by {
            assert(before.id_at_row(row) == state.last_id(calls, row, n - 1));
            match calls[n - 1] {
                InternCall::Upsert { row: at, id, .. } => {
                    assert(after.id_at_row(row) == if at == row {
                        id
                    } else {
                        before.id_at_row(row)
                    });
                },
                InternCall::Release { row: at } => {
                    assert(after.id_at_row(row) == if at == row {
                        HandleId(0)
                    } else {
                        before.id_at_row(row)
                    });
                },
            }
        }
    }
}

proof fn lemma_referrer(ids: Seq<HandleId>, id: HandleId, n: nat) -> (row: int)
    requires
        n <= ids.len(),
        occurrences(ids, id, n) > 0,
    ensures
        0 <= row < n,
        ids[row] == id,
    decreases n,
{
    if ids[n - 1] == id {
        n - 1
    } else {
        lemma_referrer(ids, id, (n - 1) as nat)
    }
}

impl InternState {
    /// Where what `row` refers to lies: its identity's payload, or its own.
    pub open spec fn holding(self, row: int) -> VarLenHandle {
        if self.id_at_row(row).0 != 0 {
            self.entries[self.id_at_row(row).0].range
        } else {
            self.private_at_row(row)
        }
    }

    /// What the last write of `row` among the first `n` calls returned; an empty range if it was
    /// released since.
    pub open spec fn last_handle(
        self,
        calls: Seq<InternCall>,
        row: int,
        n: int,
    ) -> VarLenHandle
        decreases n,
    {
        if n <= 0 {
            self.holding(row)
        } else {
            match calls[n - 1] {
                InternCall::Upsert { row: at, id, count, .. } => if at == row {
                    self.after_calls(calls, n - 1).handle_after(row, id, count)
                } else {
                    self.last_handle(calls, row, n - 1)
                },
                InternCall::Release { row: at } => if at == row {
                    no_range()
                } else {
                    self.last_handle(calls, row, n - 1)
                },
            }
        }
    }

    /// The rows that were last written under `id` by the first `n` calls, and not released since.
    pub open spec fn rows_under(self, calls: Seq<InternCall>, id: HandleId, n: int) -> Set<int> {
        Set::new(|row: int| 0 <= row && self.last_id(calls, row, n) == id)
    }
}

/// What one row lets go of is not what another refers to.
proof fn lemma_released_holding(state: InternState, row: int, other: int)
    requires
        state.consistent(),
        0 <= row < u32::MAX + 1,
        0 <= other,
    ensures
        other != row ==> state.released(row).holding(other) == state.holding(other),
        other == row ==> state.released(row).holding(other) == no_range(),
{
    lemma_released(state, row);
    let after = state.released(row);
    if other != row && other < state.ids.len() && state.ids[other].0 != 0 {
        assert(state.entries.contains_key(state.ids[other].0));
        assert(after.ids[other] == state.ids[other]);
        assert(after.entries.contains_key(after.ids[other].0));
    }
}

/// A row refers to what its write returned, and the others to what they did.
proof fn lemma_upserted_holding(
    state: InternState,
    row: int,
    new_id: HandleId,
    count: u32,
    fingerprint: u64,
    other: int,
)
    requires
        state.consistent(),
        0 <= row < u32::MAX + 1,
        0 <= other,
        !state.refused(row, new_id, count),
    ensures
        ({
            let after = state.upserted(row, new_id, count, fingerprint);
            &&& other == row ==> after.holding(other) == state.handle_after(row, new_id, count)
            &&& other != row ==> after.holding(other) == state.holding(other)
        }),
{
    let after = state.upserted(row, new_id, count, fingerprint);
    let ready = state.before_write(row, new_id);
    lemma_upserted(state, row, new_id, count, fingerprint);
    lemma_released(state, row);
    if !state.unchanged(row, new_id) {
        lemma_released_holding(state, row, other);
        if other != row {
            assert(ready.holding(other) == state.holding(other));
            if other < ready.ids.len() && ready.ids[other].0 != 0 {
                assert(ready.entries.contains_key(ready.ids[other].0));
            }
        }
    }
}

/// The rows among the first `n` that refer to `id`.
spec fn referrers(ids: Seq<HandleId>, id: HandleId, n: int) -> Set<int> {
    Set::new(|r: int| 0 <= r < n && ids[r] == id)
}

proof fn lemma_referrers(ids: Seq<HandleId>, id: HandleId, n: nat)
    requires
        n <= ids.len(),
    ensures
        referrers(ids, id, n as int).finite(),
        referrers(ids, id, n as int).len() == occurrences(ids, id, n),
    decreases n,
{
    if n == 0 {
        assert(referrers(ids, id, 0) =~= Set::empty());
    } else {
        lemma_referrers(ids, id, (n - 1) as nat);
        if ids[n - 1] == id {
            assert(referrers(ids, id, n as int) =~= referrers(ids, id, n - 1).insert(n - 1));
        } else {
            assert(referrers(ids, id, n as int) =~= referrers(ids, id, n - 1));
        }
    }
}

/// Whatever is written and released, what the last write of a row returned is where its payload
/// lies: every row whose last write named an identity was returned the range that the identity
/// resolves to.
pub proof fn law_rows_were_returned_what_they_refer_to(
    state: InternState,
    calls: Seq<InternCall>,
    n: int,
)
    requires
        state.consistent(),
        state.serves(calls),
        0 <= n <= calls.len(),
    ensures
        ({
            let after = state.after_calls(calls, n);
            forall|row: int|
                0 <= row ==> #[trigger] state.last_handle(calls, row, n) == if state.last_id(
                    calls,
                    row,
                    n,
                ).0 != 0 {
                    after.entries[state.last_id(calls, row, n).0].range
                } else {
                    after.private_at_row(row)
                }
        }),
    decreases n,
{
    let after = state.after_calls(calls, n);
    law_rows_refer_to_what_they_were_last_written_under(state, calls, n);
    if n > 0 {
        law_rows_were_returned_what_they_refer_to(state, calls, n - 1);
        law_rows_refer_to_what_they_were_last_written_under(state, calls, n - 1);
    }
    assert forall|row: int| 0 <= row implies #[trigger] state.last_handle(calls, row, n)
        == after.holding(row) by {
        if n > 0 {
            let before = state.after_calls(calls, n - 1);
            assert(before.id_at_row(row) == state.last_id(calls, row, n - 1));
            assert(state.last_handle(calls, row, n - 1) == before.holding(row));
            match calls[n - 1] {
                InternCall::Upsert { row: at, id, count, fingerprint } => {
                    lemma_upserted_holding(before, at as int, id, count, fingerprint, row);
                },
                InternCall::Release { row: at } => {
                    lemma_released_holding(before, at as int, row);
                },
            }
        }
    }
    assert forall|row: int| 0 <= row implies #[trigger] state.last_handle(calls, row, n)
        == if state.last_id(calls, row, n).0 != 0 {
        after.entries[state.last_id(calls, row, n).0].range
    } else {
        after.private_at_row(row)
    } by {
        assert(after.id_at_row(row) == state.last_id(calls, row, n));
    }
}

/// Whatever was written and released before, an identity is resident if and only if some row was
/// last written under it. Its count is the number of those rows, and no identity is ever resident
/// under zero.
pub proof fn law_residents_are_what_rows_refer_to(
    state: InternState,
    calls: Seq<InternCall>,
    id: u128,
)
    requires
        state.consistent(),
        state.serves(calls),
    ensures
        ({
            let n = calls.len() as int;
            let after = state.after_calls(calls, n);
            &&& after.entries.contains_key(id) <==> id != 0 && exists|row: int|
                0 <= row && #[trigger] state.last_id(calls, row, n) == HandleId(id)
            &&& after.entries.contains_key(id) ==> {
                &&& after.entries[id].refcount == after.references(id)
                &&& state.rows_under(calls, HandleId(id), n).finite()
                &&& after.references(id) == state.rows_under(calls, HandleId(id), n).len()
            }
            &&& !after.entries.contains_key(0)
        }),
{
    let n = calls.len() as int;
    let after = state.after_calls(calls, n);
    law_rows_refer_to_what_they_were_last_written_under(state, calls, n);
    if after.entries.contains_key(id) {
        let row = lemma_referrer(after.ids, HandleId(id), after.ids.len());
        assert(after.id_at_row(row) == HandleId(id));
        assert(state.last_id(calls, row, n) == HandleId(id));
        let len = after.ids.len();
        lemma_referrers(after.ids, HandleId(id), len);
        let under = state.rows_under(calls, HandleId(id), n);
        assert forall|r: int| #[trigger] under.contains(r) == referrers(
            after.ids,
            HandleId(id),
            len as int,
        ).contains(r) by {
            if 0 <= r {
                assert(after.id_at_row(r) == state.last_id(calls, r, n));
            }
        }
        assert(under =~= referrers(after.ids, HandleId(id), len as int));
    }
    if id != 0 && exists|row: int|
        0 <= row && #[trigger] state.last_id(calls, row, n) == HandleId(id) {
        let row = choose|row: int|
            0 <= row && #[trigger] state.last_id(calls, row, n) == HandleId(id);
        assert(after.id_at_row(row) == HandleId(id));
        assert(after.ids[row].0 != 0);
        assert(after.entries.contains_key(after.ids[row].0));
    }
}

/// A row that gets a range of its own, or is the first of its identity, gets one of the length that was
/// asked for; the first of an identity leaves its fingerprint.
pub proof fn law_new_range_has_the_length_asked_for(
    state: InternState,
    row: int,
    id: HandleId,
    count: u32,
    fingerprint: u64,
)
    requires
        state.consistent(),
        0 <= row,
        state.allocates(row, id),
    ensures
        state.handle_after(row, id, count).count == count,
        id.0 != 0 ==> {
            let entry = state.upserted(row, id, count, fingerprint).entries[id.0];
            &&& entry.range == state.handle_after(row, id, count)
            &&& entry.fingerprint == fingerprint
            &&& entry.refcount == 1
        },
        id.0 == 0 ==> state.upserted(row, id, count, fingerprint).private_at_row(row)
            == state.handle_after(row, id, count),
{
}

/// A collision is noted if and only if another row holds the same identity with another fingerprint;
/// nothing else is noted, and what was noted stays so.
pub proof fn law_collisions_are_noted(
    state: InternState,
    row: int,
    id: HandleId,
    count: u32,
    fingerprint: u64,
    other: int,
    noted: u128,
)
    requires
        state.consistent(),
        0 <= row,
        0 <= other < state.ids.len(),
        other != row,
        state.ids[other] == id,
        id.0 != 0,
        state.id_at_row(row) != id,
    ensures
        state.upserted(row, id, count, fingerprint).warned.contains(noted)
            <==> state.warned.contains(noted) || (noted == id.0 && state.entries[id.0].fingerprint
            != fingerprint),
{
    lemma_resident_stays(state, row, id, other);
}

proof fn lemma_resident_stays(state: InternState, row: int, id: HandleId, other: int)
    requires
        state.consistent(),
        0 <= row,
        0 <= other < state.ids.len(),
        other != row,
        state.ids[other] == id,
        id.0 != 0,
        state.id_at_row(row) != id,
    ensures
        !state.allocates(row, id),
        state.before_write(row, id).entries[id.0].fingerprint == state.entries[id.0].fingerprint,
        state.before_write(row, id).warned == state.warned,
{
    assert(state.entries.contains_key(state.ids[other].0));
}

} // verus!
