//! The shared pools of variable-length rows, by key.
use crate::gpu::buffer_registry::{BufferKey, TypeKey};
use crate::gpu::var_len_pool::VarLenGpuPool;
use vstd::prelude::*;

verus! {

use crate::gpu::dynamic_buffer::DynamicState;
use crate::gpu::var_len_pool::PoolState;

/// One pool: its key, the type of its elements, and the rows.
struct PoolEntry {
    key: BufferKey,
    element: TypeKey,
    pool: VarLenGpuPool,
}

/// The key of a pool and the type of its elements.
pub type PoolName = (BufferKey, TypeKey);

/// Whether `key` has a pool.
pub open spec fn has_pool(names: Seq<PoolName>, key: Seq<char>) -> bool {
    exists|i: int| 0 <= i < names.len() && (#[trigger] names[i]).0@ == key
}

/// The pool of `key`.
pub open spec fn pool_at(names: Seq<PoolName>, key: Seq<char>) -> int {
    choose|i: int| 0 <= i < names.len() && (#[trigger] names[i]).0@ == key
}

/// The pools in the order of their registration.
pub struct VarLenPools {
    entries: Vec<PoolEntry>,
}

impl VarLenPools {
    /// The names of the pools.
    pub closed spec fn names(&self) -> Seq<PoolName> {
        Seq::new(self.entries@.len(), |i: int| (self.entries@[i].key, self.entries@[i].element))
    }

    /// The pools themselves.
    pub closed spec fn pools(&self) -> Seq<VarLenGpuPool> {
        Seq::new(self.entries@.len(), |i: int| self.entries@[i].pool)
    }

    /// No key has two pools.
    pub open spec fn wf(&self) -> bool {
        &&& self.names().len() == self.pools().len()
        &&& forall|i: int, j: int|
            #![trigger self.names()[i], self.names()[j]]
            0 <= i < j < self.names().len() ==> self.names()[i].0@ != self.names()[j].0@
        &&& forall|i: int| 0 <= i < self.pools().len() ==> (#[trigger] self.pools()[i]).wf()
    }

    pub fn new() -> (pools: Self)
        ensures
            pools.wf(),
            pools.names().len() == 0,
    {
        VarLenPools { entries: Vec::new() }
    }

    fn find_key(&self, key: BufferKey) -> (at: Option<usize>)
        requires
            self.wf(),
        ensures
            match at {
                Some(i) => has_pool(self.names(), key@) && i == pool_at(self.names(), key@) && i
                    < self.names().len(),
                None => !has_pool(self.names(), key@),
            },
    {
        let mut i: usize = 0;
        while i < self.entries.len()
            invariant
                self.wf(),
                i <= self.entries@.len(),
                forall|k: int| 0 <= k < i ==> (#[trigger] self.names()[k]).0@ != key@,
            decreases self.entries@.len() - i,
        {
            assert(self.names()[i as int].0 == self.entries@[i as int].key);
            if self.entries[i].key.same(key) {
                proof {
                    let k = pool_at(self.names(), key@);
                    assert(self.names()[k].0@ == key@);
                }
                return Some(i);
            }
            i = i + 1;
        }
        None
    }

    /// The pool of `key`, made on first use. Every declaration of a key has the same element type.
    pub fn register(
        &mut self,
        key: BufferKey,
        element: TypeKey,
        elem_size: u32,
        initial: u32,
        limit: u32,
    ) -> (at: usize)
        requires
            old(self).wf(),
            has_pool(old(self).names(), key@) ==> old(self).names()[pool_at(
                old(self).names(),
                key@,
            )].1 == element,
            !has_pool(old(self).names(), key@) ==> elem_size > 0 && initial <= limit,
        ensures
            final(self).wf(),
            has_pool(old(self).names(), key@) ==> at == pool_at(old(self).names(), key@)
                && final(self).names() == old(self).names() && final(self).pools() == old(
                self,
            ).pools(),
            !has_pool(old(self).names(), key@) ==> {
                &&& at == old(self).names().len()
                &&& final(self).names() == old(self).names().push((key, element))
                &&& final(self).pools().len() == old(self).pools().len() + 1
                &&& final(self).pools().drop_last() == old(self).pools()
                &&& fresh_pool(final(self).pools().last(), elem_size, initial, limit)
            },
    {
        match self.find_key(key) {
            Some(at) => at,
            None => {
                let ghost names = self.names();
                let ghost pools = self.pools();
                let at: usize = self.entries.len();
                let pool = VarLenGpuPool::new(elem_size, initial, limit);
                self.entries.push(PoolEntry { key, element, pool });
                proof {
                    assert(self.names() =~= names.push((key, element)));
                    assert(self.pools() =~= pools.push(pool));
                    assert(self.pools().drop_last() =~= pools);
                    assert forall|i: int, j: int|
                        #![trigger self.names()[i], self.names()[j]]
                        0 <= i < j < self.names().len() implies self.names()[i].0@
                        != self.names()[j].0@ by {
                        if j == names.len() {
                            assert(names[i].0@ != key@);
                        } else {
                            assert(names[i].0@ != names[j].0@);
                        }
                    }
                    assert forall|i: int| 0 <= i < self.pools().len() implies (
                    #[trigger] self.pools()[i]).wf() by {
                        if i < pools.len() {
                            assert(pools[i].wf());
                        }
                    }
                }
                at
            },
        }
    }

    /// The pool of `key`, if it has one with elements of that type.
    pub fn find(&self, key: BufferKey, element: TypeKey) -> (at: Option<usize>)
        requires
            self.wf(),
        ensures
            match at {
                Some(i) => has_pool(self.names(), key@) && i == pool_at(self.names(), key@) && i
                    < self.names().len() && self.names()[i as int].1 == element,
                None => !(has_pool(self.names(), key@) && self.names()[pool_at(
                    self.names(),
                    key@,
                )].1 == element),
            },
    {
        match self.find_key(key) {
            Some(at) => {
                assert(self.names()[at as int].1 == self.entries@[at as int].element);
                if self.entries[at].element == element {
                    Some(at)
                } else {
                    None
                }
            },
            None => None,
        }
    }

    /// A pool, to read or write rows.
    pub fn pool_mut(&mut self, at: usize) -> (pool: &mut VarLenGpuPool)
        requires
            old(self).wf(),
            at < old(self).names().len(),
        ensures
            *pool == old(self).pools()[at as int],
            pool.wf(),
            final(self).names() == old(self).names(),
            final(self).pools() == old(self).pools().update(at as int, *final(pool)),
            final(pool).wf() ==> final(self).wf(),
    {
        assert(self.pools()[at as int].wf());
        let ghost before = *self;
        let pool = &mut self.entries[at].pool;
        assert(after_borrow(*self).names() =~= before.names());
        assert(after_borrow(*self).pools() =~= before.pools().update(at as int, *final(pool)));
        pool
    }
}

/// A pool as it starts.
pub open spec fn fresh_pool(
    pool: VarLenGpuPool,
    elem_size: u32,
    initial: u32,
    limit: u32,
) -> bool {
    &&& pool.wf()
    &&& pool@ == (PoolState {
        buffer: DynamicState { elem_size, capacity: initial, limit, epoch: 0 },
        free: seq![(0u64, initial as u64)],
    })
}

/// A pool just registered has as many elements as it was to start with, all of them free, and the
/// element size and limit that were declared.
pub proof fn law_fresh_pool_is_free(
    pool: VarLenGpuPool,
    elem_size: u32,
    initial: u32,
    limit: u32,
    x: int,
)
    requires
        fresh_pool(pool, elem_size, initial, limit),
    ensures
        0 <= x < initial <==> exists|j: int|
            0 <= j < pool@.free.len() && (#[trigger] pool@.free[j]).0 <= x < pool@.free[j].0
                + pool@.free[j].1,
        pool@.buffer.capacity == initial,
        pool@.buffer.limit == limit,
        pool@.buffer.elem_size == elem_size,
{
    assert(pool@.free[0] == (0u64, initial as u64));
}
} // verus!
