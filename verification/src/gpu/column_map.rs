//! Which buffer each column is bound to.
use crate::entity::ComponentId;
use vstd::prelude::*;

verus! {

/// A column and the index of the buffer it is bound to.
pub type Binding = (ComponentId, usize);

/// Whether `id` is bound.
pub open spec fn is_bound(bindings: Seq<Binding>, id: ComponentId) -> bool {
    exists|i: int| 0 <= i < bindings.len() && (#[trigger] bindings[i]).0 == id
}

/// Where `id` is bound.
pub open spec fn binding_at(bindings: Seq<Binding>, id: ComponentId) -> int {
    choose|i: int| 0 <= i < bindings.len() && (#[trigger] bindings[i]).0 == id
}

/// The buffer `id` is bound to.
pub open spec fn target_of(bindings: Seq<Binding>, id: ComponentId) -> Option<usize> {
    if is_bound(bindings, id) {
        Some(bindings[binding_at(bindings, id)].1)
    } else {
        None
    }
}

/// The bindings with `id` bound to `target`.
pub open spec fn bound(bindings: Seq<Binding>, id: ComponentId, target: usize) -> Seq<Binding> {
    if is_bound(bindings, id) {
        bindings.update(binding_at(bindings, id), (id, target))
    } else {
        bindings.push((id, target))
    }
}

/// No column is bound twice.
pub open spec fn ids_distinct(bindings: Seq<Binding>) -> bool {
    forall|i: int, j: int|
        #![trigger bindings[i], bindings[j]]
        0 <= i < j < bindings.len() ==> bindings[i].0 != bindings[j].0
}

/// Column bindings in the order they were made.
#[derive(Debug)]
pub struct ColumnMap {
    bindings: Vec<Binding>,
}

impl View for ColumnMap {
    type V = Seq<Binding>;

    closed spec fn view(&self) -> Seq<Binding> {
        self.bindings@
    }
}

impl ColumnMap {
    pub open spec fn wf(&self) -> bool {
        ids_distinct(self@)
    }

    pub fn new() -> (map: Self)
        ensures
            map.wf(),
            map@.len() == 0,
    {
        ColumnMap { bindings: Vec::new() }
    }

    fn find(&self, id: ComponentId) -> (at: Option<usize>)
        requires
            self.wf(),
        ensures
            match at {
                Some(i) => is_bound(self@, id) && i == binding_at(self@, id) && i < self@.len(),
                None => !is_bound(self@, id),
            },
    {
        let mut i: usize = 0;
        while i < self.bindings.len()
            invariant
                self.wf(),
                i <= self@.len(),
                forall|k: int| 0 <= k < i ==> (#[trigger] self@[k]).0 != id,
            decreases self@.len() - i,
        {
            if self.bindings[i].0 == id {
                proof {
                    assert(self@[i as int].0 == id);
                    let k = binding_at(self@, id);
                    assert(self@[k].0 == id);
                }
                return Some(i);
            }
            i = i + 1;
        }
        None
    }

    /// The buffer `id` is bound to.
    pub fn get(&self, id: ComponentId) -> (target: Option<usize>)
        requires
            self.wf(),
        ensures
            target == target_of(self@, id),
    {
        match self.find(id) {
            Some(i) => Some(self.bindings[i].1),
            None => None,
        }
    }

    /// Binds `id` to `target`, in place of what it was bound to.
    pub fn bind(&mut self, id: ComponentId, target: usize)
        requires
            old(self).wf(),
        ensures
            final(self).wf(),
            final(self)@ == bound(old(self)@, id, target),
    {
        match self.find(id) {
            Some(i) => {
                self.bindings.set(i, (id, target));
            },
            None => {
                self.bindings.push((id, target));
            },
        }
    }

    /// How many columns are bound.
    pub fn len(&self) -> (n: usize)
        ensures
            n == self@.len(),
    {
        self.bindings.len()
    }

    /// Binding `i`.
    pub fn at(&self, i: usize) -> (binding: Binding)
        requires
            i < self@.len(),
        ensures
            binding == self@[i as int],
    {
        self.bindings[i]
    }
}

/// Binding one column changes what no other column is bound to.
pub proof fn lemma_bound(bindings: Seq<Binding>, id: ComponentId, target: usize)
    requires
        ids_distinct(bindings),
    ensures
        ids_distinct(bound(bindings, id, target)),
        target_of(bound(bindings, id, target), id) == Some(target),
        forall|other: ComponentId|
            other != id ==> #[trigger] target_of(bound(bindings, id, target), other) == target_of(
                bindings,
                other,
            ),
        forall|i: int|
            0 <= i < bound(bindings, id, target).len() ==> (#[trigger] bound(
                bindings,
                id,
                target,
            )[i]).1 == target || (i < bindings.len() && bound(bindings, id, target)[i]
                == bindings[i]),
{
    let after = bound(bindings, id, target);
    let at = if is_bound(bindings, id) {
        binding_at(bindings, id)
    } else {
        bindings.len() as int
    };
    assert(after[at] == (id, target));
    let k = binding_at(after, id);
    assert(after[k].0 == id);
    assert(k == at) by {
        if is_bound(bindings, id) {
            assert(bindings[at].0 == id);
            if k != at {
                assert(bindings[k].0 == id);
            }
        } else if k != at {
            assert(bindings[k].0 == id);
        }
    }
    assert forall|other: ComponentId| other != id implies #[trigger] target_of(after, other)
        == target_of(bindings, other) by {
        if is_bound(bindings, other) {
            let i = binding_at(bindings, other);
            assert(bindings[i].0 == other);
            assert(after[i] == bindings[i]);
            assert(is_bound(after, other));
            let j = binding_at(after, other);
            assert(after[j].0 == other);
            assert(j == i) by {
                if j != i {
                    assert(j < bindings.len());
                    assert(bindings[j].0 == other);
                }
            }
        }
        if is_bound(after, other) {
            let j = binding_at(after, other);
            assert(after[j].0 == other);
            assert(j < bindings.len() && bindings[j].0 == other);
        }
    }
}

/// A column that is bound leads to its target, once; every other column leads where it did.
pub proof fn law_binding_moves_one_column(
    bindings: Seq<Binding>,
    id: ComponentId,
    target: usize,
    other: ComponentId,
)
    requires
        ids_distinct(bindings),
    ensures
        ({
            let after = bound(bindings, id, target);
            &&& ids_distinct(after)
            &&& target_of(after, id) == Some(target)
            &&& other != id ==> target_of(after, other) == target_of(bindings, other)
            &&& after.len() == if is_bound(bindings, id) {
                bindings.len()
            } else {
                bindings.len() + 1
            }
        }),
{
    let after = bound(bindings, id, target);
    let at = if is_bound(bindings, id) {
        binding_at(bindings, id)
    } else {
        bindings.len() as int
    };
    assert(after[at] == (id, target));
    assert forall|i: int, j: int|
        #![trigger after[i], after[j]]
        0 <= i < j < after.len() implies after[i].0 != after[j].0 by {
        if j < bindings.len() {
            assert(bindings[i].0 != bindings[j].0);
        } else {
            assert(bindings[i].0 != id);
        }
    }
    assert forall|x: ComponentId, i: int|
        0 <= i < after.len() && (#[trigger] after[i]).0 == x implies #[trigger] target_of(after, x)
        == Some(after[i].1) by {
        let j = binding_at(after, x);
        assert(after[j].0 == x);
        if i < j {
            assert(after[i].0 != after[j].0);
        } else if j < i {
            assert(after[j].0 != after[i].0);
        }
    }
    assert(target_of(after, id) == Some(after[at].1));
    if other != id {
        if is_bound(bindings, other) {
            let k = binding_at(bindings, other);
            assert(bindings[k].0 == other);
            assert(after[k] == bindings[k]);
            assert(target_of(after, other) == Some(after[k].1));
        }
        if is_bound(after, other) {
            let k = binding_at(after, other);
            assert(after[k].0 == other);
            assert(bindings[k].0 == other);
        }
    }
}

} // verus!
