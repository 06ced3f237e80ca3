//! Component types and their ids.
use crate::entity::ComponentId;
use crate::gpu::buffer_registry::TypeKey;
use vstd::prelude::*;
use vstd::string::*;

verus! {

/// A component type: what tells it from the others, and its name.
#[derive(Clone, Copy, Debug)]
pub struct ComponentType {
    pub key: TypeKey,
    pub name: &'static str,
}

/// The component types seen so far, in the order of their ids.
pub struct ComponentTypes {
    types: Vec<ComponentType>,
}

/// A type's key and its name.
pub type TypeEntry = (TypeKey, Seq<char>);

impl View for ComponentTypes {
    type V = Seq<TypeEntry>;

    closed spec fn view(&self) -> Seq<TypeEntry> {
        Seq::new(self.types@.len(), |i: int| (self.types@[i].key, self.types@[i].name@))
    }
}

/// Whether the type has an id.
pub open spec fn is_known(types: Seq<TypeEntry>, key: TypeKey) -> bool {
    exists|i: int| 0 <= i < types.len() && (#[trigger] types[i]).0 == key
}

/// The id of a type. Ids start at one.
pub open spec fn id_of(types: Seq<TypeEntry>, key: TypeKey) -> ComponentId {
    ComponentId((1 + choose|i: int| 0 <= i < types.len() && (#[trigger] types[i]).0 == key) as u32)
}

/// Whether some type has this id.
pub open spec fn is_id(types: Seq<TypeEntry>, id: ComponentId) -> bool {
    1 <= id.0 <= types.len()
}

/// The types after this one got an id, if it had none.
pub open spec fn with_type(types: Seq<TypeEntry>, ty: ComponentType) -> Seq<TypeEntry> {
    if is_known(types, ty.key) {
        types
    } else {
        types.push((ty.key, ty.name@))
    }
}

/// No type has two ids.
pub open spec fn keys_distinct(types: Seq<TypeEntry>) -> bool {
    forall|i: int, j: int|
        #![trigger types[i], types[j]]
        0 <= i < j < types.len() ==> types[i].0 != types[j].0
}

proof fn lemma_id_of(types: Seq<TypeEntry>, i: int)
    requires
        keys_distinct(types),
        0 <= i < types.len() <= u32::MAX,
    ensures
        is_known(types, types[i].0),
        id_of(types, types[i].0) == ComponentId((i + 1) as u32),
{
    let key = types[i].0;
    let j = choose|j: int| 0 <= j < types.len() && (#[trigger] types[j]).0 == key;
    if i < j {
        assert(types[i].0 != types[j].0);
    } else if j < i {
        assert(types[j].0 != types[i].0);
    }
}

impl ComponentTypes {
    /// No type has two ids, and all ids fit.
    pub open spec fn wf(&self) -> bool {
        &&& keys_distinct(self@)
        &&& self@.len() <= u32::MAX
    }

    /// No type has an id.
    pub fn new() -> (types: Self)
        ensures
            types.wf(),
            types@ == Seq::<TypeEntry>::empty(),
    {
        let types = ComponentTypes { types: Vec::new() };
        assert(types@ =~= seq![]);
        types
    }

    /// The id of a type that has one.
    pub fn find(&self, key: TypeKey) -> (id: Option<ComponentId>)
        requires
            self.wf(),
        ensures
            match id {
                Some(id) => is_known(self@, key) && id == id_of(self@, key) && is_id(self@, id),
                None => !is_known(self@, key),
            },
    {
        let mut i: usize = 0;
        while i < self.types.len()
            invariant
                self.wf(),
                i <= self.types@.len(),
                forall|k: int| 0 <= k < i ==> (#[trigger] self@[k]).0 != key,
            decreases self.types@.len() - i,
        {
            assert(self@[i as int].0 == self.types@[i as int].key);
            if self.types[i].key == key {
                proof {
                    lemma_id_of(self@, i as int);
                }
                return Some(ComponentId(i as u32 + 1));
            }
            i = i + 1;
        }
        None
    }

    /// The id of a type, which it gets now if it has none.
    pub fn component_id(&mut self, ty: ComponentType) -> (id: ComponentId)
        requires
            old(self).wf(),
            is_known(old(self)@, ty.key) || old(self)@.len() < u32::MAX,
        ensures
            final(self).wf(),
            final(self)@ == with_type(old(self)@, ty),
            id == id_of(final(self)@, ty.key),
            is_id(final(self)@, id),
    {
        match self.find(ty.key) {
            Some(id) => id,
            None => {
                let ghost before = self@;
                let i: usize = self.types.len();
                self.types.push(ty);
                proof {
                    assert(self@ =~= before.push((ty.key, ty.name@)));
                    assert forall|a: int, b: int|
                        #![trigger self@[a], self@[b]]
                        0 <= a < b < self@.len() implies self@[a].0 != self@[b].0 by {
                        if b == before.len() {
                            assert(before[a].0 != ty.key);
                        } else {
                            assert(before[a].0 != before[b].0);
                        }
                    }
                    lemma_id_of(self@, i as int);
                }
                ComponentId(i as u32 + 1)
            },
        }
    }

    /// The type that has this id.
    pub fn type_of(&self, id: ComponentId) -> (key: TypeKey)
        requires
            is_id(self@, id),
        ensures
            key == self@[id.0 - 1].0,
    {
        self.types[id.0 as usize - 1].key
    }

    /// The name of the type that has this id.
    pub fn name_of(&self, id: ComponentId) -> (name: &'static str)
        requires
            is_id(self@, id),
        ensures
            name@ == self@[id.0 - 1].1,
    {
        self.types[id.0 as usize - 1].name
    }
}

/// Ids tell types apart, and a type keeps its id when others get theirs.
pub proof fn law_ids_identify_types(types: Seq<TypeEntry>, i: int, j: int, ty: ComponentType)
    requires
        keys_distinct(types),
        types.len() < u32::MAX,
        0 <= i < types.len(),
        0 <= j < types.len(),
    ensures
        (id_of(types, types[i].0) == id_of(types, types[j].0)) == (types[i].0 == types[j].0),
        types[id_of(types, types[i].0).0 - 1] == types[i],
        id_of(with_type(types, ty), types[i].0) == id_of(types, types[i].0),
{
    lemma_id_of(types, i);
    lemma_id_of(types, j);
    let after = with_type(types, ty);
    assert(keys_distinct(after)) by {
        assert forall|a: int, b: int|
            #![trigger after[a], after[b]]
            0 <= a < b < after.len() implies after[a].0 != after[b].0 by {
            if b == types.len() {
                assert(types[a].0 != ty.key);
            } else {
                assert(types[a].0 != types[b].0);
            }
        }
    }
    lemma_id_of(after, i);
}

/// A type that is new gets the next number, counted from one; a type that is known keeps its own, and
/// nothing is registered twice.
pub proof fn law_new_type_gets_the_next_number(types: Seq<TypeEntry>, ty: ComponentType, i: int)
    requires
        keys_distinct(types),
        types.len() < u32::MAX,
    ensures
        keys_distinct(with_type(types, ty)),
        is_known(with_type(types, ty), ty.key),
        !is_known(types, ty.key) ==> id_of(with_type(types, ty), ty.key).0 == types.len() + 1
            && with_type(types, ty).len() == types.len() + 1 && with_type(types, ty).last() == (
            ty.key,
            ty.name@,
        ),
        is_known(types, ty.key) ==> with_type(types, ty) == types,
        0 <= i < types.len() ==> with_type(types, ty)[i] == types[i],
{
    let after = with_type(types, ty);
    if !is_known(types, ty.key) {
        let n = types.len() as int;
        assert(after[n].0 == ty.key);
        let k = choose|k: int| 0 <= k < after.len() && (#[trigger] after[k]).0 == ty.key;
        if k < n {
            assert(types[k].0 == ty.key);
        }
        assert forall|a: int, b: int|
            #![trigger after[a], after[b]]
            0 <= a < b < after.len() implies after[a].0 != after[b].0 by {
            if b == n {
                assert(types[a].0 != ty.key);
            } else {
                assert(types[a].0 != types[b].0);
            }
        }
    }
}

} // verus!
