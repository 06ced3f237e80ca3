//! Methods that can be called on a component of an entity.
//!
//! Some methods see the component only, read it or write to it; the others get the whole world.
//! Which of them a component type has, and what a call of one by name needs, is settled here.
use crate::component::ComponentTypes;
use crate::entity::{ComponentId, Entity};
use crate::gpu::buffer_registry::TypeKey;
use crate::handle_ledger::HandleId;
use crate::mut_guard::{MutDyn, MutHooks, Observers};
use crate::text::{push_decimal, same_text};
use crate::world::World;
use vstd::prelude::*;
use vstd::string::*;

verus! {

use crate::component::is_id;
use crate::component_ref::listed;
use crate::mut_guard::hooks_for;
use crate::text::decimal;

/// What a method is called, and whether it changes nothing.
#[derive(Clone, Copy, Debug)]
pub struct MethodInfo {
    pub name: &'static str,
    pub side_effect_free: bool,
}

/// How a method of a component type takes the component.
#[derive(Clone, Copy, Debug, PartialEq, Eq, Structural)]
pub enum ReceiverKind {
    /// Not at all.
    Absent,
    /// To read.
    Ref,
    /// To write to.
    Mut,
}

/// A method of a component type. `shim` tells which function it is.
#[derive(Clone, Copy, Debug)]
pub struct ReflectedMethod {
    pub info: MethodInfo,
    pub receiver: ReceiverKind,
    pub shim: u32,
}

/// A method that gets the world and the entity. `shim` tells which function it is.
#[derive(Clone, Copy, Debug)]
pub struct WorldMethod {
    pub info: MethodInfo,
    pub shim: u32,
}

/// The methods of one type.
#[derive(Debug)]
pub struct TypeMethods {
    pub ty: TypeKey,
    pub methods: Vec<ReflectedMethod>,
}

/// World methods of one component type.
#[derive(Debug)]
pub struct WorldMethodRegistration {
    pub component: TypeKey,
    pub methods: Vec<WorldMethod>,
}

/// A method that can be called on a component.
#[derive(Clone, Copy, Debug)]
pub enum ComponentMethod {
    Reflected(ReflectedMethod),
    World(WorldMethod),
}

impl ComponentMethod {
    /// What the method is called.
    pub open spec fn named(self) -> Seq<char> {
        match self {
            ComponentMethod::Reflected(m) => m.info.name@,
            ComponentMethod::World(m) => m.info.name@,
        }
    }

    /// What is known of the method.
    pub fn info(&self) -> (info: MethodInfo)
        ensures
            info == match *self {
                ComponentMethod::Reflected(m) => m.info,
                ComponentMethod::World(m) => m.info,
            },
            info.name@ == self.named(),
    {
        match *self {
            ComponentMethod::Reflected(m) => m.info,
            ComponentMethod::World(m) => m.info,
        }
    }

    /// What the method is called.
    pub fn name(&self) -> (name: &'static str)
        ensures
            name@ == self.named(),
    {
        self.info().name
    }

    /// Whether a call can change the component or, for a world method, anything.
    pub fn mutates(&self) -> (mutates: bool)
        ensures
            mutates == match *self {
                ComponentMethod::Reflected(m) => m.receiver == ReceiverKind::Mut,
                ComponentMethod::World(m) => !m.info.side_effect_free,
            },
    {
        match *self {
            ComponentMethod::Reflected(m) => m.receiver == ReceiverKind::Mut,
            ComponentMethod::World(m) => !m.info.side_effect_free,
        }
    }
}

/// Why a call failed.
#[derive(Debug)]
pub enum ComponentCallError {
    /// The component type has no method of this name.
    NoSuchMethod { component: &'static str, method: String },
    /// The entity is not alive or does not have the component.
    MissingComponent { entity: Entity, component: &'static str },
    /// The method refused its arguments, or failed.
    Call(String),
}

impl ComponentCallError {
    /// The message.
    pub open spec fn message(self) -> Seq<char> {
        match self {
            ComponentCallError::NoSuchMethod { component, method } => component@
                + " has no method `"@ + method@ + "`"@,
            ComponentCallError::MissingComponent { entity, component } => "Entity { index: "@
                + decimal(entity.index as nat) + ", generation: "@ + decimal(
                entity.generation as nat,
            ) + " } has no "@ + component@,
            ComponentCallError::Call(message) => message@,
        }
    }

    /// The message.
    pub fn describe(&self) -> (text: String)
        ensures
            text@ == self.message(),
    {
        match self {
            ComponentCallError::NoSuchMethod { component, method } => {
                let mut text = (*component).to_owned();
                text.append(" has no method `");
                text.append(method.as_str());
                text.append("`");
                text
            },
            ComponentCallError::MissingComponent { entity, component } => {
                let mut text = "Entity { index: ".to_owned();
                push_decimal(&mut text, entity.index as u64);
                text.append(", generation: ");
                push_decimal(&mut text, entity.generation as u64);
                text.append(" } has no ");
                text.append(*component);
                text
            },
            ComponentCallError::Call(message) => message.as_str().to_owned(),
        }
    }
}

/// The methods of the component types.
pub type MethodTable = Seq<(TypeKey, Seq<ComponentMethod>)>;

/// Where a type stands in the table; past the end if it does not.
pub open spec fn table_at(table: MethodTable, ty: TypeKey) -> int
    decreases table.len(),
{
    if table.len() == 0 {
        0
    } else if table[0].0 == ty {
        0
    } else {
        1 + table_at(table.skip(1), ty)
    }
}

/// The methods of a type.
pub open spec fn methods_of(table: MethodTable, ty: TypeKey) -> Seq<ComponentMethod> {
    if table_at(table, ty) < table.len() {
        table[table_at(table, ty)].1
    } else {
        seq![]
    }
}

/// The methods that take the component.
pub open spec fn with_receiver(methods: Seq<ReflectedMethod>) -> Seq<ComponentMethod>
    decreases methods.len(),
{
    if methods.len() == 0 {
        seq![]
    } else if methods.last().receiver == ReceiverKind::Absent {
        with_receiver(methods.drop_last())
    } else {
        with_receiver(methods.drop_last()).push(ComponentMethod::Reflected(methods.last()))
    }
}

/// The table after the methods of one type were entered, if it has any that take the component.
pub open spec fn type_entered(table: MethodTable, entry: TypeMethods) -> MethodTable {
    let methods = with_receiver(entry.methods@);
    if methods.len() == 0 {
        table
    } else if table_at(table, entry.ty) < table.len() {
        table.update(table_at(table, entry.ty), (entry.ty, methods))
    } else {
        table.push((entry.ty, methods))
    }
}

/// Whether one of the methods is called so.
pub open spec fn has_name(methods: Seq<ComponentMethod>, name: Seq<char>) -> bool {
    exists|i: int| 0 <= i < methods.len() && (#[trigger] methods[i]).named() == name
}

/// The methods with world methods added, except those whose name is taken.
pub open spec fn world_methods_added(
    methods: Seq<ComponentMethod>,
    more: Seq<WorldMethod>,
) -> Seq<ComponentMethod>
    decreases more.len(),
{
    if more.len() == 0 {
        methods
    } else {
        let before = world_methods_added(methods, more.drop_last());
        if has_name(before, more.last().info.name@) {
            before
        } else {
            before.push(ComponentMethod::World(more.last()))
        }
    }
}

/// The table after world methods of one type were entered.
pub open spec fn world_entered(table: MethodTable, entry: WorldMethodRegistration) -> MethodTable {
    let at = table_at(table, entry.component);
    let methods = world_methods_added(methods_of(table, entry.component), entry.methods@);
    if at < table.len() {
        table.update(at, (entry.component, methods))
    } else {
        table.push((entry.component, methods))
    }
}

/// The table of these types.
pub open spec fn types_entered(types: Seq<TypeMethods>) -> MethodTable
    decreases types.len(),
{
    if types.len() == 0 {
        seq![]
    } else {
        type_entered(types_entered(types.drop_last()), types.last())
    }
}

/// The table after these registrations.
pub open spec fn all_entered(
    table: MethodTable,
    registrations: Seq<WorldMethodRegistration>,
) -> MethodTable
    decreases registrations.len(),
{
    if registrations.len() == 0 {
        table
    } else {
        world_entered(all_entered(table, registrations.drop_last()), registrations.last())
    }
}

/// Where the method called so is; past the end if there is none.
pub open spec fn method_at(methods: Seq<ComponentMethod>, name: Seq<char>) -> int
    decreases methods.len(),
{
    if methods.len() == 0 {
        0
    } else if methods[0].named() == name {
        0
    } else {
        1 + method_at(methods.skip(1), name)
    }
}

proof fn lemma_table_at(table: MethodTable, ty: TypeKey, at: int)
    requires
        0 <= at <= table.len(),
        forall|i: int| 0 <= i < at ==> (#[trigger] table[i]).0 != ty,
        at < table.len() ==> table[at].0 == ty,
    ensures
        table_at(table, ty) == at,
    decreases table.len(),
{
    if table.len() > 0 && table[0].0 != ty {
        let rest = table.skip(1);
        assert forall|i: int| 0 <= i < at - 1 implies (#[trigger] rest[i]).0 != ty by {
            assert(table[i + 1].0 != ty);
        }
        lemma_table_at(rest, ty, at - 1);
    }
}

proof fn lemma_method_at(methods: Seq<ComponentMethod>, name: Seq<char>, at: int)
    requires
        0 <= at <= methods.len(),
        forall|i: int| 0 <= i < at ==> (#[trigger] methods[i]).named() != name,
        at < methods.len() ==> methods[at].named() == name,
    ensures
        method_at(methods, name) == at,
        (at < methods.len()) == has_name(methods, name),
    decreases methods.len(),
{
    if methods.len() > 0 && methods[0].named() != name {
        let rest = methods.skip(1);
        assert forall|i: int| 0 <= i < at - 1 implies (#[trigger] rest[i]).named() != name by {
            assert(methods[i + 1].named() != name);
        }
        lemma_method_at(rest, name, at - 1);
    }
    if at < methods.len() {
        assert(methods[at].named() == name);
    }
}

/// The methods of the component types.
#[derive(Debug)]
pub struct ComponentMethods {
    table: Vec<(TypeKey, Vec<ComponentMethod>)>,
}

spec fn table_view(table: Seq<(TypeKey, Vec<ComponentMethod>)>) -> MethodTable {
    Seq::new(table.len(), |i: int| (table[i].0, table[i].1@))
}

impl View for ComponentMethods {
    type V = MethodTable;

    closed spec fn view(&self) -> MethodTable {
        table_view(self.table@)
    }
}

impl ComponentMethods {
    /// The methods of these types, then the world methods. A world method whose name is taken is
    /// left out.
    pub fn collect(
        types: &Vec<TypeMethods>,
        registrations: &Vec<WorldMethodRegistration>,
    ) -> (methods: Self)
        ensures
            methods@ == all_entered(types_entered(types@), registrations@),
    {
        let mut methods = ComponentMethods { table: Vec::new() };
        assert(methods@ =~= types_entered(types@.take(0)));
        let mut i: usize = 0;
        while i < types.len()
            invariant
                i <= types@.len(),
                methods@ == types_entered(types@.take(i as int)),
            decreases types@.len() - i,
        {
            methods.enter_type(&types[i]);
            i = i + 1;
            assert(types@.take(i as int).drop_last() =~= types@.take(i - 1));
            assert(types@.take(i as int).last() == types@[i - 1]);
        }
        assert(types@.take(i as int) =~= types@);
        let ghost table = methods@;
        let mut j: usize = 0;
        while j < registrations.len()
            invariant
                j <= registrations@.len(),
                methods@ == all_entered(table, registrations@.take(j as int)),
            decreases registrations@.len() - j,
        {
            methods.enter_world(&registrations[j]);
            j = j + 1;
            assert(registrations@.take(j as int).drop_last() =~= registrations@.take(j - 1));
            assert(registrations@.take(j as int).last() == registrations@[j - 1]);
        }
        assert(registrations@.take(j as int) =~= registrations@);
        methods
    }

    fn find(&self, ty: TypeKey) -> (at: usize)
        ensures
            at == table_at(self@, ty),
            at <= self@.len(),
    {
        let mut at: usize = 0;
        while at < self.table.len() && self.table[at].0 != ty
            invariant
                at <= self.table@.len(),
                forall|k: int| 0 <= k < at ==> (#[trigger] self@[k]).0 != ty,
            decreases self.table@.len() - at,
        {
            assert(self@[at as int].0 == self.table@[at as int].0);
            at = at + 1;
        }
        proof {
            if at < self@.len() {
                assert(self@[at as int].0 == self.table@[at as int].0);
            }
            lemma_table_at(self@, ty, at as int);
        }
        at
    }

    fn enter_type(&mut self, entry: &TypeMethods)
        ensures
            final(self)@ == type_entered(old(self)@, *entry),
    {
        let ghost before = self@;
        let mut methods: Vec<ComponentMethod> = Vec::new();
        let mut i: usize = 0;
        assert(entry.methods@.take(0) =~= seq![]);
        while i < entry.methods.len()
            invariant
                i <= entry.methods@.len(),
                methods@ == with_receiver(entry.methods@.take(i as int)),
            decreases entry.methods@.len() - i,
        {
            proof {
                let more = entry.methods@.take(i + 1);
                assert(more.drop_last() =~= entry.methods@.take(i as int));
                assert(more.last() == entry.methods@[i as int]);
            }
            let method: ReflectedMethod = entry.methods[i];
            if method.receiver != ReceiverKind::Absent {
                methods.push(ComponentMethod::Reflected(method));
            }
            i = i + 1;
        }
        assert(entry.methods@.take(i as int) =~= entry.methods@);
        if methods.len() > 0 {
            let at: usize = self.find(entry.ty);
            if at < self.table.len() {
                self.table.set(at, (entry.ty, methods));
            } else {
                self.table.push((entry.ty, methods));
            }
            assert(self@ =~= type_entered(before, *entry));
        }
    }

    fn enter_world(&mut self, entry: &WorldMethodRegistration)
        ensures
            final(self)@ == world_entered(old(self)@, *entry),
    {
        let ghost before = self@;
        let at: usize = self.find(entry.component);
        let mut methods: Vec<ComponentMethod> = Vec::new();
        if at < self.table.len() {
            assert(before[at as int].1 == self.table@[at as int].1@);
            std::mem::swap(&mut methods, &mut self.table[at].1);
        }
        let ghost start = methods@;
        assert(start =~= methods_of(before, entry.component));
        let mut i: usize = 0;
        assert(entry.methods@.take(0) =~= seq![]);
        while i < entry.methods.len()
            invariant
                i <= entry.methods@.len(),
                methods@ == world_methods_added(start, entry.methods@.take(i as int)),
            decreases entry.methods@.len() - i,
        {
            proof {
                let more = entry.methods@.take(i + 1);
                assert(more.drop_last() =~= entry.methods@.take(i as int));
                assert(more.last() == entry.methods@[i as int]);
            }
            let method: WorldMethod = entry.methods[i];
            if find_named(&methods, method.info.name).is_none() {
                methods.push(ComponentMethod::World(method));
            }
            i = i + 1;
        }
        assert(entry.methods@.take(i as int) =~= entry.methods@);
        if at < self.table.len() {
            self.table.set(at, (entry.component, methods));
        } else {
            self.table.push((entry.component, methods));
        }
        assert(self@ =~= world_entered(before, *entry));
    }

    /// Every method that can be called on a component of this type.
    pub fn component_methods_of_type(&self, ty: TypeKey) -> (methods: &[ComponentMethod])
        ensures
            methods@ == methods_of(self@, ty),
    {
        let at: usize = self.find(ty);
        if at < self.table.len() {
            assert(self@[at as int].1 == self.table@[at as int].1@);
            self.table[at].1.as_slice()
        } else {
            let none: &[ComponentMethod] = &[];
            assert(none@ =~= seq![]);
            none
        }
    }

    /// Every method that can be called on a component with this id.
    pub fn component_methods(
        &self,
        types: &ComponentTypes,
        cid: ComponentId,
    ) -> (methods: &[ComponentMethod])
        requires
            is_id(types@, cid),
        ensures
            methods@ == methods_of(self@, types@[cid.0 - 1].0),
    {
        self.component_methods_of_type(types.type_of(cid))
    }

    /// The method called so on a component with this id, the first one if there are several.
    pub fn find_component_method(&self, types: &ComponentTypes, cid: ComponentId, name: &str) -> (
    method: Option<ComponentMethod>)
        requires
            is_id(types@, cid),
        ensures
            method == found_method(methods_of(self@, types@[cid.0 - 1].0), name@),
    {
        let methods = self.component_methods(types, cid);
        match find_named(methods, name) {
            Some(at) => Some(methods[at]),
            None => None,
        }
    }
}

/// The first method called so.
pub open spec fn found_method(
    methods: Seq<ComponentMethod>,
    name: Seq<char>,
) -> Option<ComponentMethod> {
    if has_name(methods, name) {
        Some(methods[method_at(methods, name)])
    } else {
        None
    }
}

fn find_named(methods: &[ComponentMethod], name: &str) -> (at: Option<usize>)
    ensures
        match at {
            Some(at) => {
                &&& at < methods@.len()
                &&& at == method_at(methods@, name@)
                &&& has_name(methods@, name@)
            },
            None => !has_name(methods@, name@),
        },
{
    let mut i: usize = 0;
    while i < methods.len()
        invariant
            i <= methods@.len(),
            forall|k: int| 0 <= k < i ==> (#[trigger] methods@[k]).named() != name@,
        decreases methods@.len() - i,
    {
        if same_text(methods[i].name(), name) {
            proof {
                lemma_method_at(methods@, name@, i as int);
            }
            return Some(i);
        }
        i = i + 1;
    }
    proof {
        lemma_method_at(methods@, name@, i as int);
    }
    None
}

impl From<String> for ComponentCallError {
    /// What a method failed with.
    fn from(failure: String) -> (e: Self) {
        ComponentCallError::Call(failure)
    }
}

impl vstd::std_specs::convert::FromSpecImpl<String> for ComponentCallError {
    open spec fn obeys_from_spec() -> bool {
        true
    }

    open spec fn from_spec(failure: String) -> Self {
        ComponentCallError::Call(failure)
    }
}

/// What a call comes to, given what the method itself came to: its value, or its failure as a
/// failed call.
pub fn call_outcome<T>(outcome: Result<T, String>) -> (r: Result<T, ComponentCallError>)
    ensures
        match outcome {
            Ok(value) => r == Ok::<T, ComponentCallError>(value),
            Err(failure) => r == Err::<T, ComponentCallError>(ComponentCallError::Call(failure)),
        },
{
    match outcome {
        Ok(value) => Ok(value),
        Err(failure) => Err(ComponentCallError::from(failure)),
    }
}

/// What a method is to be called on.
pub enum Callee<'w, V> {
    /// The component, to read. Nobody is told.
    Read(&'w V),
    /// The component, to write to. Ending the access tells the observers.
    Write(MutDyn<'w, V>),
    /// The world and the entity.
    World,
}

impl<V> World<V> {
    /// The method called so on a component of an entity, and what to call it on. The caller runs the
    /// method once and hands what it came to to `call_outcome`.
    pub fn call_component_method<'w>(
        &'w mut self,
        methods: &ComponentMethods,
        types: &ComponentTypes,
        observers: &Observers,
        handles: Option<Vec<HandleId>>,
        entity: Entity,
        cid: ComponentId,
        name: &str,
    ) -> (r: Result<(ComponentMethod, Callee<'w, V>), ComponentCallError>)
        requires
            old(self).wf(),
            is_id(types@, cid),
        ensures
            final(self).wf(),
            match found_method(methods_of(methods@, types@[cid.0 - 1].0), name@) {
                None => {
                    &&& final(self)@ == old(self)@
                    &&& r matches Err(ComponentCallError::NoSuchMethod { component, method })
                    &&& component@ == types@[cid.0 - 1].1
                    &&& method@ == name@
                },
                Some(method) => match r {
                    Ok((m, callee)) => {
                        &&& m == method
                        &&& old(self)@.value(entity, cid) is Some
                        &&& match callee {
                            Callee::Read(value) => {
                                &&& reads(method)
                                &&& old(self)@.value(entity, cid) == Some(*value)
                                &&& final(self)@ == old(self)@
                            },
                            Callee::Write(guard) => {
                                &&& writes(method)
                                &&& old(self)@.value(entity, cid) == Some(*guard.value)
                                &&& final(self)@ == old(self)@.inserted(
                                    entity,
                                    cid,
                                    *final(guard.value),
                                )
                                &&& !guard.mutated
                                &&& guard.hooks@ == hooks_for(
                                    observers@,
                                    entity,
                                    cid,
                                    listed(handles),
                                )
                                &&& guard.key == types@[cid.0 - 1].0
                            },
                            Callee::World => method is World && final(self)@ == old(self)@,
                        }
                    },
                    Err(e) => {
                        &&& final(self)@ == old(self)@
                        &&& old(self)@.value(entity, cid) is None
                        &&& e matches ComponentCallError::MissingComponent {
                            entity: missing,
                            component,
                        }
                        &&& missing == entity
                        &&& component@ == types@[cid.0 - 1].1
                    },
                },
            },
    {
        match methods.find_component_method(types, cid, name) {
            None => Err(
                ComponentCallError::NoSuchMethod {
                    component: types.name_of(cid),
                    method: name.to_owned(),
                },
            ),
            Some(method) => match self.invoke_component_method(
                types,
                observers,
                handles,
                entity,
                cid,
                method,
            ) {
                Ok(callee) => Ok((method, callee)),
                Err(e) => Err(e),
            },
        }
    }

    /// What to call a method on that was found before. The caller runs the method once and hands what
    /// it came to to `call_outcome`.
    pub fn invoke_component_method<'w>(
        &'w mut self,
        types: &ComponentTypes,
        observers: &Observers,
        handles: Option<Vec<HandleId>>,
        entity: Entity,
        cid: ComponentId,
        method: ComponentMethod,
    ) -> (r: Result<Callee<'w, V>, ComponentCallError>)
        requires
            old(self).wf(),
            is_id(types@, cid),
        ensures
            final(self).wf(),
            match r {
                Ok(callee) => {
                    &&& old(self)@.value(entity, cid) is Some
                    &&& match callee {
                        Callee::Read(value) => {
                            &&& reads(method)
                            &&& old(self)@.value(entity, cid) == Some(*value)
                            &&& final(self)@ == old(self)@
                        },
                        Callee::Write(guard) => {
                            &&& writes(method)
                            &&& old(self)@.value(entity, cid) == Some(*guard.value)
                            &&& final(self)@ == old(self)@.inserted(
                                entity,
                                cid,
                                *final(guard.value),
                            )
                            &&& !guard.mutated
                            &&& guard.hooks@ == hooks_for(
                                observers@,
                                entity,
                                cid,
                                listed(handles),
                            )
                            &&& guard.key == types@[cid.0 - 1].0
                        },
                        Callee::World => method is World && final(self)@ == old(self)@,
                    }
                },
                Err(e) => {
                    &&& final(self)@ == old(self)@
                    &&& old(self)@.value(entity, cid) is None
                    &&& e matches ComponentCallError::MissingComponent {
                        entity: missing,
                        component,
                    }
                    &&& missing == entity
                    &&& component@ == types@[cid.0 - 1].1
                },
            },
    {
        let name: &'static str = types.name_of(cid);
        if !self.has_component(entity, cid) {
            return Err(ComponentCallError::MissingComponent { entity, component: name });
        }
        match method {
            ComponentMethod::Reflected(m) => {
                if m.receiver == ReceiverKind::Mut {
                    match self.get_mut(entity, cid) {
                        Some(value) => {
                            let hooks = MutHooks::new(observers, entity, cid, handles);
                            Ok(Callee::Write(MutDyn::new(value, hooks, types.type_of(cid))))
                        },
                        None => Err(
                            ComponentCallError::MissingComponent { entity, component: name },
                        ),
                    }
                } else {
                    match self.get(entity, cid) {
                        Some(value) => Ok(Callee::Read(value)),
                        None => Err(
                            ComponentCallError::MissingComponent { entity, component: name },
                        ),
                    }
                }
            },
            ComponentMethod::World(_) => Ok(Callee::World),
        }
    }
}

/// The method writes to the component.
pub open spec fn writes(method: ComponentMethod) -> bool {
    method matches ComponentMethod::Reflected(m) && m.receiver == ReceiverKind::Mut
}

/// The method reads the component.
pub open spec fn reads(method: ComponentMethod) -> bool {
    method matches ComponentMethod::Reflected(m) && m.receiver != ReceiverKind::Mut
}

/// A world method never takes the name of another method: adding world methods keeps all that were
/// there, in place, and each one added has a name that none before it has.
pub proof fn law_names_are_not_taken_twice(
    methods: Seq<ComponentMethod>,
    more: Seq<WorldMethod>,
    i: int,
)
    requires
        0 <= i < world_methods_added(methods, more).len(),
    ensures
        world_methods_added(methods, more).len() >= methods.len(),
        i < methods.len() ==> world_methods_added(methods, more)[i] == methods[i],
        i >= methods.len() ==> {
            &&& world_methods_added(methods, more)[i] is World
            &&& !has_name(
                world_methods_added(methods, more).take(i),
                world_methods_added(methods, more)[i].named(),
            )
        },
    decreases more.len(),
{
    if more.len() > 0 {
        let before = world_methods_added(methods, more.drop_last());
        let after = world_methods_added(methods, more);
        if i < before.len() {
            law_names_are_not_taken_twice(methods, more.drop_last(), i);
            assert(after.take(i) =~= before.take(i));
        } else {
            if before.len() > 0 {
                law_names_are_not_taken_twice(methods, more.drop_last(), before.len() - 1);
            } else {
                lemma_added_len(methods, more.drop_last());
            }
            assert(after.take(i) =~= before);
        }
    }
}

proof fn lemma_added_len(methods: Seq<ComponentMethod>, more: Seq<WorldMethod>)
    ensures
        world_methods_added(methods, more).len() >= methods.len(),
    decreases more.len(),
{
    if more.len() > 0 {
        lemma_added_len(methods, more.drop_last());
    }
}

proof fn lemma_table_place(table: MethodTable, ty: TypeKey)
    ensures
        0 <= table_at(table, ty) <= table.len(),
        table_at(table, ty) < table.len() ==> table[table_at(table, ty)].0 == ty,
        forall|i: int| 0 <= i < table_at(table, ty) ==> (#[trigger] table[i]).0 != ty,
    decreases table.len(),
{
    if table.len() > 0 && table[0].0 != ty {
        let rest = table.skip(1);
        lemma_table_place(rest, ty);
        assert forall|i: int| 0 <= i < table_at(table, ty) implies (#[trigger] table[i]).0 != ty by {
            if i > 0 {
                assert(rest[i - 1] == table[i]);
            }
        }
    }
}

/// What is found under a name is the first method of that name; nothing is found only where there is
/// none.
pub proof fn law_first_method_of_a_name_is_found(
    methods: Seq<ComponentMethod>,
    name: Seq<char>,
)
    ensures
        match found_method(methods, name) {
            Some(method) => exists|i: int|
                0 <= i < methods.len() && #[trigger] methods[i] == method && method.named() == name
                    && forall|j: int| 0 <= j < i ==> (#[trigger] methods[j]).named() != name,
            None => forall|i: int|
                0 <= i < methods.len() ==> (#[trigger] methods[i]).named() != name,
        },
    decreases methods.len(),
{
    if has_name(methods, name) {
        lemma_method_place(methods, name);
        let i = method_at(methods, name);
        assert(methods[i] == found_method(methods, name)->0);
    }
}

proof fn lemma_method_place(methods: Seq<ComponentMethod>, name: Seq<char>)
    requires
        has_name(methods, name),
    ensures
        0 <= method_at(methods, name) < methods.len(),
        methods[method_at(methods, name)].named() == name,
        forall|j: int| 0 <= j < method_at(methods, name) ==> (#[trigger] methods[j]).named() != name,
    decreases methods.len(),
{
    let k = choose|k: int| 0 <= k < methods.len() && (#[trigger] methods[k]).named() == name;
    if methods[0].named() != name {
        let rest = methods.skip(1);
        assert(rest[k - 1].named() == name);
        lemma_method_place(rest, name);
        assert forall|j: int| 0 <= j < method_at(methods, name) implies (
        #[trigger] methods[j]).named() != name by {
            if j > 0 {
                assert(rest[j - 1] == methods[j]);
            }
        }
    }
}

/// Of the methods of a type those with a receiver, and no others, are methods of the component.
pub proof fn law_methods_with_a_receiver_are_kept(
    methods: Seq<ReflectedMethod>,
    method: ReflectedMethod,
)
    ensures
        with_receiver(methods).contains(ComponentMethod::Reflected(method)) <==> methods.contains(
            method,
        ) && method.receiver != ReceiverKind::Absent,
        forall|i: int|
            0 <= i < with_receiver(methods).len() ==> #[trigger] with_receiver(methods)[i]
                is Reflected,
        with_receiver(methods).len() <= methods.len(),
    decreases methods.len(),
{
    if methods.len() > 0 {
        let front = methods.drop_last();
        law_methods_with_a_receiver_are_kept(front, method);
        let some = with_receiver(front);
        let all = with_receiver(methods);
        let wrapped = ComponentMethod::Reflected(method);
        if some.contains(wrapped) {
            let i = choose|i: int| 0 <= i < some.len() && some[i] == wrapped;
            assert(all[i] == wrapped);
            let k = choose|k: int| 0 <= k < front.len() && front[k] == method;
            assert(methods[k] == method);
        }
        if all.contains(wrapped) && !some.contains(wrapped) {
            let i = choose|i: int| 0 <= i < all.len() && all[i] == wrapped;
            if i < some.len() {
                assert(some[i] == wrapped);
            }
            assert(methods[methods.len() - 1] == method);
        }
        if methods.contains(method) && method.receiver != ReceiverKind::Absent {
            let k = choose|k: int| 0 <= k < methods.len() && methods[k] == method;
            if k < front.len() {
                assert(front[k] == method);
            } else {
                assert(all[all.len() - 1] == wrapped);
            }
        }
        assert forall|i: int| 0 <= i < all.len() implies #[trigger] all[i] is Reflected by {
            if i < some.len() {
                assert(all[i] == some[i]);
            }
        }
    }
}

/// Entering the methods of a type gives that component those with a receiver, in place of what it had,
/// unless there are none; entering world methods adds those. Other components keep theirs.
pub proof fn law_entries_are_for_their_component(
    table: MethodTable,
    entry: TypeMethods,
    world: WorldMethodRegistration,
    other: TypeKey,
)
    ensures
        ({
            let kept = with_receiver(entry.methods@);
            let typed = type_entered(table, entry);
            let added = world_entered(table, world);
            &&& methods_of(typed, entry.ty) == if kept.len() > 0 {
                kept
            } else {
                methods_of(table, entry.ty)
            }
            &&& other != entry.ty ==> methods_of(typed, other) == methods_of(table, other)
            &&& methods_of(added, world.component) == world_methods_added(
                methods_of(table, world.component),
                world.methods@,
            )
            &&& other != world.component ==> methods_of(added, other) == methods_of(table, other)
        }),
{
    let kept = with_receiver(entry.methods@);
    let more = world_methods_added(methods_of(table, world.component), world.methods@);
    lemma_table_set(table, entry.ty, kept, other);
    lemma_table_set(table, world.component, more, other);
}

proof fn lemma_table_set(
    table: MethodTable,
    ty: TypeKey,
    methods: Seq<ComponentMethod>,
    other: TypeKey,
)
    ensures
        ({
            let at = table_at(table, ty);
            let after = if at < table.len() {
                table.update(at, (ty, methods))
            } else {
                table.push((ty, methods))
            };
            &&& methods_of(after, ty) == methods
            &&& other != ty ==> methods_of(after, other) == methods_of(table, other)
        }),
{
    let at = table_at(table, ty);
    let after = if at < table.len() {
        table.update(at, (ty, methods))
    } else {
        table.push((ty, methods))
    };
    lemma_table_place(table, ty);
    lemma_table_place(table, other);
    assert forall|i: int| 0 <= i < at implies (#[trigger] after[i]).0 != ty by {
        assert(table[i].0 != ty);
    }
    lemma_table_at(after, ty, at);
    if other != ty {
        let k = table_at(table, other);
        lemma_table_place(after, other);
        if k < table.len() {
            assert forall|i: int| 0 <= i < k implies (#[trigger] after[i]).0 != other by {
                assert(table[i].0 != other);
            }
            lemma_table_at(after, other, k);
        } else {
            let j = table_at(after, other);
            if j < after.len() {
                assert(after[j].0 == other);
                assert(table[j].0 == other);
            }
        }
    }
}

/// Every world method's name can be found once it is added, and what is added is one of them.
pub proof fn law_world_methods_are_added(
    methods: Seq<ComponentMethod>,
    more: Seq<WorldMethod>,
    k: int,
    i: int,
)
    requires
        0 <= k < more.len(),
    ensures
        has_name(world_methods_added(methods, more), more[k].info.name@),
        methods.len() <= i < world_methods_added(methods, more).len() ==> exists|j: int|
            0 <= j < more.len() && world_methods_added(methods, more)[i] == ComponentMethod::World(
                #[trigger] more[j],
            ),
        !has_name(methods, more[0].info.name@) ==> methods.len() < world_methods_added(
            methods,
            more,
        ).len() && world_methods_added(methods, more)[methods.len() as int]
            == ComponentMethod::World(more[0]),
    decreases more.len(),
{
    let front = more.drop_last();
    let before = world_methods_added(methods, front);
    let all = world_methods_added(methods, more);
    let last = more.last();
    assert forall|name: Seq<char>| has_name(before, name) implies #[trigger] has_name(
        all,
        name,
    ) by {
        let j = choose|j: int| 0 <= j < before.len() && (#[trigger] before[j]).named() == name;
        assert(all[j].named() == name);
    }
    if front.len() > 0 {
        let f = if k < front.len() {
            k
        } else {
            0
        };
        law_world_methods_are_added(methods, front, f, i);
        assert(front[0] == more[0]);
    } else {
        assert(before == methods);
    }
    lemma_added_len(methods, front);
    if k < front.len() {
        assert(front[k] == more[k]);
    } else if !has_name(before, last.info.name@) {
        assert(all[before.len() as int].named() == last.info.name@);
    }
    if methods.len() <= i < all.len() {
        if i < before.len() {
            assert(front.len() > 0) by {
                if front.len() == 0 {
                    assert(before.len() == methods.len());
                }
            }
            let j = choose|j: int|
                0 <= j < front.len() && before[i] == ComponentMethod::World(#[trigger] front[j]);
            assert(more[j] == front[j]);
        } else {
            assert(all[i] == ComponentMethod::World(more[more.len() - 1]));
        }
    }
}

proof fn lemma_all_entered_names(
    table: MethodTable,
    registrations: Seq<WorldMethodRegistration>,
    ty: TypeKey,
    i: int,
)
    requires
        0 <= i < methods_of(table, ty).len(),
    ensures
        i < methods_of(all_entered(table, registrations), ty).len(),
        methods_of(all_entered(table, registrations), ty)[i] == methods_of(table, ty)[i],
    decreases registrations.len(),
{
    if registrations.len() > 0 {
        let front = registrations.drop_last();
        let last = registrations.last();
        lemma_all_entered_names(table, front, ty, i);
        let before = all_entered(table, front);
        lemma_table_set(
            before,
            last.component,
            world_methods_added(methods_of(before, last.component), last.methods@),
            ty,
        );
        if ty == last.component {
            lemma_added_len(methods_of(before, ty), last.methods@);
            law_names_are_not_taken_twice(methods_of(before, ty), last.methods@, i);
        }
    }
}

/// Collecting keeps what the types brought, in its place and order, ahead of the world methods, and
/// every world method that is registered can be found by its name.
pub proof fn law_registered_methods_are_found(
    table: MethodTable,
    registrations: Seq<WorldMethodRegistration>,
    r: int,
    k: int,
    ty: TypeKey,
    i: int,
)
    requires
        0 <= r < registrations.len(),
        0 <= k < registrations[r].methods@.len(),
    ensures
        0 <= i < methods_of(table, ty).len() ==> i < methods_of(
            all_entered(table, registrations),
            ty,
        ).len() && methods_of(all_entered(table, registrations), ty)[i] == methods_of(table, ty)[i],
        has_name(
            methods_of(all_entered(table, registrations), registrations[r].component),
            registrations[r].methods@[k].info.name@,
        ),
    decreases registrations.len(),
{
    if 0 <= i < methods_of(table, ty).len() {
        lemma_all_entered_names(table, registrations, ty, i);
    }
    let front = registrations.drop_last();
    let last = registrations.last();
    let before = all_entered(table, front);
    let component = registrations[r].component;
    let name = registrations[r].methods@[k].info.name@;
    lemma_table_set(
        before,
        last.component,
        world_methods_added(methods_of(before, last.component), last.methods@),
        component,
    );
    if r < front.len() {
        assert(front[r] == registrations[r]);
        law_registered_methods_are_found(table, front, r, k, ty, i);
        if component == last.component {
            let j = choose|j: int|
                0 <= j < methods_of(before, component).len() && (#[trigger] methods_of(
                    before,
                    component,
                )[j]).named() == name;
            lemma_added_len(methods_of(before, component), last.methods@);
            law_names_are_not_taken_twice(methods_of(before, component), last.methods@, j);
            assert(methods_of(all_entered(table, registrations), component)[j].named() == name);
        }
    } else {
        law_world_methods_are_added(methods_of(before, component), last.methods@, k, 0);
    }
}

/// A method of a type writes if and only if it borrows the component to change it, and else reads; a
/// world method does neither.
pub proof fn law_methods_read_or_write(method: ComponentMethod)
    ensures
        writes(method) <==> method is Reflected && method->Reflected_0.receiver == ReceiverKind::Mut,
        reads(method) || writes(method) <==> method is Reflected,
        !(reads(method) && writes(method)),
{
}

/// Methods keep the order they are declared and registered in.
pub proof fn law_methods_keep_their_order(
    a: Seq<ReflectedMethod>,
    b: Seq<ReflectedMethod>,
    methods: Seq<ComponentMethod>,
    c: Seq<WorldMethod>,
    d: Seq<WorldMethod>,
)
    ensures
        with_receiver(a + b) == with_receiver(a) + with_receiver(b),
        world_methods_added(methods, c + d) == world_methods_added(
            world_methods_added(methods, c),
            d,
        ),
        c.len() == 1 ==> world_methods_added(methods, c) == if has_name(methods, c[0].info.name@) {
            methods
        } else {
            methods.push(ComponentMethod::World(c[0]))
        },
    decreases b.len() + d.len(),
{
    reveal_with_fuel(world_methods_added, 2);
    if b.len() > 0 {
        law_methods_keep_their_order(a, b.drop_last(), methods, c, d);
        assert((a + b).drop_last() =~= a + b.drop_last());
        assert(with_receiver(a + b) =~= with_receiver(a) + with_receiver(b));
    } else {
        assert(a + b =~= a);
        assert(with_receiver(a + b) =~= with_receiver(a) + with_receiver(b));
    }
    if d.len() > 0 {
        law_methods_keep_their_order(a, b, methods, c, d.drop_last());
        assert((c + d).drop_last() =~= c + d.drop_last());
    } else {
        assert(c + d =~= c);
    }
}

} // verus!
