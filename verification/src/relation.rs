//! Pairs of entities that refer to each other through a component.
use crate::entity::{ComponentId, Entity};
use crate::query::WorldQuery;
use crate::world::World;
use std::collections::HashMap;
use vstd::prelude::*;

verus! {

use crate::query::{entity_at, query_rows};
use crate::world::WorldState;

/// Why a link makes no pair.
#[derive(Clone, Copy, Debug, PartialEq, Eq, Structural)]
pub enum ConflictReason {
    /// The target links to this entity instead.
    NotReciprocated(Entity),
}

/// A link that makes no pair although its target has one of its own.
#[derive(Clone, Copy, Debug, PartialEq, Eq, Structural)]
pub struct ConflictEntry {
    pub source: Entity,
    pub target: Entity,
    pub reason: ConflictReason,
}

/// A source and its target.
pub type Link = (Entity, Entity);

/// No entity is a source twice.
pub open spec fn sources_distinct(links: Seq<Link>) -> bool {
    forall|i: int, j: int|
        #![trigger links[i], links[j]]
        0 <= i < j < links.len() ==> links[i].0 != links[j].0
}

/// Whether the entity has a link.
pub open spec fn is_source(links: Seq<Link>, entity: Entity) -> bool {
    exists|i: int| 0 <= i < links.len() && (#[trigger] links[i]).0 == entity
}

/// Where the entity's link is.
pub open spec fn source_at(links: Seq<Link>, entity: Entity) -> int {
    choose|i: int| 0 <= i < links.len() && (#[trigger] links[i]).0 == entity
}

/// Link `i` is answered by a link back.
pub open spec fn answered(links: Seq<Link>, i: int) -> bool {
    is_source(links, links[i].1) && links[source_at(links, links[i].1)].1 == links[i].0
}

/// Link `i` makes a pair that no earlier link has made.
pub open spec fn makes_pair(links: Seq<Link>, i: int) -> bool {
    answered(links, i) && source_at(links, links[i].1) >= i
}

/// The pairs that the first `n` links make, each in the order of the link met first.
pub open spec fn pairs_of(links: Seq<Link>, n: int) -> Seq<Link>
    decreases n,
{
    if n <= 0 {
        seq![]
    } else if makes_pair(links, n - 1) {
        pairs_of(links, n - 1).push(links[n - 1])
    } else {
        pairs_of(links, n - 1)
    }
}

/// The sources among the first `n` whose target has no link.
pub open spec fn unmatched_of(links: Seq<Link>, n: int) -> Seq<Entity>
    decreases n,
{
    if n <= 0 {
        seq![]
    } else if !is_source(links, links[n - 1].1) {
        unmatched_of(links, n - 1).push(links[n - 1].0)
    } else {
        unmatched_of(links, n - 1)
    }
}

/// The links among the first `n` whose target links elsewhere.
pub open spec fn conflicts_of(links: Seq<Link>, n: int) -> Seq<ConflictEntry>
    decreases n,
{
    if n <= 0 {
        seq![]
    } else if is_source(links, links[n - 1].1) && !answered(links, n - 1) {
        conflicts_of(links, n - 1).push(
            ConflictEntry {
                source: links[n - 1].0,
                target: links[n - 1].1,
                reason: ConflictReason::NotReciprocated(
                    links[source_at(links, links[n - 1].1)].1,
                ),
            },
        )
    } else {
        conflicts_of(links, n - 1)
    }
}

/// What an index holds.
pub struct RelationState {
    pub pairs: Seq<Link>,
    pub unmatched: Seq<Entity>,
    pub conflicts: Seq<ConflictEntry>,
}

/// What the links come to.
pub open spec fn resolved(links: Seq<Link>) -> RelationState {
    RelationState {
        pairs: pairs_of(links, links.len() as int),
        unmatched: unmatched_of(links, links.len() as int),
        conflicts: conflicts_of(links, links.len() as int),
    }
}

/// The pairs, and what did not make one.
#[derive(Debug)]
pub struct RelationIndex {
    pairs: Vec<Link>,
    unmatched: Vec<Entity>,
    conflicts: Vec<ConflictEntry>,
}

/// The contents of an index, to read.
pub struct RelationView<'a> {
    pub pairs: &'a Vec<Link>,
    pub unmatched: &'a Vec<Entity>,
    pub conflicts: &'a Vec<ConflictEntry>,
}

spec fn key(entity: Entity) -> u64 {
    (entity.index + entity.generation * 0x1_0000_0000) as u64
}

fn entity_key(entity: Entity) -> (k: u64)
    ensures
        k == key(entity),
{
    entity.index as u64 + entity.generation as u64 * 0x1_0000_0000
}

proof fn lemma_key(a: Entity, b: Entity)
    requires
        key(a) == key(b),
    ensures
        a == b,
{
    assert(a.index + a.generation * 0x1_0000_0000 == b.index + b.generation * 0x1_0000_0000);
}

proof fn lemma_source_at(links: Seq<Link>, i: int)
    requires
        sources_distinct(links),
        0 <= i < links.len(),
    ensures
        is_source(links, links[i].0),
        source_at(links, links[i].0) == i,
{
    let j = source_at(links, links[i].0);
    assert(links[j].0 == links[i].0);
    if i < j {
        assert(links[i].0 != links[j].0);
    } else if j < i {
        assert(links[j].0 != links[i].0);
    }
}

/// The component values that a query for one component type visits, in order, are linked to `links`:
/// each entity with what `link` says of its component.
pub open spec fn links_of<V, F: Fn(&V) -> Entity>(
    s: WorldState<V>,
    id: ComponentId,
    link: F,
    links: Seq<Link>,
) -> bool {
    &&& links.len() == query_rows(s, seq![id]).len()
    &&& forall|k: int|
        0 <= k < links.len() ==> {
            &&& (#[trigger] links[k]).0 == entity_at(s, query_rows(s, seq![id])[k])
            &&& link_said(s, id, link, links[k])
        }
}

/// The target is what `link` says of the source's component.
pub open spec fn link_said<V, F: Fn(&V) -> Entity>(
    s: WorldState<V>,
    id: ComponentId,
    link: F,
    entry: Link,
) -> bool {
    exists|value: V| s.value(entry.0, id) == Some(value) && #[trigger] said(link, value, entry.1)
}

/// `link` can be asked of every component of this type that there is.
pub open spec fn links_readable<V, F: Fn(&V) -> Entity>(
    s: WorldState<V>,
    id: ComponentId,
    link: F,
) -> bool {
    forall|entity: Entity, value: V|
        #![trigger s.value(entity, id), call_requires(link, (&value,))]
        s.value(entity, id) == Some(value) ==> call_requires(link, (&value,))
}

/// `link` may say that a component with this value points at `target`.
pub open spec fn said<V, F: Fn(&V) -> Entity>(link: F, value: V, target: Entity) -> bool {
    call_ensures(link, (&value,), target)
}

impl RelationIndex {
    /// What the index holds.
    pub closed spec fn state(&self) -> RelationState {
        RelationState {
            pairs: self.pairs@,
            unmatched: self.unmatched@,
            conflicts: self.conflicts@,
        }
    }

    /// An index of nothing.
    pub fn new() -> (index: Self)
        ensures
            index.state() == (RelationState { pairs: seq![], unmatched: seq![], conflicts: seq![] }),
    {
        RelationIndex { pairs: Vec::new(), unmatched: Vec::new(), conflicts: Vec::new() }
    }

    /// Makes the index anew from every component of this type, with `link` telling the entity that a
    /// component points at.
    pub fn build<V, F: Fn(&V) -> Entity>(&mut self, world: &World<V>, id: ComponentId, link: F)
        requires
            world.wf(),
            links_readable(world@, id, link),
        ensures
            exists|links: Seq<Link>| #[trigger]
                links_of(world@, id, link, links) && sources_distinct(links) && final(self).state()
                    == resolved(links),
    {
        let mut ids: Vec<ComponentId> = Vec::new();
        ids.push(id);
        let ghost wanted = seq![id];
        assert(ids@ =~= wanted);
        let mut iter = world.query(WorldQuery { ids });
        let ghost rows = query_rows(world@, wanted);
        let mut links: Vec<Link> = Vec::new();
        let mut more: bool = true;
        assert(rows.skip(0) =~= rows);
        while more
            invariant
                world.wf(),
                links_readable(world@, id, link),
                wanted == seq![id],
                rows == query_rows(world@, wanted),
                iter.wf(),
                iter.world() == world@,
                iter.ids() == wanted,
                links@.len() <= rows.len(),
                iter.remaining() == rows.skip(links@.len() as int),
                !more ==> links@.len() == rows.len(),
                forall|k: int|
                    0 <= k < links@.len() ==> (#[trigger] links@[k]).0 == entity_at(
                        world@,
                        rows[k],
                    ) && link_said(world@, id, link, links@[k]),
            decreases rows.len() - links@.len() + more as int,
        {
            let ghost before = links@;
            match iter.next() {
                Some((entity, values)) => {
                    assert(world@.value(entity, wanted[0]) == Some(*values@[0]));
                    let target: Entity = link(values[0]);
                    proof {
                        assert(rows.skip(before.len() as int)[0] == rows[before.len() as int]);
                        assert(rows.skip(before.len() as int).skip(1) =~= rows.skip(
                            (before.len() + 1) as int,
                        ));
                        assert(wanted[0] == id);
                        assert(world@.value(entity, id) == Some(*values@[0]));
                        let value = *values@[0];
                        let entry: Link = (entity, target);
                        assert(world@.value(entry.0, id) == Some(value));
                        assert(said(link, value, entry.1));
                        assert(link_said(world@, id, link, entry));
                    }
                    links.push((entity, target));
                },
                None => {
                    more = false;
                },
            }
        }
        proof {
            assert forall|i: int, j: int|
                #![trigger links@[i], links@[j]]
                0 <= i < j < links@.len() implies links@[i].0 != links@[j].0 by {
                crate::query::law_query_visits_matching_entities(world@, wanted, i, j);
            }
            assert(links_of(world@, id, link, links@));
        }
        self.resolve(&links);
    }

    /// Makes the index anew from links.
    pub fn resolve(&mut self, links: &Vec<Link>)
        requires
            sources_distinct(links@),
        ensures
            final(self).state() == resolved(links@),
    {
        broadcast use vstd::std_specs::hash::group_hash_axioms;

        let mut places: HashMap<u64, usize> = HashMap::new();
        let mut i: usize = 0;
        while i < links.len()
            invariant
                i <= links@.len(),
                sources_distinct(links@),
                forall|k: int|
                    0 <= k < i ==> places@.dom().contains(key((#[trigger] links@[k]).0))
                        && places@[key(links@[k].0)] == k,
                forall|x: u64| #[trigger]
                    places@.dom().contains(x) ==> places@[x] < i && key(
                        links@[places@[x] as int].0,
                    ) == x,
            decreases links@.len() - i,
        {
            let k: u64 = entity_key(links[i].0);
            proof {
                assert forall|j: int| 0 <= j < i implies key((#[trigger] links@[j]).0) != k by {
                    if key(links@[j].0) == k {
                        lemma_key(links@[j].0, links@[i as int].0);
                    }
                }
            }
            places.insert(k, i);
            i = i + 1;
        }
        self.pairs = Vec::new();
        self.unmatched = Vec::new();
        self.conflicts = Vec::new();
        let mut n: usize = 0;
        while n < links.len()
            invariant
                n <= links@.len(),
                sources_distinct(links@),
                forall|k: int|
                    0 <= k < links@.len() ==> places@.dom().contains(
                        key((#[trigger] links@[k]).0),
                    ) && places@[key(links@[k].0)] == k,
                forall|x: u64| #[trigger]
                    places@.dom().contains(x) ==> places@[x] < links@.len() && key(
                        links@[places@[x] as int].0,
                    ) == x,
                self.pairs@ == pairs_of(links@, n as int),
                self.unmatched@ == unmatched_of(links@, n as int),
                self.conflicts@ == conflicts_of(links@, n as int),
            decreases links@.len() - n,
        {
            let (source, target) = links[n];
            let k: u64 = entity_key(target);
            let found: Option<usize> = match places.get(&k) {
                Some(at) => Some(*at),
                None => None,
            };
            proof {
                if is_source(links@, target) {
                    let j = source_at(links@, target);
                    assert(links@[j].0 == target);
                    assert(places@.dom().contains(key(links@[j].0)));
                }
                if places@.dom().contains(k) {
                    lemma_key(links@[places@[k] as int].0, target);
                    lemma_source_at(links@, places@[k] as int);
                }
            }
            match found {
                Some(at) => {
                    let back: Entity = links[at].1;
                    if back == source {
                        if at >= n {
                            self.pairs.push((source, target));
                        }
                    } else {
                        self.conflicts.push(
                            ConflictEntry {
                                source,
                                target,
                                reason: ConflictReason::NotReciprocated(back),
                            },
                        );
                    }
                },
                None => {
                    self.unmatched.push(source);
                },
            }
            n = n + 1;
        }
    }

    /// The contents.
    pub fn view(&self) -> (view: RelationView<'_>)
        ensures
            view.pairs@ == self.state().pairs,
            view.unmatched@ == self.state().unmatched,
            view.conflicts@ == self.state().conflicts,
    {
        RelationView { pairs: &self.pairs, unmatched: &self.unmatched, conflicts: &self.conflicts }
    }
}

/// Where a pair comes from.
proof fn lemma_pairs(links: Seq<Link>, n: int, k: int) -> (i: int)
    requires
        0 <= n <= links.len(),
        0 <= k < pairs_of(links, n).len(),
    ensures
        0 <= i < n,
        makes_pair(links, i),
        pairs_of(links, n)[k] == links[i],
        k == pairs_of(links, i).len(),
    decreases n,
{
    if n <= 0 {
        0
    } else if makes_pair(links, n - 1) && k == pairs_of(links, n - 1).len() {
        n - 1
    } else {
        lemma_pairs(links, n - 1, k)
    }
}

proof fn lemma_pair_listed(links: Seq<Link>, n: int, i: int)
    requires
        0 <= i < n <= links.len(),
        makes_pair(links, i),
    ensures
        pairs_of(links, n).contains(links[i]),
    decreases n,
{
    if i == n - 1 {
        let all = pairs_of(links, n);
        assert(all[all.len() - 1] == links[i]);
    } else {
        lemma_pair_listed(links, n - 1, i);
        let front = pairs_of(links, n - 1);
        let k = choose|k: int| 0 <= k < front.len() && front[k] == links[i];
        assert(pairs_of(links, n)[k] == links[i]);
    }
}

/// Every answered link is listed as a pair, as it is or as the link back.
pub proof fn law_answered_links_are_paired(links: Seq<Link>, i: int)
    requires
        sources_distinct(links),
        0 <= i < links.len(),
        answered(links, i),
    ensures
        resolved(links).pairs.contains(links[i]) || resolved(links).pairs.contains(
            (links[i].1, links[i].0),
        ),
{
    let n = links.len() as int;
    let j = source_at(links, links[i].1);
    assert(links[j].0 == links[i].1);
    lemma_source_at(links, i);
    lemma_source_at(links, j);
    if j >= i {
        lemma_pair_listed(links, n, i);
    } else {
        assert(makes_pair(links, j));
        lemma_pair_listed(links, n, j);
        assert(links[j] == (links[i].1, links[i].0));
    }
}

/// A pair is two entities that link to each other, and no entity is in two pairs.
pub proof fn law_pairs_are_mutual_and_listed_once(links: Seq<Link>, k: int, l: int)
    requires
        sources_distinct(links),
        0 <= k < resolved(links).pairs.len(),
        0 <= l < resolved(links).pairs.len(),
    ensures
        links.contains(resolved(links).pairs[k]),
        links.contains((resolved(links).pairs[k].1, resolved(links).pairs[k].0)),
        k != l ==> {
            let (a, b) = resolved(links).pairs[k];
            let (c, d) = resolved(links).pairs[l];
            a != c && a != d && b != c && b != d
        },
{
    let n = links.len() as int;
    let x = lemma_pairs(links, n, k);
    let y = lemma_pairs(links, n, l);
    let back = source_at(links, links[x].1);
    assert(links[back].0 == links[x].1);
    assert(links[back] == (links[x].1, links[x].0));
    lemma_source_at(links, x);
    lemma_source_at(links, y);
    lemma_source_at(links, back);
    if k != l {
        let z = source_at(links, links[y].1);
        assert(links[z].0 == links[y].1);
        assert(x != y);
        if x < y {
            assert(links[x].0 != links[y].0);
        } else {
            assert(links[y].0 != links[x].0);
        }
    }
}

/// Every link is accounted for once: as part of a pair, as unmatched, or as a conflict.
pub proof fn law_every_link_is_accounted_for(links: Seq<Link>, n: int)
    requires
        0 <= n <= links.len(),
    ensures
        unmatched_of(links, n).len() + conflicts_of(links, n).len() + answered_count(links, n) == n,
    decreases n,
{
    if n > 0 {
        law_every_link_is_accounted_for(links, n - 1);
    }
}

/// How many of the first `n` links are answered.
pub open spec fn answered_count(links: Seq<Link>, n: int) -> int
    decreases n,
{
    if n <= 0 {
        0
    } else {
        answered_count(links, n - 1) + if answered(links, n - 1) {
            1int
        } else {
            0
        }
    }
}

proof fn lemma_answer(links: Seq<Link>, i: int, j: int)
    requires
        sources_distinct(links),
        0 <= i < links.len(),
        0 <= j < links.len(),
        links[j].0 == links[i].1,
    ensures
        is_source(links, links[i].1),
        source_at(links, links[i].1) == j,
{
    lemma_source_at(links, j);
}

proof fn lemma_unmatched(links: Seq<Link>, n: int, entity: Entity)
    requires
        0 <= n <= links.len(),
    ensures
        unmatched_of(links, n).contains(entity) <==> exists|i: int|
            0 <= i < n && (#[trigger] links[i]).0 == entity && !is_source(links, links[i].1),
    decreases n,
{
    if n > 0 {
        lemma_unmatched(links, n - 1, entity);
        let front = unmatched_of(links, n - 1);
        let all = unmatched_of(links, n);
        if front.contains(entity) {
            let k = choose|k: int| 0 <= k < front.len() && front[k] == entity;
            assert(all[k] == entity);
        }
        if all.contains(entity) {
            let k = choose|k: int| 0 <= k < all.len() && all[k] == entity;
            if k < front.len() {
                assert(front[k] == entity);
                let i = choose|i: int|
                    0 <= i < n - 1 && (#[trigger] links[i]).0 == entity && !is_source(
                        links,
                        links[i].1,
                    );
                assert(links[i].0 == entity);
            } else {
                assert(links[n - 1].0 == entity);
            }
        }
        if exists|i: int|
            0 <= i < n && (#[trigger] links[i]).0 == entity && !is_source(links, links[i].1) {
            let i = choose|i: int|
                0 <= i < n && (#[trigger] links[i]).0 == entity && !is_source(links, links[i].1);
            if i == n - 1 {
                assert(all[all.len() - 1] == entity);
            }
        }
    }
}

proof fn lemma_conflicts(links: Seq<Link>, n: int, entry: ConflictEntry)
    requires
        sources_distinct(links),
        0 <= n <= links.len(),
    ensures
        conflicts_of(links, n).contains(entry) <==> exists|i: int, j: int|
            0 <= i < n && 0 <= j < links.len() && #[trigger] links[i] == (
                entry.source,
                entry.target,
            ) && (#[trigger] links[j]).0 == entry.target && links[j].1 != entry.source
                && entry.reason == ConflictReason::NotReciprocated(links[j].1),
    decreases n,
{
    if n > 0 {
        lemma_conflicts(links, n - 1, entry);
        let front = conflicts_of(links, n - 1);
        let all = conflicts_of(links, n);
        if front.contains(entry) {
            let k = choose|k: int| 0 <= k < front.len() && front[k] == entry;
            assert(all[k] == entry);
        }
        if all.contains(entry) {
            let k = choose|k: int| 0 <= k < all.len() && all[k] == entry;
            if k < front.len() {
                assert(front[k] == entry);
            } else {
                let j = source_at(links, links[n - 1].1);
                assert(links[j].0 == links[n - 1].1);
                assert(links[n - 1] == (entry.source, entry.target));
            }
        }
        if exists|i: int, j: int|
            0 <= i < n && 0 <= j < links.len() && #[trigger] links[i] == (
                entry.source,
                entry.target,
            ) && (#[trigger] links[j]).0 == entry.target && links[j].1 != entry.source
                && entry.reason == ConflictReason::NotReciprocated(links[j].1) {
            let (i, j) = choose|i: int, j: int|
                0 <= i < n && 0 <= j < links.len() && #[trigger] links[i] == (
                    entry.source,
                    entry.target,
                ) && (#[trigger] links[j]).0 == entry.target && links[j].1 != entry.source
                    && entry.reason == ConflictReason::NotReciprocated(links[j].1);
            lemma_answer(links, i, j);
            if i == n - 1 {
                assert(all[all.len() - 1] == entry);
            }
        }
    }
}

/// Two entities make a pair if and only if each links to the other, whoever they are; the pair is
/// listed as the link of the two that comes first.
pub proof fn law_links_to_each_other_make_a_pair(links: Seq<Link>, a: Entity, b: Entity)
    requires
        sources_distinct(links),
    ensures
        links.contains((a, b)) && links.contains((b, a)) <==> resolved(links).pairs.contains((a, b))
            || resolved(links).pairs.contains((b, a)),
        forall|i: int, j: int|
            0 <= i <= j < links.len() && #[trigger] links[i] == (a, b) && #[trigger] links[j] == (
                b,
                a,
            ) ==> resolved(links).pairs.contains((a, b)) && (a != b
                ==> !resolved(links).pairs.contains((b, a))),
{
    let n = links.len() as int;
    let pairs = resolved(links).pairs;
    assert forall|x: Entity, y: Entity| #[trigger] pairs.contains((x, y)) implies links.contains(
        (x, y),
    ) && links.contains((y, x)) by {
        let k = choose|k: int| 0 <= k < pairs.len() && pairs[k] == (x, y);
        law_pairs_are_mutual_and_listed_once(links, k, k);
    }
    assert forall|i: int, j: int|
        0 <= i <= j < links.len() && #[trigger] links[i] == (a, b) && #[trigger] links[j] == (
            b,
            a,
        ) implies pairs.contains((a, b)) && (a != b ==> !pairs.contains((b, a))) by {
        lemma_answer(links, i, j);
        lemma_answer(links, j, i);
        assert(makes_pair(links, i));
        lemma_pair_listed(links, n, i);
        if a != b && pairs.contains((b, a)) {
            let k = choose|k: int| 0 <= k < pairs.len() && pairs[k] == (b, a);
            let l = choose|l: int| 0 <= l < pairs.len() && pairs[l] == (a, b);
            law_pairs_are_mutual_and_listed_once(links, k, l);
        }
    }
    if links.contains((a, b)) && links.contains((b, a)) {
        let i = choose|i: int| 0 <= i < links.len() && links[i] == (a, b);
        let j = choose|j: int| 0 <= j < links.len() && links[j] == (b, a);
        if i <= j {
            assert(pairs.contains((a, b)));
        } else {
            lemma_answer(links, j, i);
            lemma_answer(links, i, j);
            assert(makes_pair(links, j));
            lemma_pair_listed(links, n, j);
        }
    }
}

/// A link is unmatched if and only if its target has no link at all.
pub proof fn law_unmatched_links_lead_nowhere(links: Seq<Link>, source: Entity)
    requires
        sources_distinct(links),
    ensures
        resolved(links).unmatched.contains(source) <==> exists|target: Entity|
            #[trigger] links.contains((source, target)) && forall|x: Entity| !#[trigger]
                links.contains((target, x)),
{
    let n = links.len() as int;
    lemma_unmatched(links, n, source);
    if resolved(links).unmatched.contains(source) {
        let i = choose|i: int|
            0 <= i < n && (#[trigger] links[i]).0 == source && !is_source(links, links[i].1);
        let target = links[i].1;
        assert(links[i] == (source, target));
        assert(links.contains((source, target)));
        assert forall|x: Entity| !#[trigger] links.contains((target, x)) by {
            if links.contains((target, x)) {
                let j = choose|j: int| 0 <= j < links.len() && links[j] == (target, x);
                assert(links[j].0 == target);
            }
        }
    }
    if exists|target: Entity|
        #[trigger] links.contains((source, target)) && forall|x: Entity| !#[trigger]
            links.contains((target, x)) {
        let target = choose|target: Entity|
            #[trigger] links.contains((source, target)) && forall|x: Entity| !#[trigger]
                links.contains((target, x));
        let i = choose|i: int| 0 <= i < links.len() && links[i] == (source, target);
        if is_source(links, target) {
            let j = source_at(links, target);
            assert(links[j].0 == target);
            assert(links[j] == (target, links[j].1));
            assert(links.contains((target, links[j].1)));
        }
        assert(links[i].0 == source && !is_source(links, links[i].1));
    }
}

/// A conflict is reported if and only if the target of a link links elsewhere, and it says where.
pub proof fn law_conflicts_tell_where_the_target_links(
    links: Seq<Link>,
    source: Entity,
    target: Entity,
    instead: Entity,
)
    requires
        sources_distinct(links),
    ensures
        resolved(links).conflicts.contains(
            ConflictEntry { source, target, reason: ConflictReason::NotReciprocated(instead) },
        ) <==> links.contains((source, target)) && links.contains((target, instead)) && instead
            != source,
{
    let n = links.len() as int;
    let entry = ConflictEntry {
        source,
        target,
        reason: ConflictReason::NotReciprocated(instead),
    };
    lemma_conflicts(links, n, entry);
    if resolved(links).conflicts.contains(entry) {
        let (i, j) = choose|i: int, j: int|
            0 <= i < n && 0 <= j < links.len() && #[trigger] links[i] == (source, target) && (
            #[trigger] links[j]).0 == target && links[j].1 != source && entry.reason
                == ConflictReason::NotReciprocated(links[j].1);
        assert(links[j] == (target, instead));
    }
    if links.contains((source, target)) && links.contains((target, instead)) && instead != source {
        let i = choose|i: int| 0 <= i < links.len() && links[i] == (source, target);
        let j = choose|j: int| 0 <= j < links.len() && links[j] == (target, instead);
        assert(links[i] == (entry.source, entry.target) && links[j].0 == entry.target);
    }
}

/// The links, one after the other, that came to nothing are listed in their order, each once.
pub proof fn law_failed_links_keep_their_order(links: Seq<Link>, n: int)
    requires
        sources_distinct(links),
        0 <= n <= links.len(),
    ensures
        unmatched_of(links, n).len() <= n,
        forall|k: int, l: int|
            #![trigger unmatched_of(links, n)[k], unmatched_of(links, n)[l]]
            0 <= k < l < unmatched_of(links, n).len() ==> source_at(
                links,
                unmatched_of(links, n)[k],
            ) < source_at(links, unmatched_of(links, n)[l]),
        forall|k: int|
            0 <= k < unmatched_of(links, n).len() ==> 0 <= source_at(
                links,
                #[trigger] unmatched_of(links, n)[k],
            ) < n,
        forall|k: int, l: int|
            #![trigger conflicts_of(links, n)[k], conflicts_of(links, n)[l]]
            0 <= k < l < conflicts_of(links, n).len() ==> source_at(
                links,
                conflicts_of(links, n)[k].source,
            ) < source_at(links, conflicts_of(links, n)[l].source),
        forall|k: int|
            0 <= k < conflicts_of(links, n).len() ==> 0 <= source_at(
                links,
                (#[trigger] conflicts_of(links, n)[k]).source,
            ) < n,
    decreases n,
{
    if n > 0 {
        law_failed_links_keep_their_order(links, n - 1);
        lemma_source_at(links, n - 1);
        let front = conflicts_of(links, n - 1);
        let all = conflicts_of(links, n);
        assert forall|k: int| 0 <= k < all.len() implies 0 <= source_at(
            links,
            (#[trigger] all[k]).source,
        ) < n by {
            if k < front.len() {
                assert(front[k] == all[k]);
            }
        }
        assert forall|k: int, l: int|
            #![trigger all[k], all[l]]
            0 <= k < l < all.len() implies source_at(links, all[k].source) < source_at(
            links,
            all[l].source,
        ) by {
            assert(front[k] == all[k]);
            if l < front.len() {
                assert(front[l] == all[l]);
            }
        }
    }
}

/// The links of a world are those that its components say: every entity with the component is the
/// source of one link, to what is said of its component, and nobody else is.
pub proof fn law_links_are_what_components_say<V, F: Fn(&V) -> Entity>(
    s: WorldState<V>,
    id: ComponentId,
    link: F,
    links: Seq<Link>,
    entity: Entity,
    k: int,
    l: int,
)
    requires
        s.consistent(),
        links_of(s, id, link, links),
    ensures
        s.value(entity, id) is Some <==> exists|j: int|
            0 <= j < links.len() && (#[trigger] links[j]).0 == entity,
        0 <= k < links.len() ==> s.alive(links[k].0) && (s.value(links[k].0, id) matches Some(
            value,
        ) && call_ensures(link, (&value,), links[k].1)),
        0 <= k < links.len() && 0 <= l < links.len() && k != l ==> links[k].0 != links[l].0,
{
    let ids = seq![id];
    let rows = query_rows(s, ids);
    assert forall|j: int| 0 <= j < links.len() implies s.value((#[trigger] links[j]).0, id) is Some
        && s.alive(links[j].0) by {
        crate::query::law_query_visits_matching_entities(s, ids, j, j);
        assert(s.value(entity_at(s, rows[j]), ids[0]) is Some);
    }
    if s.value(entity, id) is Some {
        assert forall|j: int| 0 <= j < ids.len() implies s.value(entity, #[trigger] ids[j])
            is Some by {
            assert(ids[j] == id);
        }
        crate::query::law_query_misses_nobody(s, ids, entity);
        let j = choose|j: int|
            0 <= j < rows.len() && entity_at(s, #[trigger] rows[j]) == entity;
        assert(links[j].0 == entity);
    }
    if 0 <= k < links.len() {
        assert(link_said(s, id, link, links[k]));
        if 0 <= l < links.len() && k != l {
            crate::query::law_query_visits_matching_entities(s, ids, k, l);
            assert(links[l].0 == entity_at(s, rows[l]));
        }
    }
}

/// Pairs are listed in the order of the links they are listed as.
pub proof fn law_pairs_keep_their_order(links: Seq<Link>, n: int)
    requires
        sources_distinct(links),
        0 <= n <= links.len(),
    ensures
        pairs_of(links, n).len() <= n,
        forall|k: int|
            0 <= k < pairs_of(links, n).len() ==> 0 <= source_at(
                links,
                (#[trigger] pairs_of(links, n)[k]).0,
            ) < n,
        forall|k: int, l: int|
            #![trigger pairs_of(links, n)[k], pairs_of(links, n)[l]]
            0 <= k < l < pairs_of(links, n).len() ==> source_at(links, pairs_of(links, n)[k].0)
                < source_at(links, pairs_of(links, n)[l].0),
    decreases n,
{
    if n > 0 {
        law_pairs_keep_their_order(links, n - 1);
        lemma_source_at(links, n - 1);
        let front = pairs_of(links, n - 1);
        let all = pairs_of(links, n);
        assert forall|k: int| 0 <= k < all.len() implies 0 <= source_at(
            links,
            (#[trigger] all[k]).0,
        ) < n by {
            if k < front.len() {
                assert(front[k] == all[k]);
            }
        }
        assert forall|k: int, l: int|
            #![trigger all[k], all[l]]
            0 <= k < l < all.len() implies source_at(links, all[k].0) < source_at(
            links,
            all[l].0,
        ) by {
            assert(front[k] == all[k]);
            if l < front.len() {
                assert(front[l] == all[l]);
            }
        }
    }
}

} // verus!
