//! Entity handles and the registry that issues, recycles and locates them.

use crate::archetype::ArchetypeId;
use std::collections::HashMap;
use vstd::prelude::*;

verus! {

/// A handle for a specific entity.
///
/// Identifiers `0` through `2^31 - 1` are assigned by the caller, who keeps
/// them unique. Identifiers `2^31` through `2^32 - 2` are assigned by the
/// registry. `2^32 - 1` stands for "no entity". The generation tells a handle
/// from an earlier one that had the same identifier.
#[derive(Clone, Copy, Debug, PartialEq, Eq, Structural, PartialOrd, Ord, Hash)]
pub struct Entity {
    pub id: u32,
    pub generation: u32,
}

impl Entity {
    pub const EXTERNAL_MIN: u32 = 0;

    pub const EXTERNAL_MAX: u32 = 0x7fff_ffff;

    pub const INTERNAL_MIN: u32 = 0x8000_0000;

    pub const INTERNAL_MAX: u32 = 0xffff_fffe;

    /// The identifier that no entity has.
    pub const NULL_ID: u32 = 0xffff_ffff;

    /// The entity's identifier.
    pub fn id(self) -> (r: u32)
        ensures
            r == self.id,
    {
        self.id
    }

    /// How often the identifier had been issued before this handle.
    pub fn generation(self) -> (r: u32)
        ensures
            r == self.generation,
    {
        self.generation
    }
}

/// Where the data of an entity lies: an archetype and a row in it.
#[derive(Clone, Copy, Debug, PartialEq, Eq, Structural)]
pub struct Location {
    pub archetype: ArchetypeId,
    pub index: usize,
}

/// An entity together with the place of its data.
#[derive(Clone, Copy, Debug, PartialEq, Eq, Structural)]
pub struct EntityLoc {
    pub entity: Entity,
    pub location: Location,
}

impl EntityLoc {
    /// The archetype that holds the entity's data.
    pub fn archetype(&self) -> (r: ArchetypeId)
        ensures
            r == self.location.archetype,
    {
        self.location.archetype
    }

    /// The row of the entity in its archetype.
    pub fn index(&self) -> (r: usize)
        ensures
            r == self.location.index,
    {
        self.location.index
    }
}

/// Why an operation of the entity manager was turned down.
#[derive(Clone, Copy, Debug, PartialEq, Eq, Structural)]
pub enum EntityError {
    /// The entity is not live: it was never created, or has been destroyed.
    DoesNotExist(Entity),
    /// An entity with this identifier is live already.
    DuplicateID(u32),
    /// The identifier is not one that a caller may assign.
    OutOfBounds,
    /// All identifiers that the manager may assign have been used.
    Overflow,
}

/// What the manager keeps for a live entity.
#[derive(Clone, Copy, Debug)]
pub struct Record {
    /// The generation of the live handle.
    pub generation: u32,
    /// The place of the entity's data, once it has been recorded.
    pub location: Option<Location>,
}

/// What an entity manager holds.
#[verifier::ext_equal]
pub struct EntityManagerView {
    /// The live entities, by identifier.
    pub live: Map<u32, Record>,
    /// The identifier that the next entity gets when no freed one is left.
    pub next: nat,
    /// The handles that were destroyed and wait for reuse; the last one is
    /// reused first.
    pub free: Seq<Entity>,
}

impl EntityManagerView {
    /// The invariant of an entity manager: a freed identifier is not live,
    /// is listed once, and has a generation left; and no identifier at or
    /// above the counter is in use.
    pub open spec fn inv(self) -> bool {
        &&& Entity::INTERNAL_MIN <= self.next <= Entity::NULL_ID
        &&& forall|i: int, j: int|
            0 <= i < j < self.free.len() ==> (#[trigger] self.free[i]).id != (
            #[trigger] self.free[j]).id
        &&& forall|i: int|
            0 <= i < self.free.len() ==> {
                &&& !self.live.contains_key((#[trigger] self.free[i]).id)
                &&& self.free[i].generation < u32::MAX
                &&& self.free[i].id < self.next || self.free[i].id <= Entity::EXTERNAL_MAX
            }
        &&& forall|id: u32| #[trigger]
            self.live.contains_key(id) ==> id < self.next || id <= Entity::EXTERNAL_MAX
    }

    /// `entity` is live: its identifier is in use, with its generation.
    pub open spec fn is_live(self, entity: Entity) -> bool {
        self.live.contains_key(entity.id) && self.live[entity.id].generation
            == entity.generation
    }

    /// Whether `id` waits for reuse.
    pub open spec fn is_free(self, id: u32) -> bool {
        exists|i: int| 0 <= i < self.free.len() && (#[trigger] self.free[i]).id == id
    }

    /// The manager after `entity` has become live, without a place yet.
    pub open spec fn with_live(self, entity: Entity) -> EntityManagerView {
        EntityManagerView {
            live: self.live.insert(
                entity.id,
                Record { generation: entity.generation, location: None },
            ),
            ..self
        }
    }

    /// The position at which `id` waits for reuse.
    pub open spec fn free_index(self, id: u32) -> int {
        choose|i: int| 0 <= i < self.free.len() && (#[trigger] self.free[i]).id == id
    }

    /// The manager after the handle at position `i` has been taken from
    /// those that wait for reuse.
    pub open spec fn without_free(self, i: int) -> EntityManagerView {
        EntityManagerView { free: self.free.remove(i), ..self }
    }

    /// The manager after its counter has been moved on by one.
    pub open spec fn with_next_used(self) -> EntityManagerView {
        EntityManagerView { next: self.next + 1, ..self }
    }

    /// The handle under which the identifier of the freed handle `freed`
    /// is issued again.
    pub open spec fn reissued(freed: Entity) -> Entity {
        Entity { id: freed.id, generation: (freed.generation + 1) as u32 }
    }

    /// The handle that the next `create` issues: the one destroyed last
    /// among those that wait for reuse, with the next generation; where none
    /// waits, the identifier at the counter; none where that range is used up
    /// too.
    pub open spec fn issued(self) -> Option<Entity> {
        if self.free.len() > 0 {
            Some(Self::reissued(self.free.last()))
        } else if self.next < Entity::NULL_ID {
            Some(Entity { id: self.next as u32, generation: 0 })
        } else {
            None
        }
    }

    /// The manager after the next `create`.
    pub open spec fn after_create(self) -> EntityManagerView {
        if self.free.len() > 0 {
            self.without_free(self.free.len() - 1).with_live(Self::reissued(self.free.last()))
        } else if self.next < Entity::NULL_ID {
            self.with_next_used().with_live(Entity { id: self.next as u32, generation: 0 })
        } else {
            self
        }
    }

    /// The handle that the `n`-th `create` from now issues, counting from
    /// 0, where nothing else is done to the manager in between.
    pub open spec fn issued_after(self, n: nat) -> Option<Entity>
        decreases n,
    {
        if n == 0 {
            self.issued()
        } else {
            self.after_create().issued_after((n - 1) as nat)
        }
    }

    /// The manager after `location` has been recorded for the live entity
    /// `entity`.
    pub open spec fn with_location(self, entity: Entity, location: Location) -> EntityManagerView {
        EntityManagerView {
            live: self.live.insert(
                entity.id,
                Record { generation: entity.generation, location: Some(location) },
            ),
            ..self
        }
    }

    /// The manager after `entity` has been destroyed: it is no longer live,
    /// and it waits for reuse unless its generation is the last one.
    pub open spec fn destroyed(self, entity: Entity) -> EntityManagerView {
        EntityManagerView {
            live: self.live.remove(entity.id),
            free: if entity.generation < u32::MAX {
                self.free.push(entity)
            } else {
                self.free
            },
            ..self
        }
    }
}

/// An identifier that is neither live nor waiting for reuse, and lies below
/// the counter or in the caller's range, can become live.
pub proof fn lemma_with_live_keeps_inv(man: EntityManagerView, entity: Entity)
    requires
        man.inv(),
        !man.is_free(entity.id),
        entity.id < man.next || entity.id <= Entity::EXTERNAL_MAX,
    ensures
        man.with_live(entity).inv(),
{
    let after = man.with_live(entity);
    assert forall|i: int| 0 <= i < after.free.len() implies {
        &&& !after.live.contains_key((#[trigger] after.free[i]).id)
        &&& after.free[i].generation < u32::MAX
        &&& after.free[i].id < after.next || after.free[i].id <= Entity::EXTERNAL_MAX
    } by {
        assert(man.free[i].id != entity.id);
        assert(!man.live.contains_key(man.free[i].id));
    }
    assert forall|id: u32| #[trigger] after.live.contains_key(id) implies id < after.next || id
        <= Entity::EXTERNAL_MAX by {
        if id != entity.id {
            assert(man.live.contains_key(id));
        }
    }
}

/// Taking a handle from those that wait for reuse keeps the invariant, and
/// its identifier then waits no longer.
pub proof fn lemma_without_free_keeps_inv(man: EntityManagerView, i: int)
    requires
        man.inv(),
        0 <= i < man.free.len(),
    ensures
        man.without_free(i).inv(),
        !man.without_free(i).is_free(man.free[i].id),
        !man.live.contains_key(man.free[i].id),
        man.free[i].generation < u32::MAX,
        man.free[i].id < man.next || man.free[i].id <= Entity::EXTERNAL_MAX,
{
    let after = man.without_free(i);
    assert forall|k: int| 0 <= k < after.free.len() implies #[trigger] after.free[k] == man.free[if k
        < i {
        k
    } else {
        k + 1
    }] by {}
    assert forall|a: int, b: int| 0 <= a < b < after.free.len() implies (#[trigger] after.free[a]).id
        != (#[trigger] after.free[b]).id by {
        let a0 = if a < i {
            a
        } else {
            a + 1
        };
        let b0 = if b < i {
            b
        } else {
            b + 1
        };
        assert(man.free[a0].id != man.free[b0].id);
    }
    assert forall|k: int| 0 <= k < after.free.len() implies {
        &&& !after.live.contains_key((#[trigger] after.free[k]).id)
        &&& after.free[k].generation < u32::MAX
        &&& after.free[k].id < after.next || after.free[k].id <= Entity::EXTERNAL_MAX
    } by {
        let k0 = if k < i {
            k
        } else {
            k + 1
        };
        assert(!man.live.contains_key(man.free[k0].id));
    }
    assert forall|k: int| 0 <= k < after.free.len() implies (#[trigger] after.free[k]).id
        != man.free[i].id by {
        let k0 = if k < i {
            k
        } else {
            k + 1
        };
        if k0 < i {
            assert(man.free[k0].id != man.free[i].id);
        } else {
            assert(man.free[i].id != man.free[k0].id);
        }
    }
    assert(!man.live.contains_key(man.free[i].id));
}

/// While identifiers of the manager's own range are left, the counter can
/// move on, and the identifier it stood at is then free to become live.
pub proof fn lemma_with_next_used_keeps_inv(man: EntityManagerView)
    requires
        man.inv(),
        man.next < Entity::NULL_ID,
    ensures
        man.with_next_used().inv(),
        !man.with_next_used().is_free(man.next as u32),
        !man.live.contains_key(man.next as u32),
{
    let after = man.with_next_used();
    assert forall|k: int| 0 <= k < after.free.len() implies {
        &&& !after.live.contains_key((#[trigger] after.free[k]).id)
        &&& after.free[k].generation < u32::MAX
        &&& after.free[k].id < after.next || after.free[k].id <= Entity::EXTERNAL_MAX
    } by {
        assert(!man.live.contains_key(man.free[k].id));
    }
    assert forall|id: u32| #[trigger] after.live.contains_key(id) implies id < after.next || id
        <= Entity::EXTERNAL_MAX by {
        assert(man.live.contains_key(id));
    }
    assert forall|k: int| 0 <= k < after.free.len() implies (#[trigger] after.free[k]).id
        != man.next by {
        assert(!man.live.contains_key(man.free[k].id));
    }
    if man.live.contains_key(man.next as u32) {
        assert(false);
    }
}

/// Recording a place for a live entity keeps the invariant.
pub proof fn lemma_with_location_keeps_inv(man: EntityManagerView, entity: Entity, location: Location)
    requires
        man.inv(),
        man.is_live(entity),
    ensures
        man.with_location(entity, location).inv(),
{
    let after = man.with_location(entity, location);
    assert forall|i: int| 0 <= i < after.free.len() implies {
        &&& !after.live.contains_key((#[trigger] after.free[i]).id)
        &&& after.free[i].generation < u32::MAX
        &&& after.free[i].id < after.next || after.free[i].id <= Entity::EXTERNAL_MAX
    } by {
        assert(!man.live.contains_key(man.free[i].id));
    }
    assert forall|id: u32| #[trigger] after.live.contains_key(id) implies id < after.next || id
        <= Entity::EXTERNAL_MAX by {
        if id != entity.id {
            assert(man.live.contains_key(id));
        }
    }
}

/// Destroying a live entity keeps the invariant.
pub proof fn lemma_destroyed_keeps_inv(man: EntityManagerView, entity: Entity)
    requires
        man.inv(),
        man.is_live(entity),
    ensures
        man.destroyed(entity).inv(),
{
    let after = man.destroyed(entity);
    assert(man.live.contains_key(entity.id));
    assert forall|i: int| 0 <= i < man.free.len() implies (#[trigger] man.free[i]).id
        != entity.id by {
        assert(!man.live.contains_key(man.free[i].id));
    }
    assert forall|a: int, b: int| 0 <= a < b < after.free.len() implies (#[trigger] after.free[a]).id
        != (#[trigger] after.free[b]).id by {
        if b < man.free.len() {
            assert(man.free[a].id != man.free[b].id);
        } else {
            assert(man.free[a].id != entity.id);
        }
    }
    assert forall|i: int| 0 <= i < after.free.len() implies {
        &&& !after.live.contains_key((#[trigger] after.free[i]).id)
        &&& after.free[i].generation < u32::MAX
        &&& after.free[i].id < after.next || after.free[i].id <= Entity::EXTERNAL_MAX
    } by {
        if i < man.free.len() {
            assert(!man.live.contains_key(man.free[i].id));
        }
    }
    assert forall|id: u32| #[trigger] after.live.contains_key(id) implies id < after.next || id
        <= Entity::EXTERNAL_MAX by {
        assert(man.live.contains_key(id));
    }
}

/// `create` keeps the invariant, and the handle it issues is one that was
/// not live: it is live afterwards, and so is every entity that was live
/// before, none of which has its identifier.
pub proof fn lemma_create_issues_unused_identifier(man: EntityManagerView, other: Entity)
    requires
        man.inv(),
        man.is_live(other),
    ensures
        man.after_create().inv(),
        man.after_create().is_live(other),
        man.issued() matches Some(entity) ==> {
            &&& !man.live.contains_key(entity.id)
            &&& entity.id != other.id
            &&& man.after_create().is_live(entity)
        },
{
    if man.free.len() > 0 {
        let last = man.free.len() - 1;
        lemma_without_free_keeps_inv(man, last);
        lemma_with_live_keeps_inv(man.without_free(last), EntityManagerView::reissued(man.free[last]));
    } else if man.next < Entity::NULL_ID {
        lemma_with_next_used_keeps_inv(man);
        lemma_with_live_keeps_inv(
            man.with_next_used(),
            Entity { id: man.next as u32, generation: 0 },
        );
    }
}

/// A handle that waits for reuse is issued again once the handles destroyed
/// after it have been: with its identifier, and with a generation above its
/// own. The handle itself is not live then.
pub proof fn lemma_waiting_handle_comes_back(man: EntityManagerView, i: int)
    requires
        man.inv(),
        0 <= i < man.free.len(),
    ensures
        man.issued_after((man.free.len() - 1 - i) as nat) == Some(
            EntityManagerView::reissued(man.free[i]),
        ),
        EntityManagerView::reissued(man.free[i]).id == man.free[i].id,
        EntityManagerView::reissued(man.free[i]).generation > man.free[i].generation,
        !man.is_live(man.free[i]),
    decreases man.free.len() - i,
{
    let last = man.free.len() - 1;
    lemma_without_free_keeps_inv(man, i);
    if i < last {
        lemma_without_free_keeps_inv(man, last);
        lemma_with_live_keeps_inv(man.without_free(last), EntityManagerView::reissued(man.free[last]));
        let after = man.after_create();
        assert(after.free[i] == man.free[i]);
        lemma_waiting_handle_comes_back(after, i);
    }
}

/// A live entity that is destroyed and whose identifier is then issued
/// again comes back under a handle with a higher generation; the destroyed
/// handle stays apart from it and is not live.
pub proof fn lemma_recycling_raises_generation(man: EntityManagerView, entity: Entity)
    requires
        man.inv(),
        man.is_live(entity),
        entity.generation < u32::MAX,
    ensures
        man.destroyed(entity).inv(),
        !man.destroyed(entity).is_live(entity),
        man.destroyed(entity).issued() matches Some(back) && back.id == entity.id && back.generation
            > entity.generation,
        man.destroyed(entity).after_create().is_live(man.destroyed(entity).issued().unwrap()),
        !man.destroyed(entity).after_create().is_live(entity),
{
    lemma_destroyed_keeps_inv(man, entity);
}

/// Issues, recycles and locates entities.
pub struct EntityManager {
    entities: HashMap<u32, Record>,
    next: u32,
    free_list: Vec<Entity>,
}

impl View for EntityManager {
    type V = EntityManagerView;

    closed spec fn view(&self) -> EntityManagerView {
        EntityManagerView { live: self.entities@, next: self.next as nat, free: self.free_list@ }
    }
}

impl Default for EntityManager {
    fn default() -> (man: Self)
        ensures
            man.wf(),
            man@.live == Map::<u32, Record>::empty(),
            man@.next == Entity::INTERNAL_MIN,
            man@.free == Seq::<Entity>::empty(),
    {
        Self { entities: HashMap::new(), next: Entity::INTERNAL_MIN, free_list: Vec::new() }
    }
}

impl EntityManager {
    /// The manager meets its invariant.
    pub open spec fn wf(&self) -> bool {
        self@.inv()
    }

    /// A manager without entities.
    pub fn new() -> (man: Self)
        ensures
            man.wf(),
            man@.live == Map::<u32, Record>::empty(),
            man@.next == Entity::INTERNAL_MIN,
            man@.free == Seq::<Entity>::empty(),
    {
        Default::default()
    }

    /// An entity with an identifier that the caller chose, without checking
    /// whether such an entity is live. Turned down exactly when the
    /// identifier is not one that a caller may assign.
    pub fn with_id_unchecked(id: u32) -> (r: Result<Entity, EntityError>)
        ensures
            match r {
                Ok(entity) => id <= Entity::EXTERNAL_MAX && entity.id == id && entity.generation
                    == 0,
                Err(error) => id > Entity::EXTERNAL_MAX && error == EntityError::OutOfBounds,
            },
    {
        if id > Entity::EXTERNAL_MAX {
            return Err(EntityError::OutOfBounds);
        }
        Ok(Entity { id, generation: 0 })
    }

    /// An entity with the identifier `id`, which the caller chose. Turned
    /// down where `id` is not one that a caller may assign, and where an
    /// entity with that identifier is live. Where the identifier waits for
    /// reuse, it is taken from there, with the next generation.
    pub fn with_id(&mut self, id: u32) -> (r: Result<Entity, EntityError>)
        requires
            old(self).wf(),
        ensures
            match r {
                Ok(entity) => {
                    &&& id <= Entity::EXTERNAL_MAX
                    &&& !old(self)@.live.contains_key(id)
                    &&& if old(self)@.is_free(id) {
                        let i = old(self)@.free_index(id);
                        &&& entity == EntityManagerView::reissued(old(self)@.free[i])
                        &&& final(self)@ == old(self)@.without_free(i).with_live(entity)
                    } else {
                        &&& entity == (Entity { id, generation: 0 })
                        &&& final(self)@ == old(self)@.with_live(entity)
                    }
                },
                Err(error) => {
                    &&& final(self)@ == old(self)@
                    &&& if id > Entity::EXTERNAL_MAX {
                        error == EntityError::OutOfBounds
                    } else {
                        old(self)@.live.contains_key(id) && error == EntityError::DuplicateID(id)
                    }
                },
            },
            final(self).wf(),
    {
        if id > Entity::EXTERNAL_MAX {
            return Err(EntityError::OutOfBounds);
        }
        if self.entities.contains_key(&id) {
            return Err(EntityError::DuplicateID(id));
        }
        let generation: u32 = match self.find_free(id) {
            Some(at) => {
                proof {
                    lemma_without_free_keeps_inv(self@, at as int);
                    lemma_with_live_keeps_inv(
                        self@.without_free(at as int),
                        EntityManagerView::reissued(self@.free[at as int]),
                    );
                }
                let freed = self.free_list.remove(at);
                freed.generation + 1
            },
            None => {
                proof {
                    lemma_with_live_keeps_inv(self@, Entity { id, generation: 0 });
                }
                0
            },
        };
        let entity = Entity { id, generation };
        self.entities.insert(id, Record { generation, location: None });
        Ok(entity)
    }

    /// The position at which the identifier `id` waits for reuse, where it
    /// does.
    fn find_free(&self, id: u32) -> (r: Option<usize>)
        requires
            self.wf(),
        ensures
            match r {
                Some(at) => self@.is_free(id) && at == self@.free_index(id) && at
                    < self@.free.len(),
                None => !self@.is_free(id),
            },
    {
        let mut n: usize = 0;
        while n < self.free_list.len()
            invariant
                n <= self.free_list@.len(),
                self.wf(),
                forall|i: int| 0 <= i < n ==> (#[trigger] self.free_list@[i]).id != id,
            decreases self.free_list.len() - n,
        {
            if self.free_list[n].id == id {
                proof {
                    assert(self@.free[n as int].id == id);
                    let i = self@.free_index(id);
                    if i < n {
                        assert(self@.free[i].id != self@.free[n as int].id);
                    }
                    if n < i {
                        assert(self@.free[n as int].id != self@.free[i].id);
                    }
                }
                return Some(n);
            }
            n = n + 1;
        }
        None
    }

    /// The next identifier of the manager's own range. Turned down when
    /// that range is used up.
    fn fresh_id(&mut self) -> (r: Result<u32, EntityError>)
        requires
            Entity::INTERNAL_MIN <= old(self).next <= Entity::NULL_ID,
        ensures
            match r {
                Ok(id) => id == old(self).next && id < Entity::NULL_ID && final(self).next == id
                    + 1,
                Err(error) => error == EntityError::Overflow && old(self).next == Entity::NULL_ID
                    && final(self).next == old(self).next,
            },
            final(self).entities == old(self).entities,
            final(self).free_list == old(self).free_list,
    {
        let id: u32 = self.next;
        if id == Entity::NULL_ID {
            return Err(EntityError::Overflow);
        }
        self.next = id + 1;
        Ok(id)
    }

    /// A new entity. Its identifier is that of the handle destroyed last
    /// among those that wait for reuse, with the next generation; where none
    /// waits, the next identifier of the manager's own range. Turned down
    /// exactly when none waits and that range is used up.
    pub fn create(&mut self) -> (r: Result<Entity, EntityError>)
        requires
            old(self).wf(),
        ensures
            match old(self)@.issued() {
                Some(entity) => r == Ok::<Entity, EntityError>(entity) && !old(
                    self,
                )@.live.contains_key(entity.id),
                None => r == Err::<Entity, EntityError>(EntityError::Overflow),
            },
            final(self)@ == old(self)@.after_create(),
            final(self).wf(),
    {
        proof {
            if self@.free.len() > 0 {
                let last = self@.free.len() - 1;
                lemma_without_free_keeps_inv(self@, last);
                lemma_with_live_keeps_inv(
                    self@.without_free(last),
                    EntityManagerView::reissued(self@.free[last]),
                );
                assert(self@.free.remove(last) =~= self@.free.drop_last());
            } else if self@.next < Entity::NULL_ID {
                lemma_with_next_used_keeps_inv(self@);
                lemma_with_live_keeps_inv(
                    self@.with_next_used(),
                    Entity { id: self@.next as u32, generation: 0 },
                );
            }
        }
        let entity = match self.free_list.pop() {
            Some(freed) => Entity { id: freed.id, generation: freed.generation + 1 },
            None => match self.fresh_id() {
                Ok(id) => Entity { id, generation: 0 },
                Err(error) => {
                    return Err(error);
                },
            },
        };
        self.entities.insert(entity.id, Record { generation: entity.generation, location: None });
        Ok(entity)
    }

    /// Records where the data of the live entity `entity` lies. Turned
    /// down exactly when `entity` is not live.
    pub fn set_loc(&mut self, entity: Entity, archetype: ArchetypeId, index: usize) -> (r: Result<
        (),
        EntityError,
    >)
        requires
            old(self).wf(),
        ensures
            match r {
                Ok(_) => old(self)@.is_live(entity) && final(self)@ == old(self)@.with_location(
                    entity,
                    Location { archetype, index },
                ),
                Err(error) => !old(self)@.is_live(entity) && error == EntityError::DoesNotExist(
                    entity,
                ) && final(self)@ == old(self)@,
            },
            final(self).wf(),
    {
        if !self.is_live(entity) {
            return Err(EntityError::DoesNotExist(entity));
        }
        proof {
            lemma_with_location_keeps_inv(self@, entity, Location { archetype, index });
        }
        self.entities.insert(
            entity.id,
            Record { generation: entity.generation, location: Some(Location { archetype, index }) },
        );
        Ok(())
    }

    /// Destroys the live entity `entity` and returns the place of its
    /// data, where one was recorded. The handle then waits for reuse, unless
    /// its generation is the last one. Turned down exactly when `entity` is
    /// not live.
    pub fn destroy(&mut self, entity: Entity) -> (r: Result<Option<EntityLoc>, EntityError>)
        requires
            old(self).wf(),
        ensures
            match r {
                Ok(place) => {
                    &&& old(self)@.is_live(entity)
                    &&& final(self)@ == old(self)@.destroyed(entity)
                    &&& match old(self)@.live[entity.id].location {
                        Some(location) => place == Some(EntityLoc { entity, location }),
                        None => place.is_none(),
                    }
                },
                Err(error) => !old(self)@.is_live(entity) && error == EntityError::DoesNotExist(
                    entity,
                ) && final(self)@ == old(self)@,
            },
            final(self).wf(),
    {
        if !self.is_live(entity) {
            return Err(EntityError::DoesNotExist(entity));
        }
        proof {
            lemma_destroyed_keeps_inv(self@, entity);
        }
        let record = self.entities.remove(&entity.id).unwrap();
        if entity.generation < u32::MAX {
            self.free_list.push(entity);
        }
        Ok(
            match record.location {
                Some(location) => Some(EntityLoc { entity, location }),
                None => None,
            },
        )
    }

    /// Whether `entity` is live.
    pub fn is_live(&self, entity: Entity) -> (r: bool)
        ensures
            r == self@.is_live(entity),
    {
        match self.entities.get(&entity.id) {
            Some(record) => record.generation == entity.generation,
            None => false,
        }
    }

    /// The place of the data of `id`; absent where `id` is not live or no
    /// place has been recorded for it.
    pub fn get_loc(&self, id: Entity) -> (r: Option<EntityLoc>)
        ensures
            match r {
                Some(loc) => self@.is_live(id) && loc.entity == id && self@.live[id.id].location
                    == Some(loc.location),
                None => !self@.is_live(id) || self@.live[id.id].location.is_none(),
            },
    {
        match self.entities.get(&id.id) {
            Some(record) => {
                if record.generation != id.generation {
                    return None;
                }
                match record.location {
                    Some(location) => Some(EntityLoc { entity: id, location }),
                    None => None,
                }
            },
            None => None,
        }
    }
}

} // verus!
