//! The world: the entities and the archetypes that hold their components.

use crate::component::ComponentId;
use crate::entity::{Entity, EntityManager, EntityManagerView, Location, Record};
use crate::manager::{ArchetypeManager, ManagerView};
use vstd::prelude::*;

verus! {

/// What a world holds.
pub struct WorldView {
    pub entities: EntityManagerView,
    pub archetypes: ManagerView,
}

impl WorldView {
    /// The world as it is made: no entity is live and none waits for reuse,
    /// the counter of identifiers stands at the start of the manager's own
    /// range, and the only archetype is the empty one of the empty set, under
    /// the reserved number 0.
    pub open spec fn is_fresh(self) -> bool {
        &&& self.entities.live == Map::<u32, Record>::empty()
        &&& self.entities.free == Seq::<Entity>::empty()
        &&& self.entities.next == Entity::INTERNAL_MIN
        &&& self.archetypes.next == 1
        &&& self.archetypes.keys == seq![Seq::<ComponentId>::empty()]
        &&& self.archetypes.archetypes.dom() == set![0u32]
        &&& self.archetypes.archetypes[0].entities == Seq::<Entity>::empty()
        &&& self.archetypes.archetypes[0].capacity == 0
    }

    /// The place recorded for `entity`, where it is live and has one.
    pub open spec fn location_of(self, entity: Entity) -> Option<Location> {
        if self.entities.is_live(entity) {
            self.entities.live[entity.id].location
        } else {
            None
        }
    }

    /// The place `location` names an occupied row of an archetype that has
    /// a column for the component type `id`.
    pub open spec fn holds_at(self, location: Location, id: ComponentId) -> bool {
        &&& self.archetypes.archetypes.contains_key(location.archetype.0)
        &&& self.archetypes.archetypes[location.archetype.0].column_of(id).is_some()
        &&& location.index < self.archetypes.archetypes[location.archetype.0].len()
    }

    /// The value of the component type `id` at the place `location`.
    pub open spec fn value_at(self, location: Location, id: ComponentId) -> Seq<u8> {
        let arch = self.archetypes.archetypes[location.archetype.0];
        arch.columns[arch.column_of(id).unwrap()].cell(location.index as int)
    }
}

/// Holds the entities and their components.
pub struct World {
    entities: EntityManager,
    archetypes: ArchetypeManager,
}

impl View for World {
    type V = WorldView;

    closed spec fn view(&self) -> WorldView {
        WorldView { entities: self.entities@, archetypes: self.archetypes@ }
    }
}

impl Default for World {
    fn default() -> (world: Self)
        ensures
            world.wf(),
            world@.is_fresh(),
    {
        Self { entities: EntityManager::new(), archetypes: ArchetypeManager::new() }
    }
}

impl World {
    /// Both managers meet their invariants.
    pub open spec fn wf(&self) -> bool {
        self@.entities.inv() && self@.archetypes.inv()
    }

    /// A world without entities, whose only archetype is that of the empty
    /// set.
    pub fn new() -> (world: Self)
        ensures
            world.wf(),
            world@.is_fresh(),
    {
        Default::default()
    }

    /// The world's archetypes.
    pub fn archetypes(&self) -> (r: &ArchetypeManager)
        ensures
            r@ == self@.archetypes,
    {
        &self.archetypes
    }

    /// The world's entities.
    pub fn entities(&self) -> (r: &EntityManager)
        ensures
            r@ == self@.entities,
    {
        &self.entities
    }

    /// The value of the component type `id` of `entity`; absent where
    /// `entity` is not live or has no place.
    pub fn get_component(&self, entity: Entity, id: ComponentId) -> (r: Option<&[u8]>)
        requires
            self.wf(),
            self@.location_of(entity) matches Some(location) ==> self@.holds_at(location, id),
        ensures
            match self@.location_of(entity) {
                Some(location) => r matches Some(bytes) && bytes@ == self@.value_at(location, id),
                None => r.is_none(),
            },
    {
        let loc = self.entities.get_loc(entity)?;
        let arch = self.archetypes.get_by_id(&loc.archetype()).unwrap();
        arch.read(loc.index(), id)
    }
}

} // verus!
