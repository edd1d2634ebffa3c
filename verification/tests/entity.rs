use chat_ecs::archetype::ArchetypeId;
use chat_ecs::component::ComponentId;
use chat_ecs::entity::{Entity, EntityError, EntityManager};
use chat_ecs::world::World;

#[test]
fn identifier_ranges() {
    assert_eq!(Entity::EXTERNAL_MIN, 0);
    assert_eq!(Entity::EXTERNAL_MAX, (1u32 << 31) - 1);
    assert_eq!(Entity::INTERNAL_MIN, 1u32 << 31);
    assert_eq!(Entity::INTERNAL_MAX, u32::MAX - 1);
    assert_eq!(Entity::NULL_ID, u32::MAX);
}

#[test]
fn with_id_unchecked_checks_the_range_only() {
    let entity = EntityManager::with_id_unchecked(5).unwrap();
    assert_eq!(entity.id(), 5);
    assert_eq!(entity.generation(), 0);
    assert_eq!(EntityManager::with_id_unchecked(0x7fff_ffff).unwrap().id(), 0x7fff_ffff);
    assert_eq!(EntityManager::with_id_unchecked(0x8000_0000), Err(EntityError::OutOfBounds));
    assert_eq!(EntityManager::with_id_unchecked(u32::MAX), Err(EntityError::OutOfBounds));
}

#[test]
fn create_counts_up_from_the_internal_range() {
    let mut man = EntityManager::new();
    let a = man.create().unwrap();
    let b = man.create().unwrap();
    let c = man.create().unwrap();
    assert_eq!((a.id(), a.generation()), (0x8000_0000, 0));
    assert_eq!((b.id(), b.generation()), (0x8000_0001, 0));
    assert_eq!((c.id(), c.generation()), (0x8000_0002, 0));
    assert!(man.is_live(a) && man.is_live(b) && man.is_live(c));
}

#[test]
fn live_identifiers_are_distinct() {
    let mut man = EntityManager::new();
    let mut live: Vec<Entity> = Vec::new();
    for round in 0..50u32 {
        let entity = man.create().unwrap();
        assert!(live.iter().all(|other| other.id() != entity.id()));
        live.push(entity);
        if round % 3 == 2 {
            let gone = live.remove((round as usize * 7) % live.len());
            assert!(man.destroy(gone).is_ok());
            assert!(!man.is_live(gone));
        }
    }
    for entity in &live {
        assert!(man.is_live(*entity));
    }
}

#[test]
fn recycled_identifier_has_a_higher_generation() {
    let mut man = EntityManager::new();
    let a = man.create().unwrap();
    let b = man.create().unwrap();
    assert_eq!(man.destroy(a).unwrap(), None);
    assert_eq!(man.destroy(b).unwrap(), None);
    // the handle destroyed last is reused first
    let b2 = man.create().unwrap();
    assert_eq!((b2.id(), b2.generation()), (b.id(), 1));
    let a2 = man.create().unwrap();
    assert_eq!((a2.id(), a2.generation()), (a.id(), 1));
    assert!(a2.generation() > a.generation());
    assert!(!man.is_live(a));
    assert!(man.is_live(a2));
    assert_ne!(a, a2);
    // the stale handle is told apart
    assert_eq!(man.destroy(a), Err(EntityError::DoesNotExist(a)));
    assert!(man.destroy(a2).is_ok());
    let a3 = man.create().unwrap();
    assert_eq!((a3.id(), a3.generation()), (a.id(), 2));
    let fresh = man.create().unwrap();
    assert_eq!((fresh.id(), fresh.generation()), (0x8000_0002, 0));
}

#[test]
fn with_id_turns_down_what_is_out_of_range_or_live() {
    let mut man = EntityManager::new();
    assert_eq!(man.with_id(0x8000_0000), Err(EntityError::OutOfBounds));
    assert_eq!(man.with_id(u32::MAX), Err(EntityError::OutOfBounds));
    let seven = man.with_id(7).unwrap();
    assert_eq!((seven.id(), seven.generation()), (7, 0));
    assert!(man.is_live(seven));
    assert_eq!(man.with_id(7), Err(EntityError::DuplicateID(7)));
    assert_eq!(man.with_id(0).unwrap().id(), 0);
    assert_eq!(man.with_id(0x7fff_ffff).unwrap().id(), 0x7fff_ffff);
}

#[test]
fn with_id_takes_a_waiting_identifier_with_the_next_generation() {
    let mut man = EntityManager::new();
    let seven = man.with_id(7).unwrap();
    let eight = man.with_id(8).unwrap();
    let nine = man.with_id(9).unwrap();
    man.destroy(seven).unwrap();
    man.destroy(eight).unwrap();
    man.destroy(nine).unwrap();
    let again = man.with_id(8).unwrap();
    assert_eq!((again.id(), again.generation()), (8, 1));
    // 8 waits no longer: the next two come from the other two handles
    let first = man.create().unwrap();
    let second = man.create().unwrap();
    assert_eq!((first.id(), first.generation()), (9, 1));
    assert_eq!((second.id(), second.generation()), (7, 1));
    assert_eq!(man.create().unwrap().id(), 0x8000_0000);
}

#[test]
fn destroy_turns_down_what_is_not_live() {
    let mut man = EntityManager::new();
    let never = EntityManager::with_id_unchecked(3).unwrap();
    assert_eq!(man.destroy(never), Err(EntityError::DoesNotExist(never)));
    let entity = man.create().unwrap();
    assert!(man.destroy(entity).is_ok());
    assert_eq!(man.destroy(entity), Err(EntityError::DoesNotExist(entity)));
}

#[test]
fn location_is_kept_until_destroy() {
    let mut man = EntityManager::new();
    let entity = man.create().unwrap();
    assert!(man.get_loc(entity).is_none());
    assert_eq!(man.set_loc(entity, ArchetypeId(3), 14), Ok(()));
    let loc = man.get_loc(entity).unwrap();
    assert_eq!(loc.entity, entity);
    assert_eq!(loc.archetype(), ArchetypeId(3));
    assert_eq!(loc.index(), 14);
    assert_eq!(man.set_loc(entity, ArchetypeId(4), 0), Ok(()));
    assert_eq!(man.get_loc(entity).unwrap().archetype(), ArchetypeId(4));
    let last = man.destroy(entity).unwrap().unwrap();
    assert_eq!(last.entity, entity);
    assert_eq!(last.archetype(), ArchetypeId(4));
    assert_eq!(last.index(), 0);
    assert!(man.get_loc(entity).is_none());
    assert_eq!(man.set_loc(entity, ArchetypeId(4), 0), Err(EntityError::DoesNotExist(entity)));
    let reused = man.create().unwrap();
    assert_eq!(reused.id(), entity.id());
    assert!(man.get_loc(reused).is_none());
    assert!(man.get_loc(entity).is_none());
}

#[test]
fn fresh_world() {
    let world = World::new();
    assert_eq!(world.archetypes().len(), 1);
    assert!(world.archetypes().get_by_id(&ArchetypeId(0)).is_some());
    let entity = EntityManager::with_id_unchecked(1).unwrap();
    assert!(!world.entities().is_live(entity));
    assert_eq!(world.get_component(entity, ComponentId(1)), None);
}
