use chat_ecs::archetype::ArchetypeId;
use chat_ecs::column::TeardownStep;
use chat_ecs::component::{ComponentId, ComponentInfo};
use chat_ecs::entity::EntityManager;
use chat_ecs::manager::ArchetypeManager;
use chat_ecs::query::Query;

const A: ComponentId = ComponentId(11);
const B: ComponentId = ComponentId(22);
const C: ComponentId = ComponentId(33);

fn info(id: ComponentId) -> ComponentInfo {
    ComponentInfo::new(id, 8, 8, true).unwrap()
}

#[test]
fn fresh_manager_holds_the_empty_archetype() {
    let man = ArchetypeManager::new();
    assert_eq!(man.len(), 1);
    assert!(!man.is_full());
    let unit = man.get_by_id(&ArchetypeId(0)).unwrap();
    assert_eq!(unit.id(), ArchetypeId(0));
    assert!(unit.component_ids().is_empty());
    assert_eq!(unit.len(), 0);
    assert!(man.get_by_id(&ArchetypeId(1)).is_none());
    assert_eq!(man.get_one(&[]).unwrap().id(), ArchetypeId(0));
    assert!(man.get_one(&[A]).is_none());
    assert!(man.query_component(A).is_none());
}

#[test]
fn the_empty_set_is_served_by_the_reserved_archetype() {
    let mut man = ArchetypeManager::new();
    assert_eq!(man.get_or_insert_with_info(Vec::new()).id(), ArchetypeId(0));
    assert_eq!(man.len(), 1);
}

#[test]
fn same_set_in_any_order_is_one_archetype() {
    let mut man = ArchetypeManager::new();
    let first = man.get_or_insert_with_info(vec![info(A), info(B)]).id();
    assert_eq!(first, ArchetypeId(1));
    assert_eq!(man.len(), 2);
    let second = man.get_or_insert_with_info(vec![info(B), info(A)]).id();
    assert_eq!(second, first);
    assert_eq!(man.len(), 2);
    assert_eq!(man.get_or_insert_with_info(vec![info(A), info(B)]).id(), first);
    assert_eq!(man.get_or_insert_with_info(vec![info(B), info(A), info(B)]).id(), first);
    assert_eq!(man.len(), 2);
    assert_eq!(man.get_one(&[B, A]).unwrap().id(), first);
    assert_eq!(man.get_one(&[A, B]).unwrap().id(), first);
    assert_eq!(man.get_one(&[A, B]).unwrap().component_ids(), &[A, B]);
}

#[test]
fn lookup_is_by_the_exact_set() {
    let mut man = ArchetypeManager::new();
    man.get_or_insert_with_info(vec![info(A), info(B)]);
    assert!(man.get_one(&[A]).is_none());
    assert!(man.get_one(&[B]).is_none());
    assert!(man.get_one(&[A, B, C]).is_none());
    assert_eq!(man.get_or_insert_with_info(vec![info(A)]).id(), ArchetypeId(2));
    assert_eq!(man.get_or_insert_with_info(vec![info(C), info(B), info(A)]).id(), ArchetypeId(3));
    assert_eq!(man.len(), 4);
    assert_eq!(man.get_one(&[A]).unwrap().id(), ArchetypeId(2));
    assert_eq!(man.get_by_id(&ArchetypeId(3)).unwrap().component_ids(), &[A, B, C]);
}

#[test]
fn every_component_lists_its_archetypes() {
    let mut man = ArchetypeManager::new();
    let id = man.get_or_insert_with_info(vec![info(A), info(B), info(C)]).id();
    assert_eq!(man.query_component(A), Some(&[id][..]));
    assert_eq!(man.query_component(B), Some(&[id][..]));
    assert_eq!(man.query_component(C), Some(&[id][..]));
    assert_eq!(man.query_component(ComponentId(44)), None);
    let other = man.get_or_insert_with_info(vec![info(C), info(A)]).id();
    assert_eq!(man.query_component(A), Some(&[id, other][..]));
    assert_eq!(man.query_component(B), Some(&[id][..]));
    assert_eq!(man.query_component(C), Some(&[id, other][..]));
    // asking again adds nothing to the index
    man.get_or_insert_with_info(vec![info(A), info(C)]);
    assert_eq!(man.query_component(A), Some(&[id, other][..]));
}

#[test]
fn changes_through_the_result_stay_in_the_manager() {
    let mut man = ArchetypeManager::new();
    let arch = man.get_or_insert_with_info(vec![ComponentInfo::new(A, 2, 1, false).unwrap()]);
    let mut row = arch.insert(EntityManager::with_id_unchecked(9).unwrap());
    assert!(row.write(A, &[4, 2]));
    let again = man.get_or_insert_with_info(vec![ComponentInfo::new(A, 2, 1, false).unwrap()]);
    assert_eq!(again.len(), 1);
    assert_eq!(again.read(0, A), Some(&[4, 2][..]));
    assert_eq!(man.get_by_id(&ArchetypeId(1)).unwrap().entities()[0].id(), 9);
}

#[test]
fn manager_teardown_goes_through_the_archetypes_in_order() {
    let mut man = ArchetypeManager::new();
    {
        let arch = man.get_or_insert_with_info(vec![ComponentInfo::new(B, 1, 1, true).unwrap()]);
        let mut row = arch.insert(EntityManager::with_id_unchecked(1).unwrap());
        row.write(B, &[7]);
    }
    {
        let arch = man.get_or_insert_with_info(vec![ComponentInfo::new(A, 1, 1, true).unwrap()]);
        let mut row = arch.insert(EntityManager::with_id_unchecked(2).unwrap());
        row.write(A, &[8]);
        let mut row = arch.insert(EntityManager::with_id_unchecked(3).unwrap());
        row.write(A, &[9]);
    }
    let steps = man.teardown();
    let mut told = Vec::new();
    for step in &steps {
        match step {
            TeardownStep::Drop { component, row, value } => {
                told.push(format!("drop {} {} {:?}", component.0, row, value))
            }
            TeardownStep::Release { component, size, align } => {
                told.push(format!("release {} {} {}", component.0, size, align))
            }
        }
    }
    assert_eq!(
        told,
        vec![
            "drop 22 0 [7]",
            "release 22 8 1",
            "drop 11 0 [8]",
            "drop 11 1 [9]",
            "release 11 8 1"
        ]
    );
}

#[test]
fn query_lists_what_it_was_given() {
    let mut man = ArchetypeManager::new();
    man.get_or_insert_with_info(vec![info(A), info(B)]);
    man.get_or_insert_with_info(vec![info(A)]);
    let query: Query<'_, ()> = Query::new(man.query_component(A).unwrap());
    assert_eq!(query.len(), 2);
    assert_eq!(query.get(0), Some(ArchetypeId(1)));
    assert_eq!(query.get(1), Some(ArchetypeId(2)));
    assert_eq!(query.get(2), None);
    let none: Query<'_, ()> = Query::new(&[]);
    assert_eq!(none.len(), 0);
    assert_eq!(none.get(0), None);
}
