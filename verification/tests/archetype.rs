use chat_ecs::archetype::{Archetype, ArchetypeId, ArchetypeRow};
use chat_ecs::column::{buffer_size, ComponentColumn, TeardownStep};
use chat_ecs::component::{
    canonical_key, canonicalize, info_ids, is_power_of_two, same_ids, search_ids, ComponentId,
    ComponentInfo,
};
use chat_ecs::entity::EntityManager;
use chat_ecs::manager::ArchetypeManager;
use std::cell::Cell;
use std::rc::Rc;

const LENGTH: ComponentId = ComponentId(1);
const FLOW: ComponentId = ComponentId(2);

fn f32_info(id: ComponentId) -> ComponentInfo {
    ComponentInfo::new(id, 4, 4, true).unwrap()
}

fn read_f32(bytes: &[u8]) -> f32 {
    f32::from_ne_bytes(<[u8; 4]>::try_from(bytes).unwrap())
}

fn drops_of(steps: &[TeardownStep], id: ComponentId) -> Vec<(usize, Vec<u8>)> {
    let mut found = Vec::new();
    for step in steps {
        if let TeardownStep::Drop { component, row, value } = step {
            if *component == id {
                found.push((*row, value.clone()));
            }
        }
    }
    found
}

fn releases_of(steps: &[TeardownStep]) -> Vec<(ComponentId, usize, usize)> {
    let mut found = Vec::new();
    for step in steps {
        if let TeardownStep::Release { component, size, align } = step {
            found.push((*component, *size, *align));
        }
    }
    found
}

#[test]
fn archetype() {
    #[derive(Clone, PartialEq, PartialOrd, Debug)]
    struct Length(f32, Rc<Cell<u32>>);
    impl Drop for Length {
        fn drop(&mut self) {
            self.1.set(self.1.get() + 1);
        }
    }

    #[derive(Clone, PartialEq, PartialOrd, Debug)]
    struct Flow(f32, Rc<Cell<u32>>);
    impl Drop for Flow {
        fn drop(&mut self) {
            self.1.set(self.1.get() + 1);
        }
    }

    let length_drop_count = Rc::new(Cell::new(0));
    let flow_drop_count = Rc::new(Cell::new(0));

    let mut arch_man = ArchetypeManager::new();
    let arch = arch_man.get_or_insert_with_info(vec![f32_info(LENGTH), f32_info(FLOW)]);
    assert_eq!(arch.id(), ArchetypeId(1));
    assert_eq!(arch.component_ids(), &[LENGTH, FLOW]);

    {
        println!("Creating arch row");
        let mut row = arch.insert(EntityManager::with_id_unchecked(1).unwrap());
        println!("Writing Length");
        let length = Length(2.0, length_drop_count.clone());
        assert!(row.write(LENGTH, &length.0.to_ne_bytes()));
        std::mem::forget(length);
        println!("Writing Flow");
        let flow = Flow(3.0, flow_drop_count.clone());
        assert!(row.write(FLOW, &flow.0.to_ne_bytes()));
        std::mem::forget(flow);

        println!("Asserts");
        assert_eq!(
            Length(read_f32(row.read(LENGTH).unwrap()), length_drop_count.clone()).0,
            2.0
        );
        assert_eq!(Flow(read_f32(row.read(FLOW).unwrap()), flow_drop_count.clone()).0, 3.0);
    }
    println!("Dropping");
    for step in arch_man.teardown() {
        if let TeardownStep::Drop { component, value, .. } = step {
            if component == LENGTH {
                drop(Length(read_f32(&value), length_drop_count.clone()));
            } else {
                drop(Flow(read_f32(&value), flow_drop_count.clone()));
            }
        }
    }
    // the value inside the archetype as well as the temporary used for comparison
    assert_eq!(length_drop_count.get(), 2);
    assert_eq!(flow_drop_count.get(), 2);
}

#[test]
fn power_of_two_is_recognised() {
    assert!(!is_power_of_two(0));
    assert!(is_power_of_two(1));
    assert!(is_power_of_two(2));
    assert!(!is_power_of_two(3));
    assert!(is_power_of_two(4096));
    assert!(!is_power_of_two(4097));
    assert!(!is_power_of_two(usize::MAX));
    assert!(is_power_of_two(1usize << (usize::BITS - 1)));
}

#[test]
fn component_info_keeps_what_it_was_given() {
    let info = ComponentInfo::new(ComponentId(9), 24, 8, true).unwrap();
    assert_eq!(info.id(), ComponentId(9));
    assert_eq!(info.size(), 24);
    assert_eq!(info.align(), 8);
    assert!(info.needs_drop());
    let unit = ComponentInfo::new(ComponentId(0), 0, 1, false).unwrap();
    assert_eq!(unit.size(), 0);
    assert!(!unit.needs_drop());
}

#[test]
fn component_info_turns_down_what_is_no_layout() {
    assert!(ComponentInfo::new(ComponentId(1), 4, 0, false).is_none());
    assert!(ComponentInfo::new(ComponentId(1), 4, 3, false).is_none());
    assert!(ComponentInfo::new(ComponentId(1), 6, 4, false).is_none());
    assert!(ComponentInfo::new(ComponentId(1), usize::MAX, 1, false).is_none());
    assert!(ComponentInfo::new(ComponentId(1), isize::MAX as usize, 1, false).is_some());
    assert!(ComponentInfo::new(ComponentId(1), isize::MAX as usize - 1, 2, false).is_some());
    assert!(ComponentInfo::new(ComponentId(1), (isize::MAX as usize) + 1, 2, false).is_none());
}

#[test]
fn search_finds_the_position_or_the_gap() {
    let ids = [ComponentId(2), ComponentId(5), ComponentId(9)];
    assert_eq!(search_ids(&ids, ComponentId(2)), Ok(0));
    assert_eq!(search_ids(&ids, ComponentId(5)), Ok(1));
    assert_eq!(search_ids(&ids, ComponentId(9)), Ok(2));
    assert_eq!(search_ids(&ids, ComponentId(0)), Err(0));
    assert_eq!(search_ids(&ids, ComponentId(3)), Err(1));
    assert_eq!(search_ids(&ids, ComponentId(7)), Err(2));
    assert_eq!(search_ids(&ids, ComponentId(10)), Err(3));
    assert_eq!(search_ids(&[], ComponentId(10)), Err(0));
}

#[test]
fn canonical_key_sorts_and_drops_repetitions() {
    let key = canonical_key(&[ComponentId(5), ComponentId(1), ComponentId(5), ComponentId(3), ComponentId(1)]);
    assert_eq!(key, vec![ComponentId(1), ComponentId(3), ComponentId(5)]);
    assert_eq!(canonical_key(&[]), Vec::<ComponentId>::new());
    assert!(same_ids(&key, &[ComponentId(1), ComponentId(3), ComponentId(5)]));
    assert!(!same_ids(&key, &[ComponentId(1), ComponentId(3)]));
    assert!(!same_ids(&key, &[ComponentId(1), ComponentId(3), ComponentId(6)]));
}

#[test]
fn canonicalize_keeps_the_first_entry_of_each_identity() {
    let a = ComponentInfo::new(ComponentId(7), 8, 8, false).unwrap();
    let b = ComponentInfo::new(ComponentId(3), 2, 2, true).unwrap();
    let a_again = ComponentInfo::new(ComponentId(7), 16, 16, true).unwrap();
    let given = vec![a, b, a_again];
    assert_eq!(info_ids(&given), vec![ComponentId(7), ComponentId(3), ComponentId(7)]);
    let (ids, canon) = canonicalize(&given);
    assert_eq!(ids, vec![ComponentId(3), ComponentId(7)]);
    assert_eq!(canon.len(), 2);
    assert_eq!(canon[0].size(), 2);
    assert_eq!(canon[1].size(), 8);
    assert_eq!(canon[1].align(), 8);
    assert!(!canon[1].needs_drop());
}

#[test]
fn buffer_size_is_the_product_where_it_is_accepted() {
    let info = ComponentInfo::new(ComponentId(1), 12, 4, false).unwrap();
    assert_eq!(buffer_size(&info, 0), Some(0));
    assert_eq!(buffer_size(&info, 10), Some(120));
    assert_eq!(buffer_size(&info, usize::MAX), None);
    assert_eq!(buffer_size(&info, isize::MAX as usize / 12), Some(isize::MAX as usize / 12 * 12));
    assert_eq!(buffer_size(&info, isize::MAX as usize / 12 + 1), None);
}

#[test]
fn column_without_capacity_holds_nothing() {
    let info = ComponentInfo::new(ComponentId(1), 4, 4, false).unwrap();
    let col = ComponentColumn::new(info);
    assert_eq!(col.occupied(0), &[] as &[u8]);
    assert_eq!(col.info().id(), ComponentId(1));
    let same = ComponentColumn::with_capacity(info, 0).unwrap();
    assert_eq!(same.occupied(0), &[] as &[u8]);
    assert!(ComponentColumn::with_capacity(info, usize::MAX / 2).is_none());
}

#[test]
fn column_reads_back_what_was_written() {
    let info = ComponentInfo::new(ComponentId(1), 3, 1, false).unwrap();
    let mut col = ComponentColumn::with_capacity(info, 4).unwrap();
    assert_eq!(col.occupied(4), &[0u8; 12]);
    col.write(2, &[7, 8, 9]);
    assert_eq!(col.read(2), &[7, 8, 9]);
    assert_eq!(col.read(1), &[0, 0, 0]);
    assert_eq!(col.read(3), &[0, 0, 0]);
    col.write(0, &[1, 2, 3]);
    assert_eq!(col.occupied(3), &[1, 2, 3, 0, 0, 0, 7, 8, 9]);
    col.write(2, &[4, 5, 6]);
    assert_eq!(col.read(2), &[4, 5, 6]);
    assert_eq!(col.read(0), &[1, 2, 3]);
}

#[test]
fn column_growth_keeps_bytes_and_adds_zeros() {
    let info = ComponentInfo::new(ComponentId(1), 2, 2, false).unwrap();
    let mut col = ComponentColumn::with_capacity(info, 2).unwrap();
    col.write(0, &[1, 2]);
    col.write(1, &[3, 4]);
    col.grow(5);
    assert_eq!(col.occupied(5), &[1, 2, 3, 4, 0, 0, 0, 0, 0, 0]);
}

#[test]
fn column_teardown_names_each_occupied_row_once_then_the_buffer() {
    let info = ComponentInfo::new(ComponentId(4), 2, 2, true).unwrap();
    let mut col = ComponentColumn::with_capacity(info, 8).unwrap();
    col.write(0, &[1, 2]);
    col.write(1, &[3, 4]);
    col.write(2, &[5, 6]);
    let mut steps = Vec::new();
    col.teardown(3, &mut steps);
    assert_eq!(
        drops_of(&steps, ComponentId(4)),
        vec![(0, vec![1, 2]), (1, vec![3, 4]), (2, vec![5, 6])]
    );
    assert_eq!(releases_of(&steps), vec![(ComponentId(4), 16, 2)]);
    assert_eq!(steps.len(), 4);
    assert!(matches!(steps[3], TeardownStep::Release { .. }));
}

#[test]
fn column_teardown_without_destructor_or_buffer() {
    let plain = ComponentInfo::new(ComponentId(4), 2, 2, false).unwrap();
    let col = ComponentColumn::with_capacity(plain, 8).unwrap();
    let mut steps = Vec::new();
    col.teardown(3, &mut steps);
    assert_eq!(steps.len(), 1);
    assert_eq!(releases_of(&steps), vec![(ComponentId(4), 16, 2)]);

    let marker = ComponentInfo::new(ComponentId(5), 0, 1, true).unwrap();
    let col = ComponentColumn::with_capacity(marker, 8).unwrap();
    let mut steps = Vec::new();
    col.teardown(3, &mut steps);
    assert_eq!(
        drops_of(&steps, ComponentId(5)),
        vec![(0, vec![]), (1, vec![]), (2, vec![])]
    );
    assert!(releases_of(&steps).is_empty());
}

#[test]
fn archetype_columns_stand_in_canonical_order() {
    let big = ComponentInfo::new(ComponentId(30), 8, 8, false).unwrap();
    let small = ComponentInfo::new(ComponentId(10), 1, 1, false).unwrap();
    let mid = ComponentInfo::new(ComponentId(20), 2, 2, false).unwrap();
    let arch = Archetype::from_info_with_capacity(ArchetypeId(5), vec![big, small, mid, small], 4);
    assert_eq!(arch.id(), ArchetypeId(5));
    assert_eq!(arch.component_ids(), &[ComponentId(10), ComponentId(20), ComponentId(30)]);
    assert_eq!(arch.len(), 0);
    assert_eq!(arch.capacity(), 4);
    assert!(arch.entities().is_empty());
    assert_eq!(arch.get_column_index_by_id(ComponentId(10)), Ok(0));
    assert_eq!(arch.get_column_index_by_id(ComponentId(20)), Ok(1));
    assert_eq!(arch.get_column_index_by_id(ComponentId(30)), Ok(2));
    assert_eq!(arch.get_column_index_by_id(ComponentId(5)), Err(0));
    assert_eq!(arch.get_column_index_by_id(ComponentId(25)), Err(2));
    assert_eq!(arch.get_column_index_by_id(ComponentId(31)), Err(3));
    assert_eq!(arch.get_column_by_id(ComponentId(30)).unwrap().info().size(), 8);
    assert!(arch.get_column_by_id(ComponentId(31)).is_none());
    assert_eq!(arch.get_column_as_slice(ComponentId(20)), Some(&[] as &[u8]));
    assert_eq!(arch.get_column_as_slice(ComponentId(21)), None);
}

#[test]
fn archetype_without_capacity() {
    let info = ComponentInfo::new(ComponentId(1), 4, 4, false).unwrap();
    let arch = Archetype::from_info(ArchetypeId(2), vec![info]);
    assert_eq!(arch.capacity(), 0);
    assert_eq!(arch.len(), 0);
    assert!(arch.can_insert());
    assert!(arch.teardown().is_empty());
}

#[test]
fn insert_grows_before_half_of_the_rows_are_used() {
    let info = ComponentInfo::new(ComponentId(1), 1, 1, false).unwrap();
    let mut arch = Archetype::from_info(ArchetypeId(2), vec![info]);
    let mut capacities = Vec::new();
    for n in 0..20u32 {
        assert!(arch.can_insert());
        let row = arch.insert(EntityManager::with_id_unchecked(n).unwrap());
        assert_eq!(row.index, n as usize);
        capacities.push(arch.capacity());
    }
    assert_eq!(
        capacities,
        vec![8, 8, 8, 8, 16, 16, 16, 16, 32, 32, 32, 32, 32, 32, 32, 32, 64, 64, 64, 64]
    );
    assert_eq!(arch.len(), 20);
    assert_eq!(arch.entities()[7].id(), 7);
}

#[test]
fn growth_doubles_and_starts_at_eight() {
    let info = ComponentInfo::new(ComponentId(1), 1, 1, false).unwrap();
    let mut arch = Archetype::from_info_with_capacity(ArchetypeId(2), vec![info], 3);
    arch.grow();
    assert_eq!(arch.capacity(), 8);
    arch.grow();
    assert_eq!(arch.capacity(), 16);
    let mut arch = Archetype::from_info_with_capacity(ArchetypeId(2), vec![info], 5);
    arch.grow();
    assert_eq!(arch.capacity(), 10);
}

#[test]
fn values_stay_in_their_rows_when_columns_grow() {
    let a = ComponentInfo::new(ComponentId(1), 2, 2, false).unwrap();
    let b = ComponentInfo::new(ComponentId(2), 1, 1, false).unwrap();
    let mut arch = Archetype::from_info_with_capacity(ArchetypeId(1), vec![a, b], 8);
    for n in 0..4u8 {
        let mut row = arch.insert(EntityManager::with_id_unchecked(n as u32).unwrap());
        assert!(row.write(ComponentId(1), &[n, n + 100]));
        assert!(row.write(ComponentId(2), &[n + 200]));
    }
    assert_eq!(arch.capacity(), 8);
    // inserting as many records again makes the columns grow more than once
    for n in 4..13u8 {
        let mut row = arch.insert(EntityManager::with_id_unchecked(n as u32).unwrap());
        assert!(row.write(ComponentId(1), &[n, n + 100]));
        assert!(row.write(ComponentId(2), &[n + 200]));
    }
    assert_eq!(arch.capacity(), 32);
    for n in 0..13u8 {
        assert_eq!(arch.read(n as usize, ComponentId(1)), Some(&[n, n + 100][..]));
        assert_eq!(arch.read(n as usize, ComponentId(2)), Some(&[n + 200][..]));
        let row = ArchetypeRow::new(&arch, n as usize);
        assert_eq!(row.read(ComponentId(2)), Some(&[n + 200][..]));
        assert_eq!(row.read(ComponentId(3)), None);
    }
    assert_eq!(
        arch.get_column_as_slice(ComponentId(2)).unwrap(),
        &[200, 201, 202, 203, 204, 205, 206, 207, 208, 209, 210, 211, 212]
    );
}

#[test]
fn write_to_a_missing_column_changes_nothing() {
    let a = ComponentInfo::new(ComponentId(1), 2, 2, false).unwrap();
    let mut arch = Archetype::from_info(ArchetypeId(1), vec![a]);
    {
        let mut row = arch.insert(EntityManager::with_id_unchecked(3).unwrap());
        assert!(row.write(ComponentId(1), &[5, 6]));
        assert!(!row.write(ComponentId(2), &[9, 9]));
        assert_eq!(row.read(ComponentId(1)), Some(&[5, 6][..]));
        assert_eq!(row.read(ComponentId(2)), None);
    }
    assert!(!arch.write(0, ComponentId(7), &[1]));
    assert_eq!(arch.read(0, ComponentId(1)), Some(&[5, 6][..]));
}

#[test]
fn teardown_names_each_occupied_row_once() {
    let with_drop = ComponentInfo::new(ComponentId(1), 1, 1, true).unwrap();
    let plain = ComponentInfo::new(ComponentId(2), 4, 4, false).unwrap();
    let mut arch = Archetype::from_info(ArchetypeId(1), vec![plain, with_drop]);
    for n in 0..5u8 {
        let mut row = arch.insert(EntityManager::with_id_unchecked(n as u32).unwrap());
        assert!(row.write(ComponentId(1), &[n + 10]));
    }
    assert_eq!(arch.capacity(), 16);
    let steps = arch.teardown();
    assert_eq!(
        drops_of(&steps, ComponentId(1)),
        vec![(0, vec![10]), (1, vec![11]), (2, vec![12]), (3, vec![13]), (4, vec![14])]
    );
    assert!(drops_of(&steps, ComponentId(2)).is_empty());
    assert_eq!(releases_of(&steps), vec![(ComponentId(1), 16, 1), (ComponentId(2), 64, 4)]);
    assert_eq!(steps.len(), 7);
    assert!(matches!(steps[5], TeardownStep::Release { component: ComponentId(1), .. }));
}
