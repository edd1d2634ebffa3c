//! Archetypes: one block of columns for all entities that carry exactly the
//! same set of component types.

use crate::column::{
    buffer_size, fits, lemma_cell_in_bounds, lemma_grow_keeps_rows, lemma_write_keeps_other_rows, lemma_write_then_read, step_views,
    zeros, ColumnView, ComponentColumn, StepView, TeardownStep,
};
use crate::component::{
    canonicalize, comes_first_in, ids_of, is_canonical, search_ids, strictly_increasing,
    ComponentId, ComponentInfo,
};
use crate::entity::Entity;
use vstd::prelude::*;

verus! {

/// A unique identifier for an archetype. Identifiers are handed out by the
/// archetype manager.
#[derive(Clone, Copy, Debug, PartialEq, Eq, Structural, PartialOrd, Ord, Hash)]
pub struct ArchetypeId(pub u32);

/// What an archetype holds.
#[verifier::ext_equal]
pub struct ArchetypeView {
    pub id: ArchetypeId,
    /// The entities stored in the archetype; the entity at position `i`
    /// occupies row `i` of every column.
    pub entities: Seq<Entity>,
    /// The number of rows that every column has room for.
    pub capacity: nat,
    /// The identities of the component types, in the order of the columns.
    pub ids: Seq<ComponentId>,
    pub columns: Seq<ColumnView>,
}

/// The capacity after growth: twice the capacity before, and at least 8.
pub open spec fn grown_capacity(capacity: nat) -> nat {
    if capacity * 2 > 8 {
        capacity * 2
    } else {
        8
    }
}

/// The steps that give up `columns` while `rows` rows are occupied: column
/// after column, each with its destructor calls first and the release of its
/// buffer last.
pub open spec fn teardown_of(columns: Seq<ColumnView>, rows: nat) -> Seq<StepView>
    decreases columns.len(),
{
    if columns.len() == 0 {
        Seq::empty()
    } else {
        teardown_of(columns.drop_last(), rows) + columns.last().teardown(rows)
    }
}

impl ArchetypeView {
    /// The steps that give up the archetype's storage.
    pub open spec fn teardown(self) -> Seq<StepView> {
        teardown_of(self.columns, self.len())
    }

    /// The metadata of the columns, in their order.
    pub open spec fn infos(self) -> Seq<ComponentInfo> {
        self.columns.map_values(|col: ColumnView| col.info)
    }

    /// The invariant of an archetype: the columns are sorted by the identity
    /// of their component type, none occurs twice, every column has room for
    /// `capacity` rows, and at most half of the rows are occupied.
    pub open spec fn inv(self) -> bool {
        &&& self.ids == ids_of(self.infos())
        &&& strictly_increasing(self.ids)
        &&& self.entities.len() <= self.capacity / 2
        &&& self.capacity <= usize::MAX
        &&& forall|i: int| 0 <= i < self.columns.len() ==> (#[trigger] self.columns[i]).holds(self.capacity)
    }

    /// The number of occupied rows.
    pub open spec fn len(self) -> nat {
        self.entities.len()
    }

    /// The position of the column for `id`, where the archetype has one.
    pub open spec fn column_of(self, id: ComponentId) -> Option<int> {
        if self.ids.contains(id) {
            Some(self.ids.index_of(id))
        } else {
            None
        }
    }

    /// Whether the next insertion has to enlarge the columns first.
    pub open spec fn needs_growth(self) -> bool {
        self.entities.len() + 1 > self.capacity / 2
    }

    /// Whether the allocator accepts the buffers that growth asks for.
    pub open spec fn can_grow(self) -> bool {
        &&& grown_capacity(self.capacity) <= usize::MAX
        &&& forall|i: int|
            0 <= i < self.columns.len() ==> fits(
                (#[trigger] self.columns[i]).info,
                grown_capacity(self.capacity),
            )
    }

    /// The archetype after growth: every column enlarged to the same new
    /// capacity, nothing else changed.
    pub open spec fn grown(self) -> ArchetypeView {
        ArchetypeView {
            capacity: grown_capacity(self.capacity),
            columns: self.columns.map_values(
                |col: ColumnView| col.grown(grown_capacity(self.capacity)),
            ),
            ..self
        }
    }

    /// The archetype after `entity` has been given the next free row.
    pub open spec fn inserted(self, entity: Entity) -> ArchetypeView {
        let base = if self.needs_growth() {
            self.grown()
        } else {
            self
        };
        ArchetypeView { entities: base.entities.push(entity), ..base }
    }

    /// The archetype after `value` has been stored in row `row` of column
    /// `column`.
    pub open spec fn with_cell(self, column: int, row: int, value: Seq<u8>) -> ArchetypeView {
        ArchetypeView {
            columns: self.columns.update(column, self.columns[column].with_cell(row, value)),
            ..self
        }
    }
}

/// A value written to a row of an archetype is the value read back from
/// that row, and the archetype keeps its invariant.
pub proof fn lemma_write_then_read_back(arch: ArchetypeView, column: int, row: int, value: Seq<u8>)
    requires
        arch.inv(),
        0 <= column < arch.columns.len(),
        0 <= row < arch.len(),
        value.len() == arch.columns[column].info.size(),
    ensures
        arch.with_cell(column, row, value).inv(),
        arch.with_cell(column, row, value).columns[column].cell(row) == value,
{
    let after = arch.with_cell(column, row, value);
    assert(arch.columns[column].holds(arch.capacity));
    lemma_write_then_read(arch.columns[column], arch.capacity, row as nat, value);
    assert(after.infos() =~= arch.infos());
    assert forall|i: int| 0 <= i < after.columns.len() implies (#[trigger] after.columns[i]).holds(
        after.capacity,
    ) by {
        if i != column {
            assert(arch.columns[i].holds(arch.capacity));
        }
    }
}

/// A value written to a row of an archetype leaves every other row of its
/// column, and every other column, as they were.
pub proof fn lemma_write_keeps_the_rest(
    arch: ArchetypeView,
    column: int,
    row: int,
    value: Seq<u8>,
    other_column: int,
    other_row: int,
)
    requires
        arch.inv(),
        0 <= column < arch.columns.len(),
        0 <= row < arch.len(),
        value.len() == arch.columns[column].info.size(),
        0 <= other_column < arch.columns.len(),
        0 <= other_row < arch.len(),
        other_column != column || other_row != row,
    ensures
        arch.with_cell(column, row, value).entities == arch.entities,
        arch.with_cell(column, row, value).columns[other_column].cell(other_row)
            == arch.columns[other_column].cell(other_row),
{
    assert(arch.columns[column].holds(arch.capacity));
    if other_column == column {
        lemma_write_keeps_other_rows(
            arch.columns[column],
            arch.capacity,
            row as nat,
            value,
            other_row as nat,
        );
    }
}

/// A value written to a freshly inserted row is the value read back from
/// it, whether or not the insertion made the columns grow.
pub proof fn lemma_insert_write_read(arch: ArchetypeView, entity: Entity, column: int, value: Seq<u8>)
    requires
        arch.inv(),
        arch.needs_growth() ==> arch.can_grow(),
        0 <= column < arch.columns.len(),
        value.len() == arch.columns[column].info.size(),
    ensures
        arch.inserted(entity).inv(),
        arch.inserted(entity).len() == arch.len() + 1,
        arch.inserted(entity).entities[arch.len() as int] == entity,
        arch.inserted(entity).with_cell(column, arch.len() as int, value).columns[column].cell(
            arch.len() as int,
        ) == value,
{
    lemma_insert_keeps_rows(arch, entity, column, 0);
    let inserted = arch.inserted(entity);
    assert(inserted.columns[column].holds(inserted.capacity));
    lemma_write_then_read(inserted.columns[column], inserted.capacity, arch.len(), value);
}

/// Insertion keeps what the archetype held: every entity stays in its row,
/// and every value stays at its row in its column, also where the insertion
/// makes the columns grow.
pub proof fn lemma_insert_keeps_rows(arch: ArchetypeView, entity: Entity, column: int, row: int)
    requires
        arch.inv(),
        arch.needs_growth() ==> arch.can_grow(),
        0 <= column < arch.columns.len(),
    ensures
        arch.inserted(entity).inv(),
        arch.inserted(entity).ids == arch.ids,
        arch.inserted(entity).capacity >= arch.capacity,
        0 <= row < arch.len() ==> {
            &&& arch.inserted(entity).entities[row] == arch.entities[row]
            &&& arch.inserted(entity).columns[column].cell(row) == arch.columns[column].cell(row)
        },
{
    let inserted = arch.inserted(entity);
    assert(inserted.infos() =~= arch.infos());
    assert forall|i: int| 0 <= i < inserted.columns.len() implies (#[trigger] inserted.columns[i]).holds(
        inserted.capacity,
    ) by {
        assert(arch.columns[i].holds(arch.capacity));
        if arch.needs_growth() {
            if arch.capacity > 0 {
                lemma_grow_keeps_rows(arch.columns[i], arch.capacity, inserted.capacity, 0);
            } else {
                assert(arch.columns[i].bytes.len() == 0) by (nonlinear_arith)
                    requires
                        arch.columns[i].bytes.len() == arch.capacity * arch.columns[i].info.size(),
                        arch.capacity == 0,
                ;
            }
        }
    }
    if 0 <= row < arch.len() && arch.needs_growth() {
        assert(arch.columns[column].holds(arch.capacity));
        lemma_grow_keeps_rows(arch.columns[column], arch.capacity, inserted.capacity, row as nat);
    }
}

/// Whether `step` is the destructor call for a value of the component type
/// `id`.
pub open spec fn is_drop_of(step: StepView, id: ComponentId) -> bool {
    step matches StepView::Drop { component, .. } && component == id
}

/// The destructor calls for the component type `id` among `steps`, in
/// their order.
pub open spec fn drops_for(steps: Seq<StepView>, id: ComponentId) -> Seq<StepView>
    decreases steps.len(),
{
    if steps.len() == 0 {
        Seq::empty()
    } else if is_drop_of(steps.last(), id) {
        drops_for(steps.drop_last(), id).push(steps.last())
    } else {
        drops_for(steps.drop_last(), id)
    }
}

/// The destructor calls among two lists of steps, one after the other, are
/// those of the first followed by those of the second.
pub proof fn lemma_drops_for_add(a: Seq<StepView>, b: Seq<StepView>, id: ComponentId)
    ensures
        drops_for(a + b, id) == drops_for(a, id) + drops_for(b, id),
    decreases b.len(),
{
    if b.len() == 0 {
        assert(a + b =~= a);
        assert(drops_for(a, id) + drops_for(b, id) =~= drops_for(a, id));
    } else {
        assert((a + b).drop_last() =~= a + b.drop_last());
        assert((a + b).last() == b.last());
        lemma_drops_for_add(a, b.drop_last(), id);
        if is_drop_of(b.last(), id) {
            assert((drops_for(a, id) + drops_for(b.drop_last(), id)).push(b.last()) =~= drops_for(
                a,
                id,
            ) + drops_for(b.drop_last(), id).push(b.last()));
        }
    }
}

/// Where every step is a destructor call for `id`, all of them are.
proof fn lemma_drops_for_all(steps: Seq<StepView>, id: ComponentId)
    requires
        forall|i: int| 0 <= i < steps.len() ==> is_drop_of(#[trigger] steps[i], id),
    ensures
        drops_for(steps, id) == steps,
    decreases steps.len(),
{
    if steps.len() > 0 {
        lemma_drops_for_all(steps.drop_last(), id);
        assert(steps =~= steps.drop_last().push(steps.last()));
    }
}

/// Where no step is a destructor call for `id`, none is found.
proof fn lemma_drops_for_none(steps: Seq<StepView>, id: ComponentId)
    requires
        forall|i: int| 0 <= i < steps.len() ==> !is_drop_of(#[trigger] steps[i], id),
    ensures
        drops_for(steps, id) == Seq::<StepView>::empty(),
    decreases steps.len(),
{
    if steps.len() > 0 {
        lemma_drops_for_none(steps.drop_last(), id);
    }
}

/// The destructor calls for `id` among the steps that give up one column:
/// all of the column's, where it is the column for `id`, else none.
proof fn lemma_column_drops(col: ColumnView, rows: nat, id: ComponentId)
    ensures
        drops_for(col.teardown(rows), id) == if col.info.id() == id {
            col.drop_steps(rows)
        } else {
            Seq::<StepView>::empty()
        },
{
    lemma_drops_for_add(col.drop_steps(rows), col.release_steps(), id);
    lemma_drops_for_none(col.release_steps(), id);
    if col.info.id() == id {
        lemma_drops_for_all(col.drop_steps(rows), id);
        assert(col.drop_steps(rows) + Seq::<StepView>::empty() =~= col.drop_steps(rows));
    } else {
        lemma_drops_for_none(col.drop_steps(rows), id);
        assert(Seq::<StepView>::empty() + Seq::<StepView>::empty() =~= Seq::<StepView>::empty());
    }
}

/// Among the steps that give up columns of different component types, the
/// destructor calls for the type of one column are those of that column.
proof fn lemma_teardown_of_drops(columns: Seq<ColumnView>, rows: nat, column: int)
    requires
        0 <= column < columns.len(),
        forall|i: int, j: int|
            0 <= i < j < columns.len() ==> (#[trigger] columns[i]).info.id() != (
            #[trigger] columns[j]).info.id(),
    ensures
        drops_for(teardown_of(columns, rows), columns[column].info.id())
            == columns[column].drop_steps(rows),
    decreases columns.len(),
{
    let id = columns[column].info.id();
    let last = columns.last();
    let front = columns.drop_last();
    lemma_drops_for_add(teardown_of(front, rows), last.teardown(rows), id);
    lemma_column_drops(last, rows, id);
    if column == columns.len() - 1 {
        assert forall|i: int| 0 <= i < front.len() implies (#[trigger] front[i]).info.id() != id by {
            assert(columns[i].info.id() != columns[column].info.id());
        }
        lemma_teardown_of_no_drops(front, rows, id);
        assert(Seq::<StepView>::empty() + last.drop_steps(rows) =~= last.drop_steps(rows));
    } else {
        assert(columns[column].info.id() != columns[columns.len() - 1].info.id());
        assert(front[column] == columns[column]);
        assert forall|i: int, j: int| 0 <= i < j < front.len() implies (#[trigger] front[i]).info.id()
            != (#[trigger] front[j]).info.id() by {
            assert(columns[i].info.id() != columns[j].info.id());
        }
        lemma_teardown_of_drops(front, rows, column);
        assert(front[column].drop_steps(rows) + Seq::<StepView>::empty() =~= front[column].drop_steps(
            rows,
        ));
    }
}

/// The steps that give up columns of other component types hold no
/// destructor call for `id`.
proof fn lemma_teardown_of_no_drops(columns: Seq<ColumnView>, rows: nat, id: ComponentId)
    requires
        forall|i: int| 0 <= i < columns.len() ==> (#[trigger] columns[i]).info.id() != id,
    ensures
        drops_for(teardown_of(columns, rows), id) == Seq::<StepView>::empty(),
    decreases columns.len(),
{
    if columns.len() > 0 {
        let last = columns.last();
        let front = columns.drop_last();
        lemma_drops_for_add(teardown_of(front, rows), last.teardown(rows), id);
        lemma_column_drops(last, rows, id);
        assert forall|i: int| 0 <= i < front.len() implies (#[trigger] front[i]).info.id() != id by {
            assert(front[i] == columns[i]);
        }
        lemma_teardown_of_no_drops(front, rows, id);
        assert(Seq::<StepView>::empty() + Seq::<StepView>::empty() =~= Seq::<StepView>::empty());
    }
}

/// Teardown calls the destructor exactly once for each occupied row: the
/// destructor calls for a component type are, in the order of the rows, one
/// for the value of each occupied row of its column, however many rows the
/// column has room for; and none where the type needs no destructor.
pub proof fn lemma_teardown_drops_each_row_once(arch: ArchetypeView, column: int)
    requires
        arch.inv(),
        0 <= column < arch.columns.len(),
    ensures
        drops_for(arch.teardown(), arch.ids[column]) == arch.columns[column].drop_steps(arch.len()),
        arch.columns[column].drop_steps(arch.len()).len() == if arch.columns[column].info.needs_drop() {
            arch.len()
        } else {
            0
        },
        forall|row: int|
            0 <= row < arch.len() && arch.columns[column].info.needs_drop()
                ==> #[trigger] arch.columns[column].drop_steps(arch.len())[row] == (StepView::Drop {
                component: arch.ids[column],
                row: row as nat,
                value: arch.columns[column].cell(row),
            }),
{
    assert forall|i: int, j: int| 0 <= i < j < arch.columns.len() implies (
    #[trigger] arch.columns[i]).info.id() != (#[trigger] arch.columns[j]).info.id() by {
        assert(arch.ids[i] == arch.columns[i].info.id());
        assert(arch.ids[j] == arch.columns[j].info.id());
        assert(arch.ids[i].0 < arch.ids[j].0);
    }
    assert(arch.ids[column] == arch.columns[column].info.id());
    lemma_teardown_of_drops(arch.columns, arch.len(), column);
}

/// Teardown releases the buffer of a column with the size that the capacity
/// gives, not the number of occupied rows; a column without a buffer, as one
/// of values without size or of an archetype without capacity, is not
/// released.
pub proof fn lemma_teardown_releases_by_capacity(arch: ArchetypeView, column: int)
    requires
        arch.inv(),
        0 <= column < arch.columns.len(),
    ensures
        arch.columns[column].release_steps() == if arch.capacity * arch.columns[column].info.size()
            > 0 {
            seq![
                StepView::Release {
                    component: arch.ids[column],
                    size: arch.capacity * arch.columns[column].info.size() as nat,
                    align: arch.columns[column].info.align() as nat,
                },
            ]
        } else {
            Seq::<StepView>::empty()
        },
{
    assert(arch.columns[column].holds(arch.capacity));
    assert(arch.ids[column] == arch.columns[column].info.id());
}

/// A group of columns for entities that have the exact same set of
/// components.
pub struct Archetype {
    id: ArchetypeId,
    /// The entities stored in this archetype.
    entities: Vec<Entity>,
    /// Allocated rows in each column.
    capacity: usize,
    /// Index of the columns, in the same order as `components`.
    component_ids: Vec<ComponentId>,
    /// The column data, in the same order as `component_ids`.
    components: Vec<ComponentColumn>,
}

impl View for Archetype {
    type V = ArchetypeView;

    closed spec fn view(&self) -> ArchetypeView {
        ArchetypeView {
            id: self.id,
            entities: self.entities@,
            capacity: self.capacity as nat,
            ids: self.component_ids@,
            columns: self.components@.map_values(|col: ComponentColumn| col@),
        }
    }
}

impl Archetype {
    /// The archetype meets its invariant.
    pub open spec fn wf(&self) -> bool {
        self@.inv()
    }

    /// An empty archetype with one column, of `capacity` rows, for each
    /// component type that `components` names. The columns stand in
    /// canonical order.
    pub fn from_info_with_capacity(
        id: ArchetypeId,
        components: Vec<ComponentInfo>,
        capacity: usize,
    ) -> (arch: Self)
        requires
            forall|i: int|
                0 <= i < components@.len() ==> fits(#[trigger] components@[i], capacity as nat),
        ensures
            arch.wf(),
            arch@.id == id,
            arch@.entities == Seq::<Entity>::empty(),
            arch@.capacity == capacity,
            is_canonical(arch@.infos(), components@),
            forall|i: int|
                0 <= i < arch@.columns.len() ==> (#[trigger] arch@.columns[i]).bytes == zeros(
                    capacity as nat * arch@.columns[i].info.size() as nat,
                ),
    {
        let (component_ids, infos) = canonicalize(&components);
        let mut columns: Vec<ComponentColumn> = Vec::new();
        let mut n: usize = 0;
        while n < infos.len()
            invariant
                n <= infos.len(),
                columns@.len() == n,
                is_canonical(infos@, components@),
                forall|i: int|
                    0 <= i < components@.len() ==> fits(#[trigger] components@[i], capacity as nat),
                forall|i: int|
                    0 <= i < n ==> (#[trigger] columns@[i])@ == (ColumnView {
                        info: infos@[i],
                        bytes: zeros(capacity as nat * infos@[i].size() as nat),
                    }),
            decreases infos.len() - n,
        {
            let info: ComponentInfo = infos[n];
            proof {
                assert(comes_first_in(infos@[n as int], components@));
            }
            columns.push(ComponentColumn::with_capacity(info, capacity).unwrap());
            n = n + 1;
        }
        let arch = Self { id, entities: Vec::new(), capacity, component_ids, components: columns };
        proof {
            assert(arch@.infos() =~= infos@);
            assert(arch@.ids =~= ids_of(arch@.infos()));
        }
        arch
    }

    /// An empty archetype without room for any row.
    pub fn from_info(id: ArchetypeId, components: Vec<ComponentInfo>) -> (arch: Self)
        ensures
            arch.wf(),
            arch@.id == id,
            arch@.entities == Seq::<Entity>::empty(),
            arch@.capacity == 0,
            is_canonical(arch@.infos(), components@),
            forall|i: int|
                0 <= i < arch@.columns.len() ==> (#[trigger] arch@.columns[i]).bytes
                    == Seq::<u8>::empty(),
    {
        let arch = Self::from_info_with_capacity(id, components, 0);
        proof {
            assert forall|i: int| 0 <= i < arch@.columns.len() implies (#[trigger] arch@.columns[i]).bytes
                == Seq::<u8>::empty() by {
                assert(arch@.columns[i].bytes =~= Seq::<u8>::empty());
            }
        }
        arch
    }

    pub fn id(&self) -> (r: ArchetypeId)
        ensures
            r == self@.id,
    {
        self.id
    }

    /// The identities of the component types, sorted.
    pub fn component_ids(&self) -> (r: &[ComponentId])
        ensures
            r@ == self@.ids,
    {
        self.component_ids.as_slice()
    }

    /// The number of occupied rows.
    pub fn len(&self) -> (r: usize)
        ensures
            r == self@.len(),
    {
        self.entities.len()
    }

    /// The number of rows that each column has room for.
    pub fn capacity(&self) -> (r: usize)
        ensures
            r == self@.capacity,
    {
        self.capacity
    }

    /// The entities that occupy the rows, in the order of the rows.
    pub fn entities(&self) -> (r: &[Entity])
        ensures
            r@ == self@.entities,
    {
        self.entities.as_slice()
    }

    /// Binary search for the column of the component type `id`. `Ok` holds
    /// the column's position; `Err` holds the position at which such a column
    /// would stand.
    pub fn get_column_index_by_id(&self, id: ComponentId) -> (r: Result<usize, usize>)
        requires
            self.wf(),
        ensures
            match r {
                Ok(i) => self@.column_of(id) == Some(i as int) && i < self@.columns.len(),
                Err(i) => {
                    &&& self@.column_of(id).is_none()
                    &&& i <= self@.ids.len()
                    &&& forall|k: int| 0 <= k < i ==> self@.ids[k].0 < id.0
                    &&& forall|k: int| i <= k < self@.ids.len() ==> id.0 < self@.ids[k].0
                },
            },
    {
        let r = search_ids(self.component_ids.as_slice(), id);
        proof {
            match r {
                Ok(i) => {
                    assert(self@.ids.contains(id));
                    let j = self@.ids.index_of(id);
                    assert(j == i);
                },
                Err(i) => {
                    if self@.ids.contains(id) {
                        let j = self@.ids.index_of(id);
                        assert(false);
                    }
                },
            }
        }
        r
    }

    /// The column of the component type `id`, where the archetype has one.
    pub fn get_column_by_id(&self, id: ComponentId) -> (r: Option<&ComponentColumn>)
        requires
            self.wf(),
        ensures
            match r {
                Some(col) => self@.column_of(id) matches Some(c) && col@ == self@.columns[c],
                None => self@.column_of(id).is_none(),
            },
    {
        match self.get_column_index_by_id(id) {
            Ok(index) => Some(&self.components[index]),
            Err(_) => None,
        }
    }

    /// The column of the component type `id`, for writing, where the
    /// archetype has one. The archetype then holds whatever the caller leaves
    /// in the column.
    fn get_column_mut(&mut self, id: ComponentId) -> (r: Option<&mut ComponentColumn>)
        requires
            old(self).wf(),
        ensures
            match r {
                Some(col) => old(self)@.column_of(id) matches Some(c) && col@ == old(
                    self,
                )@.columns[c] && final(self)@ == (ArchetypeView {
                    columns: old(self)@.columns.update(c, final(col)@),
                    ..old(self)@
                }),
                None => old(self)@.column_of(id).is_none() && final(self)@ == old(self)@,
            },
    {
        match self.get_column_index_by_id(id) {
            Ok(index) => Some(&mut self.components[index]),
            Err(_) => None,
        }
    }

    /// Whether the archetype can take one more entity: either it has a free
    /// row below the growth threshold, or the allocator accepts the buffers
    /// that growth asks for.
    pub fn can_insert(&self) -> (r: bool)
        requires
            self.wf(),
        ensures
            r == (self@.needs_growth() ==> self@.can_grow()),
    {
        if self.entities.len() + 1 <= self.capacity / 2 {
            return true;
        }
        let new_capacity: usize = match self.capacity.checked_mul(2) {
            Some(doubled) => if doubled > 8 {
                doubled
            } else {
                8
            },
            None => {
                return false;
            },
        };
        let mut n: usize = 0;
        while n < self.components.len()
            invariant
                n <= self.components@.len(),
                self@.needs_growth(),
                new_capacity == grown_capacity(self@.capacity),
                forall|i: int|
                    0 <= i < n ==> fits((#[trigger] self@.columns[i]).info, new_capacity as nat),
            decreases self.components.len() - n,
        {
            if buffer_size(self.components[n].info(), new_capacity).is_none() {
                assert(!fits(self@.columns[n as int].info, new_capacity as nat));
                return false;
            }
            n = n + 1;
        }
        true
    }

    /// Enlarges every column to the same new capacity: twice the old one,
    /// and at least 8. The bytes of every column stay as they are.
    pub fn grow(&mut self)
        requires
            old(self).wf(),
            old(self)@.can_grow(),
        ensures
            final(self).wf(),
            final(self)@ == old(self)@.grown(),
    {
        let old_capacity: usize = self.capacity;
        let new_capacity: usize = if old_capacity * 2 > 8 {
            old_capacity * 2
        } else {
            8
        };
        let mut n: usize = 0;
        while n < self.components.len()
            invariant
                n <= self.components@.len(),
                self.components@.len() == old(self).components@.len(),
                self.id == old(self).id,
                self.entities == old(self).entities,
                self.capacity == old(self).capacity,
                self.component_ids == old(self).component_ids,
                old(self).wf(),
                old(self)@.can_grow(),
                old_capacity == old(self)@.capacity,
                new_capacity == grown_capacity(old(self)@.capacity),
                forall|i: int|
                    0 <= i < n ==> (#[trigger] self.components@[i])@ == old(self)@.columns[i].grown(
                        new_capacity as nat,
                    ),
                forall|i: int|
                    n <= i < self.components@.len() ==> (#[trigger] self.components@[i])@ == old(
                        self,
                    )@.columns[i],
            decreases self.components.len() - n,
        {
            proof {
                assert(old(self)@.columns[n as int].holds(old_capacity as nat));
                vstd::arithmetic::mul::lemma_mul_inequality(
                    old_capacity as int,
                    new_capacity as int,
                    old(self)@.columns[n as int].info.size() as int,
                );
            }
            self.components[n].grow(new_capacity);
            n = n + 1;
        }
        self.capacity = new_capacity;
        proof {
            assert(self@.columns =~= old(self)@.grown().columns);
            assert(self@.infos() =~= old(self)@.infos());
            assert forall|i: int| 0 <= i < self@.columns.len() implies (#[trigger] self@.columns[i]).holds(
                self@.capacity,
            ) by {
                assert(old(self)@.columns[i].holds(old_capacity as nat));
                vstd::arithmetic::mul::lemma_mul_inequality(
                    old_capacity as int,
                    new_capacity as int,
                    old(self)@.columns[i].info.size() as int,
                );
            }
        }
    }

    /// The value of the component type `id` in row `row`; absent where the
    /// archetype has no column for `id`.
    pub fn read(&self, row: usize, id: ComponentId) -> (r: Option<&[u8]>)
        requires
            self.wf(),
            row < self@.len(),
        ensures
            match r {
                Some(bytes) => self@.column_of(id) matches Some(c) && bytes@
                    == self@.columns[c].cell(row as int),
                None => self@.column_of(id).is_none(),
            },
    {
        match self.get_column_by_id(id) {
            Some(col) => {
                proof {
                    let c = self@.column_of(id).unwrap();
                    assert(self@.columns[c].holds(self@.capacity));
                    lemma_cell_in_bounds(
                        col@.info.size() as nat,
                        row as nat,
                        self@.capacity,
                    );
                }
                Some(col.read(row))
            },
            None => None,
        }
    }

    /// Stores `value` as the value of the component type `id` in row `row`.
    /// Returns whether the archetype has a column for `id`; where it has
    /// none, nothing changes.
    pub fn write(&mut self, row: usize, id: ComponentId, value: &[u8]) -> (r: bool)
        requires
            old(self).wf(),
            row < old(self)@.len(),
            old(self)@.column_of(id) matches Some(c) ==> value@.len() == old(
                self,
            )@.columns[c].info.size(),
        ensures
            final(self).wf(),
            match old(self)@.column_of(id) {
                Some(c) => r && final(self)@ == old(self)@.with_cell(c, row as int, value@),
                None => !r && final(self)@ == old(self)@,
            },
    {
        proof {
            if self@.column_of(id).is_some() {
                let c = self@.column_of(id).unwrap();
                assert(self@.columns[c].holds(self@.capacity));
                lemma_cell_in_bounds(
                    self@.columns[c].info.size() as nat,
                    row as nat,
                    self@.capacity,
                );
                lemma_write_then_read_back(self@, c, row as int, value@);
            }
        }
        match self.get_column_mut(id) {
            Some(column) => {
                column.write(row, value);
                true
            },
            None => false,
        }
    }

    /// Gives `entity` the next free row and returns a cursor to that row.
    /// Where fewer than half of the rows would stay free, the columns grow
    /// first, all to the same capacity.
    pub fn insert(&mut self, entity: Entity) -> (row: ArchetypeRowMut<'_>)
        requires
            old(self).wf(),
            old(self)@.needs_growth() ==> old(self)@.can_grow(),
        ensures
            row.index == old(self)@.len(),
            row.target().wf(),
            row.target()@ == old(self)@.inserted(entity),
            *final(self) == *final(row.archetype),
    {
        let new_index: usize = self.len();
        if new_index + 1 > self.capacity / 2 {
            self.grow();
        }
        self.entities.push(entity);
        ArchetypeRowMut::new(self, new_index)
    }

    /// Gives up the archetype and returns what is left to do for its
    /// storage: for each column a destructor call for exactly the occupied
    /// rows, then the release of the buffer, sized by the capacity.
    pub fn teardown(self) -> (steps: Vec<TeardownStep>)
        requires
            self.wf(),
        ensures
            step_views(steps@) == self@.teardown(),
    {
        let mut steps: Vec<TeardownStep> = Vec::new();
        let rows: usize = self.entities.len();
        let mut n: usize = 0;
        assert(step_views(steps@) =~= teardown_of(self@.columns.take(0), rows as nat));
        while n < self.components.len()
            invariant
                n <= self.components@.len(),
                self.wf(),
                rows == self@.len(),
                step_views(steps@) == teardown_of(self@.columns.take(n as int), rows as nat),
            decreases self.components.len() - n,
        {
            proof {
                assert(self@.columns[n as int].holds(self@.capacity));
                vstd::arithmetic::mul::lemma_mul_inequality(
                    rows as int,
                    self@.capacity as int,
                    self@.columns[n as int].info.size() as int,
                );
                assert(self@.columns.take(n + 1).drop_last() =~= self@.columns.take(n as int));
            }
            self.components[n].teardown(rows, &mut steps);
            n = n + 1;
        }
        assert(self@.columns.take(n as int) =~= self@.columns);
        steps
    }

    /// The occupied rows of the column of the component type `id`, as one
    /// run of bytes; absent where the archetype has no such column.
    pub fn get_column_as_slice(&self, id: ComponentId) -> (r: Option<&[u8]>)
        requires
            self.wf(),
        ensures
            match r {
                Some(bytes) => self@.column_of(id) matches Some(c) && bytes@
                    == self@.columns[c].bytes.subrange(
                    0,
                    self@.len() * self@.columns[c].info.size(),
                ),
                None => self@.column_of(id).is_none(),
            },
    {
        match self.get_column_by_id(id) {
            Some(col) => {
                proof {
                    let c = self@.column_of(id).unwrap();
                    assert(self@.columns[c].holds(self@.capacity));
                    vstd::arithmetic::mul::lemma_mul_inequality(
                        self@.len() as int,
                        self@.capacity as int,
                        col@.info.size() as int,
                    );
                }
                Some(col.occupied(self.entities.len()))
            },
            None => None,
        }
    }
}

/// A read-only cursor to one occupied row of an archetype.
pub struct ArchetypeRow<'a> {
    pub archetype: &'a Archetype,
    pub index: usize,
}

impl<'r> ArchetypeRow<'r> {
    pub fn new<'a: 'r>(archetype: &'a Archetype, index: usize) -> (row: Self)
        requires
            index < archetype@.len(),
        ensures
            row.archetype == archetype,
            row.index == index,
    {
        Self { archetype, index }
    }

    /// The value of the component type `id` in this row; absent where the
    /// archetype has no column for `id`.
    pub fn read(&self, id: ComponentId) -> (r: Option<&[u8]>)
        requires
            self.archetype.wf(),
            self.index < self.archetype@.len(),
        ensures
            match r {
                Some(bytes) => self.archetype@.column_of(id) matches Some(c) && bytes@
                    == self.archetype@.columns[c].cell(self.index as int),
                None => self.archetype@.column_of(id).is_none(),
            },
    {
        self.archetype.read(self.index, id)
    }
}

/// A cursor to one occupied row of an archetype, for reading and writing.
pub struct ArchetypeRowMut<'r> {
    pub archetype: &'r mut Archetype,
    pub index: usize,
}

impl<'r> ArchetypeRowMut<'r> {
    pub fn new<'a: 'r>(archetype: &'a mut Archetype, index: usize) -> (row: Self)
        requires
            index < old(archetype)@.len(),
        ensures
            row.index == index,
            row.target() == *old(archetype),
            *final(archetype) == *final(row.archetype),
    {
        Self { archetype, index }
    }

    /// The archetype as the cursor sees it now.
    pub open spec fn target(&self) -> Archetype {
        *self.archetype
    }

    /// The value of the component type `id` in this row; absent where the
    /// archetype has no column for `id`.
    pub fn read(&self, id: ComponentId) -> (r: Option<&[u8]>)
        requires
            self.target().wf(),
            self.index < self.target()@.len(),
        ensures
            match r {
                Some(bytes) => self.target()@.column_of(id) matches Some(c) && bytes@
                    == self.target()@.columns[c].cell(self.index as int),
                None => self.target()@.column_of(id).is_none(),
            },
    {
        self.archetype.read(self.index, id)
    }

    /// Stores `value` as the value of the component type `id` in this row.
    /// Returns whether the archetype has a column for `id`; where it has
    /// none, nothing changes.
    pub fn write(&mut self, id: ComponentId, value: &[u8]) -> (r: bool)
        requires
            old(self).target().wf(),
            old(self).index < old(self).target()@.len(),
            old(self).target()@.column_of(id) matches Some(c) ==> value@.len() == old(
                self,
            ).target()@.columns[c].info.size(),
        ensures
            final(self).index == old(self).index,
            final(self).target().wf(),
            *final(final(self).archetype) == *final(old(self).archetype),
            match old(self).target()@.column_of(id) {
                Some(c) => r && final(self).target()@ == old(self).target()@.with_cell(
                    c,
                    old(self).index as int,
                    value@,
                ),
                None => !r && final(self).target()@ == old(self).target()@,
            },
    {
        self.archetype.write(self.index, id, value)
    }
}

} // verus!
