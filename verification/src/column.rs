//! Column storage: the values of one component type, for every row of one
//! archetype, in one contiguous byte buffer.

use crate::component::{ComponentId, ComponentInfo};
use vstd::prelude::*;

verus! {

/// One step of giving up the storage of a column. The store holds the
/// values as bytes and cannot destroy them itself: it names, in order, every
/// value that has to be destroyed and every buffer that has to be released.
pub enum TeardownStep {
    /// Destroy the value of the component type `component` in row `row`,
    /// whose bytes are `value`.
    Drop { component: ComponentId, row: usize, value: Vec<u8> },
    /// Release the buffer of the column for `component`, which was acquired
    /// with `size` bytes at alignment `align`.
    Release { component: ComponentId, size: usize, align: usize },
}

/// What a teardown step says.
pub enum StepView {
    Drop { component: ComponentId, row: nat, value: Seq<u8> },
    Release { component: ComponentId, size: nat, align: nat },
}

impl View for TeardownStep {
    type V = StepView;

    open spec fn view(&self) -> StepView {
        match *self {
            TeardownStep::Drop { component, row, value } => StepView::Drop {
                component,
                row: row as nat,
                value: value@,
            },
            TeardownStep::Release { component, size, align } => StepView::Release {
                component,
                size: size as nat,
                align: align as nat,
            },
        }
    }
}

/// What a list of teardown steps says, step by step.
pub open spec fn step_views(steps: Seq<TeardownStep>) -> Seq<StepView> {
    steps.map_values(|step: TeardownStep| step@)
}

/// What a column holds: the metadata of its component type and the bytes of
/// its buffer.
#[verifier::ext_equal]
pub struct ColumnView {
    pub info: ComponentInfo,
    pub bytes: Seq<u8>,
}

/// `n` zero bytes.
pub open spec fn zeros(n: nat) -> Seq<u8> {
    Seq::new(n, |i: int| 0u8)
}

/// Whether a buffer for `capacity` values of the type that `info` describes
/// has a size the allocator accepts.
pub open spec fn fits(info: ComponentInfo, capacity: nat) -> bool {
    capacity * info.size() <= isize::MAX
}

impl ColumnView {
    /// The buffer has room for exactly `capacity` values.
    pub open spec fn holds(self, capacity: nat) -> bool {
        self.bytes.len() == capacity * self.info.size()
    }

    /// The bytes of the value in row `row`.
    pub open spec fn cell(self, row: int) -> Seq<u8> {
        self.bytes.subrange(row * self.info.size(), (row + 1) * self.info.size())
    }

    /// The column after `value` has been stored in row `row`.
    pub open spec fn with_cell(self, row: int, value: Seq<u8>) -> ColumnView {
        ColumnView {
            info: self.info,
            bytes: self.bytes.subrange(0, row * self.info.size()) + value + self.bytes.subrange(
                (row + 1) * self.info.size(),
                self.bytes.len() as int,
            ),
        }
    }

    /// The destructor calls that the column is owed while `rows` rows are
    /// occupied: where the component type needs them, one for the value of
    /// each occupied row, in the order of the rows.
    pub open spec fn drop_steps(self, rows: nat) -> Seq<StepView> {
        if self.info.needs_drop() {
            Seq::new(
                rows,
                |row: int|
                    StepView::Drop {
                        component: self.info.id(),
                        row: row as nat,
                        value: self.cell(row),
                    },
            )
        } else {
            Seq::empty()
        }
    }

    /// The release of the buffer, where the column has one.
    pub open spec fn release_steps(self) -> Seq<StepView> {
        if self.bytes.len() > 0 {
            seq![
                StepView::Release {
                    component: self.info.id(),
                    size: self.bytes.len(),
                    align: self.info.align() as nat,
                },
            ]
        } else {
            Seq::empty()
        }
    }

    /// The steps that give up the column while `rows` rows are occupied:
    /// the destructor calls, then the release of the buffer.
    pub open spec fn teardown(self, rows: nat) -> Seq<StepView> {
        self.drop_steps(rows) + self.release_steps()
    }

    /// The column after its buffer has grown to hold `capacity` values: the
    /// old bytes, followed by zero bytes.
    pub open spec fn grown(self, capacity: nat) -> ColumnView {
        ColumnView {
            info: self.info,
            bytes: self.bytes + zeros((capacity * self.info.size() - self.bytes.len()) as nat),
        }
    }
}

/// Row `row` of a buffer for `capacity` values lies inside the buffer.
pub proof fn lemma_cell_in_bounds(size: nat, row: nat, capacity: nat)
    requires
        row < capacity,
    ensures
        0 <= row * size,
        row * size + size == (row + 1) * size,
        (row + 1) * size <= capacity * size,
{
    assert(0 <= row * size) by (nonlinear_arith);
    assert(row * size + size == (row + 1) * size) by (nonlinear_arith);
    assert((row + 1) * size <= capacity * size) by (nonlinear_arith)
        requires
            row + 1 <= capacity,
    ;
}

/// The cells of two different rows do not overlap.
pub proof fn lemma_cells_disjoint(size: nat, a: nat, b: nat)
    requires
        a < b,
    ensures
        (a + 1) * size <= b * size,
{
    assert((a + 1) * size <= b * size) by (nonlinear_arith)
        requires
            a + 1 <= b,
    ;
}

/// A value stored in a row is the value read back from that row.
pub proof fn lemma_write_then_read(col: ColumnView, capacity: nat, row: nat, value: Seq<u8>)
    requires
        col.holds(capacity),
        row < capacity,
        value.len() == col.info.size(),
    ensures
        col.with_cell(row as int, value).holds(capacity),
        col.with_cell(row as int, value).cell(row as int) == value,
{
    lemma_cell_in_bounds(col.info.size() as nat, row, capacity);
    assert(col.with_cell(row as int, value).cell(row as int) =~= value);
}

/// Storing a value in one row leaves the values of all other rows as they
/// were.
pub proof fn lemma_write_keeps_other_rows(
    col: ColumnView,
    capacity: nat,
    row: nat,
    value: Seq<u8>,
    other: nat,
)
    requires
        col.holds(capacity),
        row < capacity,
        other < capacity,
        other != row,
        value.len() == col.info.size(),
    ensures
        col.with_cell(row as int, value).cell(other as int) == col.cell(other as int),
{
    let size = col.info.size() as nat;
    lemma_cell_in_bounds(size, row, capacity);
    lemma_cell_in_bounds(size, other, capacity);
    if other < row {
        lemma_cells_disjoint(size, other, row);
    } else {
        lemma_cells_disjoint(size, row, other);
    }
    assert(col.with_cell(row as int, value).cell(other as int) =~= col.cell(other as int));
}

/// Growth keeps the value of every row the column had room for.
pub proof fn lemma_grow_keeps_rows(col: ColumnView, old_capacity: nat, capacity: nat, row: nat)
    requires
        col.holds(old_capacity),
        old_capacity <= capacity,
        row < old_capacity,
    ensures
        col.grown(capacity).holds(capacity),
        col.grown(capacity).cell(row as int) == col.cell(row as int),
{
    let size = col.info.size() as nat;
    lemma_cell_in_bounds(size, row, old_capacity);
    assert(old_capacity * size <= capacity * size) by (nonlinear_arith)
        requires
            old_capacity <= capacity,
    ;
    assert(col.grown(capacity).cell(row as int) =~= col.cell(row as int));
}

/// A block of component data.
pub struct ComponentColumn {
    info: ComponentInfo,
    data: Vec<u8>,
}

impl View for ComponentColumn {
    type V = ColumnView;

    closed spec fn view(&self) -> ColumnView {
        ColumnView { info: self.info, bytes: self.data@ }
    }
}

/// The size in bytes of a buffer for `capacity` values, where the allocator
/// accepts that size.
pub fn buffer_size(info: &ComponentInfo, capacity: usize) -> (r: Option<usize>)
    ensures
        r.is_some() <==> fits(*info, capacity as nat),
        r matches Some(n) ==> n == capacity * info.size(),
{
    match capacity.checked_mul(info.size()) {
        Some(n) => if n <= isize::MAX as usize {
            Some(n)
        } else {
            None
        },
        None => None,
    }
}

impl ComponentColumn {
    /// A column without room for any value. Allocates nothing.
    pub fn new(info: ComponentInfo) -> (col: Self)
        ensures
            col@ == (ColumnView { info, bytes: Seq::empty() }),
    {
        Self { info, data: Vec::new() }
    }

    /// A column with room for `capacity` values, all bytes zero. Absent
    /// exactly when the allocator does not accept the buffer's size.
    pub fn with_capacity(info: ComponentInfo, capacity: usize) -> (r: Option<Self>)
        ensures
            r.is_some() <==> fits(info, capacity as nat),
            r matches Some(col) ==> col@ == (ColumnView {
                info,
                bytes: zeros((capacity * info.size()) as nat),
            }),
    {
        if capacity == 0 {
            let col = Self::new(info);
            assert(col@.bytes =~= zeros((capacity * info.size()) as nat));
            return Some(col);
        }
        let n: usize = buffer_size(&info, capacity)?;
        let data: Vec<u8> = vec![0u8; n];
        assert(data@ =~= zeros(n as nat));
        Some(Self { info, data })
    }

    /// The metadata of the column's component type.
    pub fn info(&self) -> (r: &ComponentInfo)
        ensures
            *r == self@.info,
    {
        &self.info
    }

    /// The bytes of the value in row `index`.
    pub fn read(&self, index: usize) -> (r: &[u8])
        requires
            (index + 1) * self@.info.size() <= self@.bytes.len(),
        ensures
            r@ == self@.cell(index as int),
    {
        let size: usize = self.info.size();
        proof {
            lemma_cell_in_bounds(size as nat, index as nat, (index + 1) as nat);
            assert(self.data.len() == self.data@.len());
        }
        let start: usize = index * size;
        let s: &[u8] = self.data.as_slice();
        &s[start..start + size]
    }

    /// The bytes of the first `rows` rows.
    pub fn occupied(&self, rows: usize) -> (r: &[u8])
        requires
            rows * self@.info.size() <= self@.bytes.len(),
        ensures
            r@ == self@.bytes.subrange(0, rows * self@.info.size()),
    {
        proof {
            assert(self.data.len() == self.data@.len());
        }
        let end: usize = rows * self.info.size();
        let s: &[u8] = self.data.as_slice();
        &s[0..end]
    }

    /// Stores `value` in row `index`. No other row changes.
    pub fn write(&mut self, index: usize, value: &[u8])
        requires
            value@.len() == old(self)@.info.size(),
            (index + 1) * old(self)@.info.size() <= old(self)@.bytes.len(),
        ensures
            final(self)@ == old(self)@.with_cell(index as int, value@),
    {
        let size: usize = self.info.size();
        let ghost len = self.data@.len();
        proof {
            lemma_cell_in_bounds(size as nat, index as nat, (index + 1) as nat);
            assert(self.data.len() == len);
        }
        let start: usize = index * size;
        let mut k: usize = 0;
        while k < size
            invariant
                k <= size,
                size == self.info.size(),
                self.info == old(self).info,
                value@.len() == size,
                start + size <= len <= usize::MAX,
                self.data@.len() == len,
                old(self).data@.len() == len,
                forall|i: int| 0 <= i < start ==> self.data@[i] == old(self).data@[i],
                forall|i: int| start <= i < start + k ==> self.data@[i] == value@[i - start],
                forall|i: int| start + k <= i < self.data@.len() ==> self.data@[i] == old(self).data@[i],
            decreases size - k,
        {
            self.data[start + k] = value[k];
            k = k + 1;
        }
        assert(self@.bytes =~= old(self)@.with_cell(index as int, value@).bytes);
    }

    /// Appends to `steps` what gives up this column while `rows` rows are
    /// occupied: one destructor call for each occupied row, in the order of
    /// the rows, where the component type needs them; then the release of the
    /// buffer, with the size it was acquired with, where there is one.
    pub fn teardown(&self, rows: usize, steps: &mut Vec<TeardownStep>)
        requires
            rows * self@.info.size() <= self@.bytes.len(),
        ensures
            step_views(final(steps)@) == step_views(old(steps)@) + self@.teardown(rows as nat),
    {
        let ghost before = step_views(steps@);
        if self.info.needs_drop() {
            let mut row: usize = 0;
            while row < rows
                invariant
                    row <= rows,
                    rows * self@.info.size() <= self@.bytes.len(),
                    self@.info.needs_drop(),
                    step_views(steps@) == before + self@.drop_steps(row as nat),
                decreases rows - row,
            {
                proof {
                    lemma_cell_in_bounds(self@.info.size() as nat, row as nat, rows as nat);
                }
                let value: Vec<u8> = vstd::slice::slice_to_vec(self.read(row));
                let step = TeardownStep::Drop { component: self.info.id(), row, value };
                let ghost earlier = steps@;
                steps.push(step);
                proof {
                    assert(step_views(steps@) =~= step_views(earlier).push(step@));
                    assert(self@.drop_steps((row + 1) as nat) =~= self@.drop_steps(row as nat).push(
                        step@,
                    ));
                }
                row = row + 1;
            }
        } else {
            assert(step_views(steps@) =~= before + self@.drop_steps(rows as nat));
        }
        if self.data.len() > 0 {
            let step = TeardownStep::Release {
                component: self.info.id(),
                size: self.data.len(),
                align: self.info.align(),
            };
            let ghost earlier = steps@;
            steps.push(step);
            proof {
                assert(step_views(steps@) =~= step_views(earlier).push(step@));
                assert(self@.release_steps() =~= seq![step@]);
            }
        }
        assert(step_views(steps@) =~= before + self@.teardown(rows as nat));
    }

    /// Enlarges the buffer to hold `capacity` values. The bytes it held stay
    /// as they are; the new bytes are zero.
    pub fn grow(&mut self, capacity: usize)
        requires
            fits(old(self)@.info, capacity as nat),
            old(self)@.bytes.len() <= capacity * old(self)@.info.size(),
        ensures
            final(self)@ == old(self)@.grown(capacity as nat),
    {
        let n: usize = capacity * self.info.size();
        self.data.resize(n, 0u8);
        assert(self@.bytes =~= old(self)@.grown(capacity as nat).bytes);
    }
}

} // verus!
