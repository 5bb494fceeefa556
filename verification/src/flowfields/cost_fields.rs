//! The cost of crossing each field cell of a sector.
//!
//! A cost is a number from 1, the default, up to 255, which marks a cell
//! that cannot be crossed at all. The grid is addressed as `(column, row)`
//! and never changes its size.

use super::{FlowFieldError, FIELD_RESOLUTION};
use vstd::prelude::*;

verus! {

/// The costs of a sector as a mathematical grid: a sequence of columns, each
/// a sequence of the costs of its rows.
pub type CostGrid = Seq<Seq<u8>>;

/// The grid in which every cell has the cost `value`.
pub open spec fn uniform_costs(value: u8) -> CostGrid {
    Seq::new(
        FIELD_RESOLUTION as nat,
        |column: int| Seq::new(FIELD_RESOLUTION as nat, |row: int| value),
    )
}

/// Whether a grid has the size of a sector.
pub open spec fn is_cost_grid(grid: CostGrid) -> bool {
    &&& grid.len() == FIELD_RESOLUTION
    &&& forall|column: int|
        0 <= column < FIELD_RESOLUTION ==> (#[trigger] grid[column]).len() == FIELD_RESOLUTION
}

/// Whether a grid has the size of a sector and no cell below 1, the least
/// cost that a cell is meant to have.
pub open spec fn has_valid_costs(grid: CostGrid) -> bool {
    &&& is_cost_grid(grid)
    &&& forall|column: int, row: int|
        0 <= column < FIELD_RESOLUTION && 0 <= row < FIELD_RESOLUTION
            ==> #[trigger] grid[column][row] >= 1
}

/// The grid of traversal costs of one sector.
pub struct CostFields([[u8; FIELD_RESOLUTION]; FIELD_RESOLUTION]);

impl View for CostFields {
    type V = CostGrid;

    closed spec fn view(&self) -> CostGrid {
        Seq::new(
            FIELD_RESOLUTION as nat,
            |column: int| Seq::new(FIELD_RESOLUTION as nat, |row: int| self.0@[column]@[row]),
        )
    }
}

impl Default for CostFields {
    /// Every cell at the default cost of 1.
    fn default() -> (fields: Self)
        ensures
            fields@ == uniform_costs(1),
            has_valid_costs(fields@),
    {
        let fields = CostFields([[1; FIELD_RESOLUTION]; FIELD_RESOLUTION]);
        assert(fields@ =~~= uniform_costs(1));
        fields
    }
}

impl CostFields {
    /// The grid of any value has the size of a sector.
    pub proof fn lemma_dimensions(&self)
        ensures
            is_cost_grid(self@),
    {
    }

    /// The whole grid, columns first.
    pub fn get_fields(&self) -> (grid: &[[u8; FIELD_RESOLUTION]; FIELD_RESOLUTION])
        ensures
            forall|column: int, row: int|
                0 <= column < FIELD_RESOLUTION && 0 <= row < FIELD_RESOLUTION
                    ==> grid@[column]@[row] == self@[column][row],
    {
        &self.0
    }

    /// The cost of the cell at `(column, row)`.
    pub fn get_grid_value(&self, column: usize, row: usize) -> (value: Result<u8, FlowFieldError>)
        ensures
            value is Ok <==> column < FIELD_RESOLUTION && row < FIELD_RESOLUTION,
            value is Ok ==> value == Ok::<u8, FlowFieldError>(self@[column as int][row as int]),
            value is Err ==> value == Err::<u8, FlowFieldError>(FlowFieldError::IndexOutOfBounds),
    {
        if column >= FIELD_RESOLUTION || row >= FIELD_RESOLUTION {
            return Err(FlowFieldError::IndexOutOfBounds);
        }
        Ok(self.0[column][row])
    }

    /// Overwrites the cost of the cell at `(column, row)` and leaves every
    /// other cell as it was. Any cost is taken; one of at least 1 keeps valid
    /// costs valid.
    pub fn set_grid_value(&mut self, value: u8, column: usize, row: usize) -> (done: Result<
        (),
        FlowFieldError,
    >)
        ensures
            done is Ok <==> column < FIELD_RESOLUTION && row < FIELD_RESOLUTION,
            done is Ok ==> final(self)@ == old(self)@.update(
                column as int,
                old(self)@[column as int].update(row as int, value),
            ),
            done is Err ==> done == Err::<(), FlowFieldError>(FlowFieldError::IndexOutOfBounds)
                && final(self)@ == old(self)@,
            value >= 1 && has_valid_costs(old(self)@) ==> has_valid_costs(final(self)@),
    {
        if column >= FIELD_RESOLUTION || row >= FIELD_RESOLUTION {
            return Err(FlowFieldError::IndexOutOfBounds);
        }
        self.0[column][row] = value;
        assert(self@ =~~= old(self)@.update(
            column as int,
            old(self)@[column as int].update(row as int, value),
        ));
        Ok(())
    }
}

} // verus!
