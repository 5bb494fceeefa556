//! Sectors, their cost and integration fields, and the coordinate
//! conventions that tie them to world space.
//!
//! A map of `x` by `z` world units is cut into square sectors of
//! [`SECTOR_RESOLUTION`] units a side, and each sector into
//! [`FIELD_RESOLUTION`] by [`FIELD_RESOLUTION`] field cells. Sectors and cells
//! are both addressed as `(column, row)`, with `(0, 0)` in the top-left
//! corner, which lies at the most negative `x` and `z` of world space.

pub mod cost_fields;
pub mod integration_fields;
pub mod portal;
pub mod route;
pub mod sectors;
pub mod wavefront;

use vstd::prelude::*;

verus! {

/// Number of field cells along each side of a sector.
pub const FIELD_RESOLUTION: usize = 10;

/// Number of world units along each side of a sector.
pub const SECTOR_RESOLUTION: usize = 10;

/// The cost that marks a field cell as one that cannot be crossed.
pub const IMPASSABLE_COST: u8 = 255;

/// The integration cost of a field cell that no wavefront has reached.
pub const UNREACHED: u16 = 65535;

/// Why an operation was given up.
#[derive(Clone, Copy, Debug, PartialEq, Eq, Structural)]
pub enum FlowFieldError {
    /// A field cell or a sector was addressed outside of its grid.
    IndexOutOfBounds,
    /// A map dimension is not a whole number of sectors.
    InvalidMapDimensions,
    /// The portal graph found no path between the two ends of a request.
    PortalPathUnreachable,
}

/// A point of a grid as a pair of mathematical integers, `(column, row)`.
pub type Point = (int, int);

/// The point that a field cell index stands for.
pub open spec fn cell_point(cell: (usize, usize)) -> Point {
    (cell.0 as int, cell.1 as int)
}

/// The point that a sector id stands for.
pub open spec fn sector_point(sector_id: (u32, u32)) -> Point {
    (sector_id.0 as int, sector_id.1 as int)
}

/// The points of a list of field cell indices.
pub open spec fn cell_points(cells: Seq<(usize, usize)>) -> Seq<Point> {
    cells.map_values(|c: (usize, usize)| cell_point(c))
}

/// The points of a list of sector ids.
pub open spec fn sector_points(sector_ids: Seq<(u32, u32)>) -> Seq<Point> {
    sector_ids.map_values(|s: (u32, u32)| sector_point(s))
}

/// The directions and points of a list of sector ids with their directions.
pub open spec fn ordinal_sector_points(entries: Seq<(Ordinal, (u32, u32))>) -> Seq<
    (Ordinal, Point),
> {
    entries.map_values(|e: (Ordinal, (u32, u32))| (e.0, sector_point(e.1)))
}

/// Whether `p` lies in a grid of `columns` by `rows`.
pub open spec fn in_grid(p: Point, columns: int, rows: int) -> bool {
    0 <= p.0 < columns && 0 <= p.1 < rows
}

/// Whether `p` lies in the grid of field cells of a sector.
pub open spec fn in_field(p: Point) -> bool {
    in_grid(p, FIELD_RESOLUTION as int, FIELD_RESOLUTION as int)
}

/// Number of sector columns (or rows) that a map dimension holds. A
/// remainder that does not fill a sector holds none.
pub open spec fn sector_count(map_dimension: u32) -> int {
    map_dimension as int / SECTOR_RESOLUTION as int
}

/// Whether both dimensions of a map are a whole number of sectors.
pub open spec fn is_whole_map(map_x_dimension: u32, map_z_dimension: u32) -> bool {
    map_x_dimension as int % SECTOR_RESOLUTION as int == 0 && map_z_dimension as int
        % SECTOR_RESOLUTION as int == 0
}

/// The four directions in which a cell or a sector has a neighbour.
#[derive(Clone, Copy, Debug, PartialEq, Eq, Structural)]
pub enum Ordinal {
    North,
    East,
    South,
    West,
}

impl Ordinal {
    /// The place of this direction in the order north, east, south, west.
    pub open spec fn index(self) -> int {
        match self {
            Ordinal::North => 0,
            Ordinal::East => 1,
            Ordinal::South => 2,
            Ordinal::West => 3,
        }
    }

    /// The point next to `p` in this direction. North is towards row 0 and
    /// west is towards column 0.
    pub open spec fn step(self, p: Point) -> Point {
        match self {
            Ordinal::North => (p.0, p.1 - 1),
            Ordinal::East => (p.0 + 1, p.1),
            Ordinal::South => (p.0, p.1 + 1),
            Ordinal::West => (p.0 - 1, p.1),
        }
    }

    /// The neighbour of `p` in this direction if it lies in the grid,
    /// nothing otherwise.
    pub open spec fn kept(self, p: Point, columns: int, rows: int) -> Seq<(Ordinal, Point)> {
        if in_grid(self.step(p), columns, rows) {
            seq![(self, self.step(p))]
        } else {
            Seq::empty()
        }
    }

    /// The neighbours of `p` that lie in a grid of `columns` by `rows`, each
    /// with its direction, in the order north, east, south, west.
    pub open spec fn neighbours_with_ordinal(p: Point, columns: int, rows: int) -> Seq<
        (Ordinal, Point),
    > {
        Ordinal::North.kept(p, columns, rows) + Ordinal::East.kept(p, columns, rows)
            + Ordinal::South.kept(p, columns, rows) + Ordinal::West.kept(p, columns, rows)
    }

    /// The neighbours of `p` that lie in a grid of `columns` by `rows`, in
    /// the order north, east, south, west.
    pub open spec fn neighbours(p: Point, columns: int, rows: int) -> Seq<Point> {
        Self::neighbours_with_ordinal(p, columns, rows).map_values(|e: (Ordinal, Point)| e.1)
    }

    /// The neighbours of `p` that lie in the grid of field cells of a
    /// sector, in the order north, east, south, west.
    pub open spec fn field_neighbours(p: Point) -> Seq<Point> {
        Self::neighbours(p, FIELD_RESOLUTION as int, FIELD_RESOLUTION as int)
    }

    /// The field cells next to `cell_id` within its sector, in the order
    /// north, east, south, west. Candidates outside the sector are left out.
    pub fn get_cell_neighbours(cell_id: (usize, usize)) -> (neighbours: Vec<(usize, usize)>)
        ensures
            cell_points(neighbours@) == Self::field_neighbours(cell_point(cell_id)),
    {
        let mut neighbours: Vec<(usize, usize)> = Vec::new();
        let (column, row) = cell_id;
        if column < FIELD_RESOLUTION && row >= 1 && row <= FIELD_RESOLUTION {
            neighbours.push((column, row - 1));
        }
        if column < FIELD_RESOLUTION - 1 && row < FIELD_RESOLUTION {
            neighbours.push((column + 1, row));
        }
        if column < FIELD_RESOLUTION && row < FIELD_RESOLUTION - 1 {
            neighbours.push((column, row + 1));
        }
        if column >= 1 && column <= FIELD_RESOLUTION && row < FIELD_RESOLUTION {
            neighbours.push((column - 1, row));
        }
        assert(cell_points(neighbours@) =~= Self::field_neighbours(cell_point(cell_id)));
        neighbours
    }

    /// The sectors next to `sector_id` on a map of the given dimensions,
    /// each with the direction in which it lies, in the order north, east,
    /// south, west. Candidates outside the map are left out.
    pub fn get_sector_neighbours_with_ordinal(
        sector_id: &(u32, u32),
        map_x_dimension: u32,
        map_z_dimension: u32,
    ) -> (neighbours: Vec<(Ordinal, (u32, u32))>)
        ensures
            ordinal_sector_points(neighbours@) == Self::neighbours_with_ordinal(
                sector_point(*sector_id),
                sector_count(map_x_dimension),
                sector_count(map_z_dimension),
            ),
    {
        let column_count: u32 = map_x_dimension / SECTOR_RESOLUTION as u32;
        let row_count: u32 = map_z_dimension / SECTOR_RESOLUTION as u32;
        let mut neighbours: Vec<(Ordinal, (u32, u32))> = Vec::new();
        let (column, row) = *sector_id;
        if column < column_count && row >= 1 && row <= row_count {
            neighbours.push((Ordinal::North, (column, row - 1)));
        }
        if column < u32::MAX && column + 1 < column_count && row < row_count {
            neighbours.push((Ordinal::East, (column + 1, row)));
        }
        if column < column_count && row < u32::MAX && row + 1 < row_count {
            neighbours.push((Ordinal::South, (column, row + 1)));
        }
        if column >= 1 && column <= column_count && row < row_count {
            neighbours.push((Ordinal::West, (column - 1, row)));
        }
        assert(ordinal_sector_points(neighbours@) =~= Self::neighbours_with_ordinal(
            sector_point(*sector_id),
            sector_count(map_x_dimension),
            sector_count(map_z_dimension),
        ));
        neighbours
    }

    /// The sectors next to `sector_id` on a map of the given dimensions, in
    /// the order north, east, south, west. Candidates outside the map are
    /// left out.
    pub fn get_sector_neighbours(
        sector_id: &(u32, u32),
        map_x_dimension: u32,
        map_z_dimension: u32,
    ) -> (neighbours: Vec<(u32, u32)>)
        ensures
            sector_points(neighbours@) == Self::neighbours(
                sector_point(*sector_id),
                sector_count(map_x_dimension),
                sector_count(map_z_dimension),
            ),
    {
        let with_ordinal = Self::get_sector_neighbours_with_ordinal(
            sector_id,
            map_x_dimension,
            map_z_dimension,
        );
        let mut neighbours: Vec<(u32, u32)> = Vec::new();
        let mut i: usize = 0;
        while i < with_ordinal.len()
            invariant
                i <= with_ordinal.len(),
                neighbours@.len() == i,
                forall|k: int| 0 <= k < i ==> neighbours@[k] == with_ordinal@[k].1,
            decreases with_ordinal.len() - i,
        {
            neighbours.push(with_ordinal[i].1);
            i += 1;
        }
        assert(sector_points(neighbours@) =~= ordinal_sector_points(with_ordinal@).map_values(
            |e: (Ordinal, Point)| e.1,
        ));
        neighbours
    }
}

/// The size of a map in world units, along `x` (across the sector columns)
/// and along `z` (across the sector rows).
#[derive(Clone, Copy, Debug, PartialEq, Eq, Structural)]
pub struct MapDimensions(u32, u32);

impl View for MapDimensions {
    type V = (u32, u32);

    /// The sizes along `x` and along `z`.
    closed spec fn view(&self) -> (u32, u32) {
        (self.0, self.1)
    }
}

impl MapDimensions {
    /// Dimensions of `x` by `z` world units.
    pub fn new(x: u32, z: u32) -> (dimensions: Self)
        ensures
            dimensions@ == (x, z),
    {
        MapDimensions(x, z)
    }

    /// The size of the map along `x`, the axis of the sector columns.
    pub fn get_column(&self) -> (x: u32)
        ensures
            x == self@.0,
    {
        self.0
    }

    /// The size of the map along `z`, the axis of the sector rows.
    pub fn get_row(&self) -> (z: u32)
        ensures
            z == self@.1,
    {
        self.1
    }

    /// Number of sector columns of the map.
    pub fn column_count(&self) -> (count: u32)
        ensures
            count == sector_count(self@.0),
    {
        self.0 / SECTOR_RESOLUTION as u32
    }

    /// Number of sector rows of the map.
    pub fn row_count(&self) -> (count: u32)
        ensures
            count == sector_count(self@.1),
    {
        self.1 / SECTOR_RESOLUTION as u32
    }

    /// Whether both dimensions are a whole number of sectors.
    pub fn is_whole(&self) -> (whole: bool)
        ensures
            whole == is_whole_map(self@.0, self@.1),
    {
        self.0 % SECTOR_RESOLUTION as u32 == 0 && self.1 % SECTOR_RESOLUTION as u32 == 0
    }
}

} // verus!
