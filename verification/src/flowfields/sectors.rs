//! A map is split into a grid of sectors, each with fields of its own that
//! the path calculation works on.
//!
//! A sector id is `(column, row)` in that grid. Sector `(0, 0)` lies in the
//! top-left corner of the map, at the most negative `x` and `z`.

use super::cost_fields::{uniform_costs, CostFields};
use super::integration_fields::IntegrationFields;
use super::portal::portals::Portals;
use super::wavefront::uniform_grid;
use super::{
    cell_point, in_field, in_grid, is_whole_map, ordinal_sector_points, sector_count,
    sector_point, sector_points, FlowFieldError, Ordinal, Point, FIELD_RESOLUTION,
    SECTOR_RESOLUTION, UNREACHED,
};
use std::collections::BTreeMap;
use vstd::prelude::*;
use vstd::std_specs::btree::*;

verus! {

broadcast use vstd::laws_cmp::group_laws_cmp;

/// The ids of the sectors of a map of the given dimensions.
pub open spec fn sector_ids(map_x_dimension: u32, map_z_dimension: u32) -> Set<(u32, u32)> {
    Set::new(
        |id: (u32, u32)|
            in_grid(sector_point(id), sector_count(map_x_dimension), sector_count(map_z_dimension)),
    )
}

/// The ids of the sectors that come before `(column, row)` when the columns
/// are filled one after the other, each from row 0 up to `rows`.
spec fn filled_ids(column: u32, row: u32, rows: u32) -> Set<(u32, u32)> {
    Set::new(|id: (u32, u32)| id.1 < rows && (id.0 < column || (id.0 == column && id.1 < row)))
}

/// The sector id that a point of the sector grid stands for.
pub open spec fn sector_id_of(p: Point) -> (u32, u32) {
    (p.0 as u32, p.1 as u32)
}

/// The cost fields of the sectors of a map, by sector id.
pub struct SectorCostFields(BTreeMap<(u32, u32), CostFields>);

impl View for SectorCostFields {
    type V = Map<(u32, u32), CostFields>;

    closed spec fn view(&self) -> Map<(u32, u32), CostFields> {
        self.0@
    }
}

impl SectorCostFields {
    /// The cost fields of a map of the given dimensions: one for each
    /// sector, with every cell at the default cost. Dimensions that are not a
    /// whole number of sectors are refused.
    pub fn new(map_x_dimension: u32, map_z_dimension: u32) -> (made: Result<Self, FlowFieldError>)
        ensures
            made is Ok <==> is_whole_map(map_x_dimension, map_z_dimension),
            made matches Err(error) ==> error == FlowFieldError::InvalidMapDimensions,
            made matches Ok(fields) ==> fields@.dom() == sector_ids(
                map_x_dimension,
                map_z_dimension,
            ) && forall|id: (u32, u32)| #[trigger]
                fields@.contains_key(id) ==> fields@[id]@ == uniform_costs(1),
    {
        if map_x_dimension % SECTOR_RESOLUTION as u32 != 0 || map_z_dimension
            % SECTOR_RESOLUTION as u32 != 0 {
            return Err(FlowFieldError::InvalidMapDimensions);
        }
        let mut map: BTreeMap<(u32, u32), CostFields> = BTreeMap::new();
        let column_count: u32 = map_x_dimension / SECTOR_RESOLUTION as u32;
        let row_count: u32 = map_z_dimension / SECTOR_RESOLUTION as u32;
        let mut m: u32 = 0;
        while m < column_count
            invariant
                m <= column_count,
                map@.dom() =~= filled_ids(m, 0, row_count),
                forall|id: (u32, u32)| #[trigger]
                    map@.contains_key(id) ==> map@[id]@ == uniform_costs(1),
            decreases column_count - m,
        {
            let mut n: u32 = 0;
            while n < row_count
                invariant
                    m < column_count,
                    n <= row_count,
                    map@.dom() =~= filled_ids(m, n, row_count),
                    forall|id: (u32, u32)| #[trigger]
                        map@.contains_key(id) ==> map@[id]@ == uniform_costs(1),
                decreases row_count - n,
            {
                map.insert((m, n), CostFields::default());
                n += 1;
            }
            m += 1;
        }
        assert(map@.dom() =~= sector_ids(map_x_dimension, map_z_dimension));
        Ok(SectorCostFields(map))
    }

    /// The cost fields by sector id.
    pub fn get(&self) -> (map: &BTreeMap<(u32, u32), CostFields>)
        ensures
            map@ == self@,
    {
        &self.0
    }

    /// The cost fields by sector id, to be changed in place.
    pub fn get_mut(&mut self) -> (map: &mut BTreeMap<(u32, u32), CostFields>)
        ensures
            map@ == old(self)@,
            final(self)@ == final(map)@,
    {
        &mut self.0
    }
}

/// The portals of the sectors of a map, by sector id.
pub struct SectorPortals(BTreeMap<(u32, u32), Portals>);

impl View for SectorPortals {
    type V = Map<(u32, u32), Portals>;

    closed spec fn view(&self) -> Map<(u32, u32), Portals> {
        self.0@
    }
}

/// The sectors whose portals are out of date once the costs of the sector
/// `changed` have changed: its neighbours, in the order north, east, south,
/// west, and then the sector itself.
pub open spec fn sectors_to_update(
    changed: Point,
    map_x_dimension: u32,
    map_z_dimension: u32,
) -> Seq<Point> {
    Ordinal::neighbours(
        changed,
        sector_count(map_x_dimension),
        sector_count(map_z_dimension),
    ).push(changed)
}

impl SectorPortals {
    /// The portals of a map of the given dimensions: for each sector a
    /// record without portals. Dimensions that are not a whole number of
    /// sectors are refused.
    pub fn new(map_x_dimension: u32, map_z_dimension: u32) -> (made: Result<Self, FlowFieldError>)
        ensures
            made is Ok <==> is_whole_map(map_x_dimension, map_z_dimension),
            made matches Err(error) ==> error == FlowFieldError::InvalidMapDimensions,
            made matches Ok(portals) ==> portals@.dom() == sector_ids(
                map_x_dimension,
                map_z_dimension,
            ) && forall|id: (u32, u32), ordinal: Ordinal|
                portals@.contains_key(id) ==> #[trigger] portals@[id].cells(ordinal) == Seq::<
                    (usize, usize),
                >::empty(),
    {
        if map_x_dimension % SECTOR_RESOLUTION as u32 != 0 || map_z_dimension
            % SECTOR_RESOLUTION as u32 != 0 {
            return Err(FlowFieldError::InvalidMapDimensions);
        }
        let mut map: BTreeMap<(u32, u32), Portals> = BTreeMap::new();
        let column_count: u32 = map_x_dimension / SECTOR_RESOLUTION as u32;
        let row_count: u32 = map_z_dimension / SECTOR_RESOLUTION as u32;
        let mut m: u32 = 0;
        while m < column_count
            invariant
                m <= column_count,
                map@.dom() =~= filled_ids(m, 0, row_count),
                forall|id: (u32, u32), ordinal: Ordinal|
                    map@.contains_key(id) ==> #[trigger] map@[id].cells(ordinal) == Seq::<
                        (usize, usize),
                    >::empty(),
            decreases column_count - m,
        {
            let mut n: u32 = 0;
            while n < row_count
                invariant
                    m < column_count,
                    n <= row_count,
                    map@.dom() =~= filled_ids(m, n, row_count),
                    forall|id: (u32, u32), ordinal: Ordinal|
                        map@.contains_key(id) ==> #[trigger] map@[id].cells(ordinal) == Seq::<
                            (usize, usize),
                        >::empty(),
                decreases row_count - n,
            {
                map.insert((m, n), Portals::default());
                n += 1;
            }
            m += 1;
        }
        assert(map@.dom() =~= sector_ids(map_x_dimension, map_z_dimension));
        Ok(SectorPortals(map))
    }

    /// The portals by sector id.
    pub fn get(&self) -> (map: &BTreeMap<(u32, u32), Portals>)
        ensures
            map@ == self@,
    {
        &self.0
    }

    /// The portals by sector id, to be changed in place.
    pub fn get_mut(&mut self) -> (map: &mut BTreeMap<(u32, u32), Portals>)
        ensures
            map@ == old(self)@,
            final(self)@ == final(map)@,
    {
        &mut self.0
    }

    /// Names the sectors whose portals have to be worked out again after the
    /// cost fields of the sector `changed_cost_fields_id` have changed: the
    /// neighbours of that sector and then the sector itself. The portal
    /// graph works them out, in this order, and writes them through
    /// [`SectorPortals::get_mut`]. Where one of these sectors has no portals
    /// here to be replaced, nothing is named.
    pub fn update_portals(
        &self,
        changed_cost_fields_id: (u32, u32),
        map_x_dimension: u32,
        map_z_dimension: u32,
    ) -> (plan: Result<Vec<(u32, u32)>, FlowFieldError>)
        ensures
            plan is Ok <==> forall|k: int|
                0 <= k < sectors_to_update(
                    sector_point(changed_cost_fields_id),
                    map_x_dimension,
                    map_z_dimension,
                ).len() ==> self@.contains_key(
                    sector_id_of(
                        #[trigger] sectors_to_update(
                            sector_point(changed_cost_fields_id),
                            map_x_dimension,
                            map_z_dimension,
                        )[k],
                    ),
                ),
            plan matches Ok(ids) ==> sector_points(ids@) == sectors_to_update(
                sector_point(changed_cost_fields_id),
                map_x_dimension,
                map_z_dimension,
            ),
            plan matches Err(error) ==> error == FlowFieldError::IndexOutOfBounds,
    {
        let ghost wanted = sectors_to_update(
            sector_point(changed_cost_fields_id),
            map_x_dimension,
            map_z_dimension,
        );
        let mut changed = get_ids_of_neighbouring_sectors(
            &changed_cost_fields_id,
            map_x_dimension,
            map_z_dimension,
        );
        changed.push(changed_cost_fields_id);
        assert(sector_points(changed@) =~= wanted);
        let mut i: usize = 0;
        while i < changed.len()
            invariant
                i <= changed.len(),
                sector_points(changed@) == wanted,
                wanted == sectors_to_update(
                    sector_point(changed_cost_fields_id),
                    map_x_dimension,
                    map_z_dimension,
                ),
                forall|k: int|
                    0 <= k < i ==> self@.contains_key(sector_id_of(#[trigger] wanted[k])),
            decreases changed.len() - i,
        {
            assert(sector_id_of(wanted[i as int]) == changed@[i as int]) by {
                assert(wanted[i as int] == sector_point(changed@[i as int]));
            }
            if !self.0.contains_key(&changed[i]) {
                assert(i < wanted.len() && !self@.contains_key(sector_id_of(wanted[i as int])));
                return Err(FlowFieldError::IndexOutOfBounds);
            }
            i += 1;
        }
        Ok(changed)
    }
}

/// The integration fields of the sectors of a map, by sector id.
pub struct SectorIntegrationFields(BTreeMap<(u32, u32), IntegrationFields>);

impl View for SectorIntegrationFields {
    type V = Map<(u32, u32), IntegrationFields>;

    closed spec fn view(&self) -> Map<(u32, u32), IntegrationFields> {
        self.0@
    }
}

impl SectorIntegrationFields {
    /// The integration fields of a map of the given dimensions: one for each
    /// sector, with every cell unreached. Dimensions that are not a whole
    /// number of sectors are refused.
    pub fn new(map_x_dimension: u32, map_z_dimension: u32) -> (made: Result<Self, FlowFieldError>)
        ensures
            made is Ok <==> is_whole_map(map_x_dimension, map_z_dimension),
            made matches Err(error) ==> error == FlowFieldError::InvalidMapDimensions,
            made matches Ok(fields) ==> fields@.dom() == sector_ids(
                map_x_dimension,
                map_z_dimension,
            ) && forall|id: (u32, u32)| #[trigger]
                fields@.contains_key(id) ==> fields@[id]@ == uniform_grid(UNREACHED),
    {
        if map_x_dimension % SECTOR_RESOLUTION as u32 != 0 || map_z_dimension
            % SECTOR_RESOLUTION as u32 != 0 {
            return Err(FlowFieldError::InvalidMapDimensions);
        }
        let mut map: BTreeMap<(u32, u32), IntegrationFields> = BTreeMap::new();
        let column_count: u32 = map_x_dimension / SECTOR_RESOLUTION as u32;
        let row_count: u32 = map_z_dimension / SECTOR_RESOLUTION as u32;
        let mut m: u32 = 0;
        while m < column_count
            invariant
                m <= column_count,
                map@.dom() =~= filled_ids(m, 0, row_count),
                forall|id: (u32, u32)| #[trigger]
                    map@.contains_key(id) ==> map@[id]@ == uniform_grid(UNREACHED),
            decreases column_count - m,
        {
            let mut n: u32 = 0;
            while n < row_count
                invariant
                    m < column_count,
                    n <= row_count,
                    map@.dom() =~= filled_ids(m, n, row_count),
                    forall|id: (u32, u32)| #[trigger]
                        map@.contains_key(id) ==> map@[id]@ == uniform_grid(UNREACHED),
                decreases row_count - n,
            {
                map.insert((m, n), IntegrationFields::default());
                n += 1;
            }
            m += 1;
        }
        assert(map@.dom() =~= sector_ids(map_x_dimension, map_z_dimension));
        Ok(SectorIntegrationFields(map))
    }

    /// The integration fields by sector id.
    pub fn get(&self) -> (map: &BTreeMap<(u32, u32), IntegrationFields>)
        ensures
            map@ == self@,
    {
        &self.0
    }

    /// The integration fields by sector id, to be changed in place.
    pub fn get_mut(&mut self) -> (map: &mut BTreeMap<(u32, u32), IntegrationFields>)
        ensures
            map@ == old(self)@,
            final(self)@ == final(map)@,
    {
        &mut self.0
    }
}

/// A sector has up to four neighbours. The ids of those of `sector_id` on a
/// map of the given dimensions, in the order north, east, south, west: two
/// for a sector in a corner of the map, three for one on an edge, four for
/// any other.
pub fn get_ids_of_neighbouring_sectors(
    sector_id: &(u32, u32),
    map_x_dimension: u32,
    map_z_dimension: u32,
) -> (neighbours: Vec<(u32, u32)>)
    ensures
        sector_points(neighbours@) == Ordinal::neighbours(
            sector_point(*sector_id),
            sector_count(map_x_dimension),
            sector_count(map_z_dimension),
        ),
{
    Ordinal::get_sector_neighbours(sector_id, map_x_dimension, map_z_dimension)
}

/// A sector has up to four neighbours. The ids of those of `sector_id` on a
/// map of the given dimensions, each with the direction in which it lies as
/// seen from `sector_id`, in the order north, east, south, west.
pub fn get_ordinal_and_ids_of_neighbouring_sectors(
    sector_id: &(u32, u32),
    map_x_dimension: u32,
    map_z_dimension: u32,
) -> (neighbours: Vec<(Ordinal, (u32, u32))>)
    ensures
        ordinal_sector_points(neighbours@) == Ordinal::neighbours_with_ordinal(
            sector_point(*sector_id),
            sector_count(map_x_dimension),
            sector_count(map_z_dimension),
        ),
{
    Ordinal::get_sector_neighbours_with_ordinal(sector_id, map_x_dimension, map_z_dimension)
}

/// A point of world space in fixed point. Each coordinate counts half world
/// units, the grain in which the centres of field cells are laid out, so the
/// world position `(-14.5, 0.0, 3.0)` is `(-29, 0, 6)` here. The world is
/// centred on its origin; `y` points up and plays no part in any mapping.
#[derive(Clone, Copy, Debug, PartialEq, Eq, Structural)]
pub struct WorldPosition {
    pub x: i64,
    pub y: i64,
    pub z: i64,
}

impl View for WorldPosition {
    type V = (int, int, int);

    /// The coordinates as mathematical integers.
    open spec fn view(&self) -> (int, int, int) {
        (self.x as int, self.y as int, self.z as int)
    }
}

impl WorldPosition {
    /// The point at the given numbers of half world units.
    pub fn new(x: i64, y: i64, z: i64) -> (position: Self)
        ensures
            position == (WorldPosition { x, y, z }),
    {
        WorldPosition { x, y, z }
    }
}

/// Number of half world units along each side of a sector.
pub const SECTOR_HALF_UNITS: i64 = 20;

/// Where, in half world units along one axis, the sector with the index
/// `sector` begins on a map of the size `map_dimension`.
pub open spec fn sector_start(sector: int, map_dimension: u32) -> int {
    2 * (sector * SECTOR_RESOLUTION as int - map_dimension as int / 2)
}

/// The index along one axis of the sector that holds a coordinate, which is
/// given in half world units, on a map of the size `map_dimension`. A
/// coordinate off the map counts for the first or the last sector.
pub open spec fn sector_index_at(coordinate: int, map_dimension: u32) -> int {
    let index = (coordinate + 2 * (map_dimension as int / 2)) / SECTOR_HALF_UNITS as int;
    if index < 0 {
        0
    } else if index >= sector_count(map_dimension) {
        sector_count(map_dimension) - 1
    } else {
        index
    }
}

/// The index along one axis of the field cell that holds a coordinate, which
/// is given in half world units, as seen from the sector with the index
/// `sector`. Only the distance from the start of the sector counts: a
/// coordinate before the sector is taken for the one that lies as far behind
/// its start, and a coordinate beyond the sector counts for its last cell.
pub open spec fn field_index_at(coordinate: int, sector: int, map_dimension: u32) -> int {
    let start = sector_start(sector, map_dimension);
    let distance = if coordinate >= start {
        coordinate - start
    } else {
        start - coordinate
    };
    if distance / 2 >= FIELD_RESOLUTION as int {
        FIELD_RESOLUTION as int - 1
    } else {
        distance / 2
    }
}

/// The sector that holds `position`.
pub open spec fn sector_at(
    position: WorldPosition,
    map_x_dimension: u32,
    map_z_dimension: u32,
) -> Point {
    (
        sector_index_at(position.x as int, map_x_dimension),
        sector_index_at(position.z as int, map_z_dimension),
    )
}

/// The field cell of the sector `sector` that holds `position`.
pub open spec fn field_cell_at(
    position: WorldPosition,
    sector: Point,
    map_x_dimension: u32,
    map_z_dimension: u32,
) -> Point {
    (
        field_index_at(position.x as int, sector.0, map_x_dimension),
        field_index_at(position.z as int, sector.1, map_z_dimension),
    )
}

/// The top-left corner of the sector `sector`.
pub open spec fn sector_top_left(sector: Point, map_x_dimension: u32, map_z_dimension: u32) -> (
    int,
    int,
    int,
) {
    (sector_start(sector.0, map_x_dimension), 0, sector_start(sector.1, map_z_dimension))
}

/// The centre of the sector `sector`: half a sector from its top-left
/// corner along `x` and `z`.
pub open spec fn sector_centre(sector: Point, map_x_dimension: u32, map_z_dimension: u32) -> (
    int,
    int,
    int,
) {
    (
        sector_start(sector.0, map_x_dimension) + SECTOR_HALF_UNITS as int / 2,
        0,
        sector_start(sector.1, map_z_dimension) + SECTOR_HALF_UNITS as int / 2,
    )
}

/// The point that stands for the field cell `field` of the sector `sector`:
/// from the corner of the sector, half a world unit further along each axis
/// for each cell up to and with `field`.
pub open spec fn field_cell_position(
    sector: Point,
    field: Point,
    map_x_dimension: u32,
    map_z_dimension: u32,
) -> (int, int, int) {
    (
        sector_start(sector.0, map_x_dimension) + field.0 + 1,
        0,
        sector_start(sector.1, map_z_dimension) + field.1 + 1,
    )
}

fn sector_index_from_coordinate(coordinate: i64, map_dimension: u32) -> (index: u32)
    requires
        map_dimension >= SECTOR_RESOLUTION,
    ensures
        index == sector_index_at(coordinate as int, map_dimension),
{
    let count: u32 = map_dimension / SECTOR_RESOLUTION as u32;
    let from_corner: i128 = coordinate as i128 + 2 * ((map_dimension / 2) as i128);
    let index: i128 = from_corner / SECTOR_HALF_UNITS as i128;
    if from_corner < 0 {
        0
    } else if index >= count as i128 {
        count - 1
    } else {
        index as u32
    }
}

fn sector_start_coordinate(sector: u32, map_dimension: u32) -> (start: i64)
    ensures
        start == sector_start(sector as int, map_dimension),
{
    2 * (sector as i64 * SECTOR_RESOLUTION as i64 - (map_dimension / 2) as i64)
}

fn field_index_from_coordinate(coordinate: i64, sector: u32, map_dimension: u32) -> (index: usize)
    ensures
        index == field_index_at(coordinate as int, sector as int, map_dimension),
{
    let start: i128 = sector_start_coordinate(sector, map_dimension) as i128;
    let distance: i128 = if coordinate as i128 >= start {
        coordinate as i128 - start
    } else {
        start - coordinate as i128
    };
    if distance / 2 >= FIELD_RESOLUTION as i128 {
        FIELD_RESOLUTION - 1
    } else {
        (distance / 2) as usize
    }
}

/// The id of the sector in which `position` lies, on a map of the given
/// dimensions. A position off the map is given the nearest sector of the
/// map: one on the far edge of the map lies in the last sector. The map has
/// to hold a sector along each axis.
pub fn get_sector_id_from_xyz(
    position: WorldPosition,
    map_x_dimension: u32,
    map_z_dimension: u32,
) -> (sector_id: (u32, u32))
    requires
        map_x_dimension >= SECTOR_RESOLUTION,
        map_z_dimension >= SECTOR_RESOLUTION,
    ensures
        sector_point(sector_id) == sector_at(position, map_x_dimension, map_z_dimension),
        sector_ids(map_x_dimension, map_z_dimension).contains(sector_id),
{
    let column = sector_index_from_coordinate(position.x, map_x_dimension);
    let row = sector_index_from_coordinate(position.z, map_z_dimension);
    (column, row)
}

/// The field cell of the sector `sector_id` in which `position` lies. Along
/// each axis it is the whole number of world units between the top-left
/// corner of the sector and the position, and 9, the last cell, where that
/// number is greater. The distance is taken without its direction, so a
/// position to the north or west of the corner is given the cell that lies
/// as far to the south or east of it.
pub fn get_field_cell_from_xyz(
    position: WorldPosition,
    sector_id: (u32, u32),
    map_x_dimension: u32,
    map_z_dimension: u32,
) -> (field_cell: (usize, usize))
    ensures
        cell_point(field_cell) == field_cell_at(
            position,
            sector_point(sector_id),
            map_x_dimension,
            map_z_dimension,
        ),
        in_field(cell_point(field_cell)),
{
    let column = field_index_from_coordinate(position.x, sector_id.0, map_x_dimension);
    let row = field_index_from_coordinate(position.z, sector_id.1, map_z_dimension);
    (column, row)
}

/// The sector in which `position` lies and the field cell of that sector in
/// which it lies. The map has to hold a sector along each axis.
pub fn get_sector_and_field_cell_from_xyz(
    position: WorldPosition,
    map_x_dimension: u32,
    map_z_dimension: u32,
) -> (found: ((u32, u32), (usize, usize)))
    requires
        map_x_dimension >= SECTOR_RESOLUTION,
        map_z_dimension >= SECTOR_RESOLUTION,
    ensures
        sector_point(found.0) == sector_at(position, map_x_dimension, map_z_dimension),
        cell_point(found.1) == field_cell_at(
            position,
            sector_at(position, map_x_dimension, map_z_dimension),
            map_x_dimension,
            map_z_dimension,
        ),
{
    let sector_id = get_sector_id_from_xyz(position, map_x_dimension, map_z_dimension);
    let field_cell = get_field_cell_from_xyz(position, sector_id, map_x_dimension, map_z_dimension);
    (sector_id, field_cell)
}

/// The top-left corner of the sector `sector_id`, the corner with the least
/// `x` and `z`, on a map of the given dimensions.
pub fn get_xyz_at_sector_top_left_from_sector_id(
    sector_id: (u32, u32),
    map_x_dimension: u32,
    map_z_dimension: u32,
) -> (position: WorldPosition)
    ensures
        position@ == sector_top_left(
            sector_point(sector_id),
            map_x_dimension,
            map_z_dimension,
        ),
{
    let x = sector_start_coordinate(sector_id.0, map_x_dimension);
    let z = sector_start_coordinate(sector_id.1, map_z_dimension);
    WorldPosition::new(x, 0, z)
}

/// The centre of the sector `sector_id` on a map of the given dimensions:
/// half a sector, which is 5 world units, from its top-left corner along `x`
/// and `z`.
pub fn get_xyz_sector_centre_from_sector_id(
    sector_id: (u32, u32),
    map_x_dimension: u32,
    map_z_dimension: u32,
) -> (position: WorldPosition)
    ensures
        position@ == sector_centre(
            sector_point(sector_id),
            map_x_dimension,
            map_z_dimension,
        ),
{
    let x = sector_start_coordinate(sector_id.0, map_x_dimension) + SECTOR_HALF_UNITS / 2;
    let z = sector_start_coordinate(sector_id.1, map_z_dimension) + SECTOR_HALF_UNITS / 2;
    WorldPosition::new(x, 0, z)
}

/// The point of world space that stands for the field cell `field_id` of
/// the sector `sector_id`: from the top-left corner of the sector, half a
/// world unit further along `x` for each column up to and with that of the
/// cell, and likewise along `z` for its row.
pub fn get_xyz_from_field_cell_within_sector(
    sector_id: (u32, u32),
    field_id: (u32, u32),
    map_x_dimension: u32,
    map_z_dimension: u32,
) -> (position: WorldPosition)
    ensures
        position@ == field_cell_position(
            sector_point(sector_id),
            sector_point(field_id),
            map_x_dimension,
            map_z_dimension,
        ),
{
    let corner = get_xyz_at_sector_top_left_from_sector_id(
        sector_id,
        map_x_dimension,
        map_z_dimension,
    );
    let x = corner.x + (field_id.0 as i64 + 1);
    let z = corner.z + (field_id.1 as i64 + 1);
    WorldPosition::new(x, 0, z)
}

/// Where the point that stands for a field cell is found again: in the
/// sector of the cell, and there in the cell whose column and row are those
/// of the cell plus one, halved and rounded down.
pub proof fn lemma_field_cell_position_found(
    sector: Point,
    field: Point,
    map_x_dimension: u32,
    map_z_dimension: u32,
    position: WorldPosition,
)
    requires
        in_grid(sector, sector_count(map_x_dimension), sector_count(map_z_dimension)),
        in_field(field),
        position@ == field_cell_position(
            sector,
            field,
            map_x_dimension,
            map_z_dimension,
        ),
    ensures
        sector_at(position, map_x_dimension, map_z_dimension) == sector,
        field_cell_at(position, sector, map_x_dimension, map_z_dimension) == (
            (field.0 + 1) / 2,
            (field.1 + 1) / 2,
        ),
{
}

/// The point that stands for a field cell in the first two columns and rows
/// of a sector is found again in that sector and in that cell.
pub proof fn lemma_field_cell_round_trip(
    sector: Point,
    field: Point,
    map_x_dimension: u32,
    map_z_dimension: u32,
    position: WorldPosition,
)
    requires
        in_grid(sector, sector_count(map_x_dimension), sector_count(map_z_dimension)),
        0 <= field.0 <= 1,
        0 <= field.1 <= 1,
        position@ == field_cell_position(
            sector,
            field,
            map_x_dimension,
            map_z_dimension,
        ),
    ensures
        sector_at(position, map_x_dimension, map_z_dimension) == sector,
        field_cell_at(position, sector, map_x_dimension, map_z_dimension) == field,
{
    lemma_field_cell_position_found(sector, field, map_x_dimension, map_z_dimension, position);
}

} // verus!
