use flowfield_tiles::flowfields::sectors::{
    get_field_cell_from_xyz, get_ids_of_neighbouring_sectors,
    get_ordinal_and_ids_of_neighbouring_sectors, get_sector_and_field_cell_from_xyz,
    get_sector_id_from_xyz, get_xyz_at_sector_top_left_from_sector_id,
    get_xyz_from_field_cell_within_sector, get_xyz_sector_centre_from_sector_id,
    SectorCostFields, SectorIntegrationFields, SectorPortals, WorldPosition,
};
use flowfield_tiles::flowfields::{FlowFieldError, MapDimensions, Ordinal};
use glam::Vec3;

/// The fixed-point position of a point of world space, in half world units.
fn world(point: Vec3) -> WorldPosition {
    WorldPosition::new(
        (point.x * 2.0).floor() as i64,
        (point.y * 2.0).floor() as i64,
        (point.z * 2.0).floor() as i64,
    )
}

/// The point of world space of a fixed-point position.
fn vec3(position: WorldPosition) -> Vec3 {
    Vec3::new(position.x as f32 / 2.0, position.y as f32 / 2.0, position.z as f32 / 2.0)
}

#[test]
fn sector_costfields_top_left_sector_id_from_xyz() {
    let map_x_dimension = 20;
    let map_z_dimension = 20;
    let position = Vec3::new(-5.0, 0.0, -5.0);
    let result = get_sector_id_from_xyz(world(position), map_x_dimension, map_z_dimension);
    let actual: (u32, u32) = (0, 0);
    assert_eq!(actual, result);
}
#[test]
fn sector_costfields_top_right_sector_id_from_xyz() {
    let map_x_dimension = 20;
    let map_z_dimension = 20;
    let position = Vec3::new(5.0, 0.0, -5.0);
    let result = get_sector_id_from_xyz(world(position), map_x_dimension, map_z_dimension);
    let actual: (u32, u32) = (1, 0);
    assert_eq!(actual, result);
}
#[test]
fn sector_costfields_bottom_right_sector_id_from_xyz() {
    let map_x_dimension = 20;
    let map_z_dimension = 20;
    let position = Vec3::new(5.0, 0.0, 5.0);
    let result = get_sector_id_from_xyz(world(position), map_x_dimension, map_z_dimension);
    let actual: (u32, u32) = (1, 1);
    assert_eq!(actual, result);
}
#[test]
fn sector_costfields_bottom_left_sector_id_from_xyz() {
    let map_x_dimension = 20;
    let map_z_dimension = 20;
    let position = Vec3::new(-5.0, 0.0, 5.0);
    let result = get_sector_id_from_xyz(world(position), map_x_dimension, map_z_dimension);
    let actual: (u32, u32) = (0, 1);
    assert_eq!(actual, result);
}
#[test]
fn get_northern_sector_neighbours() {
    let sector_id = (4, 0);
    let map_x_dimension = 200;
    let map_z_dimension = 200;
    let result = get_ids_of_neighbouring_sectors(&sector_id, map_x_dimension, map_z_dimension);
    let actual = vec![(5, 0), (4, 1), (3, 0)];
    assert_eq!(actual, result);
}
#[test]
fn get_eastern_sector_neighbours() {
    let sector_id = (19, 3);
    let map_x_dimension = 200;
    let map_z_dimension = 200;
    let result = get_ids_of_neighbouring_sectors(&sector_id, map_x_dimension, map_z_dimension);
    let actual = vec![(19, 2), (19, 4), (18, 3)];
    assert_eq!(actual, result);
}
#[test]
fn get_southern_sector_neighbours() {
    let sector_id = (5, 19);
    let map_x_dimension = 200;
    let map_z_dimension = 200;
    let result = get_ids_of_neighbouring_sectors(&sector_id, map_x_dimension, map_z_dimension);
    let actual = vec![(5, 18), (6, 19), (4, 19)];
    assert_eq!(actual, result);
}
#[test]
fn get_western_sector_neighbours() {
    let sector_id = (0, 5);
    let map_x_dimension = 200;
    let map_z_dimension = 200;
    let result = get_ids_of_neighbouring_sectors(&sector_id, map_x_dimension, map_z_dimension);
    let actual = vec![(0, 4), (1, 5), (0, 6)];
    assert_eq!(actual, result);
}
#[test]
fn get_centre_sector_neighbours() {
    let sector_id = (5, 7);
    let map_x_dimension = 200;
    let map_z_dimension = 200;
    let result = get_ids_of_neighbouring_sectors(&sector_id, map_x_dimension, map_z_dimension);
    let actual = vec![(5, 6), (6, 7), (5, 8), (4, 7)];
    assert_eq!(actual, result);
}
#[test]
fn get_northern_sector_neighbours_with_drection() {
    let sector_id = (4, 0);
    let map_x_dimension = 200;
    let map_z_dimension = 200;
    let result = get_ordinal_and_ids_of_neighbouring_sectors(
        &sector_id,
        map_x_dimension,
        map_z_dimension,
    );
    let actual = vec![
        (Ordinal::East, (5, 0)),
        (Ordinal::South, (4, 1)),
        (Ordinal::West, (3, 0)),
    ];
    assert_eq!(actual, result);
}
#[test]
fn get_eastern_sector_neighbours_with_drection() {
    let sector_id = (19, 3);
    let map_x_dimension = 200;
    let map_z_dimension = 200;
    let result = get_ordinal_and_ids_of_neighbouring_sectors(
        &sector_id,
        map_x_dimension,
        map_z_dimension,
    );
    let actual = vec![
        (Ordinal::North, (19, 2)),
        (Ordinal::South, (19, 4)),
        (Ordinal::West, (18, 3)),
    ];
    assert_eq!(actual, result);
}
#[test]
fn get_southern_sector_neighbours_with_drection() {
    let sector_id = (5, 19);
    let map_x_dimension = 200;
    let map_z_dimension = 200;
    let result = get_ordinal_and_ids_of_neighbouring_sectors(
        &sector_id,
        map_x_dimension,
        map_z_dimension,
    );
    let actual = vec![
        (Ordinal::North, (5, 18)),
        (Ordinal::East, (6, 19)),
        (Ordinal::West, (4, 19)),
    ];
    assert_eq!(actual, result);
}
#[test]
fn get_western_sector_neighbours_with_drection() {
    let sector_id = (0, 5);
    let map_x_dimension = 200;
    let map_z_dimension = 200;
    let result = get_ordinal_and_ids_of_neighbouring_sectors(
        &sector_id,
        map_x_dimension,
        map_z_dimension,
    );
    let actual = vec![
        (Ordinal::North, (0, 4)),
        (Ordinal::East, (1, 5)),
        (Ordinal::South, (0, 6)),
    ];
    assert_eq!(actual, result);
}
#[test]
fn get_centre_sector_neighbours_with_drection() {
    let sector_id = (5, 7);
    let map_x_dimension = 200;
    let map_z_dimension = 200;
    let result = get_ordinal_and_ids_of_neighbouring_sectors(
        &sector_id,
        map_x_dimension,
        map_z_dimension,
    );
    let actual = vec![
        (Ordinal::North, (5, 6)),
        (Ordinal::East, (6, 7)),
        (Ordinal::South, (5, 8)),
        (Ordinal::West, (4, 7)),
    ];
    assert_eq!(actual, result);
}
#[test]
fn sector_xyz_corner_zero() {
    let sector_id = (0, 0);
    let map_x_dimension = 30;
    let map_z_dimension = 30;
    let result =
        get_xyz_at_sector_top_left_from_sector_id(sector_id, map_x_dimension, map_z_dimension);
    let actual = Vec3::new(-15.0, 0.0, -15.0);
    assert_eq!(actual, vec3(result))
}
#[test]
fn sector_xyz_corner_centre() {
    let sector_id = (1, 1);
    let map_x_dimension = 30;
    let map_z_dimension = 30;
    let result =
        get_xyz_at_sector_top_left_from_sector_id(sector_id, map_x_dimension, map_z_dimension);
    let actual = Vec3::new(-5.0, 0.0, -5.0);
    assert_eq!(actual, vec3(result))
}
#[test]
fn sector_xyz_centre_zero() {
    let sector_id = (0, 0);
    let map_x_dimension = 30;
    let map_z_dimension = 30;
    let result =
        get_xyz_sector_centre_from_sector_id(sector_id, map_x_dimension, map_z_dimension);
    let actual = Vec3::new(-10.0, 0.0, -10.0);
    assert_eq!(actual, vec3(result))
}
#[test]
fn sector_xyz_centre_centre() {
    let sector_id = (1, 1);
    let map_x_dimension = 30;
    let map_z_dimension = 30;
    let result =
        get_xyz_sector_centre_from_sector_id(sector_id, map_x_dimension, map_z_dimension);
    let actual = Vec3::new(0.0, 0.0, 0.0);
    assert_eq!(actual, vec3(result))
}
#[test]
fn field_xyz() {
    let sector_id = (0, 0);
    let field_id = (0, 0);
    let map_x_dimension = 30;
    let map_z_dimension = 30;
    let result = get_xyz_from_field_cell_within_sector(
        sector_id,
        field_id,
        map_x_dimension,
        map_z_dimension,
    );
    let actual = Vec3::new(-14.5, 0.0, -14.5);
    assert_eq!(actual, vec3(result))
}
#[test]
fn field_xyz2() {
    let sector_id = (1, 1);
    let field_id = (4, 4);
    let map_x_dimension = 30;
    let map_z_dimension = 30;
    let result = get_xyz_from_field_cell_within_sector(
        sector_id,
        field_id,
        map_x_dimension,
        map_z_dimension,
    );
    let actual = Vec3::new(-2.5, 0.0, -2.5);
    assert_eq!(actual, vec3(result))
}
#[test]
fn field_xyz3() {
    let sector_id = (2, 3);
    let field_id = (0, 0);
    let map_x_dimension = 100;
    let map_z_dimension = 100;
    let result = get_xyz_from_field_cell_within_sector(
        sector_id,
        field_id,
        map_x_dimension,
        map_z_dimension,
    );
    let actual = Vec3::new(-29.5, 0.0, -19.5);
    assert_eq!(actual, vec3(result))
}
#[test]
fn field_xyz4() {
    let sector_id = (2, 3);
    let field_id = (3, 6);
    let map_x_dimension = 100;
    let map_z_dimension = 100;
    let result = get_xyz_from_field_cell_within_sector(
        sector_id,
        field_id,
        map_x_dimension,
        map_z_dimension,
    );
    let actual = Vec3::new(-28.0, 0.0, -16.5);
    assert_eq!(actual, vec3(result))
}
#[test]
fn field_xyz5() {
    let sector_id = (4, 4);
    let field_id = (9, 9);
    let map_x_dimension = 100;
    let map_z_dimension = 100;
    let result = get_xyz_from_field_cell_within_sector(
        sector_id,
        field_id,
        map_x_dimension,
        map_z_dimension,
    );
    let actual = Vec3::new(-5.0, 0.0, -5.0);
    assert_eq!(actual, vec3(result))
}
#[test]
fn field_xyz6() {
    let sector_id = (2, 2);
    let field_id = (5, 5);
    let map_x_dimension = 100;
    let map_z_dimension = 100;
    let result = get_xyz_from_field_cell_within_sector(
        sector_id,
        field_id,
        map_x_dimension,
        map_z_dimension,
    );
    let actual = Vec3::new(-27.0, 0.0, -27.0);
    assert_eq!(actual, vec3(result))
}

#[test]
fn corner_sector_has_its_eastern_and_southern_neighbours() {
    let result = get_ordinal_and_ids_of_neighbouring_sectors(&(0, 0), 200, 200);
    assert_eq!(result, vec![(Ordinal::East, (1, 0)), (Ordinal::South, (0, 1))]);
    let result = get_ids_of_neighbouring_sectors(&(0, 0), 200, 200);
    assert_eq!(result, vec![(1, 0), (0, 1)]);
}

#[test]
fn far_corner_sector_has_its_northern_and_western_neighbours() {
    let result = get_ordinal_and_ids_of_neighbouring_sectors(&(19, 19), 200, 200);
    assert_eq!(result, vec![(Ordinal::North, (19, 18)), (Ordinal::West, (18, 19))]);
}

#[test]
fn a_map_of_one_sector_has_no_neighbours() {
    assert_eq!(get_ids_of_neighbouring_sectors(&(0, 0), 10, 10), vec![]);
    assert_eq!(get_ids_of_neighbouring_sectors(&(0, 0), 19, 19), vec![]);
    assert_eq!(get_ids_of_neighbouring_sectors(&(0, 0), 0, 0), vec![]);
}

#[test]
fn a_sector_off_the_map_has_only_neighbours_on_the_map() {
    // just east of a map of 20 columns: its western neighbour is the last column
    assert_eq!(get_ids_of_neighbouring_sectors(&(20, 3), 200, 200), vec![(19, 3)]);
    assert_eq!(get_ids_of_neighbouring_sectors(&(3, 20), 200, 200), vec![(3, 19)]);
    assert_eq!(get_ids_of_neighbouring_sectors(&(25, 3), 200, 200), vec![]);
    assert_eq!(get_ids_of_neighbouring_sectors(&(u32::MAX, u32::MAX), 200, 200), vec![]);
}

#[test]
fn cell_neighbours_keep_their_order_and_stay_in_the_sector() {
    assert_eq!(Ordinal::get_cell_neighbours((4, 4)), vec![(4, 3), (5, 4), (4, 5), (3, 4)]);
    assert_eq!(Ordinal::get_cell_neighbours((0, 0)), vec![(1, 0), (0, 1)]);
    assert_eq!(Ordinal::get_cell_neighbours((9, 9)), vec![(9, 8), (8, 9)]);
    assert_eq!(Ordinal::get_cell_neighbours((0, 5)), vec![(0, 4), (1, 5), (0, 6)]);
    assert_eq!(Ordinal::get_cell_neighbours((5, 9)), vec![(5, 8), (6, 9), (4, 9)]);
    assert_eq!(Ordinal::get_cell_neighbours((10, 5)), vec![(9, 5)]);
    assert_eq!(Ordinal::get_cell_neighbours((12, 5)), vec![]);
}

#[test]
fn sector_neighbours_of_ordinal_agree_with_the_free_functions() {
    assert_eq!(
        Ordinal::get_sector_neighbours(&(5, 7), 200, 200),
        vec![(5, 6), (6, 7), (5, 8), (4, 7)]
    );
    assert_eq!(
        Ordinal::get_sector_neighbours_with_ordinal(&(0, 5), 200, 200),
        vec![(Ordinal::North, (0, 4)), (Ordinal::East, (1, 5)), (Ordinal::South, (0, 6))]
    );
}

#[test]
fn positions_on_the_far_edge_lie_in_the_last_sector() {
    assert_eq!(get_sector_id_from_xyz(world(Vec3::new(10.0, 0.0, 10.0)), 20, 20), (1, 1));
    assert_eq!(get_sector_id_from_xyz(world(Vec3::new(9.5, 0.0, -10.0)), 20, 20), (1, 0));
    assert_eq!(get_sector_id_from_xyz(world(Vec3::new(0.0, 0.0, -0.5)), 20, 20), (1, 0));
}

#[test]
fn positions_off_the_map_are_given_the_nearest_sector() {
    assert_eq!(get_sector_id_from_xyz(world(Vec3::new(500.0, 0.0, -500.0)), 20, 20), (1, 0));
    assert_eq!(get_sector_id_from_xyz(world(Vec3::new(-10.5, 0.0, 10.5)), 20, 20), (0, 1));
    assert_eq!(
        get_sector_id_from_xyz(WorldPosition::new(i64::MIN, 7, i64::MAX), 4294967290, 10),
        (0, 0)
    );
    assert_eq!(
        get_sector_id_from_xyz(WorldPosition::new(i64::MAX, 7, i64::MIN), 4294967290, 10),
        (429496728, 0)
    );
}

#[test]
fn the_height_of_a_position_plays_no_part() {
    assert_eq!(get_sector_id_from_xyz(world(Vec3::new(5.0, 100.0, 5.0)), 20, 20), (1, 1));
    assert_eq!(get_field_cell_from_xyz(world(Vec3::new(5.0, -3.0, 5.0)), (1, 1), 20, 20), (5, 5));
}

#[test]
fn field_cell_counts_whole_units_from_the_corner_of_the_sector() {
    // sector (1, 1) of a map of 30 by 30 begins at (-5, -5)
    assert_eq!(get_field_cell_from_xyz(world(Vec3::new(-5.0, 0.0, -5.0)), (1, 1), 30, 30), (0, 0));
    assert_eq!(get_field_cell_from_xyz(world(Vec3::new(-4.5, 0.0, -4.0)), (1, 1), 30, 30), (0, 1));
    assert_eq!(get_field_cell_from_xyz(world(Vec3::new(-2.5, 0.0, 4.5)), (1, 1), 30, 30), (2, 9));
    // the far edge and what lies beyond it count for the last cell
    assert_eq!(get_field_cell_from_xyz(world(Vec3::new(5.0, 0.0, 80.0)), (1, 1), 30, 30), (9, 9));
}

#[test]
fn field_cell_mirrors_a_position_before_the_corner() {
    // 2.5 units west and 1 unit north of the corner of sector (1, 1)
    assert_eq!(get_field_cell_from_xyz(world(Vec3::new(-7.5, 0.0, -6.0)), (1, 1), 30, 30), (2, 1));
    assert_eq!(get_field_cell_from_xyz(world(Vec3::new(-40.0, 0.0, -5.5)), (1, 1), 30, 30), (9, 0));
}

#[test]
fn sector_and_field_cell_are_found_together() {
    assert_eq!(
        get_sector_and_field_cell_from_xyz(world(Vec3::new(-2.5, 0.0, 7.5)), 30, 30),
        ((1, 2), (2, 2))
    );
    assert_eq!(
        get_sector_and_field_cell_from_xyz(world(Vec3::new(15.0, 0.0, -15.0)), 30, 30),
        ((2, 0), (9, 0))
    );
}

#[test]
fn the_point_of_a_field_cell_is_found_again_in_the_first_two_columns_and_rows() {
    for sector in [(0u32, 0u32), (2, 2), (9, 4)] {
        for field in [(0u32, 0u32), (0, 1), (1, 0), (1, 1)] {
            let position = get_xyz_from_field_cell_within_sector(sector, field, 100, 100);
            assert_eq!(
                get_sector_and_field_cell_from_xyz(position, 100, 100),
                (sector, (field.0 as usize, field.1 as usize))
            );
        }
    }
}

#[test]
fn the_point_of_a_later_field_cell_is_found_in_an_earlier_one() {
    for column in 0..10u32 {
        for row in 0..10u32 {
            let position = get_xyz_from_field_cell_within_sector((3, 4), (column, row), 100, 100);
            assert_eq!(
                get_sector_and_field_cell_from_xyz(position, 100, 100),
                ((3, 4), (((column + 1) / 2) as usize, ((row + 1) / 2) as usize))
            );
        }
    }
    let position = get_xyz_from_field_cell_within_sector((0, 0), (2, 2), 10, 10);
    assert_eq!(get_sector_and_field_cell_from_xyz(position, 10, 10), ((0, 0), (1, 1)));
}

#[test]
fn world_positions_count_half_units() {
    let position = WorldPosition::new(-29, 0, 6);
    assert_eq!(position.x, -29);
    assert_eq!(position.y, 0);
    assert_eq!(position.z, 6);
    assert_eq!(vec3(position), Vec3::new(-14.5, 0.0, 3.0));
    assert_eq!(world(Vec3::new(-14.5, 0.0, 3.0)), position);
}

#[test]
fn sector_cost_fields_hold_every_sector_of_the_map() {
    let fields = SectorCostFields::new(30, 20).unwrap();
    let keys: Vec<(u32, u32)> = fields.get().keys().copied().collect();
    assert_eq!(keys, vec![(0, 0), (0, 1), (1, 0), (1, 1), (2, 0), (2, 1)]);
    for (_, cost_fields) in fields.get().iter() {
        assert_eq!(*cost_fields.get_fields(), [[1u8; 10]; 10]);
    }
}

#[test]
fn sector_integration_fields_hold_every_sector_of_the_map() {
    let fields = SectorIntegrationFields::new(20, 30).unwrap();
    let keys: Vec<(u32, u32)> = fields.get().keys().copied().collect();
    assert_eq!(keys, vec![(0, 0), (0, 1), (0, 2), (1, 0), (1, 1), (1, 2)]);
    for (_, integration_fields) in fields.get().iter() {
        assert_eq!(*integration_fields.get_fields(), [[65535u16; 10]; 10]);
    }
}

#[test]
fn sector_portals_hold_every_sector_of_the_map() {
    let portals = SectorPortals::new(20, 20).unwrap();
    let keys: Vec<(u32, u32)> = portals.get().keys().copied().collect();
    assert_eq!(keys, vec![(0, 0), (0, 1), (1, 0), (1, 1)]);
    for (_, sector) in portals.get().iter() {
        for ordinal in [Ordinal::North, Ordinal::East, Ordinal::South, Ordinal::West] {
            assert!(sector.get(ordinal).is_empty());
        }
    }
}

#[test]
fn a_map_without_a_whole_sector_has_no_sectors() {
    assert!(SectorCostFields::new(0, 0).unwrap().get().is_empty());
    assert!(SectorIntegrationFields::new(0, 50).unwrap().get().is_empty());
    assert!(SectorPortals::new(50, 0).unwrap().get().is_empty());
}

#[test]
fn map_dimensions_that_are_no_whole_number_of_sectors_are_refused() {
    assert!(matches!(SectorCostFields::new(25, 20), Err(FlowFieldError::InvalidMapDimensions)));
    assert!(matches!(SectorCostFields::new(20, 1), Err(FlowFieldError::InvalidMapDimensions)));
    assert!(matches!(
        SectorIntegrationFields::new(9, 9),
        Err(FlowFieldError::InvalidMapDimensions)
    ));
    assert!(matches!(SectorPortals::new(30, 31), Err(FlowFieldError::InvalidMapDimensions)));
}

#[test]
fn sector_fields_can_be_changed_in_place() {
    let mut fields = SectorCostFields::new(20, 20).unwrap();
    fields.get_mut().get_mut(&(1, 0)).unwrap().set_grid_value(255, 3, 4).unwrap();
    assert_eq!(fields.get().get(&(1, 0)).unwrap().get_grid_value(3, 4), Ok(255));
    assert_eq!(fields.get().get(&(0, 0)).unwrap().get_grid_value(3, 4), Ok(1));

    let mut fields = SectorIntegrationFields::new(20, 20).unwrap();
    fields.get_mut().get_mut(&(0, 1)).unwrap().reset((2, 2)).unwrap();
    assert_eq!(fields.get().get(&(0, 1)).unwrap().get_grid_value(2, 2), Ok(0));
    assert_eq!(fields.get().get(&(1, 1)).unwrap().get_grid_value(2, 2), Ok(65535));

    let mut portals = SectorPortals::new(20, 20).unwrap();
    portals.get_mut().get_mut(&(1, 1)).unwrap().get_mut(Ordinal::North).push((4, 0));
    assert_eq!(*portals.get().get(&(1, 1)).unwrap().get(Ordinal::North), vec![(4, 0)]);
    assert!(portals.get().get(&(1, 1)).unwrap().get(Ordinal::West).is_empty());
    assert!(portals.get().get(&(0, 1)).unwrap().get(Ordinal::North).is_empty());
}

#[test]
fn update_portals_names_the_neighbours_and_then_the_sector() {
    let portals = SectorPortals::new(200, 200).unwrap();
    assert_eq!(
        portals.update_portals((5, 7), 200, 200),
        Ok(vec![(5, 6), (6, 7), (5, 8), (4, 7), (5, 7)])
    );
    assert_eq!(portals.update_portals((0, 0), 200, 200), Ok(vec![(1, 0), (0, 1), (0, 0)]));
    assert_eq!(
        portals.update_portals((19, 3), 200, 200),
        Ok(vec![(19, 2), (19, 4), (18, 3), (19, 3)])
    );
}

#[test]
fn update_portals_refuses_a_sector_without_portals() {
    let portals = SectorPortals::new(20, 20).unwrap();
    // the sector itself is off the map
    assert_eq!(portals.update_portals((2, 0), 20, 20), Err(FlowFieldError::IndexOutOfBounds));
    // the map is said to be larger than the one that the portals were made for
    assert_eq!(portals.update_portals((1, 1), 30, 30), Err(FlowFieldError::IndexOutOfBounds));
    let mut portals = SectorPortals::new(20, 20).unwrap();
    portals.get_mut().remove(&(0, 1));
    assert_eq!(portals.update_portals((0, 0), 20, 20), Err(FlowFieldError::IndexOutOfBounds));
    assert_eq!(portals.update_portals((1, 0), 20, 20), Ok(vec![(1, 1), (0, 0), (1, 0)]));
}

#[test]
fn map_dimensions_give_their_sizes_and_counts() {
    let map_dimensions = MapDimensions::new(30, 200);
    assert_eq!(map_dimensions.get_column(), 30);
    assert_eq!(map_dimensions.get_row(), 200);
    assert_eq!(map_dimensions.column_count(), 3);
    assert_eq!(map_dimensions.row_count(), 20);
    assert!(map_dimensions.is_whole());
    let map_dimensions = MapDimensions::new(39, 5);
    assert_eq!(map_dimensions.column_count(), 3);
    assert_eq!(map_dimensions.row_count(), 0);
    assert!(!map_dimensions.is_whole());
    assert!(!MapDimensions::new(30, 5).is_whole());
}
