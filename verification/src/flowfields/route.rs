//! From a route over the sectors of a map to the integration fields that an
//! actor needs to follow it.
//!
//! The portal graph finds a route as a list of steps, each a sector and the
//! field cell through which the route passes there, from the actor to the
//! goal. Integration fields are worked out the other way round, from the goal
//! back to the actor. A route may pass through a sector more than once; what
//! counts for a sector is the step of it that lies nearest to the goal, and
//! the cell of that step is the goal of the sector's integration field.

use super::cost_fields::CostFields;
use super::integration_fields::IntegrationFields;
use super::sectors::SectorCostFields;
use super::wavefront::is_integration_of;
use super::{
    cell_point, in_field, in_grid, sector_count, sector_point, FlowFieldError, MapDimensions,
    FIELD_RESOLUTION,
};
use std::collections::BTreeMap;
use vstd::prelude::*;
use vstd::std_specs::btree::*;

verus! {

broadcast use vstd::laws_cmp::group_laws_cmp;

/// One step of a route: a sector, and the field cell of it through which the
/// route passes.
pub type RouteStep = ((u32, u32), (usize, usize));

/// The sectors through which a route passes.
pub open spec fn route_sectors(route: Seq<RouteStep>) -> Set<(u32, u32)> {
    Set::new(|id: (u32, u32)| exists|k: int| 0 <= k < route.len() && (#[trigger] route[k]).0 == id)
}

/// Whether step `k` is the one that counts for its sector: no later step of
/// the route lies in the same sector.
pub open spec fn is_goal_step(route: Seq<RouteStep>, k: int) -> bool {
    &&& 0 <= k < route.len()
    &&& forall|j: int| k < j < route.len() ==> (#[trigger] route[j]).0 != route[k].0
}

/// Whether a step names a sector of the map that has cost fields, and a
/// field cell of a sector.
pub open spec fn is_step_on_map(
    step: RouteStep,
    map_dimensions: MapDimensions,
    cost_fields: Map<(u32, u32), CostFields>,
) -> bool {
    &&& in_grid(
        sector_point(step.0),
        sector_count(map_dimensions@.0),
        sector_count(map_dimensions@.1),
    )
    &&& cost_fields.contains_key(step.0)
    &&& in_field(cell_point(step.1))
}

/// Each sector through which a route passes has a step that counts for it.
pub proof fn lemma_sector_has_goal_step(route: Seq<RouteStep>, id: (u32, u32))
    requires
        route_sectors(route).contains(id),
    ensures
        exists|k: int| #[trigger] is_goal_step(route, k) && route[k].0 == id,
    decreases route.len(),
{
    let last = route.len() - 1;
    if route[last].0 == id {
        assert(is_goal_step(route, last));
    } else {
        let shorter = route.drop_last();
        let found = choose|k: int| 0 <= k < route.len() && (#[trigger] route[k]).0 == id;
        assert(shorter[found].0 == id);
        lemma_sector_has_goal_step(shorter, id);
        let k = choose|k: int| #[trigger] is_goal_step(shorter, k) && shorter[k].0 == id;
        assert forall|j: int| k < j < route.len() implies (#[trigger] route[j]).0 != route[k].0 by {
            if j < last {
                assert(shorter[j] == route[j]);
            }
        }
        assert(is_goal_step(route, k));
    }
}

/// No sector has two steps that count for it.
pub proof fn lemma_goal_step_is_unique(route: Seq<RouteStep>, first: int, second: int)
    requires
        is_goal_step(route, first),
        is_goal_step(route, second),
        route[first].0 == route[second].0,
    ensures
        first == second,
{
}

/// The sectors through which a route passes from step `from` on.
spec fn sectors_since(route: Seq<RouteStep>, from: int) -> Set<(u32, u32)> {
    Set::new(
        |id: (u32, u32)| exists|k: int| from <= k < route.len() && (#[trigger] route[k]).0 == id,
    )
}

/// Works out the integration fields for a route that the portal graph has
/// found, or reports that it has found none.
///
/// `route` runs from the actor to the goal. The result holds one
/// integration field for each sector of the route and for no other sector.
/// The field of a sector is that of its cost fields from the cell of the
/// step that counts for the sector, the one nearest to the goal. Earlier
/// steps in the same sector are passed over, whatever they hold. Where a step
/// that counts names a sector off the map or without cost fields, or a cell
/// outside of a sector, no field is handed out at all.
pub fn calculate_route_integration_fields(
    route: Option<Vec<RouteStep>>,
    map_dimensions: &MapDimensions,
    sector_cost_fields: &SectorCostFields,
) -> (made: Result<BTreeMap<(u32, u32), IntegrationFields>, FlowFieldError>)
    ensures
        made is Ok <==> (route matches Some(steps) && forall|k: int| #[trigger]
            is_goal_step(steps@, k) ==> is_step_on_map(
                steps@[k],
                *map_dimensions,
                sector_cost_fields@,
            )),
        made matches Err(error) ==> error == (if route is None {
            FlowFieldError::PortalPathUnreachable
        } else {
            FlowFieldError::IndexOutOfBounds
        }),
        made matches Ok(fields) ==> route matches Some(steps) && fields@.dom() == route_sectors(
            steps@,
        ) && forall|k: int| #[trigger]
            is_goal_step(steps@, k) ==> fields@.contains_key(steps@[k].0) && is_integration_of(
                fields@[steps@[k].0]@,
                sector_cost_fields@[steps@[k].0]@,
                cell_point(steps@[k].1),
            ),
{
    let steps = match route {
        Some(steps) => steps,
        None => {
            return Err(FlowFieldError::PortalPathUnreachable);
        },
    };
    let column_count = map_dimensions.column_count();
    let row_count = map_dimensions.row_count();
    let cost_fields = sector_cost_fields.get();
    let mut fields: BTreeMap<(u32, u32), IntegrationFields> = BTreeMap::new();
    let mut i: usize = steps.len();
    while i > 0
        invariant
            i <= steps.len(),
            route == Some(steps),
            column_count == sector_count(map_dimensions@.0),
            row_count == sector_count(map_dimensions@.1),
            cost_fields@ == sector_cost_fields@,
            fields@.dom() =~= sectors_since(steps@, i as int),
            forall|k: int|
                i <= k && #[trigger] is_goal_step(steps@, k) ==> is_step_on_map(
                    steps@[k],
                    *map_dimensions,
                    sector_cost_fields@,
                ) && fields@.contains_key(steps@[k].0) && is_integration_of(
                    fields@[steps@[k].0]@,
                    sector_cost_fields@[steps@[k].0]@,
                    cell_point(steps@[k].1),
                ),
        decreases i,
    {
        i -= 1;
        let (sector_id, goal) = steps[i];
        let ghost before = fields@;
        if !fields.contains_key(&sector_id) {
            assert(is_goal_step(steps@, i as int)) by {
                assert forall|j: int| i < j < steps@.len() implies (#[trigger] steps@[j]).0
                    != sector_id by {
                    if steps@[j].0 == sector_id {
                        assert(sectors_since(steps@, i + 1).contains(sector_id));
                    }
                }
            }
            if sector_id.0 >= column_count || sector_id.1 >= row_count || goal.0
                >= FIELD_RESOLUTION || goal.1 >= FIELD_RESOLUTION {
                assert(route matches Some(all) && is_goal_step(all@, i as int) && !is_step_on_map(
                    all@[i as int],
                    *map_dimensions,
                    sector_cost_fields@,
                ));
                return Err(FlowFieldError::IndexOutOfBounds);
            }
            let costs = match cost_fields.get(&sector_id) {
                Some(costs) => costs,
                None => {
                    assert(route matches Some(all) && is_goal_step(all@, i as int)
                        && !is_step_on_map(all@[i as int], *map_dimensions, sector_cost_fields@));
                    return Err(FlowFieldError::IndexOutOfBounds);
                },
            };
            let mut field = IntegrationFields::default();
            match field.reset(goal) {
                Ok(()) => {},
                Err(error) => {
                    return Err(error);
                },
            }
            match field.calculate_fields(goal, costs) {
                Ok(()) => {},
                Err(error) => {
                    return Err(error);
                },
            }
            fields.insert(sector_id, field);
            proof {
                assert forall|k: int| i <= k && #[trigger] is_goal_step(steps@, k) implies
                    is_step_on_map(steps@[k], *map_dimensions, sector_cost_fields@)
                    && fields@.contains_key(steps@[k].0) && is_integration_of(
                    fields@[steps@[k].0]@,
                    sector_cost_fields@[steps@[k].0]@,
                    cell_point(steps@[k].1),
                ) by {
                    if k > i {
                        assert(before.contains_key(steps@[k].0));
                        assert(steps@[k].0 != sector_id);
                    }
                }
            }
        } else {
            proof {
                assert(sectors_since(steps@, i + 1).contains(sector_id));
                let j = choose|j: int|
                    i + 1 <= j < steps@.len() && (#[trigger] steps@[j]).0 == sector_id;
                assert(!is_goal_step(steps@, i as int));
            }
        }
        assert(fields@.dom() =~= sectors_since(steps@, i as int)) by {
            assert forall|id: (u32, u32)| sectors_since(steps@, i as int).contains(id) implies
                fields@.dom().contains(id) by {
                let k = choose|k: int| i <= k < steps@.len() && (#[trigger] steps@[k]).0 == id;
                if k > i {
                    assert(sectors_since(steps@, i + 1).contains(id));
                }
            }
            assert forall|id: (u32, u32)| fields@.dom().contains(id) implies sectors_since(
                steps@,
                i as int,
            ).contains(id) by {
                if id == sector_id {
                    assert(steps@[i as int].0 == id);
                } else {
                    assert(sectors_since(steps@, i + 1).contains(id));
                    let k = choose|k: int|
                        i + 1 <= k < steps@.len() && (#[trigger] steps@[k]).0 == id;
                    assert(steps@[k].0 == id);
                }
            }
        }
    }
    assert(fields@.dom() =~= route_sectors(steps@));
    Ok(fields)
}

} // verus!
