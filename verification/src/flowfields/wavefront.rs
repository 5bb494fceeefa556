//! What an integration field is, stated over routes through a cost grid.
//!
//! A route walks from cell to cell through the four sides of a cell and never
//! enters a cell that cannot be crossed. Its cost is the sum of the costs of
//! the cells that it enters: the cell it starts from costs nothing. The
//! integration cost of a cell is the cost of the cheapest route from the
//! source to that cell, and a cell that no route leads to stays unreached.

use super::cost_fields::{uniform_costs, CostGrid};
use super::{in_field, Ordinal, Point, FIELD_RESOLUTION, IMPASSABLE_COST, UNREACHED};
use vstd::prelude::*;

verus! {

/// The integration costs of a sector as a mathematical grid: a sequence of
/// columns, each a sequence of the values of its rows.
pub type IntegrationGrid = Seq<Seq<u16>>;

/// Whether a grid has the size of a sector.
pub open spec fn is_integration_grid(grid: IntegrationGrid) -> bool {
    &&& grid.len() == FIELD_RESOLUTION
    &&& forall|column: int|
        0 <= column < FIELD_RESOLUTION ==> (#[trigger] grid[column]).len() == FIELD_RESOLUTION
}

/// The integration cost that `grid` holds at `p`.
pub open spec fn value_at(grid: IntegrationGrid, p: Point) -> u16 {
    grid[p.0][p.1]
}

/// The traversal cost that `costs` holds at `p`.
pub open spec fn cost_at(costs: CostGrid, p: Point) -> u8 {
    costs[p.0][p.1]
}

/// The grid in which every cell holds `value`.
pub open spec fn uniform_grid(value: u16) -> IntegrationGrid {
    Seq::new(
        FIELD_RESOLUTION as nat,
        |column: int| Seq::new(FIELD_RESOLUTION as nat, |row: int| value),
    )
}

/// The grid in which `source` holds 0 and every other cell is unreached.
pub open spec fn reset_grid(source: Point) -> IntegrationGrid {
    Seq::new(
        FIELD_RESOLUTION as nat,
        |column: int|
            Seq::new(
                FIELD_RESOLUTION as nat,
                |row: int|
                    if column == source.0 && row == source.1 {
                        0u16
                    } else {
                        UNREACHED
                    },
            ),
    )
}

/// The grid that holds `value` at `p` and is `grid` everywhere else.
pub open spec fn with_value(grid: IntegrationGrid, p: Point, value: u16) -> IntegrationGrid {
    grid.update(p.0, grid[p.0].update(p.1, value))
}

/// Whether `a` and `b` share a side.
pub open spec fn adjacent(a: Point, b: Point) -> bool {
    ||| a.0 == b.0 && (a.1 == b.1 + 1 || a.1 + 1 == b.1)
    ||| a.1 == b.1 && (a.0 == b.0 + 1 || a.0 + 1 == b.0)
}

/// Whether `p` is a cell of the sector that can be crossed.
pub open spec fn passable(costs: CostGrid, p: Point) -> bool {
    in_field(p) && cost_at(costs, p) != IMPASSABLE_COST
}

/// Whether `route` takes a step to its cell `i`: that cell can be crossed and
/// shares a side with the cell before it.
pub open spec fn is_step(costs: CostGrid, route: Seq<Point>, i: int) -> bool {
    passable(costs, route[i]) && adjacent(route[i - 1], route[i])
}

/// Whether `route` is a walk through the sector: it starts on a cell of the
/// sector, each further cell shares a side with the one before it and can be
/// crossed, and a walk that leaves its first cell at all starts on a cell that
/// can be crossed.
pub open spec fn is_route(costs: CostGrid, route: Seq<Point>) -> bool {
    &&& route.len() >= 1
    &&& in_field(route[0])
    &&& route.len() > 1 ==> passable(costs, route[0])
    &&& forall|i: int| 1 <= i < route.len() ==> #[trigger] is_step(costs, route, i)
}

/// Whether `route` is a walk through the sector from `from` to `to`.
pub open spec fn connects(costs: CostGrid, route: Seq<Point>, from: Point, to: Point) -> bool {
    is_route(costs, route) && route[0] == from && route.last() == to
}

/// The sum of the costs of the cells that `route` enters. The first cell is
/// not entered, so a route of one cell costs nothing.
pub open spec fn route_cost(costs: CostGrid, route: Seq<Point>) -> int
    decreases route.len(),
{
    if route.len() <= 1 {
        0
    } else {
        route_cost(costs, route.drop_last()) + cost_at(costs, route.last())
    }
}

/// Whether `grid` is the integration field of `costs` from `source`: every
/// value below the unreached mark is the cost of a route from the source to
/// its cell, and no route from the source to a cell is cheaper than the
/// value of that cell. So a cell with a route holds the cost of its cheapest
/// route, and a cell without one is unreached.
pub open spec fn is_integration_of(grid: IntegrationGrid, costs: CostGrid, source: Point) -> bool {
    &&& is_integration_grid(grid)
    &&& forall|p: Point|
        in_field(p) && #[trigger] value_at(grid, p) < UNREACHED ==> exists|route: Seq<Point>|
            #[trigger] connects(costs, route, source, p) && route_cost(costs, route) == value_at(
                grid,
                p,
            )
    &&& forall|route: Seq<Point>|
        #[trigger] is_route(costs, route) && route[0] == source ==> value_at(grid, route.last())
            <= route_cost(costs, route)
}

/// Whether `route` improves each cell that it enters: on top of `start`, the
/// value from which it sets out, the cost of the route up to that cell is
/// below what `grid` holds there.
pub open spec fn improves(
    grid: IntegrationGrid,
    costs: CostGrid,
    start: int,
    route: Seq<Point>,
) -> bool
    decreases route.len(),
{
    route.len() <= 1 || (improves(grid, costs, start, route.drop_last()) && start + route_cost(
        costs,
        route,
    ) < value_at(grid, route.last()))
}

/// Whether `after` is what a wavefront from `source` over `costs` leaves of
/// the grid `before`. The wavefront sets out with the value that `before`
/// holds at the source and follows the routes that improve each cell they
/// enter. No value rises; a value that fell is the value at the source plus
/// the cost of such a route to its cell; and no such route to a cell gives
/// less than the cell holds.
pub open spec fn is_wavefront_of(
    after: IntegrationGrid,
    before: IntegrationGrid,
    costs: CostGrid,
    source: Point,
) -> bool {
    let start = value_at(before, source) as int;
    &&& is_integration_grid(after)
    &&& forall|p: Point|
        #![trigger value_at(after, p)]
        in_field(p) ==> value_at(after, p) <= value_at(before, p)
    &&& forall|p: Point|
        in_field(p) && #[trigger] value_at(after, p) < value_at(before, p) ==> exists|
            route: Seq<Point>,
        |
            #[trigger] connects(costs, route, source, p) && improves(before, costs, start, route)
                && start + route_cost(costs, route) == value_at(after, p)
    &&& forall|route: Seq<Point>|
        is_route(costs, route) && route[0] == source && #[trigger] improves(
            before,
            costs,
            start,
            route,
        ) ==> value_at(after, route.last()) <= start + route_cost(costs, route)
}

/// The least number of steps between two points, each step to a point that
/// shares a side.
pub open spec fn steps_between(a: Point, b: Point) -> int {
    (if a.0 >= b.0 {
        a.0 - b.0
    } else {
        b.0 - a.0
    }) + (if a.1 >= b.1 {
        a.1 - b.1
    } else {
        b.1 - a.1
    })
}

/// The neighbours of a cell within its sector are the cells of the sector
/// that share a side with it.
pub proof fn lemma_neighbours_share_a_side(p: Point)
    ensures
        forall|k: int|
            0 <= k < Ordinal::field_neighbours(p).len() ==> in_field(
                #[trigger] Ordinal::field_neighbours(p)[k],
            ) && adjacent(p, Ordinal::field_neighbours(p)[k]),
        forall|n: Point|
            in_field(n) && #[trigger] adjacent(p, n) ==> Ordinal::field_neighbours(p).contains(n),
{
    let size = FIELD_RESOLUTION as int;
    let north = Ordinal::North.kept(p, size, size);
    let east = Ordinal::East.kept(p, size, size);
    let south = Ordinal::South.kept(p, size, size);
    let west = Ordinal::West.kept(p, size, size);
    let all = Ordinal::neighbours_with_ordinal(p, size, size);
    let found = Ordinal::field_neighbours(p);
    assert(all =~= north + east + south + west);
    assert forall|k: int| 0 <= k < found.len() implies in_field(#[trigger] found[k]) && adjacent(
        p,
        found[k],
    ) by {
        if k < north.len() {
            assert(all[k] == north[k]);
        } else if k < north.len() + east.len() {
            assert(all[k] == east[k - north.len()]);
        } else if k < north.len() + east.len() + south.len() {
            assert(all[k] == south[k - north.len() - east.len()]);
        } else {
            assert(all[k] == west[k - north.len() - east.len() - south.len()]);
        }
    }
    assert forall|n: Point| in_field(n) && #[trigger] adjacent(p, n) implies found.contains(n) by {
        if n == Ordinal::North.step(p) {
            assert(all[0] == north[0]);
            assert(found[0] == n);
        } else if n == Ordinal::East.step(p) {
            let k = north.len() as int;
            assert(all[k] == east[0]);
            assert(found[k] == n);
        } else if n == Ordinal::South.step(p) {
            let k = (north.len() + east.len()) as int;
            assert(all[k] == south[0]);
            assert(found[k] == n);
        } else {
            assert(n == Ordinal::West.step(p));
            let k = (north.len() + east.len() + south.len()) as int;
            assert(all[k] == west[0]);
            assert(found[k] == n);
        }
    }
}

/// The cost of a route is never negative.
pub proof fn lemma_route_cost_not_negative(costs: CostGrid, route: Seq<Point>)
    ensures
        route_cost(costs, route) >= 0,
    decreases route.len(),
{
    if route.len() > 1 {
        lemma_route_cost_not_negative(costs, route.drop_last());
    }
}

/// A route that is extended by one cell costs as much more as that cell.
pub proof fn lemma_route_extended(costs: CostGrid, route: Seq<Point>, to: Point)
    requires
        is_route(costs, route),
        passable(costs, route[0]),
        passable(costs, to),
        adjacent(route.last(), to),
    ensures
        is_route(costs, route.push(to)),
        route.push(to)[0] == route[0],
        route.push(to).last() == to,
        route_cost(costs, route.push(to)) == route_cost(costs, route) + cost_at(costs, to),
{
    let longer = route.push(to);
    assert(longer.drop_last() =~= route);
    assert forall|i: int| 1 <= i < longer.len() implies #[trigger] is_step(costs, longer, i) by {
        if i < route.len() {
            assert(is_step(costs, route, i));
        }
    }
}

/// A route of more than one cell without its last cell is a route from the
/// same cell, which ends one step before the last cell on a cell that can be
/// crossed, and which costs as much less as the last cell.
pub proof fn lemma_route_shortened(costs: CostGrid, route: Seq<Point>)
    requires
        is_route(costs, route),
        route.len() > 1,
    ensures
        is_route(costs, route.drop_last()),
        route.drop_last()[0] == route[0],
        passable(costs, route.drop_last().last()),
        passable(costs, route.last()),
        adjacent(route.drop_last().last(), route.last()),
        route_cost(costs, route) == route_cost(costs, route.drop_last()) + cost_at(
            costs,
            route.last(),
        ),
{
    let shorter = route.drop_last();
    assert(is_step(costs, route, route.len() - 1));
    assert forall|i: int| 1 <= i < shorter.len() implies #[trigger] is_step(costs, shorter, i) by {
        assert(is_step(costs, route, i));
    }
    if route.len() > 2 {
        assert(is_step(costs, route, route.len() - 2));
    }
}

/// A route that improves each cell it enters, extended by one cell that it
/// improves too, improves each cell it enters.
pub proof fn lemma_improving_route_extended(
    grid: IntegrationGrid,
    costs: CostGrid,
    start: int,
    route: Seq<Point>,
    to: Point,
)
    requires
        is_route(costs, route),
        passable(costs, route[0]),
        passable(costs, to),
        adjacent(route.last(), to),
        improves(grid, costs, start, route),
        start + route_cost(costs, route) + cost_at(costs, to) < value_at(grid, to),
    ensures
        is_route(costs, route.push(to)),
        route.push(to)[0] == route[0],
        route.push(to).last() == to,
        route_cost(costs, route.push(to)) == route_cost(costs, route) + cost_at(costs, to),
        improves(grid, costs, start, route.push(to)),
{
    lemma_route_extended(costs, route, to);
    assert(route.push(to).drop_last() =~= route);
}

/// A wavefront leaves a cell that cannot be crossed as it was.
pub proof fn lemma_wavefront_spares_impassable(
    after: IntegrationGrid,
    before: IntegrationGrid,
    costs: CostGrid,
    source: Point,
    p: Point,
)
    requires
        is_wavefront_of(after, before, costs, source),
        in_field(p),
        cost_at(costs, p) == IMPASSABLE_COST,
    ensures
        value_at(after, p) == value_at(before, p),
{
    let start = value_at(before, source) as int;
    if value_at(after, p) < value_at(before, p) {
        let route = choose|route: Seq<Point>|
            #[trigger] connects(costs, route, source, p) && improves(before, costs, start, route)
                && start + route_cost(costs, route) == value_at(after, p);
        if route.len() > 1 {
            lemma_route_shortened(costs, route);
        }
    }
}

/// A grid has one outcome of a wavefront from a source over a cost grid,
/// and no other.
pub proof fn lemma_wavefront_is_unique(
    first: IntegrationGrid,
    second: IntegrationGrid,
    before: IntegrationGrid,
    costs: CostGrid,
    source: Point,
)
    requires
        is_wavefront_of(first, before, costs, source),
        is_wavefront_of(second, before, costs, source),
    ensures
        first == second,
{
    assert forall|column: int, row: int|
        0 <= column < FIELD_RESOLUTION && 0 <= row < FIELD_RESOLUTION implies first[column][row]
        == second[column][row] by {
        let p = (column, row);
        lemma_wavefront_not_above(first, second, before, costs, source, p);
        lemma_wavefront_not_above(second, first, before, costs, source, p);
    }
    assert(first =~~= second);
}

/// Of two outcomes of one wavefront, the first holds at no cell more than
/// the second.
proof fn lemma_wavefront_not_above(
    first: IntegrationGrid,
    second: IntegrationGrid,
    before: IntegrationGrid,
    costs: CostGrid,
    source: Point,
    p: Point,
)
    requires
        is_wavefront_of(first, before, costs, source),
        is_wavefront_of(second, before, costs, source),
        in_field(p),
    ensures
        value_at(first, p) <= value_at(second, p),
{
    let start = value_at(before, source) as int;
    assert(value_at(first, p) <= value_at(before, p));
    if value_at(second, p) < value_at(before, p) {
        let route = choose|route: Seq<Point>|
            #[trigger] connects(costs, route, source, p) && improves(before, costs, start, route)
                && start + route_cost(costs, route) == value_at(second, p);
        assert(is_route(costs, route));
    }
}

/// On a grid that was reset for the source, a wavefront leaves the
/// integration field of the cost grid: each cell that a route leads to holds
/// the cost of its cheapest route, and every other cell is unreached.
pub proof fn lemma_wavefront_from_reset(after: IntegrationGrid, costs: CostGrid, source: Point)
    requires
        in_field(source),
        is_wavefront_of(after, reset_grid(source), costs, source),
    ensures
        is_integration_of(after, costs, source),
{
    let before = reset_grid(source);
    assert(value_at(before, source) == 0);
    assert(value_at(after, source) == 0) by {
        assert(value_at(after, source) <= value_at(before, source));
    }
    assert forall|p: Point| in_field(p) && #[trigger] value_at(after, p) < UNREACHED implies exists|
        route: Seq<Point>,
    |
        #[trigger] connects(costs, route, source, p) && route_cost(costs, route) == value_at(
            after,
            p,
        ) by {
        if p == source {
            assert(connects(costs, seq![source], source, p));
        } else {
            assert(value_at(before, p) == UNREACHED);
            let route = choose|route: Seq<Point>|
                #[trigger] connects(costs, route, source, p) && improves(before, costs, 0, route)
                    && 0 + route_cost(costs, route) == value_at(after, p);
            assert(connects(costs, route, source, p) && route_cost(costs, route) == value_at(
                after,
                p,
            ));
        }
    }
    assert forall|route: Seq<Point>| #[trigger]
        is_route(costs, route) && route[0] == source implies value_at(after, route.last())
        <= route_cost(costs, route) by {
        lemma_reset_routes_not_cheaper(after, costs, source, route);
    }
}

/// After a wavefront on a grid that was reset for the source, no route from
/// the source is cheaper than the value at its end.
proof fn lemma_reset_routes_not_cheaper(
    after: IntegrationGrid,
    costs: CostGrid,
    source: Point,
    route: Seq<Point>,
)
    requires
        in_field(source),
        is_wavefront_of(after, reset_grid(source), costs, source),
        is_route(costs, route),
        route[0] == source,
    ensures
        value_at(after, route.last()) <= route_cost(costs, route),
    decreases route.len(),
{
    let before = reset_grid(source);
    assert(value_at(before, source) == 0);
    assert(value_at(after, source) <= value_at(before, source));
    if route.len() > 1 {
        let shorter = route.drop_last();
        let a = shorter.last();
        let b = route.last();
        lemma_route_shortened(costs, route);
        lemma_reset_routes_not_cheaper(after, costs, source, shorter);
        lemma_route_cost_not_negative(costs, shorter);
        assert(value_at(after, b) <= value_at(before, b));
        if b != source && value_at(after, a) + cost_at(costs, b) < UNREACHED {
            assert(value_at(before, b) == UNREACHED);
            let to_a = if a == source {
                seq![source]
            } else {
                choose|to_a: Seq<Point>|
                    #[trigger] connects(costs, to_a, source, a) && improves(before, costs, 0, to_a)
                        && 0 + route_cost(costs, to_a) == value_at(after, a)
            };
            if a != source {
                assert(value_at(before, a) == UNREACHED);
                assert(value_at(after, a) < value_at(before, a));
            }
            assert(connects(costs, to_a, source, a) && improves(before, costs, 0, to_a)
                && route_cost(costs, to_a) == value_at(after, a));
            lemma_improving_route_extended(before, costs, 0, to_a, b);
            assert(improves(before, costs, 0, to_a.push(b)));
        }
    }
}

/// The integration field of a cost grid from a source holds 0 at the source.
pub proof fn lemma_source_costs_nothing(grid: IntegrationGrid, costs: CostGrid, source: Point)
    requires
        is_integration_of(grid, costs, source),
        in_field(source),
    ensures
        value_at(grid, source) == 0,
{
    let route = seq![source];
    assert(is_route(costs, route));
    assert(route.last() == source);
}

/// In the integration field of a cost grid, a cell that cannot be crossed is
/// unreached, unless it is the source itself.
pub proof fn lemma_impassable_is_unreached(
    grid: IntegrationGrid,
    costs: CostGrid,
    source: Point,
    p: Point,
)
    requires
        is_integration_of(grid, costs, source),
        in_field(p),
        cost_at(costs, p) == IMPASSABLE_COST,
        p != source,
    ensures
        value_at(grid, p) == UNREACHED,
{
    if value_at(grid, p) < UNREACHED {
        let route = choose|route: Seq<Point>|
            #[trigger] connects(costs, route, source, p) && route_cost(costs, route) == value_at(
                grid,
                p,
            );
        lemma_route_shortened(costs, route);
    }
}

/// When the source cannot be crossed, its integration field is the reset
/// grid: nothing but the source is reached.
pub proof fn lemma_impassable_source(grid: IntegrationGrid, costs: CostGrid, source: Point)
    requires
        is_integration_of(grid, costs, source),
        in_field(source),
        cost_at(costs, source) == IMPASSABLE_COST,
    ensures
        grid == reset_grid(source),
{
    lemma_source_costs_nothing(grid, costs, source);
    assert forall|column: int, row: int|
        0 <= column < FIELD_RESOLUTION && 0 <= row < FIELD_RESOLUTION implies grid[column][row]
        == reset_grid(source)[column][row] by {
        let p = (column, row);
        if p != source && value_at(grid, p) < UNREACHED {
            let route = choose|route: Seq<Point>|
                #[trigger] connects(costs, route, source, p) && route_cost(costs, route)
                    == value_at(grid, p);
            assert(route.len() > 1);
        }
    }
    assert(grid =~~= reset_grid(source));
}

/// A cost grid has one integration field from a source, and no other.
pub proof fn lemma_integration_is_unique(
    first: IntegrationGrid,
    second: IntegrationGrid,
    costs: CostGrid,
    source: Point,
)
    requires
        is_integration_of(first, costs, source),
        is_integration_of(second, costs, source),
    ensures
        first == second,
{
    assert forall|column: int, row: int|
        0 <= column < FIELD_RESOLUTION && 0 <= row < FIELD_RESOLUTION implies first[column][row]
        == second[column][row] by {
        let p = (column, row);
        lemma_integration_not_above(first, second, costs, source, p);
        lemma_integration_not_above(second, first, costs, source, p);
    }
    assert(first =~~= second);
}

/// Of two integration fields of one cost grid from one source, the first
/// holds at no cell more than the second.
proof fn lemma_integration_not_above(
    first: IntegrationGrid,
    second: IntegrationGrid,
    costs: CostGrid,
    source: Point,
    p: Point,
)
    requires
        is_integration_of(first, costs, source),
        is_integration_of(second, costs, source),
        in_field(p),
    ensures
        value_at(first, p) <= value_at(second, p),
{
    if value_at(second, p) < UNREACHED {
        let route = choose|route: Seq<Point>|
            #[trigger] connects(costs, route, source, p) && route_cost(costs, route) == value_at(
                second,
                p,
            );
        assert(is_route(costs, route));
    }
}

/// The point one step before `to` on a shortest walk from `from`: along the
/// columns first, then along the rows.
spec fn step_back(from: Point, to: Point) -> Point {
    if to.0 > from.0 {
        (to.0 - 1, to.1)
    } else if to.0 < from.0 {
        (to.0 + 1, to.1)
    } else if to.1 > from.1 {
        (to.0, to.1 - 1)
    } else {
        (to.0, to.1 + 1)
    }
}

/// A shortest walk from `from` to `to`.
spec fn straight_route(from: Point, to: Point) -> Seq<Point>
    decreases steps_between(from, to),
{
    if from == to {
        seq![from]
    } else {
        straight_route(from, step_back(from, to)).push(to)
    }
}

/// Where every cell has the same cost and can be crossed, the shortest walk
/// between two cells of the sector is a route, and it enters as many cells
/// as there are steps between the two.
proof fn lemma_straight_route(cost: u8, from: Point, to: Point)
    requires
        cost != IMPASSABLE_COST,
        in_field(from),
        in_field(to),
    ensures
        connects(uniform_costs(cost), straight_route(from, to), from, to),
        straight_route(from, to).len() == steps_between(from, to) + 1,
    decreases steps_between(from, to),
{
    let costs = uniform_costs(cost);
    assert(passable(costs, from));
    if from != to {
        let before = step_back(from, to);
        lemma_straight_route(cost, from, before);
        assert(passable(costs, to));
        lemma_route_extended(costs, straight_route(from, before), to);
    }
}

/// Where every cell has the same cost, a route costs that cost for each
/// cell that it enters, and it enters at least as many cells as there are
/// steps between its ends.
proof fn lemma_uniform_route_cost(cost: u8, route: Seq<Point>)
    requires
        is_route(uniform_costs(cost), route),
    ensures
        route_cost(uniform_costs(cost), route) == cost * (route.len() - 1),
        steps_between(route[0], route.last()) <= route.len() - 1,
    decreases route.len(),
{
    let costs = uniform_costs(cost);
    if route.len() > 1 {
        lemma_route_shortened(costs, route);
        lemma_uniform_route_cost(cost, route.drop_last());
        assert(cost_at(costs, route.last()) == cost);
        assert(cost * (route.len() - 2) + cost == cost * (route.len() - 1)) by (nonlinear_arith);
    }
}

/// Where every cell has the same cost and can be crossed, the integration
/// field holds at each cell that cost for each step between the source and
/// the cell: with a cost of 1 it is the number of steps itself.
pub proof fn lemma_uniform_costs_count_steps(
    grid: IntegrationGrid,
    cost: u8,
    source: Point,
    p: Point,
)
    requires
        cost != IMPASSABLE_COST,
        in_field(source),
        in_field(p),
        is_integration_of(grid, uniform_costs(cost), source),
    ensures
        value_at(grid, p) == cost * steps_between(source, p),
{
    let costs = uniform_costs(cost);
    let steps = steps_between(source, p);
    let straight = straight_route(source, p);
    lemma_straight_route(cost, source, p);
    lemma_uniform_route_cost(cost, straight);
    assert(is_route(costs, straight) && straight[0] == source);
    assert(value_at(grid, p) <= cost * steps);
    assert(cost * steps <= 254 * 18) by (nonlinear_arith)
        requires
            0 <= cost <= 254,
            0 <= steps <= 18,
    ;
    let route = choose|route: Seq<Point>|
        #[trigger] connects(costs, route, source, p) && route_cost(costs, route) == value_at(
            grid,
            p,
        );
    lemma_uniform_route_cost(cost, route);
    assert(cost * steps <= cost * (route.len() - 1)) by (nonlinear_arith)
        requires
            0 <= cost,
            steps <= route.len() - 1,
    ;
}

} // verus!
