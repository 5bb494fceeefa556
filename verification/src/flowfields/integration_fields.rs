//! The integration field of a sector: for each field cell the cumulative
//! cost of reaching a goal cell of the sector.
//!
//! For a new goal the field is reset: every cell becomes unreached and the
//! goal becomes 0. Then a wavefront spreads from the goal in passes. A pass
//! holds the cells that were just given a cost, each with that cost. For each
//! of them, and for each of its neighbours to the north, east, south and west
//! that can be crossed, the cost of the neighbour is added to the cost of the
//! cell; where the sum is below what the neighbour holds, the neighbour takes
//! it and joins the next pass. The wavefront ends with a pass that improves
//! nothing.
//!
//! With every cost at 1 and the goal at `(4, 4)` this gives a diamond:
//!
//! ```text
//!  8  7  6  5  4  5  6  7  8  9
//!  7  6  5  4  3  4  5  6  7  8
//!  6  5  4  3  2  3  4  5  6  7
//!  5  4  3  2  1  2  3  4  5  6
//!  4  3  2  1  0  1  2  3  4  5
//!  5  4  3  2  1  2  3  4  5  6
//!  6  5  4  3  2  3  4  5  6  7
//!  7  6  5  4  3  4  5  6  7  8
//!  8  7  6  5  4  5  6  7  8  9
//!  9  8  7  6  5  6  7  8  9 10
//! ```
//!
//! Because a cell joins the next pass each time its cost improves, the
//! wavefront does not stop at the first cost that it finds for a cell: on a
//! field that was reset, it ends with the cost of the cheapest route to each
//! cell, whatever the costs are.

use super::cost_fields::CostFields;
use super::cost_fields::CostGrid;
use super::wavefront::{
    adjacent, connects, cost_at, improves, is_integration_grid, is_integration_of, is_route,
    is_wavefront_of, lemma_improving_route_extended, lemma_neighbours_share_a_side,
    lemma_route_shortened, lemma_wavefront_from_reset, passable, reset_grid, route_cost,
    uniform_grid, value_at, with_value, IntegrationGrid,
};
use super::{
    cell_point, cell_points, in_field, FlowFieldError, Ordinal, Point, FIELD_RESOLUTION,
    IMPASSABLE_COST, UNREACHED,
};
use vstd::prelude::*;

verus! {

/// A cell of a pass of the wavefront, with the integration cost that it was
/// given when it joined the pass.
type Entry = ((usize, usize), u16);

/// Whether some entry of `entries` from index `from` on holds the cell `p`
/// with the cost `cost`.
spec fn queued_since(entries: Seq<Entry>, from: int, p: Point, cost: int) -> bool {
    exists|k: int|
        from <= k < entries.len() && cell_point((#[trigger] entries[k]).0) == p && entries[k].1
            == cost
}

/// Whether every entry holds a cell of the sector.
spec fn entries_in_field(entries: Seq<Entry>) -> bool {
    forall|k: int| 0 <= k < entries.len() ==> in_field(cell_point((#[trigger] entries[k]).0))
}

/// What an entry that joins the next pass says: its cell is a neighbour of
/// `p` that can be crossed, and its cost is the cost of `p` and of that cell
/// together, which is below what the cell held and not below what it holds.
spec fn is_improvement(
    before: IntegrationGrid,
    after: IntegrationGrid,
    costs: CostGrid,
    p: Point,
    cost: int,
    entry: Entry,
) -> bool {
    let n = cell_point(entry.0);
    &&& passable(costs, n)
    &&& adjacent(p, n)
    &&& entry.1 == cost_at(costs, n) + cost
    &&& value_at(after, n) <= entry.1
    &&& entry.1 < value_at(before, n)
}

/// How the grid and the next pass change while the neighbours of `p`, which
/// holds `cost` in its pass, are looked at.
spec fn relaxation(
    before: IntegrationGrid,
    after: IntegrationGrid,
    costs: CostGrid,
    p: Point,
    cost: int,
    queued: Seq<Entry>,
    queued_after: Seq<Entry>,
) -> bool {
    &&& queued.len() <= queued_after.len()
    &&& forall|k: int| 0 <= k < queued.len() ==> #[trigger] queued_after[k] == queued[k]
    &&& forall|k: int|
        queued.len() <= k < queued_after.len() ==> is_improvement(
            before,
            after,
            costs,
            p,
            cost,
            #[trigger] queued_after[k],
        )
    &&& forall|q: Point|
        #![trigger value_at(after, q)]
        #![trigger value_at(before, q)]
        in_field(q) ==> value_at(after, q) <= value_at(before, q)
    &&& forall|q: Point|
        in_field(q) && #[trigger] value_at(after, q) != value_at(before, q) ==> queued_since(
            queued_after,
            queued.len() as int,
            q,
            value_at(after, q) as int,
        )
    &&& forall|n: Point|
        passable(costs, n) && #[trigger] adjacent(p, n) ==> value_at(after, n) <= cost_at(costs, n)
            + cost
}

/// Whether some route that improves each cell it enters leads from `source`
/// to `p` and ends there with the value `value`.
spec fn has_improving_route(
    first: IntegrationGrid,
    costs: CostGrid,
    source: Point,
    p: Point,
    value: int,
) -> bool {
    exists|route: Seq<Point>|
        #[trigger] connects(costs, route, source, p) && improves(
            first,
            costs,
            value_at(first, source) as int,
            route,
        ) && value_at(first, source) + route_cost(costs, route) == value
}

/// Whether every value that fell since the wavefront set out on `first` is
/// the value at the end of an improving route to its cell.
spec fn grid_witnessed(
    grid: IntegrationGrid,
    first: IntegrationGrid,
    costs: CostGrid,
    source: Point,
) -> bool {
    forall|p: Point|
        in_field(p) && #[trigger] value_at(grid, p) < value_at(first, p) ==> has_improving_route(
            first,
            costs,
            source,
            p,
            value_at(grid, p) as int,
        )
}

/// Whether every entry holds a cell that can be crossed, with the value at
/// the end of an improving route to that cell.
spec fn entries_witnessed(
    entries: Seq<Entry>,
    first: IntegrationGrid,
    costs: CostGrid,
    source: Point,
) -> bool {
    forall|k: int|
        0 <= k < entries.len() ==> passable(costs, cell_point((#[trigger] entries[k]).0))
            && has_improving_route(
            first,
            costs,
            source,
            cell_point(entries[k].0),
            entries[k].1 as int,
        )
}

/// Whether no step from `p` to a neighbour would improve that neighbour.
spec fn relaxed(grid: IntegrationGrid, costs: CostGrid, p: Point) -> bool {
    forall|n: Point|
        passable(costs, n) && #[trigger] adjacent(p, n) ==> value_at(grid, n) <= value_at(grid, p)
            + cost_at(costs, n)
}

/// Whether the wavefront has come to `p`: `p` can be crossed, and it is the
/// source or its value fell since the wavefront set out on `first`.
spec fn reached(
    grid: IntegrationGrid,
    first: IntegrationGrid,
    costs: CostGrid,
    source: Point,
    p: Point,
) -> bool {
    passable(costs, p) && (p == source || value_at(grid, p) < value_at(first, p))
}

/// Whether every cell that the wavefront has come to either cannot improve
/// a neighbour or still waits, with the value that it holds, in what is left
/// of the current pass or in the next one.
spec fn settled(
    grid: IntegrationGrid,
    first: IntegrationGrid,
    costs: CostGrid,
    source: Point,
    current: Seq<Entry>,
    from: int,
    next: Seq<Entry>,
) -> bool {
    forall|p: Point| #[trigger]
        reached(grid, first, costs, source, p) ==> relaxed(grid, costs, p) || queued_since(
            current,
            from,
            p,
            value_at(grid, p) as int,
        ) || queued_since(next, 0, p, value_at(grid, p) as int)
}

/// Whether no cell that the wavefront has come to can improve a neighbour.
spec fn at_rest(
    grid: IntegrationGrid,
    first: IntegrationGrid,
    costs: CostGrid,
    source: Point,
) -> bool {
    forall|p: Point| #[trigger] reached(grid, first, costs, source, p) ==> relaxed(grid, costs, p)
}

/// The sum of the first `n` values of the grid, columns first.
spec fn grid_total(grid: IntegrationGrid, n: nat) -> int
    decreases n,
{
    if n == 0 {
        0
    } else {
        grid_total(grid, (n - 1) as nat) + value_at(grid, ((n - 1) / 10, (n - 1) % 10))
    }
}

/// The sum of values of a grid is never negative.
proof fn lemma_total_not_negative(grid: IntegrationGrid, n: nat)
    ensures
        grid_total(grid, n) >= 0,
    decreases n,
{
    if n > 0 {
        lemma_total_not_negative(grid, (n - 1) as nat);
    }
}

/// A grid that is nowhere above another has no greater sum.
proof fn lemma_total_not_above(low: IntegrationGrid, high: IntegrationGrid, n: nat)
    requires
        n <= 100,
        forall|q: Point| in_field(q) ==> #[trigger] value_at(low, q) <= value_at(high, q),
    ensures
        grid_total(low, n) <= grid_total(high, n),
    decreases n,
{
    if n > 0 {
        lemma_total_not_above(low, high, (n - 1) as nat);
        let q = ((n - 1) / 10, (n - 1) % 10);
        assert(in_field(q));
        assert(value_at(low, q) <= value_at(high, q));
    }
}

/// A grid that is nowhere above another and below it at `p` has a smaller
/// sum, from the cell `p` on.
proof fn lemma_total_below(low: IntegrationGrid, high: IntegrationGrid, p: Point, n: nat)
    requires
        n <= 100,
        in_field(p),
        p.0 * 10 + p.1 < n,
        forall|q: Point| in_field(q) ==> #[trigger] value_at(low, q) <= value_at(high, q),
        value_at(low, p) < value_at(high, p),
    ensures
        grid_total(low, n) < grid_total(high, n),
    decreases n,
{
    let q = ((n - 1) / 10, (n - 1) % 10);
    assert(in_field(q));
    assert(value_at(low, q) <= value_at(high, q));
    if p.0 * 10 + p.1 == n - 1 {
        assert(q == p);
        lemma_total_not_above(low, high, (n - 1) as nat);
    } else {
        lemma_total_below(low, high, p, (n - 1) as nat);
    }
}

/// Looking at the neighbours of one entry of the current pass keeps what the
/// wavefront relies on: values that fell and entries are ends of improving
/// routes, and every cell that the wavefront has come to is relaxed or still
/// waits.
proof fn lemma_relaxation_keeps(
    before: IntegrationGrid,
    after: IntegrationGrid,
    first: IntegrationGrid,
    costs: CostGrid,
    source: Point,
    current: Seq<Entry>,
    i: int,
    queued: Seq<Entry>,
    queued_after: Seq<Entry>,
)
    requires
        0 <= i < current.len(),
        passable(costs, source),
        forall|q: Point| in_field(q) ==> #[trigger] value_at(before, q) <= value_at(first, q),
        relaxation(
            before,
            after,
            costs,
            cell_point(current[i].0),
            current[i].1 as int,
            queued,
            queued_after,
        ),
        grid_witnessed(before, first, costs, source),
        entries_witnessed(current, first, costs, source),
        entries_witnessed(queued, first, costs, source),
        settled(before, first, costs, source, current, i, queued),
    ensures
        grid_witnessed(after, first, costs, source),
        entries_witnessed(queued_after, first, costs, source),
        settled(after, first, costs, source, current, i + 1, queued_after),
{
    let p = cell_point(current[i].0);
    let cost = current[i].1 as int;
    let start = value_at(first, source) as int;
    assert(passable(costs, p) && has_improving_route(first, costs, source, p, cost));
    let to_p = choose|route: Seq<Point>|
        #[trigger] connects(costs, route, source, p) && improves(first, costs, start, route)
            && start + route_cost(costs, route) == cost;
    assert forall|k: int| 0 <= k < queued_after.len() implies passable(
        costs,
        cell_point((#[trigger] queued_after[k]).0),
    ) && has_improving_route(
        first,
        costs,
        source,
        cell_point(queued_after[k].0),
        queued_after[k].1 as int,
    ) by {
        if k < queued.len() {
            assert(queued_after[k] == queued[k]);
        } else {
            let n = cell_point(queued_after[k].0);
            assert(is_improvement(before, after, costs, p, cost, queued_after[k]));
            assert(value_at(before, n) <= value_at(first, n));
            lemma_improving_route_extended(first, costs, start, to_p, n);
            assert(connects(costs, to_p.push(n), source, n));
        }
    }
    assert forall|q: Point|
        in_field(q) && #[trigger] value_at(after, q) < value_at(first, q) implies
        has_improving_route(first, costs, source, q, value_at(after, q) as int) by {
        if value_at(after, q) != value_at(before, q) {
            assert(queued_since(queued_after, queued.len() as int, q, value_at(after, q) as int));
        } else {
            assert(value_at(before, q) < value_at(first, q));
        }
    }
    assert forall|q: Point| #[trigger] reached(after, first, costs, source, q) implies relaxed(
        after,
        costs,
        q,
    ) || queued_since(current, i + 1, q, value_at(after, q) as int) || queued_since(
        queued_after,
        0,
        q,
        value_at(after, q) as int,
    ) by {
        let held = value_at(after, q) as int;
        if value_at(after, q) != value_at(before, q) {
            assert(queued_since(queued_after, queued.len() as int, q, held));
            let k = choose|k: int|
                queued.len() <= k < queued_after.len() && cell_point(
                    (#[trigger] queued_after[k]).0,
                ) == q && queued_after[k].1 == held;
            assert(queued_since(queued_after, 0, q, held));
        } else {
            assert(reached(before, first, costs, source, q));
            if relaxed(before, costs, q) {
                assert forall|n: Point| passable(costs, n) && #[trigger] adjacent(q, n) implies
                    value_at(after, n) <= value_at(after, q) + cost_at(costs, n) by {
                    assert(value_at(after, n) <= value_at(before, n));
                }
            } else if queued_since(current, i, q, held) {
                let k = choose|k: int|
                    i <= k < current.len() && cell_point((#[trigger] current[k]).0) == q
                        && current[k].1 == held;
                if k == i {
                    assert(relaxed(after, costs, q));
                } else {
                    assert(queued_since(current, i + 1, q, held));
                }
            } else {
                assert(queued_since(queued, 0, q, held));
                let k = choose|k: int|
                    0 <= k < queued.len() && cell_point((#[trigger] queued[k]).0) == q
                        && queued[k].1 == held;
                assert(queued_after[k] == queued[k]);
                assert(queued_since(queued_after, 0, q, held));
            }
        }
    }
}

/// On a grid at rest, no improving route from the source ends with less
/// than the value at its end.
proof fn lemma_improving_routes_not_cheaper(
    grid: IntegrationGrid,
    first: IntegrationGrid,
    costs: CostGrid,
    source: Point,
    route: Seq<Point>,
)
    requires
        forall|q: Point| in_field(q) ==> #[trigger] value_at(grid, q) <= value_at(first, q),
        at_rest(grid, first, costs, source),
        is_route(costs, route),
        route[0] == source,
        improves(first, costs, value_at(first, source) as int, route),
    ensures
        value_at(grid, route.last()) <= value_at(first, source) + route_cost(costs, route),
    decreases route.len(),
{
    if route.len() > 1 {
        let shorter = route.drop_last();
        let a = shorter.last();
        lemma_route_shortened(costs, route);
        assert(improves(first, costs, value_at(first, source) as int, shorter));
        lemma_improving_routes_not_cheaper(grid, first, costs, source, shorter);
        assert(reached(grid, first, costs, source, a)) by {
            if shorter.len() > 1 {
                assert(value_at(first, source) + route_cost(costs, shorter) < value_at(first, a));
            }
        }
        assert(relaxed(grid, costs, a));
    } else {
        assert(value_at(grid, source) <= value_at(first, source));
    }
}

/// The grid of integration costs of one sector.
pub struct IntegrationFields([[u16; FIELD_RESOLUTION]; FIELD_RESOLUTION]);

impl View for IntegrationFields {
    type V = IntegrationGrid;

    closed spec fn view(&self) -> IntegrationGrid {
        Seq::new(
            FIELD_RESOLUTION as nat,
            |column: int| Seq::new(FIELD_RESOLUTION as nat, |row: int| self.0@[column]@[row]),
        )
    }
}

impl Default for IntegrationFields {
    /// Every cell unreached.
    fn default() -> (fields: Self)
        ensures
            fields@ == uniform_grid(UNREACHED),
    {
        let fields = IntegrationFields([[UNREACHED; FIELD_RESOLUTION]; FIELD_RESOLUTION]);
        assert(fields@ =~~= uniform_grid(UNREACHED));
        fields
    }
}

impl IntegrationFields {
    /// The grid of any value has the size of a sector.
    pub proof fn lemma_dimensions(&self)
        ensures
            is_integration_grid(self@),
    {
    }

    /// The whole grid, columns first.
    pub fn get_fields(&self) -> (grid: &[[u16; FIELD_RESOLUTION]; FIELD_RESOLUTION])
        ensures
            forall|column: int, row: int|
                0 <= column < FIELD_RESOLUTION && 0 <= row < FIELD_RESOLUTION
                    ==> grid@[column]@[row] == self@[column][row],
    {
        &self.0
    }

    /// The integration cost of the cell at `(column, row)`.
    pub fn get_grid_value(&self, column: usize, row: usize) -> (value: Result<
        u16,
        FlowFieldError,
    >)
        ensures
            value is Ok <==> column < FIELD_RESOLUTION && row < FIELD_RESOLUTION,
            value is Ok ==> value == Ok::<u16, FlowFieldError>(self@[column as int][row as int]),
            value is Err ==> value == Err::<u16, FlowFieldError>(FlowFieldError::IndexOutOfBounds),
    {
        if column >= FIELD_RESOLUTION || row >= FIELD_RESOLUTION {
            return Err(FlowFieldError::IndexOutOfBounds);
        }
        Ok(self.0[column][row])
    }

    /// Overwrites the integration cost of the cell at `(column, row)` and
    /// leaves every other cell as it was.
    pub fn set_grid_value(&mut self, value: u16, column: usize, row: usize) -> (done: Result<
        (),
        FlowFieldError,
    >)
        ensures
            done is Ok <==> column < FIELD_RESOLUTION && row < FIELD_RESOLUTION,
            done is Ok ==> final(self)@ == with_value(
                old(self)@,
                (column as int, row as int),
                value,
            ),
            done is Err ==> done == Err::<(), FlowFieldError>(FlowFieldError::IndexOutOfBounds)
                && final(self)@ == old(self)@,
    {
        if column >= FIELD_RESOLUTION || row >= FIELD_RESOLUTION {
            return Err(FlowFieldError::IndexOutOfBounds);
        }
        self.0[column][row] = value;
        assert(self@ =~~= with_value(old(self)@, (column as int, row as int), value));
        Ok(())
    }

    /// Makes every cell unreached and then gives `source`, the cell from
    /// which a wavefront is to start, the cost 0.
    pub fn reset(&mut self, source: (usize, usize)) -> (done: Result<(), FlowFieldError>)
        ensures
            done is Ok <==> in_field(cell_point(source)),
            done is Ok ==> final(self)@ == reset_grid(cell_point(source)),
            done is Err ==> done == Err::<(), FlowFieldError>(FlowFieldError::IndexOutOfBounds)
                && final(self)@ == old(self)@,
    {
        if source.0 >= FIELD_RESOLUTION || source.1 >= FIELD_RESOLUTION {
            return Err(FlowFieldError::IndexOutOfBounds);
        }
        self.0 = [[UNREACHED; FIELD_RESOLUTION]; FIELD_RESOLUTION];
        self.0[source.0][source.1] = 0;
        assert(self@ =~~= reset_grid(cell_point(source)));
        Ok(())
    }

    /// Looks at the neighbours of `cell`, which holds `cost` in the current
    /// pass: each neighbour that can be crossed and that a step from `cell`
    /// improves takes the better cost and joins the next pass.
    fn relax_neighbours(
        &mut self,
        cell: (usize, usize),
        cost: u16,
        cost_fields: &CostFields,
        next: &mut Vec<Entry>,
    )
        requires
            in_field(cell_point(cell)),
        ensures
            relaxation(
                old(self)@,
                final(self)@,
                cost_fields@,
                cell_point(cell),
                cost as int,
                old(next)@,
                final(next)@,
            ),
    {
        let ghost before = self@;
        let ghost queued = next@;
        let ghost costs = cost_fields@;
        let ghost p = cell_point(cell);
        let neighbours = Ordinal::get_cell_neighbours(cell);
        let cost_grid = cost_fields.get_fields();
        proof {
            lemma_neighbours_share_a_side(p);
        }
        let mut i: usize = 0;
        while i < neighbours.len()
            invariant
                i <= neighbours.len(),
                p == cell_point(cell),
                costs == cost_fields@,
                cell_points(neighbours@) == Ordinal::field_neighbours(p),
                forall|k: int|
                    0 <= k < Ordinal::field_neighbours(p).len() ==> in_field(
                        #[trigger] Ordinal::field_neighbours(p)[k],
                    ) && adjacent(p, Ordinal::field_neighbours(p)[k]),
                forall|column: int, row: int|
                    0 <= column < FIELD_RESOLUTION && 0 <= row < FIELD_RESOLUTION
                        ==> cost_grid@[column]@[row] == costs[column][row],
                queued.len() <= next@.len(),
                forall|k: int| 0 <= k < queued.len() ==> #[trigger] next@[k] == queued[k],
                forall|k: int|
                    queued.len() <= k < next@.len() ==> is_improvement(
                        before,
                        self@,
                        costs,
                        p,
                        cost as int,
                        #[trigger] next@[k],
                    ),
                forall|q: Point|
                    #![trigger value_at(self@, q)]
                    #![trigger value_at(before, q)]
                    in_field(q) ==> value_at(self@, q) <= value_at(before, q),
                forall|q: Point|
                    in_field(q) && #[trigger] value_at(self@, q) != value_at(before, q)
                        ==> queued_since(next@, queued.len() as int, q, value_at(self@, q) as int),
                forall|k: int|
                    0 <= k < i && passable(costs, #[trigger] cell_points(neighbours@)[k])
                        ==> value_at(self@, cell_points(neighbours@)[k]) <= cost_at(
                        costs,
                        cell_points(neighbours@)[k],
                    ) + cost,
            decreases neighbours.len() - i,
        {
            let n = neighbours[i];
            let ghost np = cell_point(n);
            let ghost entered = self@;
            let ghost waiting = next@;
            assert(np == cell_points(neighbours@)[i as int]);
            assert(in_field(np) && adjacent(p, np));
            let cell_cost = cost_grid[n.0][n.1];
            assert(cell_cost == cost_at(costs, np));
            if cell_cost != IMPASSABLE_COST {
                let candidate: u32 = cell_cost as u32 + cost as u32;
                if candidate < self.0[n.0][n.1] as u32 {
                    let improved: u16 = candidate as u16;
                    self.0[n.0][n.1] = improved;
                    next.push((n, improved));
                    proof {
                        assert(self@ =~~= with_value(entered, np, improved));
                        assert forall|q: Point| in_field(q) implies #[trigger] value_at(self@, q)
                            == (if q == np {
                            improved
                        } else {
                            value_at(entered, q)
                        }) by {}
                        assert forall|k: int| queued.len() <= k < next@.len() implies
                            is_improvement(
                            before,
                            self@,
                            costs,
                            p,
                            cost as int,
                            #[trigger] next@[k],
                        ) by {
                            if k < waiting.len() {
                                assert(next@[k] == waiting[k]);
                                assert(is_improvement(
                                    before,
                                    entered,
                                    costs,
                                    p,
                                    cost as int,
                                    waiting[k],
                                ));
                            }
                        }
                        assert forall|q: Point|
                            in_field(q) && #[trigger] value_at(self@, q) != value_at(
                                before,
                                q,
                            ) implies queued_since(
                            next@,
                            queued.len() as int,
                            q,
                            value_at(self@, q) as int,
                        ) by {
                            if q == np {
                                assert(cell_point(next@[waiting.len() as int].0) == q);
                            } else {
                                assert(value_at(entered, q) != value_at(before, q));
                                let k = choose|k: int|
                                    queued.len() <= k < waiting.len() && cell_point(
                                        (#[trigger] waiting[k]).0,
                                    ) == q && waiting[k].1 == value_at(entered, q) as int;
                                assert(next@[k] == waiting[k]);
                            }
                        }
                    }
                }
            }
            i += 1;
        }
        proof {
            assert forall|n: Point| passable(costs, n) && #[trigger] adjacent(p, n) implies
                value_at(self@, n) <= cost_at(costs, n) + cost by {
                assert(Ordinal::field_neighbours(p).contains(n));
                let k = choose|k: int|
                    0 <= k < Ordinal::field_neighbours(p).len() && Ordinal::field_neighbours(p)[k]
                        == n;
                assert(cell_points(neighbours@)[k] == n);
            }
        }
    }

    /// Spreads the wavefront from `source` over the costs of `cost_fields`.
    ///
    /// The field is taken as it stands, and the wavefront sets out with the
    /// value that `source` holds. It follows every route that improves each
    /// cell it enters, so no value rises, and a cell that cannot be crossed
    /// keeps its value. Nothing happens where `source` itself cannot be
    /// crossed. On a field that was reset for `source`, the result is the
    /// integration field of the costs: each cell that a route leads to holds
    /// the cost of its cheapest route, and every other cell is unreached.
    pub fn calculate_fields(&mut self, source: (usize, usize), cost_fields: &CostFields) -> (done:
        Result<(), FlowFieldError>)
        ensures
            done is Ok <==> in_field(cell_point(source)),
            done is Err ==> done == Err::<(), FlowFieldError>(FlowFieldError::IndexOutOfBounds)
                && final(self)@ == old(self)@,
            done is Ok ==> is_wavefront_of(
                final(self)@,
                old(self)@,
                cost_fields@,
                cell_point(source),
            ),
            done is Ok ==> forall|p: Point|
                #![trigger value_at(final(self)@, p)]
                in_field(p) && cost_at(cost_fields@, p) == IMPASSABLE_COST ==> value_at(
                    final(self)@,
                    p,
                ) == value_at(old(self)@, p),
            done is Ok && cost_at(cost_fields@, cell_point(source)) == IMPASSABLE_COST
                ==> final(self)@ == old(self)@,
            done is Ok && old(self)@ == reset_grid(cell_point(source)) ==> is_integration_of(
                final(self)@,
                cost_fields@,
                cell_point(source),
            ),
    {
        if source.0 >= FIELD_RESOLUTION || source.1 >= FIELD_RESOLUTION {
            return Err(FlowFieldError::IndexOutOfBounds);
        }
        let ghost first = self@;
        let ghost costs = cost_fields@;
        let ghost s = cell_point(source);
        let ghost start = value_at(first, s) as int;
        let cost_grid = cost_fields.get_fields();
        if cost_grid[source.0][source.1] == IMPASSABLE_COST {
            proof {
                assert forall|route: Seq<Point>|
                    is_route(costs, route) && route[0] == s && #[trigger] improves(
                        first,
                        costs,
                        start,
                        route,
                    ) implies value_at(first, route.last()) <= start + route_cost(
                    costs,
                    route,
                ) by {
                    assert(route.len() == 1);
                }
                if first == reset_grid(s) {
                    lemma_wavefront_from_reset(first, costs, s);
                }
            }
            return Ok(());
        }
        let mut queue: Vec<Entry> = Vec::new();
        queue.push((source, self.0[source.0][source.1]));
        proof {
            assert(connects(costs, seq![s], s, s));
            assert(has_improving_route(first, costs, s, s, start));
            assert forall|p: Point| #[trigger] reached(self@, first, costs, s, p) implies
                queued_since(queue@, 0, p, value_at(self@, p) as int) by {
                assert(p == s);
                assert(cell_point(queue@[0].0) == p);
            }
        }
        loop
            invariant_except_break
                entries_in_field(queue@),
                entries_witnessed(queue@, first, costs, s),
                settled(self@, first, costs, s, queue@, 0, Seq::<Entry>::empty()),
            invariant
                costs == cost_fields@,
                s == cell_point(source),
                passable(costs, s),
                forall|p: Point|
                    #![trigger value_at(self@, p)]
                    in_field(p) ==> value_at(self@, p) <= value_at(first, p),
                forall|p: Point|
                    #![trigger value_at(self@, p)]
                    in_field(p) && cost_at(costs, p) == IMPASSABLE_COST ==> value_at(self@, p)
                        == value_at(first, p),
                grid_witnessed(self@, first, costs, s),
            ensures
                at_rest(self@, first, costs, s),
            decreases grid_total(self@, 100),
        {
            let ghost entered = self@;
            let mut next: Vec<Entry> = Vec::new();
            let mut i: usize = 0;
            while i < queue.len()
                invariant
                    i <= queue.len(),
                    costs == cost_fields@,
                    s == cell_point(source),
                    passable(costs, s),
                    entries_in_field(queue@),
                    entries_in_field(next@),
                    forall|p: Point|
                        #![trigger value_at(self@, p)]
                        in_field(p) ==> value_at(self@, p) <= value_at(first, p),
                    forall|p: Point|
                        #![trigger value_at(self@, p)]
                        in_field(p) && cost_at(costs, p) == IMPASSABLE_COST ==> value_at(self@, p)
                            == value_at(first, p),
                    grid_total(self@, 100) <= grid_total(entered, 100),
                    next@.len() > 0 ==> grid_total(self@, 100) < grid_total(entered, 100),
                    grid_witnessed(self@, first, costs, s),
                    entries_witnessed(queue@, first, costs, s),
                    entries_witnessed(next@, first, costs, s),
                    settled(self@, first, costs, s, queue@, i as int, next@),
                decreases queue.len() - i,
            {
                let (cell, cost) = queue[i];
                let ghost grid = self@;
                let ghost queued = next@;
                assert(in_field(cell_point(queue@[i as int].0)));
                self.relax_neighbours(cell, cost, cost_fields, &mut next);
                proof {
                    let p = cell_point(cell);
                    assert(relaxation(grid, self@, costs, p, cost as int, queued, next@));
                    lemma_total_not_above(self@, grid, 100);
                    assert forall|k: int| 0 <= k < next@.len() implies in_field(
                        cell_point((#[trigger] next@[k]).0),
                    ) by {
                        if k < queued.len() {
                            assert(next@[k] == queued[k]);
                        } else {
                            assert(is_improvement(grid, self@, costs, p, cost as int, next@[k]));
                        }
                    }
                    if next@.len() > queued.len() {
                        let fresh = next@[queued.len() as int];
                        assert(is_improvement(grid, self@, costs, p, cost as int, fresh));
                        lemma_total_below(self@, grid, cell_point(fresh.0), 100);
                    }
                    assert forall|q: Point|
                        in_field(q) && cost_at(costs, q) == IMPASSABLE_COST implies
                        #[trigger] value_at(self@, q) == value_at(first, q) by {
                        if value_at(self@, q) != value_at(grid, q) {
                            let k = choose|k: int|
                                queued.len() <= k < next@.len() && cell_point(
                                    (#[trigger] next@[k]).0,
                                ) == q && next@[k].1 == value_at(self@, q) as int;
                            assert(is_improvement(grid, self@, costs, p, cost as int, next@[k]));
                        }
                    }
                    assert forall|q: Point| in_field(q) implies #[trigger] value_at(self@, q)
                        <= value_at(first, q) by {
                        assert(value_at(self@, q) <= value_at(grid, q));
                    }
                    lemma_relaxation_keeps(
                        grid,
                        self@,
                        first,
                        costs,
                        s,
                        queue@,
                        i as int,
                        queued,
                        next@,
                    );
                }
                i += 1;
            }
            if next.len() == 0 {
                proof {
                    assert forall|p: Point| #[trigger]
                        reached(self@, first, costs, s, p) implies relaxed(self@, costs, p) by {
                        assert(!queued_since(
                            queue@,
                            queue@.len() as int,
                            p,
                            value_at(self@, p) as int,
                        ));
                        assert(!queued_since(next@, 0, p, value_at(self@, p) as int));
                    }
                }
                break ;
            }
            proof {
                lemma_total_not_negative(self@, 100);
                assert forall|p: Point| #[trigger]
                    reached(self@, first, costs, s, p) implies relaxed(self@, costs, p)
                    || queued_since(next@, 0, p, value_at(self@, p) as int) || queued_since(
                    Seq::<Entry>::empty(),
                    0,
                    p,
                    value_at(self@, p) as int,
                ) by {
                    assert(!queued_since(
                        queue@,
                        queue@.len() as int,
                        p,
                        value_at(self@, p) as int,
                    ));
                }
            }
            queue = next;
        }
        proof {
            self.lemma_dimensions();
            assert forall|route: Seq<Point>|
                is_route(costs, route) && route[0] == s && #[trigger] improves(
                    first,
                    costs,
                    start,
                    route,
                ) implies value_at(self@, route.last()) <= start + route_cost(costs, route) by {
                lemma_improving_routes_not_cheaper(self@, first, costs, s, route);
            }
            assert forall|p: Point|
                in_field(p) && #[trigger] value_at(self@, p) < value_at(first, p) implies exists|
                route: Seq<Point>,
            |
                #[trigger] connects(costs, route, s, p) && improves(first, costs, start, route)
                    && start + route_cost(costs, route) == value_at(self@, p) by {
                assert(has_improving_route(first, costs, s, p, value_at(self@, p) as int));
            }
            assert(is_wavefront_of(self@, first, costs, s));
            if first == reset_grid(s) {
                lemma_wavefront_from_reset(self@, costs, s);
            }
        }
        Ok(())
    }
}

} // verus!
