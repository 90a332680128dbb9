//! Routes over the grid graph: which steps can be taken, what a step costs
//! and what a whole route costs.

use crate::fixed::{ceil_sqrt, lemma_floor_sqrt_unique};
use crate::search::Strategy;
use crate::terrain::{
    adjacent, lemma_squared_distance, squared_distance, Grid, Point, IMPASSABLE,
};
use vstd::prelude::*;

verus! {

/// The straight-line distance between two cells in millionths of a cell
/// side, rounded up: the length of a step. One million for an orthogonal
/// step, 1414214 for a diagonal one.
pub open spec fn step_length(a: Point, b: Point) -> nat {
    ceil_sqrt(1_000_000_000_000 * squared_distance(a, b))
}

/// Whether the search may enter `q`: its movement cost stays below the
/// impassable sentinel.
pub open spec fn enterable(grid: Grid, q: Point) -> bool {
    grid.movement_cost(q.x as int, q.y as int) < IMPASSABLE
}

/// Whether the grid graph has an edge from `p` to `q`.
pub open spec fn is_step(grid: Grid, p: Point, q: Point) -> bool {
    adjacent(p, q) && enterable(grid, q)
}

/// Whether every cell of `path` after the first is reached from the cell
/// before it by an edge of the grid graph.
pub open spec fn is_walk(grid: Grid, path: Seq<Point>) -> bool {
    forall|i: int| 0 < i < path.len() ==> is_step(grid, path[i - 1], #[trigger] path[i])
}

/// Whether `path` leads from `start` to `goal` along edges of the grid
/// graph.
pub open spec fn is_route(grid: Grid, start: Point, goal: Point, path: Seq<Point>) -> bool {
    &&& path.len() > 0
    &&& path[0] == start
    &&& path.last() == goal
    &&& is_walk(grid, path)
}

/// Whether some route leads from `start` to `goal`.
pub open spec fn reachable(grid: Grid, start: Point, goal: Point) -> bool {
    exists|route: Seq<Point>| is_route(grid, start, goal, route)
}

/// The sum of the movement costs of the cells of `path`, the start cell
/// included. This is the energy proxy that reports use: it ignores the
/// lengths of the steps.
pub open spec fn path_cost(grid: Grid, path: Seq<Point>) -> nat
    decreases path.len(),
{
    if path.len() == 0 {
        0
    } else {
        path_cost(grid, path.drop_last()) + grid.movement_cost(
            path.last().x as int,
            path.last().y as int,
        )
    }
}

/// The sum of the lengths of the steps of `path`.
pub open spec fn path_length(path: Seq<Point>) -> nat
    decreases path.len(),
{
    if path.len() <= 1 {
        0
    } else {
        path_length(path.drop_last()) + step_length(path[path.len() - 2], path.last())
    }
}

/// The cost of a route as the search counts it: the sum of the weights
/// of its edges.
pub open spec fn route_cost(strategy: Strategy, grid: Grid, path: Seq<Point>) -> nat
    decreases path.len(),
{
    if path.len() <= 1 {
        0
    } else {
        route_cost(strategy, grid, path.drop_last()) + strategy.step_cost(
            grid,
            path[path.len() - 2],
            path.last(),
        )
    }
}

/// Whether every cell of `path` is passable.
pub open spec fn all_passable(grid: Grid, path: Seq<Point>) -> bool {
    forall|i: int| 0 <= i < path.len() ==> grid.passable(#[trigger] path[i].x as int, path[i].y as int)
}

/// The absolute value.
pub open spec fn magnitude(v: int) -> int {
    if v < 0 {
        -v
    } else {
        v
    }
}

/// The number of steps that the shortest walk between two cells of an
/// open grid takes: the larger of the two coordinate differences.
pub open spec fn chebyshev(a: Point, b: Point) -> int {
    if magnitude(b.x - a.x) >= magnitude(b.y - a.y) {
        magnitude(b.x - a.x)
    } else {
        magnitude(b.y - a.y)
    }
}

/// The sum of the two coordinate differences.
pub open spec fn manhattan(a: Point, b: Point) -> int {
    magnitude(b.x - a.x) + magnitude(b.y - a.y)
}

/// An orthogonal step is a million millionths long and a diagonal one
/// 1414214.
pub proof fn lemma_step_lengths(a: Point, b: Point)
    requires
        adjacent(a, b),
    ensures
        step_length(a, b) == 585_786 + 414_214 * manhattan(a, b),
        chebyshev(a, b) == 1,
{
    lemma_squared_distance(a, b);
    let dx = b.x - a.x;
    let dy = b.y - a.y;
    assert(dx * dx == magnitude(dx)) by (nonlinear_arith)
        requires
            -1 <= dx <= 1,
    ;
    assert(dy * dy == magnitude(dy)) by (nonlinear_arith)
        requires
            -1 <= dy <= 1,
    ;
    if manhattan(a, b) == 1 {
        assert(crate::fixed::is_floor_sqrt(1_000_000_000_000, 1_000_000)) by (nonlinear_arith);
        lemma_floor_sqrt_unique(1_000_000_000_000, 1_000_000);
    } else {
        assert(manhattan(a, b) == 2);
        assert(crate::fixed::is_floor_sqrt(2_000_000_000_000, 1_414_213)) by (nonlinear_arith);
        lemma_floor_sqrt_unique(2_000_000_000_000, 1_414_213);
    }
}

/// What no edge weighs more than: the highest movement cost below the
/// sentinel, under the highest weight, over a diagonal step.
pub const HEAVIEST_STEP: u64 = 6_074_002_878_131_130_000;

/// No edge of the grid graph weighs more than the heaviest step.
pub proof fn lemma_step_cost_limit(strategy: Strategy, grid: Grid, p: Point, q: Point)
    requires
        is_step(grid, p, q),
    ensures
        strategy.step_cost(grid, p, q) <= HEAVIEST_STEP,
        strategy.entry_cost(grid.movement_cost(q.x as int, q.y as int)) <= 4_294_967_295_000,
        step_length(p, q) <= 1_414_214,
{
    lemma_step_lengths(p, q);
    let cost = grid.movement_cost(q.x as int, q.y as int);
    let counted = strategy.entry_cost(cost);
    match strategy {
        Strategy::EnergyWeighted { weight } => {
            assert(cost * weight <= 1_000_000 * 0xffff_ffff) by (nonlinear_arith)
                requires
                    0 <= cost < 1_000_000,
                    0 <= weight <= 0xffff_ffff,
            ;
        },
        _ => {},
    }
    assert(counted * step_length(p, q) <= 4_294_967_295_000 * 1_414_214) by (nonlinear_arith)
        requires
            0 <= counted <= 4_294_967_295_000,
            0 <= step_length(p, q) <= 1_414_214,
    ;
}

} // verus!
