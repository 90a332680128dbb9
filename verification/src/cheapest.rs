//! Why the search finds a cheapest route: no strategy whose estimate
//! never exceeds the remaining cost pops the goal before every cheaper
//! way to it has been tried.

use crate::fixed::{
    floor_sqrt, lemma_ceil_sqrt_bounds, lemma_floor_sqrt_bounds, lemma_floor_sqrt_unique,
};
use crate::frontier::{lemma_run_frontier, queued, settled, settled_toward};
use crate::route::{
    enterable, is_route, is_step, is_walk, path_length, reachable, route_cost, step_length,
};
use crate::search::{is_outcome, lineage, run, select, yields, SearchState, Strategy};
use crate::search_laws::{
    consistent, lemma_lineage_drop_last, lemma_outcome_is_route, lemma_run_consistent,
    lemma_select, well_queued, well_recorded,
};
use crate::terrain::{
    estimated_distance, lemma_squared_distance, squared_distance, Grid, Point,
};
use vstd::prelude::*;

verus! {

/// Whether the estimate of the strategy never exceeds the cost that is
/// left: so it is unless movement costs are scaled down.
pub open spec fn admissible(strategy: Strategy) -> bool {
    match strategy {
        Strategy::EnergyWeighted { weight } => weight >= 1000,
        _ => true,
    }
}

/// Whether `path` is a cheapest route from `start` to `goal`: wherever a
/// route exists, `path` is not empty and costs no more than that route.
pub open spec fn cheapest(
    strategy: Strategy,
    grid: Grid,
    start: Point,
    goal: Point,
    path: Seq<Point>,
) -> bool {
    forall|other: Seq<Point>| #[trigger]
        is_route(grid, start, goal, other) ==> path.len() > 0 && route_cost(strategy, grid, path)
            <= route_cost(strategy, grid, other)
}

/// A number whose square does not exceed the square of another that is
/// not negative does not exceed it.
proof fn lemma_square_order(x: int, y: int)
    requires
        x * x <= y * y,
        0 <= y,
    ensures
        x <= y,
{
    if x > y {
        assert(x * x > y * y) by (nonlinear_arith)
            requires
                x > y,
                y >= 0,
        ;
    }
}

/// The square of a product is the product of the squares.
proof fn lemma_square_of_product(x: int, y: int)
    ensures
        (x * y) * (x * y) == (x * x) * (y * y),
{
    assert((x * y) * (x * y) == (x * x) * (y * y)) by (nonlinear_arith);
}

/// The inequality of Cauchy and Schwarz in the plane.
proof fn lemma_cauchy(vx: int, vy: int, ex: int, ey: int)
    ensures
        (vx * ex + vy * ey) * (vx * ex + vy * ey) <= (vx * vx + vy * vy) * (ex * ex + ey * ey),
{
    let a = vx * ex;
    let b = vy * ey;
    let c = vx * ey;
    let d = vy * ex;
    let p1 = vx * vx;
    let p2 = vy * vy;
    let q1 = ex * ex;
    let q2 = ey * ey;
    lemma_square_of_product(vx, ex);
    lemma_square_of_product(vy, ey);
    lemma_square_of_product(vx, ey);
    lemma_square_of_product(vy, ex);
    assert((p1 + p2) * (q1 + q2) == p1 * q1 + p1 * q2 + p2 * q1 + p2 * q2) by (nonlinear_arith);
    assert(a * b == c * d) by (nonlinear_arith)
        requires
            a == vx * ex,
            b == vy * ey,
            c == vx * ey,
            d == vy * ex,
    ;
    assert((a + b) * (a + b) == a * a + 2 * (a * b) + b * b) by (nonlinear_arith);
    assert((c - d) * (c - d) == c * c - 2 * (c * d) + d * d) by (nonlinear_arith);
    assert((c - d) * (c - d) >= 0) by (nonlinear_arith);
}

/// The triangle inequality in millionths: if the straight line over
/// (vx, vy) is at most `a` long and the one over (ex, ey) at most `b`,
/// the one over their sum is at most `a + b` long.
proof fn lemma_triangle(vx: int, vy: int, ex: int, ey: int, a: int, b: int)
    requires
        0 <= a,
        0 <= b,
        1_000_000_000_000 * (vx * vx + vy * vy) <= a * a,
        1_000_000_000_000 * (ex * ex + ey * ey) <= b * b,
    ensures
        1_000_000_000_000 * ((vx + ex) * (vx + ex) + (vy + ey) * (vy + ey)) <= (a + b) * (a + b),
{
    let v2 = 1_000_000_000_000 * (vx * vx + vy * vy);
    let e2 = 1_000_000_000_000 * (ex * ex + ey * ey);
    let d = 1_000_000_000_000 * (vx * ex + vy * ey);
    lemma_cauchy(vx, vy, ex, ey);
    let p = vx * vx + vy * vy;
    let q = ex * ex + ey * ey;
    let r = vx * ex + vy * ey;
    assert(d * d <= v2 * e2) by (nonlinear_arith)
        requires
            v2 == 1_000_000_000_000 * p,
            e2 == 1_000_000_000_000 * q,
            d == 1_000_000_000_000 * r,
            r * r <= p * q,
    ;
    assert(0 <= v2 && 0 <= e2) by (nonlinear_arith)
        requires
            v2 == 1_000_000_000_000 * (vx * vx + vy * vy),
            e2 == 1_000_000_000_000 * (ex * ex + ey * ey),
    ;
    assert(v2 * e2 <= (a * a) * (b * b)) by (nonlinear_arith)
        requires
            0 <= v2 <= a * a,
            0 <= e2 <= b * b,
    ;
    assert((a * a) * (b * b) == (a * b) * (a * b)) by (nonlinear_arith);
    assert(0 <= a * b) by (nonlinear_arith)
        requires
            0 <= a,
            0 <= b,
    ;
    lemma_square_order(d, a * b);
    assert(1_000_000_000_000 * ((vx + ex) * (vx + ex) + (vy + ey) * (vy + ey)) == v2 + 2 * d + e2)
        by (nonlinear_arith)
        requires
            v2 == 1_000_000_000_000 * (vx * vx + vy * vy),
            e2 == 1_000_000_000_000 * (ex * ex + ey * ey),
            d == 1_000_000_000_000 * (vx * ex + vy * ey),
    ;
    assert((a + b) * (a + b) == a * a + 2 * (a * b) + b * b) by (nonlinear_arith);
}

/// No path is shorter than the straight line between its ends.
pub proof fn lemma_path_length_bound(path: Seq<Point>)
    requires
        path.len() > 0,
    ensures
        1_000_000_000_000 * squared_distance(path[0], path.last()) <= path_length(path) * path_length(
            path,
        ),
    decreases path.len(),
{
    if path.len() == 1 {
        lemma_squared_distance(path[0], path[0]);
        assert(path_length(path) * path_length(path) == 0) by (nonlinear_arith)
            requires
                path_length(path) == 0,
        ;
    } else {
        let shorter = path.drop_last();
        lemma_path_length_bound(shorter);
        let a = path[0];
        let b = shorter.last();
        let c = path.last();
        assert(shorter[0] == a);
        assert(b == path[path.len() - 2]);
        let last = step_length(b, c);
        lemma_ceil_sqrt_bounds(1_000_000_000_000 * squared_distance(b, c));
        let vx = b.x - a.x;
        let vy = b.y - a.y;
        let ex = c.x - b.x;
        let ey = c.y - b.y;
        lemma_squared_distance(a, b);
        lemma_squared_distance(b, c);
        lemma_squared_distance(a, c);
        assert(last * last >= 1_000_000_000_000 * (ex * ex + ey * ey));
        lemma_triangle(vx, vy, ex, ey, path_length(shorter) as int, last as int);
        let wx = c.x - a.x;
        let wy = c.y - a.y;
        assert(wx == vx + ex && wy == vy + ey);
        assert(squared_distance(a, c) == wx * wx + wy * wy);
        assert(wx * wx + wy * wy == (vx + ex) * (vx + ex) + (vy + ey) * (vy + ey))
            by (nonlinear_arith)
            requires
                wx == vx + ex,
                wy == vy + ey,
        ;
        assert(path_length(path) == path_length(shorter) + last);
    }
}

/// The straight-line estimate between the ends of a path does not exceed
/// its length.
pub proof fn lemma_estimate_below_length(path: Seq<Point>)
    requires
        path.len() > 0,
    ensures
        estimated_distance(path[0], path.last()) <= path_length(path),
{
    lemma_path_length_bound(path);
    let n = 1_000_000_000_000 * squared_distance(path[0], path.last());
    lemma_floor_sqrt_bounds(n);
    lemma_square_order(floor_sqrt(n) as int, path_length(path) as int);
}

/// Under a strategy that does not scale costs down, every edge weighs at
/// least a thousand times its length.
pub proof fn lemma_step_cost_bound(strategy: Strategy, grid: Grid, p: Point, q: Point)
    requires
        admissible(strategy),
        enterable(grid, q),
    ensures
        strategy.step_cost(grid, p, q) >= 1000 * step_length(p, q),
{
    let cost = grid.movement_cost(q.x as int, q.y as int);
    assert(cost >= 1000);
    let counted = strategy.entry_cost(cost);
    match strategy {
        Strategy::EnergyWeighted { weight } => {
            assert(cost * weight >= cost * 1000) by (nonlinear_arith)
                requires
                    weight >= 1000,
                    cost >= 0,
            ;
        },
        _ => {},
    }
    assert(counted >= 1000);
    assert(counted * step_length(p, q) >= 1000 * step_length(p, q)) by (nonlinear_arith)
        requires
            counted >= 1000,
            step_length(p, q) >= 0,
    ;
}

/// Under a strategy that does not scale costs down, a walk costs at least
/// a thousand times its length.
pub proof fn lemma_route_cost_bound(strategy: Strategy, grid: Grid, path: Seq<Point>)
    requires
        admissible(strategy),
        is_walk(grid, path),
    ensures
        route_cost(strategy, grid, path) >= 1000 * path_length(path),
    decreases path.len(),
{
    if path.len() > 1 {
        let shorter = path.drop_last();
        assert(is_walk(grid, shorter)) by {
            assert forall|i: int| 0 < i < shorter.len() implies is_step(
                grid,
                shorter[i - 1],
                #[trigger] shorter[i],
            ) by {
                assert(is_step(grid, path[i - 1], path[i]));
            }
        }
        lemma_route_cost_bound(strategy, grid, shorter);
        assert(is_step(grid, path[path.len() - 2], path[path.len() - 1]));
        lemma_step_cost_bound(strategy, grid, path[path.len() - 2], path.last());
    }
}

/// The cost of a route is the cost of its beginning plus the cost of
/// the rest.
pub proof fn lemma_route_cost_split(strategy: Strategy, grid: Grid, path: Seq<Point>, i: int)
    requires
        0 <= i < path.len(),
    ensures
        route_cost(strategy, grid, path) == route_cost(strategy, grid, path.take(i + 1))
            + route_cost(strategy, grid, path.subrange(i, path.len() as int)),
    decreases path.len(),
{
    let len = path.len() as int;
    if i == len - 1 {
        assert(path.take(i + 1) =~= path);
        assert(path.subrange(i, len).len() == 1);
    } else {
        let shorter = path.drop_last();
        lemma_route_cost_split(strategy, grid, shorter, i);
        assert(shorter.take(i + 1) =~= path.take(i + 1));
        let rest = path.subrange(i, len);
        assert(rest.drop_last() =~= shorter.subrange(i, len - 1));
        assert(rest.last() == path.last());
        assert(rest[rest.len() - 2] == path[len - 2]);
    }
}

/// Under a strategy that does not scale costs down, the estimate at a
/// cell of a walk to the goal does not exceed the cost of the rest of
/// the walk.
pub proof fn lemma_estimate_admissible(
    strategy: Strategy,
    grid: Grid,
    goal: Point,
    path: Seq<Point>,
    i: int,
)
    requires
        admissible(strategy),
        is_walk(grid, path),
        0 <= i < path.len(),
        path.last() == goal,
    ensures
        strategy.estimate(path[i], goal) <= route_cost(
            strategy,
            grid,
            path.subrange(i, path.len() as int),
        ),
{
    let rest = path.subrange(i, path.len() as int);
    assert(is_walk(grid, rest)) by {
        assert forall|j: int| 0 < j < rest.len() implies is_step(
            grid,
            rest[j - 1],
            #[trigger] rest[j],
        ) by {
            assert(is_step(grid, path[i + j - 1], path[i + j]));
        }
    }
    lemma_route_cost_bound(strategy, grid, rest);
    lemma_estimate_below_length(rest);
    assert(rest[0] == path[i]);
    assert(rest.last() == goal);
}

/// The lineage of a cell costs no more than what is recorded for the
/// cell.
pub proof fn lemma_lineage_cost(
    strategy: Strategy,
    grid: Grid,
    start: Point,
    goal: Point,
    s: SearchState,
    rank: spec_fn(Point) -> nat,
    bound: nat,
    path: Seq<Point>,
)
    requires
        consistent(strategy, grid, start, goal, s, rank, bound),
        lineage(s.records, path),
    ensures
        route_cost(strategy, grid, path) <= s.records[path.last()].g_cost,
    decreases path.len(),
{
    if path.len() > 1 {
        lemma_lineage_drop_last(s.records, path);
        lemma_lineage_cost(strategy, grid, start, goal, s, rank, bound, path.drop_last());
        let c = path[path.len() - 1];
        assert(s.records.dom().contains(c));
        assert(well_recorded(strategy, grid, start, s.records, rank, c));
        assert(well_recorded(strategy, grid, start, s.records, rank, path[0]));
        assert(s.records.dom().contains(path[0]));
        assert(s.records[c].parent == Some(path[path.len() - 2]));
    }
}

/// Along a walk from the start the search has come at least as far as
/// the walk: up to cell `j` there is a cell that is
/// queued at no more than the walk costs up to it, or cell `j` itself is
/// settled at no more than that. Returns the position of that cell.
pub proof fn lemma_walk_meets_frontier(
    strategy: Strategy,
    grid: Grid,
    start: Point,
    goal: Point,
    n: nat,
    walk: Seq<Point>,
    j: int,
) -> (i: int)
    requires
        is_walk(grid, walk),
        0 <= j < walk.len(),
        walk[0] == start,
    ensures
        0 <= i <= j,
        ({
            let s = run(strategy, grid, start, goal, n);
            &&& s.records.dom().contains(walk[i])
            &&& s.records[walk[i]].g_cost <= route_cost(strategy, grid, walk.take(i + 1))
            &&& queued(s, walk[i]) || (i == j && settled(strategy, grid, s, walk[j]))
        }),
    decreases j,
{
    let s = run(strategy, grid, start, goal, n);
    lemma_run_frontier(strategy, grid, start, goal, n);
    let w = lemma_run_consistent(strategy, grid, start, goal, n);
    if j == 0 {
        assert(well_recorded(strategy, grid, start, s.records, w.0, start));
        0
    } else {
        let i = lemma_walk_meets_frontier(strategy, grid, start, goal, n, walk, j - 1);
        if queued(s, walk[i]) {
            i
        } else {
            let u = walk[j - 1];
            let v = walk[j];
            assert(settled_toward(strategy, grid, s, u, v));
            assert(is_step(grid, u, v));
            let upto = walk.take(j + 1);
            assert(upto.drop_last() =~= walk.take(j));
            assert(upto.last() == v);
            assert(upto[upto.len() - 2] == u);
            lemma_route_cost_split(strategy, grid, walk, j);
            j
        }
    }
}

/// Under a strategy that does not scale costs down, the search finds a
/// route wherever there is one, and no route is cheaper than the one it
/// returns.
pub proof fn lemma_outcome_is_cheapest(
    strategy: Strategy,
    grid: Grid,
    start: Point,
    goal: Point,
    path: Seq<Point>,
    other: Seq<Point>,
)
    requires
        admissible(strategy),
        is_outcome(strategy, grid, start, goal, path),
        is_route(grid, start, goal, other),
    ensures
        path.len() > 0,
        route_cost(strategy, grid, path) <= route_cost(strategy, grid, other),
{
    let n = choose|n: nat| yields(#[trigger] run(strategy, grid, start, goal, n), goal, path);
    let s = run(strategy, grid, start, goal, n);
    let w = lemma_run_consistent(strategy, grid, start, goal, n);
    lemma_run_frontier(strategy, grid, start, goal, n);
    let last = other.len() - 1;
    let i = lemma_walk_meets_frontier(strategy, grid, start, goal, n, other, last);
    assert(queued(s, other[i])) by {
        if !queued(s, other[i]) {
            assert(other[i] == goal);
        }
    }
    let k = choose|k: int|
        0 <= k < s.open.len() && (#[trigger] s.open[k]).position == other[i] && s.open[k].g_cost
            == s.records[other[i]].g_cost;
    let found = s.open[k];
    lemma_select(s.open);
    let chosen = s.open[select(s.open)];
    assert(!found.precedes(chosen));
    assert(well_queued(strategy, goal, s.records, found));
    assert(well_queued(strategy, goal, s.records, chosen));
    lemma_estimate_admissible(strategy, grid, goal, other, i);
    lemma_route_cost_split(strategy, grid, other, i);
    assert(found.f_cost <= route_cost(strategy, grid, other));
    assert(chosen.position == goal);
    assert(strategy.estimate(goal, goal) == 0) by {
        lemma_squared_distance(goal, goal);
        assert(crate::fixed::is_floor_sqrt(0, 0)) by (nonlinear_arith);
        lemma_floor_sqrt_unique(0, 0);
    }
    lemma_lineage_cost(strategy, grid, start, goal, s, w.0, w.1, path);
}

/// Whatever the strategy, the search returns a path exactly where some
/// route leads from the start to the goal.
pub proof fn lemma_outcome_found(
    strategy: Strategy,
    grid: Grid,
    start: Point,
    goal: Point,
    path: Seq<Point>,
)
    requires
        is_outcome(strategy, grid, start, goal, path),
    ensures
        path.len() > 0 <==> reachable(grid, start, goal),
{
    if path.len() > 0 {
        lemma_outcome_is_route(strategy, grid, start, goal, path);
    } else if reachable(grid, start, goal) {
        let other = choose|other: Seq<Point>| is_route(grid, start, goal, other);
        let n = choose|n: nat| yields(#[trigger] run(strategy, grid, start, goal, n), goal, path);
        let s = run(strategy, grid, start, goal, n);
        lemma_run_frontier(strategy, grid, start, goal, n);
        let i = lemma_walk_meets_frontier(
            strategy,
            grid,
            start,
            goal,
            n,
            other,
            other.len() - 1,
        );
        if !queued(s, other[i]) {
            assert(other[i] == goal);
        }
        let k = choose|k: int|
            0 <= k < s.open.len() && (#[trigger] s.open[k]).position == other[i]
                && s.open[k].g_cost == s.records[other[i]].g_cost;
    }
}

/// A* and Dijkstra return routes of the same cost.
pub proof fn lemma_astar_costs_as_dijkstra(
    grid: Grid,
    start: Point,
    goal: Point,
    guided: Seq<Point>,
    blind: Seq<Point>,
)
    requires
        is_outcome(Strategy::AStar, grid, start, goal, guided),
        is_outcome(Strategy::Dijkstra, grid, start, goal, blind),
    ensures
        guided.len() == 0 <==> blind.len() == 0,
        route_cost(Strategy::AStar, grid, guided) == route_cost(Strategy::Dijkstra, grid, blind),
{
    lemma_route_cost_same(grid, guided);
    lemma_route_cost_same(grid, blind);
    if guided.len() > 0 {
        lemma_outcome_is_route(Strategy::AStar, grid, start, goal, guided);
        lemma_outcome_is_cheapest(Strategy::Dijkstra, grid, start, goal, blind, guided);
    }
    if blind.len() > 0 {
        lemma_outcome_is_route(Strategy::Dijkstra, grid, start, goal, blind);
        lemma_outcome_is_cheapest(Strategy::AStar, grid, start, goal, guided, blind);
    }
}

/// A* and Dijkstra count the cost of a route alike.
pub proof fn lemma_route_cost_same(grid: Grid, path: Seq<Point>)
    ensures
        route_cost(Strategy::AStar, grid, path) == route_cost(Strategy::Dijkstra, grid, path),
    decreases path.len(),
{
    if path.len() > 1 {
        lemma_route_cost_same(grid, path.drop_last());
    }
}

} // verus!
