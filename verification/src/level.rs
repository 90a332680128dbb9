//! Level ground: on a grid where every cell costs one unit, the cheapest
//! routes are those with the fewest steps and, among them, the fewest
//! diagonal steps.

use crate::cheapest::lemma_outcome_is_cheapest;
use crate::route::{
    chebyshev, is_route, is_step, is_walk, lemma_step_lengths, manhattan, path_length, route_cost,
    step_length,
};
use crate::search::{is_outcome, Strategy};
use crate::search_laws::lemma_outcome_is_route;
use crate::terrain::{adjacent, Grid, Point};
use vstd::prelude::*;

verus! {

/// Whether every cell of the grid costs one unit to enter, as it does
/// where all terrain is normal, flat and calm.
pub open spec fn level(grid: Grid) -> bool {
    forall|x: int, y: int| grid.contains(x, y) ==> #[trigger] grid.movement_cost(x, y) == 1000
}

/// The beginning of a walk is a walk.
pub proof fn lemma_walk_drop_last(grid: Grid, path: Seq<Point>)
    requires
        is_walk(grid, path),
        path.len() > 0,
    ensures
        is_walk(grid, path.drop_last()),
{
    let shorter = path.drop_last();
    assert forall|i: int| 0 < i < shorter.len() implies is_step(
        grid,
        shorter[i - 1],
        #[trigger] shorter[i],
    ) by {
        assert(is_step(grid, path[i - 1], path[i]));
    }
}

/// A walk has at least as many steps as its ends are apart, and each
/// step beyond that, like each diagonal step that could have been
/// orthogonal, adds to its length.
pub proof fn lemma_walk_metrics(grid: Grid, path: Seq<Point>)
    requires
        is_walk(grid, path),
        path.len() > 0,
    ensures
        path.len() - 1 >= chebyshev(path[0], path.last()),
        path_length(path) >= 585_786 * (path.len() - 1) + 414_214 * manhattan(
            path[0],
            path.last(),
        ),
    decreases path.len(),
{
    if path.len() > 1 {
        let shorter = path.drop_last();
        lemma_walk_drop_last(grid, path);
        lemma_walk_metrics(grid, shorter);
        let b = path[path.len() - 2];
        let c = path[path.len() - 1];
        assert(shorter.last() == b);
        assert(shorter[0] == path[0]);
        assert(is_step(grid, b, c));
        lemma_step_lengths(b, c);
    }
}

/// On level ground a walk costs a thousand times its length under the
/// strategies that take movement costs as they are.
pub proof fn lemma_level_route_cost(strategy: Strategy, grid: Grid, path: Seq<Point>)
    requires
        level(grid),
        is_walk(grid, path),
        strategy == Strategy::AStar || strategy == Strategy::Dijkstra,
    ensures
        route_cost(strategy, grid, path) == 1000 * path_length(path),
    decreases path.len(),
{
    if path.len() > 1 {
        lemma_walk_drop_last(grid, path);
        lemma_level_route_cost(strategy, grid, path.drop_last());
        let b = path[path.len() - 2];
        let c = path[path.len() - 1];
        assert(is_step(grid, b, c));
        assert(grid.contains(c.x as int, c.y as int));
        assert(grid.movement_cost(c.x as int, c.y as int) == 1000);
        assert(strategy.entry_cost(1000) == 1000);
        assert(path.last() == c);
        assert(strategy.step_cost(grid, b, c) == 1000 * step_length(b, c));
    }
}

/// The cell one step from `to` towards `from`.
pub open spec fn towards(to: Point, from: Point) -> Point {
    Point {
        x: (if to.x > from.x {
            to.x - 1
        } else if to.x < from.x {
            to.x + 1
        } else {
            to.x as int
        }) as i32,
        y: (if to.y > from.y {
            to.y - 1
        } else if to.y < from.y {
            to.y + 1
        } else {
            to.y as int
        }) as i32,
    }
}

/// The walk from `from` to `to` that goes diagonally as long as both
/// coordinates differ and straight after that, built from its end.
pub open spec fn beeline(from: Point, to: Point) -> Seq<Point>
    decreases chebyshev(from, to),
{
    if from == to {
        seq![from]
    } else {
        beeline(from, towards(to, from)).push(to)
    }
}

/// Between two cells of level ground the beeline is a route, with as
/// many steps as the cells are apart and no longer than it must be.
pub proof fn lemma_beeline(grid: Grid, from: Point, to: Point)
    requires
        level(grid),
        grid.contains(from.x as int, from.y as int),
        grid.contains(to.x as int, to.y as int),
    ensures
        is_route(grid, from, to, beeline(from, to)),
        beeline(from, to).len() == chebyshev(from, to) + 1,
        path_length(beeline(from, to)) == 585_786 * chebyshev(from, to) + 414_214 * manhattan(
            from,
            to,
        ),
    decreases chebyshev(from, to),
{
    let path = beeline(from, to);
    if from != to {
        let before = towards(to, from);
        lemma_beeline(grid, from, before);
        let shorter = beeline(from, before);
        assert(path == shorter.push(to));
        assert(adjacent(before, to));
        lemma_step_lengths(before, to);
        assert(grid.movement_cost(to.x as int, to.y as int) == 1000);
        assert(is_step(grid, before, to));
        assert(path.drop_last() =~= shorter);
        assert(path[path.len() - 2] == before);
        assert forall|i: int| 0 < i < path.len() implies is_step(
            grid,
            path[i - 1],
            #[trigger] path[i],
        ) by {
            if i < shorter.len() {
                assert(is_step(grid, shorter[i - 1], shorter[i]));
            }
        }
    }
}

/// On a grid without obstacles where all terrain is normal, flat and
/// calm, A* and Dijkstra return a path of as many cells as the larger
/// coordinate difference between start and goal, plus one.
pub proof fn lemma_level_outcome_length(
    strategy: Strategy,
    grid: Grid,
    start: Point,
    goal: Point,
    path: Seq<Point>,
)
    requires
        level(grid),
        grid.contains(start.x as int, start.y as int),
        grid.contains(goal.x as int, goal.y as int),
        strategy == Strategy::AStar || strategy == Strategy::Dijkstra,
        is_outcome(strategy, grid, start, goal, path),
    ensures
        path.len() == chebyshev(start, goal) + 1,
{
    let direct = beeline(start, goal);
    lemma_beeline(grid, start, goal);
    lemma_level_route_cost(strategy, grid, direct);
    lemma_outcome_is_cheapest(strategy, grid, start, goal, path, direct);
    lemma_outcome_is_route(strategy, grid, start, goal, path);
    lemma_level_route_cost(strategy, grid, path);
    lemma_walk_metrics(grid, path);
}

} // verus!
