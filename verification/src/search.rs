//! The model of the best-first search that the queue-driven strategies
//! share: the open list, the table of best known costs and parents, and
//! the step that pops one entry and relaxes its neighbours.
//!
//! Cumulative costs are sums of products of a movement cost in
//! thousandths and a step length in millionths, so they are counted in
//! thousand-millionths. They are held in 128 bits, which the cost of no
//! way without a repeated cell can exceed.

use crate::route::step_length;
use crate::terrain::{estimated_distance, squared_distance, Grid, Point, IMPASSABLE};
use vstd::prelude::*;

verus! {

/// The queue-driven search strategies.
#[derive(Debug, Clone, Copy, PartialEq, Eq, Structural)]
pub enum Strategy {
    /// Ordered by cost so far plus the straight-line estimate to the goal.
    AStar,
    /// Ordered by cost so far alone.
    Dijkstra,
    /// As `AStar`, with every movement cost scaled by `weight` thousandths.
    EnergyWeighted { weight: u32 },
}

impl Strategy {
    /// The estimate of the remaining cost from `p` to `goal`: the
    /// straight-line distance at the least cost of a cell, one unit.
    pub open spec fn estimate(self, p: Point, goal: Point) -> nat {
        match self {
            Strategy::Dijkstra => 0,
            _ => 1000 * estimated_distance(p, goal),
        }
    }

    /// What entering a cell of the given movement cost counts for.
    pub open spec fn entry_cost(self, cost: nat) -> nat {
        match self {
            Strategy::EnergyWeighted { weight } => (cost * weight / 1000) as nat,
            _ => cost,
        }
    }

    /// The weight of the edge from `p` to `q`: what entering `q` counts
    /// for, times the length of the step.
    pub open spec fn step_cost(self, grid: Grid, p: Point, q: Point) -> nat {
        self.entry_cost(grid.movement_cost(q.x as int, q.y as int)) * step_length(p, q)
    }
}

/// An entry of the open list.
#[derive(Debug, Clone, Copy)]
pub struct PathNode {
    pub position: Point,
    /// Cost from the start.
    pub g_cost: u128,
    /// Estimate to the goal.
    pub h_cost: u64,
    /// Their sum, by which the open list is ordered.
    pub f_cost: u128,
    pub parent: Option<Point>,
}

impl PathNode {
    /// An entry whose total is the sum of its cost and its estimate.
    pub fn new(position: Point, g_cost: u128, h_cost: u64, parent: Option<Point>) -> (node:
        PathNode)
        requires
            g_cost + h_cost <= u128::MAX,
        ensures
            node == (PathNode {
                position,
                g_cost,
                h_cost,
                f_cost: (g_cost + h_cost) as u128,
                parent,
            }),
    {
        PathNode { position, g_cost, h_cost, f_cost: g_cost + h_cost as u128, parent }
    }

    /// Whether `self` leaves the open list before `other`: it has the
    /// smaller total, or the same total and the smaller estimate.
    pub open spec fn precedes(self, other: PathNode) -> bool {
        self.f_cost < other.f_cost || (self.f_cost == other.f_cost && self.h_cost < other.h_cost)
    }

    /// Whether `self` leaves the open list before `other`.
    pub fn comes_before(&self, other: &PathNode) -> (before: bool)
        ensures
            before == self.precedes(*other),
    {
        self.f_cost < other.f_cost || (self.f_cost == other.f_cost && self.h_cost < other.h_cost)
    }
}

/// What the search knows of a cell that it has reached: the best cost
/// found so far and the cell it was reached from.
#[derive(Debug, Clone, Copy)]
pub struct Record {
    pub g_cost: u128,
    pub parent: Option<Point>,
}

/// The state of a search between two pops.
pub struct SearchState {
    pub open: Seq<PathNode>,
    pub records: Map<Point, Record>,
}

/// The position in `open` of the entry that leaves first among the first
/// `k`: none of them precedes it, and it precedes those before it.
pub open spec fn select_among(open: Seq<PathNode>, k: nat) -> int
    decreases k,
{
    if k <= 1 {
        0
    } else {
        let i = select_among(open, (k - 1) as nat);
        if open[k - 1].precedes(open[i]) {
            k - 1
        } else {
            i
        }
    }
}

/// The position of the entry that leaves the open list next. Among
/// entries of equal total and estimate the one pushed first leaves first.
pub open spec fn select(open: Seq<PathNode>) -> int {
    select_among(open, open.len())
}

/// The state before the first pop: the start alone, at cost zero and
/// without a parent.
pub open spec fn initial(strategy: Strategy, start: Point, goal: Point) -> SearchState {
    let h = strategy.estimate(start, goal);
    SearchState {
        open: seq![
            PathNode {
                position: start,
                g_cost: 0,
                h_cost: h as u64,
                f_cost: h as u128,
                parent: None,
            },
        ],
        records: map![start => Record { g_cost: 0, parent: None }],
    }
}

/// The search is over when the open list is empty or its next entry is
/// the goal.
pub open spec fn finished(s: SearchState, goal: Point) -> bool {
    s.open.len() == 0 || s.open[select(s.open)].position == goal
}

/// Relaxing the edge from the popped entry `current` to its neighbour
/// `n`. The neighbour is skipped when its movement cost reaches the
/// impassable sentinel. It is recorded and pushed when it is new or when
/// the way through `current` is strictly cheaper than the best known.
pub open spec fn relax(
    strategy: Strategy,
    grid: Grid,
    goal: Point,
    s: SearchState,
    current: PathNode,
    n: Point,
) -> SearchState {
    let tentative = current.g_cost + strategy.step_cost(grid, current.position, n);
    if grid.movement_cost(n.x as int, n.y as int) >= IMPASSABLE {
        s
    } else if !s.records.dom().contains(n) || tentative < s.records[n].g_cost {
        let h = strategy.estimate(n, goal);
        SearchState {
            open: s.open.push(
                PathNode {
                    position: n,
                    g_cost: tentative as u128,
                    h_cost: h as u64,
                    f_cost: (tentative + h) as u128,
                    parent: Some(current.position),
                },
            ),
            records: s.records.insert(
                n,
                Record { g_cost: tentative as u128, parent: Some(current.position) },
            ),
        }
    } else {
        s
    }
}

/// Relaxing the edges to the first `k` of `neighbors`, in order.
pub open spec fn expand(
    strategy: Strategy,
    grid: Grid,
    goal: Point,
    s: SearchState,
    current: PathNode,
    neighbors: Seq<Point>,
    k: nat,
) -> SearchState
    decreases k,
{
    if k == 0 {
        s
    } else {
        relax(
            strategy,
            grid,
            goal,
            expand(strategy, grid, goal, s, current, neighbors, (k - 1) as nat),
            current,
            neighbors[k - 1],
        )
    }
}

/// One round of the search: pop the next entry and relax the edges to
/// all its neighbours. A finished search stays as it is.
pub open spec fn step(strategy: Strategy, grid: Grid, goal: Point, s: SearchState) -> SearchState {
    if finished(s, goal) {
        s
    } else {
        let i = select(s.open);
        let current = s.open[i];
        let neighbors = grid.neighbors(current.position);
        expand(
            strategy,
            grid,
            goal,
            SearchState { open: s.open.remove(i), records: s.records },
            current,
            neighbors,
            neighbors.len(),
        )
    }
}

/// The state after `n` rounds.
pub open spec fn run(strategy: Strategy, grid: Grid, start: Point, goal: Point, n: nat) -> SearchState
    decreases n,
{
    if n == 0 {
        initial(strategy, start, goal)
    } else {
        step(strategy, grid, goal, run(strategy, grid, start, goal, (n - 1) as nat))
    }
}

/// Whether `path` follows the recorded parents: it begins at a cell
/// without a parent, and each later cell was reached from the one before.
pub open spec fn lineage(records: Map<Point, Record>, path: Seq<Point>) -> bool {
    &&& path.len() > 0
    &&& forall|i: int| 0 <= i < path.len() ==> records.dom().contains(#[trigger] path[i])
    &&& records[path[0]].parent is None
    &&& forall|i: int| 0 < i < path.len() ==> (#[trigger] records[path[i]]).parent == Some(path[i - 1])
}

/// What a finished search returns: nothing when the open list ran empty,
/// else the lineage of the goal.
pub open spec fn yields(s: SearchState, goal: Point, path: Seq<Point>) -> bool {
    &&& finished(s, goal)
    &&& if s.open.len() == 0 {
        path.len() == 0
    } else {
        lineage(s.records, path) && path.last() == goal
    }
}

/// Whether `path` is what the search for a way from `start` to `goal`
/// returns: the result of the first finished state that the rounds reach.
pub open spec fn is_outcome(
    strategy: Strategy,
    grid: Grid,
    start: Point,
    goal: Point,
    path: Seq<Point>,
) -> bool {
    exists|n: nat| yields(#[trigger] run(strategy, grid, start, goal, n), goal, path)
}

/// The position among the first `k` of `neighbors` of the first cell
/// with the least straight-line distance to `goal`. Distances are
/// compared by their squares, which is exact.
pub open spec fn nearest_among(neighbors: Seq<Point>, goal: Point, k: nat) -> int
    decreases k,
{
    if k <= 1 {
        0
    } else {
        let i = nearest_among(neighbors, goal, (k - 1) as nat);
        if squared_distance(neighbors[k - 1], goal) < squared_distance(neighbors[i], goal) {
            k - 1
        } else {
            i
        }
    }
}

/// Where the greedy strategy goes from `current`: to the neighbour
/// nearest to the goal by the straight line, the first of them in
/// direction order; nowhere when there is no neighbour.
pub open spec fn greedy_choice(grid: Grid, current: Point, goal: Point) -> Option<Point> {
    let neighbors = grid.neighbors(current);
    if neighbors.len() == 0 {
        None
    } else {
        Some(neighbors[nearest_among(neighbors, goal, neighbors.len())])
    }
}

/// The path of the greedy strategy, continued from `path`: it moves on
/// until it stands on the goal, has no neighbour to go to, or is longer
/// than `limit` cells.
pub open spec fn greedy_walk(grid: Grid, goal: Point, path: Seq<Point>, limit: nat) -> Seq<Point>
    decreases limit + 1 - path.len(),
{
    if path.len() == 0 || path.last() == goal {
        path
    } else {
        match greedy_choice(grid, path.last(), goal) {
            None => path,
            Some(next) => {
                if path.len() + 1 > limit {
                    path.push(next)
                } else {
                    greedy_walk(grid, goal, path.push(next), limit)
                }
            },
        }
    }
}

} // verus!
