//! The path search engine: four strategies over the grid graph, and the
//! statistics of the paths they return.

use crate::cheapest::{admissible, cheapest, lemma_outcome_found, lemma_outcome_is_cheapest};
use crate::fixed::{isqrt_ceil, lemma_ceil_sqrt_bounds, lemma_floor_sqrt_bounds};
use crate::ledger::Ledger;
use crate::level::{lemma_level_outcome_length, level};
use crate::route::{
    all_passable, chebyshev, is_route, lemma_step_cost_limit, path_cost, path_length, reachable,
    route_cost, step_length, HEAVIEST_STEP,
};
use crate::search::{
    expand, greedy_choice, greedy_walk, initial, is_outcome, lineage, nearest_among, relax, run,
    select, select_among, yields, PathNode, Record, SearchState, Strategy,
};
use crate::search_laws::{
    consistent, cost_limit, greedy_shaped, lemma_records_counted, lemma_estimate_bound, lemma_greedy_path, lemma_outcome_at_goal,
    lemma_outcome_is_passable, lemma_outcome_is_route, lemma_run_consistent, well_queued,
    well_recorded,
};
use crate::terrain::{squared_distance, squared_distance_of, Grid, Point, Terrain, IMPASSABLE};
use vstd::prelude::*;

verus! {

/// The position of the entry that leaves the open list next.
fn pick(open: &Vec<PathNode>) -> (i: usize)
    requires
        open.len() > 0,
    ensures
        i == select(open@),
        i < open.len(),
{
    let mut best: usize = 0;
    let mut k: usize = 1;
    while k < open.len()
        invariant
            1 <= k <= open.len(),
            best < k,
            best == select_among(open@, k as nat),
        decreases open.len() - k,
    {
        if open[k].comes_before(&open[best]) {
            best = k;
        }
        k += 1;
    }
    best
}

/// What entering a cell of the given movement cost counts for.
fn entry_cost(strategy: Strategy, cost: u64) -> (counted: u64)
    requires
        cost < IMPASSABLE,
    ensures
        counted == strategy.entry_cost(cost as nat),
        counted <= 4_294_967_295_000,
{
    match strategy {
        Strategy::EnergyWeighted { weight } => {
            assert(cost * weight <= 1_000_000 * 0xffff_ffff) by (nonlinear_arith)
                requires
                    0 <= cost < 1_000_000,
                    0 <= weight <= 0xffff_ffff,
            ;
            cost * (weight as u64) / 1000
        },
        _ => cost,
    }
}

/// The elements of `v` in reverse order.
fn reversed(v: &Vec<Point>) -> (r: Vec<Point>)
    ensures
        r@ == v@.reverse(),
{
    let mut r: Vec<Point> = Vec::new();
    let mut k: usize = v.len();
    while k > 0
        invariant
            k <= v.len(),
            r.len() == v.len() - k,
            forall|i: int| 0 <= i < r.len() ==> r[i] == v[v.len() - 1 - i],
        decreases k,
    {
        k -= 1;
        r.push(v[k]);
    }
    assert(r@ =~= v@.reverse());
    r
}

/// What a report says of a path.
#[derive(Debug, Clone, Copy)]
pub struct PathStatistics {
    /// The number of cells of the path.
    pub steps: usize,
    /// The sum of the lengths of its steps, in millionths of a cell side.
    pub total_distance: u128,
    /// The sum of the movement costs of its cells, in thousandths.
    pub total_cost: u128,
    /// The total cost divided by the number of cells, rounded down.
    pub average_cost: u128,
    /// Whether all its cells are passable.
    pub valid: bool,
}

/// The path search engine over one terrain.
pub struct Optimizer<'a> {
    terrain: &'a Terrain,
}

impl<'a> View for Optimizer<'a> {
    type V = Grid;

    closed spec fn view(&self) -> Grid {
        self.terrain@
    }
}

impl<'a> Optimizer<'a> {
    /// An engine that searches `terrain`.
    pub fn new(terrain: &'a Terrain) -> (optimizer: Self)
        ensures
            optimizer@ == terrain@,
    {
        Optimizer { terrain }
    }

    /// The length of the straight line between two cells, in millionths
    /// of a cell side, rounded up.
    pub fn calculate_distance(&self, a: &Point, b: &Point) -> (distance: u64)
        ensures
            distance == step_length(*a, *b),
            distance < 0x20_0000_0000_0001,
    {
        let d = squared_distance_of(a, b);
        let root = isqrt_ceil(1_000_000_000_000 * d);
        proof {
            let n = (1_000_000_000_000 * d) as nat;
            lemma_ceil_sqrt_bounds(n);
            lemma_floor_sqrt_bounds(n);
            let r = crate::fixed::floor_sqrt(n);
            if r >= 0x20_0000_0000_0000 {
                assert(r * r >= 0x20_0000_0000_0000 * 0x20_0000_0000_0000) by (nonlinear_arith)
                    requires
                        r >= 0x20_0000_0000_0000,
                ;
            }
        }
        root as u64
    }

    /// The estimate of the remaining cost from `p` to `goal`.
    fn estimate(&self, strategy: Strategy, p: &Point, goal: &Point) -> (h: u64)
        ensures
            h == strategy.estimate(*p, *goal),
    {
        proof {
            lemma_estimate_bound(strategy, *p, *goal);
        }
        match strategy {
            Strategy::Dijkstra => 0,
            _ => 1000 * self.terrain.get_heuristic_cost(p, goal),
        }
    }

    /// The default strategy: A*.
    pub fn find_path(&self, start: &Point, goal: &Point) -> (path: Vec<Point>)
        ensures
            is_outcome(Strategy::AStar, self@, *start, *goal, path@),
            path@.len() > 0 <==> reachable(self@, *start, *goal),
            path@.len() > 0 ==> is_route(self@, *start, *goal, path@) && path@.no_duplicates(),
            *start == *goal ==> path@ == seq![*start],
            cheapest(Strategy::AStar, self@, *start, *goal, path@),
            self@.passable(start.x as int, start.y as int) ==> all_passable(self@, path@),
            level(self@) && self@.contains(start.x as int, start.y as int) && self@.contains(
                goal.x as int,
                goal.y as int,
            ) ==> path@.len() == chebyshev(*start, *goal) + 1,
    {
        self.find_path_astar(start, goal)
    }

    /// A*: the open list is ordered by the cost so far plus the
    /// straight-line estimate to the goal.
    pub fn find_path_astar(&self, start: &Point, goal: &Point) -> (path: Vec<Point>)
        ensures
            is_outcome(Strategy::AStar, self@, *start, *goal, path@),
            path@.len() > 0 <==> reachable(self@, *start, *goal),
            path@.len() > 0 ==> is_route(self@, *start, *goal, path@) && path@.no_duplicates(),
            *start == *goal ==> path@ == seq![*start],
            cheapest(Strategy::AStar, self@, *start, *goal, path@),
            self@.passable(start.x as int, start.y as int) ==> all_passable(self@, path@),
            level(self@) && self@.contains(start.x as int, start.y as int) && self@.contains(
                goal.x as int,
                goal.y as int,
            ) ==> path@.len() == chebyshev(*start, *goal) + 1,
    {
        self.search(Strategy::AStar, start, goal)
    }

    /// Dijkstra: the open list is ordered by the cost so far alone.
    pub fn find_path_dijkstra(&self, start: &Point, goal: &Point) -> (path: Vec<Point>)
        ensures
            is_outcome(Strategy::Dijkstra, self@, *start, *goal, path@),
            path@.len() > 0 <==> reachable(self@, *start, *goal),
            path@.len() > 0 ==> is_route(self@, *start, *goal, path@) && path@.no_duplicates(),
            *start == *goal ==> path@ == seq![*start],
            cheapest(Strategy::Dijkstra, self@, *start, *goal, path@),
            self@.passable(start.x as int, start.y as int) ==> all_passable(self@, path@),
            level(self@) && self@.contains(start.x as int, start.y as int) && self@.contains(
                goal.x as int,
                goal.y as int,
            ) ==> path@.len() == chebyshev(*start, *goal) + 1,
    {
        self.search(Strategy::Dijkstra, start, goal)
    }

    /// A* with every movement cost scaled by `energy_weight` thousandths.
    pub fn find_energy_optimal_path(&self, start: &Point, goal: &Point, energy_weight: u32) -> (path:
        Vec<Point>)
        ensures
            is_outcome(
                Strategy::EnergyWeighted { weight: energy_weight },
                self@,
                *start,
                *goal,
                path@,
            ),
            path@.len() > 0 <==> reachable(self@, *start, *goal),
            path@.len() > 0 ==> is_route(self@, *start, *goal, path@) && path@.no_duplicates(),
            *start == *goal ==> path@ == seq![*start],
            energy_weight >= 1000 ==> cheapest(
                Strategy::EnergyWeighted { weight: energy_weight },
                self@,
                *start,
                *goal,
                path@,
            ),
            self@.passable(start.x as int, start.y as int) ==> all_passable(self@, path@),
    {
        self.search(Strategy::EnergyWeighted { weight: energy_weight }, start, goal)
    }

    /// Greedy best-first without backtracking: from each cell the path
    /// moves to the neighbour nearest to the goal by the straight line,
    /// whatever it costs. The path ends on the goal, at a dead end, or
    /// when it has grown longer than the grid has cells; it is not
    /// optimal and need not reach the goal.
    pub fn find_path_greedy(&self, start: &Point, goal: &Point) -> (path: Vec<Point>)
        ensures
            path@ == greedy_walk(self@, *goal, seq![*start], self@.width * self@.height),
            greedy_shaped(self@, *start, path@, self@.width * self@.height),
            *start == *goal ==> path@ == seq![*start],
    {
        let ghost limit = self@.width * self@.height;
        proof {
            lemma_greedy_path(self@, *start, *goal);
        }
        let width = self.terrain.get_width() as u128;
        let height = self.terrain.get_height() as u128;
        assert(width * height <= 0xffff_ffff_ffff_ffff * 0xffff_ffff_ffff_ffff)
            by (nonlinear_arith)
            requires
                0 <= width <= 0xffff_ffff_ffff_ffff,
                0 <= height <= 0xffff_ffff_ffff_ffff,
        ;
        let cells: u128 = width * height;
        let mut path: Vec<Point> = Vec::new();
        let mut current = *start;
        path.push(current);
        while current != *goal
            invariant_except_break
                path@.last() == current,
                greedy_walk(self@, *goal, path@, limit) == greedy_walk(
                    self@,
                    *goal,
                    seq![*start],
                    limit,
                ),
            invariant
                limit == self@.width * self@.height,
                cells == limit,
                path.len() > 0,
            ensures
                path@ == greedy_walk(self@, *goal, seq![*start], limit),
            decreases limit + 1 - path.len(),
        {
            let neighbors = self.terrain.get_neighbors(&current);
            if neighbors.len() == 0 {
                break ;
            }
            let mut best_neighbor = neighbors[0];
            let mut best_cost = squared_distance_of(&best_neighbor, goal);
            let ghost mut best: int = 0;
            let mut k: usize = 1;
            while k < neighbors.len()
                invariant
                    1 <= k <= neighbors.len(),
                    0 <= best < k,
                    best == nearest_among(neighbors@, *goal, k as nat),
                    best_neighbor == neighbors[best],
                    best_cost == squared_distance(best_neighbor, *goal),
                decreases neighbors.len() - k,
            {
                let neighbor = neighbors[k];
                let cost = squared_distance_of(&neighbor, goal);
                if cost < best_cost {
                    best_cost = cost;
                    best_neighbor = neighbor;
                    proof {
                        best = k as int;
                    }
                }
                k += 1;
            }
            assert(greedy_choice(self@, current, *goal) == Some(best_neighbor));
            current = best_neighbor;
            path.push(current);
            if path.len() as u128 > cells {
                break ;
            }
        }
        path
    }

    /// Searches for a way from `start` to `goal` by the given strategy.
    /// Returns the cells from `start` to `goal`, both included, or
    /// nothing when the goal cannot be reached. A path that is returned
    /// follows edges of the grid graph and visits no cell twice.
    pub fn search(&self, strategy: Strategy, start: &Point, goal: &Point) -> (path: Vec<Point>)
        ensures
            is_outcome(strategy, self@, *start, *goal, path@),
            path@.len() > 0 <==> reachable(self@, *start, *goal),
            path@.len() > 0 ==> is_route(self@, *start, *goal, path@) && path@.no_duplicates(),
            *start == *goal ==> path@ == seq![*start],
            admissible(strategy) ==> cheapest(strategy, self@, *start, *goal, path@),
            self@.passable(start.x as int, start.y as int) ==> all_passable(self@, path@),
            (strategy == Strategy::AStar || strategy == Strategy::Dijkstra) && level(self@)
                && self@.contains(start.x as int, start.y as int) && self@.contains(
                goal.x as int,
                goal.y as int,
            ) ==> path@.len() == chebyshev(*start, *goal) + 1,
    {
        let path = self.run_search(strategy, start, goal);
        proof {
            lemma_outcome_found(strategy, self@, *start, *goal, path@);
            lemma_outcome_is_passable(strategy, self@, *start, *goal, path@);
            if (strategy == Strategy::AStar || strategy == Strategy::Dijkstra) && level(self@)
                && self@.contains(start.x as int, start.y as int) && self@.contains(
                goal.x as int,
                goal.y as int,
            ) {
                lemma_level_outcome_length(strategy, self@, *start, *goal, path@);
            }
            if path@.len() > 0 {
                lemma_outcome_is_route(strategy, self@, *start, *goal, path@);
            }
            if *start == *goal {
                lemma_outcome_at_goal(strategy, self@, *start, path@);
            }
            if admissible(strategy) {
                assert forall|other: Seq<Point>| #[trigger]
                    is_route(self@, *start, *goal, other) implies path@.len() > 0 && route_cost(
                    strategy,
                    self@,
                    path@,
                ) <= route_cost(strategy, self@, other) by {
                    lemma_outcome_is_cheapest(strategy, self@, *start, *goal, path@, other);
                }
            }
        }
        path
    }

    /// The rounds of the search: pop the next entry of the open list,
    /// stop when it is the goal, relax the edges to its neighbours.
    fn run_search(&self, strategy: Strategy, start: &Point, goal: &Point) -> (path: Vec<Point>)
        ensures
            is_outcome(strategy, self@, *start, *goal, path@),
    {
        let ghost grid = self@;
        let mut ledger = Ledger::new(self.terrain.get_width(), self.terrain.get_height(), *start);
        let mut open: Vec<PathNode> = Vec::new();
        let first = self.estimate(strategy, start, goal);
        open.push(PathNode::new(*start, 0, first, None));
        let ghost mut rounds: nat = 0;
        proof {
            assert(open@ =~= initial(strategy, *start, *goal).open);
        }
        loop
            invariant
                grid == self@,
                ledger.width() == grid.width,
                ledger.height() == grid.height,
                ledger.origin() == *start,
                (SearchState { open: open@, records: ledger@ }) == run(
                    strategy,
                    grid,
                    *start,
                    *goal,
                    rounds,
                ),
            decreases ledger.potential(), open.len(),
        {
            let ghost state = SearchState { open: open@, records: ledger@ };
            let ghost mut rank: spec_fn(Point) -> nat = |c: Point| 0nat;
            let ghost mut bound: nat = 0;
            proof {
                let w = lemma_run_consistent(strategy, grid, *start, *goal, rounds);
                rank = w.0;
                bound = w.1;
            }
            if open.len() == 0 {
                let path: Vec<Point> = Vec::new();
                proof {
                    assert(yields(run(strategy, grid, *start, *goal, rounds), *goal, path@));
                }
                return path;
            }
            let i = pick(&open);
            let current = open[i];
            proof {
                assert(well_queued(strategy, *goal, state.records, state.open[i as int]));
                lemma_records_counted(strategy, grid, *start, *goal, state, rank, bound);
            }
            if current.position == *goal {
                let path = self.reconstruct_path(
                    &ledger,
                    goal,
                    Ghost(strategy),
                    Ghost(*start),
                    Ghost(state),
                    Ghost(rank),
                    Ghost(bound),
                );
                proof {
                    assert(yields(run(strategy, grid, *start, *goal, rounds), *goal, path@));
                }
                return path;
            }
            open.remove(i);
            let neighbors = self.terrain.get_neighbors(&current.position);
            let ghost popped = SearchState { open: open@, records: ledger@ };
            let ghost potential = ledger.potential();
            let ghost length = open.len();
            let mut k: usize = 0;
            while k < neighbors.len()
                invariant
                    k <= neighbors.len(),
                    grid == self@,
                    neighbors@ == grid.neighbors(current.position),
                    ledger.width() == grid.width,
                    ledger.height() == grid.height,
                    ledger.origin() == *start,
                    (SearchState { open: open@, records: ledger@ }) == expand(
                        strategy,
                        grid,
                        *goal,
                        popped,
                        current,
                        neighbors@,
                        k as nat,
                    ),
                    ledger.potential() < potential || (ledger.potential() == potential
                        && open.len() == length),
                    current.g_cost <= cost_limit(),
                    cost_limit() + HEAVIEST_STEP + u64::MAX <= u128::MAX,
                decreases neighbors.len() - k,
            {
                let neighbor = neighbors[k];
                let ghost before = SearchState { open: open@, records: ledger@ };
                let movement_cost = self.terrain.get_movement_cost(&neighbor);
                if movement_cost < IMPASSABLE {
                    let distance = self.calculate_distance(&current.position, &neighbor);
                    let counted = entry_cost(strategy, movement_cost);
                    proof {
                        grid.lemma_neighbors(current.position);
                        assert(neighbors@.contains(neighbor));
                        lemma_step_cost_limit(strategy, grid, current.position, neighbor);
                    }
                    let tentative: u128 = current.g_cost + counted as u128 * distance as u128;
                    let improves = match ledger.get(&neighbor) {
                        None => true,
                        Some(record) => tentative < record.g_cost,
                    };
                    if improves {
                        let h_cost = self.estimate(strategy, &neighbor, goal);
                        ledger.put(
                            neighbor,
                            Record { g_cost: tentative, parent: Some(current.position) },
                        );
                        open.push(
                            PathNode::new(neighbor, tentative, h_cost, Some(current.position)),
                        );
                    }
                }
                proof {
                    let after = relax(strategy, grid, *goal, before, current, neighbor);
                    assert(open@ =~= after.open);
                    assert(ledger@ == after.records);
                }
                k += 1;
            }
            proof {
                rounds = rounds + 1;
            }
        }
    }

    /// Follows the recorded parents back from `goal` and returns the
    /// cells in travelling order.
    fn reconstruct_path(
        &self,
        ledger: &Ledger,
        goal: &Point,
        Ghost(strategy): Ghost<Strategy>,
        Ghost(start): Ghost<Point>,
        Ghost(state): Ghost<SearchState>,
        Ghost(rank): Ghost<spec_fn(Point) -> nat>,
        Ghost(bound): Ghost<nat>,
    ) -> (path: Vec<Point>)
        requires
            state.records == ledger@,
            consistent(strategy, self@, start, *goal, state, rank, bound),
            ledger@.dom().contains(*goal),
        ensures
            lineage(ledger@, path@),
            path@.last() == *goal,
    {
        let ghost records = ledger@;
        let mut trail: Vec<Point> = Vec::new();
        let mut current = *goal;
        loop
            invariant_except_break
                records.dom().contains(current),
                trail.len() == 0 ==> current == *goal,
                trail.len() > 0 ==> records[trail[trail.len() - 1]].parent == Some(current),
            invariant
                records == ledger@,
                state.records == records,
                consistent(strategy, self@, start, *goal, state, rank, bound),
                trail.len() > 0 ==> trail[0] == *goal,
                forall|j: int| 0 <= j < trail.len() ==> records.dom().contains(#[trigger] trail[j]),
                forall|j: int|
                    0 < j < trail.len() ==> (#[trigger] records[trail[j - 1]]).parent == Some(
                        trail[j],
                    ),
            ensures
                trail.len() > 0,
                records[trail[trail.len() - 1]].parent is None,
            decreases records[current].g_cost, rank(current),
        {
            trail.push(current);
            proof {
                assert(well_recorded(strategy, self@, start, records, rank, current));
            }
            let found = ledger.get(&current);
            match found {
                Some(Record { g_cost: _, parent: Some(parent) }) => {
                    current = parent;
                },
                _ => {
                    break ;
                },
            }
        }
        let path = reversed(&trail);
        proof {
            assert forall|i: int| 0 < i < path@.len() implies (#[trigger] records[path@[i]]).parent
                == Some(path@[i - 1]) by {
                let j = trail.len() - i;
                assert(path@[i] == trail[j - 1]);
                assert(path@[i - 1] == trail[j]);
                assert(records[trail[j - 1]].parent == Some(trail[j]));
            }
            assert forall|i: int| 0 <= i < path@.len() implies records.dom().contains(
                #[trigger] path@[i],
            ) by {
                assert(path@[i] == trail[trail.len() - 1 - i]);
            }
        }
        path
    }

    /// The sum of the movement costs of the cells of `path`, the first
    /// included, in thousandths.
    pub fn calculate_path_cost(&self, path: &Vec<Point>) -> (cost: u128)
        ensures
            cost == path_cost(self@, path@),
    {
        let mut total: u128 = 0;
        let mut i: usize = 0;
        while i < path.len()
            invariant
                i <= path.len(),
                total == path_cost(self@, path@.take(i as int)),
                total <= i * 0x1_0000_0000,
            decreases path.len() - i,
        {
            let cost = self.terrain.get_movement_cost(&path[i]);
            proof {
                assert(path@.take(i + 1).drop_last() =~= path@.take(i as int));
            }
            total = total + cost as u128;
            i += 1;
        }
        proof {
            assert(path@.take(path.len() as int) =~= path@);
        }
        total
    }

    /// Whether every cell of `path` is passable.
    pub fn is_path_valid(&self, path: &Vec<Point>) -> (valid: bool)
        ensures
            valid == all_passable(self@, path@),
    {
        let mut i: usize = 0;
        while i < path.len()
            invariant
                i <= path.len(),
                forall|j: int| 0 <= j < i ==> self@.passable(#[trigger] path[j].x as int, path[j].y as int),
            decreases path.len() - i,
        {
            if !self.terrain.is_passable(&path[i]) {
                return false;
            }
            i += 1;
        }
        true
    }

    /// The statistics of a path for a report; nothing for the empty
    /// path.
    pub fn path_statistics(&self, path: &Vec<Point>) -> (statistics: Option<PathStatistics>)
        ensures
            statistics is None <==> path.len() == 0,
            statistics is Some ==> {
                let found = statistics->0;
                &&& found.steps == path.len()
                &&& found.total_distance == path_length(path@)
                &&& found.total_cost == path_cost(self@, path@)
                &&& found.average_cost == path_cost(self@, path@) / path.len() as nat
                &&& found.valid == all_passable(self@, path@)
            },
    {
        if path.len() == 0 {
            return None;
        }
        let total_cost = self.calculate_path_cost(path);
        let mut total_distance: u128 = 0;
        let mut i: usize = 1;
        while i < path.len()
            invariant
                1 <= i <= path.len(),
                total_distance == path_length(path@.take(i as int)),
                total_distance <= i * 0x20_0000_0000_0001,
            decreases path.len() - i,
        {
            let distance = self.calculate_distance(&path[i - 1], &path[i]);
            proof {
                assert(path@.take(i + 1).drop_last() =~= path@.take(i as int));
            }
            total_distance = total_distance + distance as u128;
            i += 1;
        }
        proof {
            assert(path@.take(path.len() as int) =~= path@);
        }
        Some(
            PathStatistics {
                steps: path.len(),
                total_distance,
                total_cost,
                average_cost: total_cost / path.len() as u128,
                valid: self.is_path_valid(path),
            },
        )
    }
}

} // verus!
