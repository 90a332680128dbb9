//! What holds of every state that the search reaches, and what follows
//! for the path that it returns.

use crate::fixed::{floor_sqrt, lemma_floor_sqrt_bounds};
use crate::route::{all_passable, is_route, is_step, lemma_step_cost_limit, HEAVIEST_STEP};
use crate::search::{
    expand, finished, greedy_choice, greedy_walk, initial, is_outcome, lineage, nearest_among,
    relax, run, select, select_among, step, yields, PathNode, Record, SearchState, Strategy,
};
use crate::terrain::{adjacent, estimated_distance, squared_distance, Grid, Point};
use vstd::prelude::*;
use vstd::relations::injective_on;
use vstd::set_lib::{lemma_int_range, lemma_len_subset, lemma_map_size, set_int_range};

verus! {

/// The entry that leaves the open list next exists, and no entry
/// precedes it.
pub proof fn lemma_select_among(open: Seq<PathNode>, k: nat)
    requires
        0 < k <= open.len(),
    ensures
        0 <= select_among(open, k) < k,
        forall|j: int| 0 <= j < k ==> !(#[trigger] open[j]).precedes(open[select_among(open, k)]),
        forall|j: int|
            0 <= j < select_among(open, k) ==> open[select_among(open, k)].precedes(
                #[trigger] open[j],
            ),
    decreases k,
{
    if k > 1 {
        lemma_select_among(open, (k - 1) as nat);
    }
}

/// The entry that leaves a non-empty open list next exists, and no entry
/// precedes it.
pub proof fn lemma_select(open: Seq<PathNode>)
    requires
        open.len() > 0,
    ensures
        0 <= select(open) < open.len(),
        forall|j: int| 0 <= j < open.len() ==> !(#[trigger] open[j]).precedes(open[select(open)]),
{
    lemma_select_among(open, open.len());
}

/// A straight-line estimate fits in 64 bits with room to spare.
pub proof fn lemma_estimate_bound(strategy: Strategy, p: Point, goal: Point)
    ensures
        estimated_distance(p, goal) < 0x20_0000_0000_0000,
        strategy.estimate(p, goal) < 0x8000_0000_0000_0000,
{
    let dx = goal.x - p.x;
    let dy = goal.y - p.y;
    assert(0 <= dx * dx <= 0xffff_ffff * 0xffff_ffff) by (nonlinear_arith)
        requires
            -0xffff_ffff <= dx <= 0xffff_ffff,
    ;
    assert(0 <= dy * dy <= 0xffff_ffff * 0xffff_ffff) by (nonlinear_arith)
        requires
            -0xffff_ffff <= dy <= 0xffff_ffff,
    ;
    let n = 1_000_000_000_000 * squared_distance(p, goal);
    lemma_floor_sqrt_bounds(n);
    let r = floor_sqrt(n);
    if r >= 0x20_0000_0000_0000 {
        assert(r * r >= 0x20_0000_0000_0000 * 0x20_0000_0000_0000) by (nonlinear_arith)
            requires
                r >= 0x20_0000_0000_0000,
        ;
    }
}

/// The place of a cell with coordinates that are not negative in a
/// numbering of all such cells.
pub open spec fn cell_number(p: Point) -> int {
    p.x + p.y * 0x8000_0000
}

/// The most cells with coordinates that are not negative.
pub open spec fn most_cells() -> nat {
    0x4000_0000_0000_0000
}

/// A finite set of cells with coordinates that are not negative has no
/// more members than there are such cells.
pub proof fn lemma_cells_counted(cells: Set<Point>)
    requires
        cells.finite(),
        forall|p: Point| cells.contains(p) ==> 0 <= p.x && 0 <= p.y,
    ensures
        cells.len() <= most_cells(),
{
    let number = |p: Point| cell_number(p);
    let numbers = cells.map(number);
    assert(injective_on(number, cells)) by {
        assert forall|p: Point, q: Point|
            cells.contains(p) && cells.contains(q) && #[trigger] number(p) == #[trigger] number(
                q,
            ) implies p == q by {
            assert(p.y == q.y);
            assert(p.x == q.x);
        }
    }
    lemma_map_size(cells, numbers, number);
    lemma_int_range(0, 0x4000_0000_0000_0000);
    let all = set_int_range(0, 0x4000_0000_0000_0000);
    assert(numbers.subset_of(all)) by {
        assert forall|i: int| numbers.contains(i) implies all.contains(i) by {
            let p = choose|p: Point| cells.contains(p) && i == number(p);
            assert(0 <= p.x < 0x8000_0000 && 0 <= p.y < 0x8000_0000);
        }
    }
    lemma_len_subset(numbers, all);
}

/// Whether the record of `c` fits the rest of the table: the start is
/// recorded at cost zero without a parent; every other cell has a
/// recorded parent from which an edge leads to it, costs at least as much
/// as the way through that parent, was written after the parent where
/// the two costs are equal, and costs no more than one heaviest step for
/// each other cell that is recorded.
pub open spec fn well_recorded(
    strategy: Strategy,
    grid: Grid,
    start: Point,
    records: Map<Point, Record>,
    rank: spec_fn(Point) -> nat,
    c: Point,
) -> bool {
    let r = records[c];
    if c == start {
        r.g_cost == 0 && r.parent is None
    } else {
        &&& r.parent is Some
        &&& records.dom().contains(r.parent->0)
        &&& is_step(grid, r.parent->0, c)
        &&& records[r.parent->0].g_cost + strategy.step_cost(grid, r.parent->0, c) <= r.g_cost
        &&& records[r.parent->0].g_cost == r.g_cost ==> rank(r.parent->0) < rank(c)
        &&& r.g_cost <= HEAVIEST_STEP * (records.dom().len() - 1)
    }
}

/// Whether an entry of the open list fits the table: its cell is
/// recorded at a cost no higher than the entry's, the entry costs no
/// more than one heaviest step for each other cell that is recorded, and
/// its estimate and total are those of its cell.
pub open spec fn well_queued(
    strategy: Strategy,
    goal: Point,
    records: Map<Point, Record>,
    e: PathNode,
) -> bool {
    &&& records.dom().contains(e.position)
    &&& records[e.position].g_cost <= e.g_cost
    &&& e.g_cost <= HEAVIEST_STEP * (records.dom().len() - 1)
    &&& e.h_cost == strategy.estimate(e.position, goal)
    &&& e.f_cost == e.g_cost + e.h_cost
}

/// The invariant of the search. `rank` orders the records by the moment
/// they were last written, and `bound` lies above every rank.
pub open spec fn consistent(
    strategy: Strategy,
    grid: Grid,
    start: Point,
    goal: Point,
    s: SearchState,
    rank: spec_fn(Point) -> nat,
    bound: nat,
) -> bool {
    &&& s.records.dom().finite()
    &&& s.records.dom().contains(start)
    &&& forall|c: Point| #[trigger]
        s.records.dom().contains(c) ==> well_recorded(strategy, grid, start, s.records, rank, c)
    &&& forall|c: Point| #[trigger] rank(c) <= bound
    &&& forall|i: int|
        0 <= i < s.open.len() ==> well_queued(strategy, goal, s.records, #[trigger] s.open[i])
}

/// What no cost that the search records exceeds: one heaviest step for
/// each cell that can be recorded besides the start. It fits in 128 bits
/// with room for one more step and an estimate.
pub open spec fn cost_limit() -> nat {
    HEAVIEST_STEP as nat * most_cells()
}

/// The search records the start and cells with coordinates that are not
/// negative, so it records no more cells than there are, and no cost
/// above the limit.
pub proof fn lemma_records_counted(
    strategy: Strategy,
    grid: Grid,
    start: Point,
    goal: Point,
    s: SearchState,
    rank: spec_fn(Point) -> nat,
    bound: nat,
)
    requires
        consistent(strategy, grid, start, goal, s, rank, bound),
    ensures
        1 <= s.records.dom().len() <= most_cells() + 1,
        HEAVIEST_STEP * (s.records.dom().len() - 1) <= cost_limit(),
        cost_limit() + HEAVIEST_STEP + u64::MAX <= u128::MAX,
        forall|i: int| 0 <= i < s.open.len() ==> (#[trigger] s.open[i]).g_cost <= cost_limit(),
{
    let dom = s.records.dom();
    let cells = dom.remove(start);
    assert forall|p: Point| cells.contains(p) implies 0 <= p.x && 0 <= p.y by {
        assert(dom.contains(p));
        assert(well_recorded(strategy, grid, start, s.records, rank, p));
        assert(is_step(grid, s.records[p].parent->0, p));
        assert(grid.contains(p.x as int, p.y as int));
    }
    lemma_cells_counted(cells);
    assert(dom.len() == cells.len() + 1);
    assert forall|i: int| 0 <= i < s.open.len() implies (#[trigger] s.open[i]).g_cost
        <= cost_limit() by {
        assert(well_queued(strategy, goal, s.records, s.open[i]));
    }
}

/// The rank after relaxing the edge to `n`: a cell that is written gets a
/// rank above all others.
pub open spec fn rank_after(
    s: SearchState,
    after: SearchState,
    rank: spec_fn(Point) -> nat,
    bound: nat,
    n: Point,
) -> spec_fn(Point) -> nat {
    if after.open.len() == s.open.len() {
        rank
    } else {
        |c: Point|
            if c == n {
                bound + 1
            } else {
                rank(c)
            }
    }
}

/// Relaxing an edge keeps the invariant.
pub proof fn lemma_relax_consistent(
    strategy: Strategy,
    grid: Grid,
    start: Point,
    goal: Point,
    s: SearchState,
    current: PathNode,
    n: Point,
    rank: spec_fn(Point) -> nat,
    bound: nat,
)
    requires
        consistent(strategy, grid, start, goal, s, rank, bound),
        s.records.dom().contains(current.position),
        s.records[current.position].g_cost <= current.g_cost,
        current.g_cost <= HEAVIEST_STEP * (s.records.dom().len() - 1),
        grid.neighbors(current.position).contains(n),
    ensures
        consistent(
            strategy,
            grid,
            start,
            goal,
            relax(strategy, grid, goal, s, current, n),
            rank_after(s, relax(strategy, grid, goal, s, current, n), rank, bound, n),
            bound + 1,
        ),
        relax(strategy, grid, goal, s, current, n).records.dom().contains(current.position),
        relax(strategy, grid, goal, s, current, n).records[current.position].g_cost
            <= current.g_cost,
        current.g_cost <= HEAVIEST_STEP * (relax(
            strategy,
            grid,
            goal,
            s,
            current,
            n,
        ).records.dom().len() - 1),
{
    let after = relax(strategy, grid, goal, s, current, n);
    let rank2 = rank_after(s, after, rank, bound, n);
    let p = current.position;
    grid.lemma_neighbors(p);
    lemma_estimate_bound(strategy, n, goal);
    assert(well_recorded(strategy, grid, start, s.records, rank, start));
    assert forall|c: Point| #[trigger] rank2(c) <= bound + 1 by {
        assert(rank(c) <= bound);
    }
    lemma_records_counted(strategy, grid, start, goal, s, rank, bound);
    if after.open.len() != s.open.len() {
        let tentative = current.g_cost + strategy.step_cost(grid, p, n);
        lemma_step_cost_limit(strategy, grid, p, n);
        assert(n != start);
        assert(n != p);
        assert(tentative as u128 == tentative);
        assert(after.records == s.records.insert(
            n,
            Record { g_cost: tentative as u128, parent: Some(p) },
        ));
        let size = s.records.dom().len();
        let grown = after.records.dom().len();
        assert(after.records.dom() == s.records.dom().insert(n));
        assert(size <= grown);
        assert(!s.records.dom().contains(n) ==> grown == size + 1);
        assert(HEAVIEST_STEP * (size - 1) <= HEAVIEST_STEP * (grown - 1));
        assert(tentative <= HEAVIEST_STEP * (grown - 1)) by {
            if s.records.dom().contains(n) {
                assert(well_recorded(strategy, grid, start, s.records, rank, n));
            }
        }
        assert forall|c: Point| #[trigger] after.records.dom().contains(c) implies well_recorded(
            strategy,
            grid,
            start,
            after.records,
            rank2,
            c,
        ) by {
            if c == n {
                assert(rank(p) <= bound);
            } else {
                assert(s.records.dom().contains(c));
                assert(well_recorded(strategy, grid, start, s.records, rank, c));
                if c != start {
                    let q = s.records[c].parent->0;
                    if q == n {
                        assert(s.records.dom().contains(n));
                    }
                }
            }
        }
        assert forall|i: int| 0 <= i < after.open.len() implies well_queued(
            strategy,
            goal,
            after.records,
            #[trigger] after.open[i],
        ) by {
            if i < s.open.len() {
                assert(after.open[i] == s.open[i]);
                assert(well_queued(strategy, goal, s.records, s.open[i]));
            }
        }
    } else {
        assert(after.records == s.records);
        assert(after.open == s.open);
    }
}

/// Relaxing the edges to the first `k` neighbours keeps the invariant.
/// Returns a rank and a bound that fit the state reached.
pub proof fn lemma_expand_consistent(
    strategy: Strategy,
    grid: Grid,
    start: Point,
    goal: Point,
    s: SearchState,
    current: PathNode,
    k: nat,
    rank: spec_fn(Point) -> nat,
    bound: nat,
) -> (w: (spec_fn(Point) -> nat, nat))
    requires
        consistent(strategy, grid, start, goal, s, rank, bound),
        s.records.dom().contains(current.position),
        s.records[current.position].g_cost <= current.g_cost,
        current.g_cost <= HEAVIEST_STEP * (s.records.dom().len() - 1),
        k <= grid.neighbors(current.position).len(),
    ensures
        ({
            let after = expand(
                strategy,
                grid,
                goal,
                s,
                current,
                grid.neighbors(current.position),
                k,
            );
            &&& consistent(strategy, grid, start, goal, after, w.0, w.1)
            &&& after.records.dom().contains(current.position)
            &&& after.records[current.position].g_cost <= current.g_cost
            &&& current.g_cost <= HEAVIEST_STEP * (after.records.dom().len() - 1)
        }),
    decreases k,
{
    if k == 0 {
        (rank, bound)
    } else {
        let neighbors = grid.neighbors(current.position);
        let before = lemma_expand_consistent(
            strategy,
            grid,
            start,
            goal,
            s,
            current,
            (k - 1) as nat,
            rank,
            bound,
        );
        let mid = expand(strategy, grid, goal, s, current, neighbors, (k - 1) as nat);
        let n = neighbors[k - 1];
        assert(neighbors.contains(n));
        lemma_relax_consistent(strategy, grid, start, goal, mid, current, n, before.0, before.1);
        (
            rank_after(mid, relax(strategy, grid, goal, mid, current, n), before.0, before.1, n),
            before.1 + 1,
        )
    }
}

/// One round of the search keeps the invariant.
pub proof fn lemma_step_consistent(
    strategy: Strategy,
    grid: Grid,
    start: Point,
    goal: Point,
    s: SearchState,
    rank: spec_fn(Point) -> nat,
    bound: nat,
) -> (w: (spec_fn(Point) -> nat, nat))
    requires
        consistent(strategy, grid, start, goal, s, rank, bound),
    ensures
        consistent(strategy, grid, start, goal, step(strategy, grid, goal, s), w.0, w.1),
{
    if finished(s, goal) {
        (rank, bound)
    } else {
        lemma_select(s.open);
        let i = select(s.open);
        let current = s.open[i];
        let popped = SearchState { open: s.open.remove(i), records: s.records };
        assert(well_queued(strategy, goal, s.records, current));
        assert forall|j: int| 0 <= j < popped.open.len() implies well_queued(
            strategy,
            goal,
            popped.records,
            #[trigger] popped.open[j],
        ) by {
            if j < i {
                assert(popped.open[j] == s.open[j]);
            } else {
                assert(popped.open[j] == s.open[j + 1]);
            }
        }
        lemma_expand_consistent(
            strategy,
            grid,
            start,
            goal,
            popped,
            current,
            grid.neighbors(current.position).len(),
            rank,
            bound,
        )
    }
}

/// Every state that the search reaches satisfies the invariant. Returns
/// a rank and a bound that fit the state after `n` rounds.
pub proof fn lemma_run_consistent(
    strategy: Strategy,
    grid: Grid,
    start: Point,
    goal: Point,
    n: nat,
) -> (w: (spec_fn(Point) -> nat, nat))
    ensures
        consistent(strategy, grid, start, goal, run(strategy, grid, start, goal, n), w.0, w.1),
    decreases n,
{
    if n == 0 {
        let rank = |c: Point| 0nat;
        lemma_estimate_bound(strategy, start, goal);
        let s = initial(strategy, start, goal);
        assert(s.open[0].position == start);
        (rank, 0)
    } else {
        let before = lemma_run_consistent(strategy, grid, start, goal, (n - 1) as nat);
        lemma_step_consistent(
            strategy,
            grid,
            start,
            goal,
            run(strategy, grid, start, goal, (n - 1) as nat),
            before.0,
            before.1,
        )
    }
}

/// In a consistent table the lineage of a cell leads from the start to
/// it along edges of the grid graph.
pub proof fn lemma_lineage_is_route(
    strategy: Strategy,
    grid: Grid,
    start: Point,
    goal: Point,
    s: SearchState,
    rank: spec_fn(Point) -> nat,
    bound: nat,
    path: Seq<Point>,
)
    requires
        consistent(strategy, grid, start, goal, s, rank, bound),
        lineage(s.records, path),
    ensures
        is_route(grid, start, path.last(), path),
        forall|i: int| 0 < i < path.len() ==> #[trigger] path[i] != start,
{
    assert(s.records.dom().contains(path[0]));
    assert(well_recorded(strategy, grid, start, s.records, rank, path[0]));
    assert forall|i: int| 0 < i < path.len() implies is_step(grid, path[i - 1], #[trigger] path[i])
        && path[i] != start by {
        assert(s.records.dom().contains(path[i]));
        assert(well_recorded(strategy, grid, start, s.records, rank, path[i]));
        assert(well_recorded(strategy, grid, start, s.records, rank, start));
        assert(s.records[path[i]].parent == Some(path[i - 1]));
    }
}

/// The beginning of a lineage is a lineage.
pub proof fn lemma_lineage_drop_last(records: Map<Point, Record>, path: Seq<Point>)
    requires
        lineage(records, path),
        path.len() > 1,
    ensures
        lineage(records, path.drop_last()),
{
    let shorter = path.drop_last();
    assert forall|i: int| 0 <= i < shorter.len() implies records.dom().contains(
        #[trigger] shorter[i],
    ) by {
        assert(shorter[i] == path[i]);
    }
    assert forall|i: int| 0 < i < shorter.len() implies (#[trigger] records[shorter[i]]).parent
        == Some(shorter[i - 1]) by {
        assert(shorter[i] == path[i]);
        assert(records[path[i]].parent == Some(path[i - 1]));
    }
    assert(shorter[0] == path[0]);
}

/// A cell has at most one lineage.
pub proof fn lemma_lineage_unique(records: Map<Point, Record>, a: Seq<Point>, b: Seq<Point>)
    requires
        lineage(records, a),
        lineage(records, b),
        a.last() == b.last(),
    ensures
        a == b,
    decreases a.len(),
{
    let ra = records[a.last()];
    assert(ra == records[a[a.len() - 1]]);
    assert(ra == records[b[b.len() - 1]]);
    if a.len() == 1 {
        if b.len() > 1 {
            assert(records[b[b.len() - 1]].parent == Some(b[b.len() - 2]));
        }
        assert(a =~= b);
    } else {
        assert(records[a[a.len() - 1]].parent == Some(a[a.len() - 2]));
        if b.len() == 1 {
            assert(false);
        }
        assert(records[b[b.len() - 1]].parent == Some(b[b.len() - 2]));
        let a1 = a.drop_last();
        let b1 = b.drop_last();
        lemma_lineage_drop_last(records, a);
        lemma_lineage_drop_last(records, b);
        lemma_lineage_unique(records, a1, b1);
        assert(a =~= a1.push(a.last()));
        assert(b =~= b1.push(b.last()));
    }
}

/// Once the search is finished, further rounds change nothing.
pub proof fn lemma_finished_stays(
    strategy: Strategy,
    grid: Grid,
    start: Point,
    goal: Point,
    n: nat,
    m: nat,
)
    requires
        finished(run(strategy, grid, start, goal, n), goal),
        n <= m,
    ensures
        run(strategy, grid, start, goal, m) == run(strategy, grid, start, goal, n),
    decreases m,
{
    if m > n {
        lemma_finished_stays(strategy, grid, start, goal, n, (m - 1) as nat);
    }
}

/// The search has one outcome.
pub proof fn lemma_outcome_unique(
    strategy: Strategy,
    grid: Grid,
    start: Point,
    goal: Point,
    a: Seq<Point>,
    b: Seq<Point>,
)
    requires
        is_outcome(strategy, grid, start, goal, a),
        is_outcome(strategy, grid, start, goal, b),
    ensures
        a == b,
{
    let n = choose|n: nat| yields(#[trigger] run(strategy, grid, start, goal, n), goal, a);
    let m = choose|m: nat| yields(#[trigger] run(strategy, grid, start, goal, m), goal, b);
    if n <= m {
        lemma_finished_stays(strategy, grid, start, goal, n, m);
    } else {
        lemma_finished_stays(strategy, grid, start, goal, m, n);
    }
    let s = run(strategy, grid, start, goal, n);
    if s.open.len() == 0 {
        assert(a =~= b);
    } else {
        lemma_lineage_unique(s.records, a, b);
    }
}

/// Along a lineage the recorded cost never falls, and where it stays the
/// same the rank rises: no cell occurs twice.
pub proof fn lemma_lineage_ascends(
    strategy: Strategy,
    grid: Grid,
    start: Point,
    goal: Point,
    s: SearchState,
    rank: spec_fn(Point) -> nat,
    bound: nat,
    path: Seq<Point>,
    i: int,
    j: int,
)
    requires
        consistent(strategy, grid, start, goal, s, rank, bound),
        lineage(s.records, path),
        0 <= i < j < path.len(),
    ensures
        s.records[path[i]].g_cost < s.records[path[j]].g_cost || (s.records[path[i]].g_cost
            == s.records[path[j]].g_cost && rank(path[i]) < rank(path[j])),
        path[i] != path[j],
    decreases j - i,
{
    lemma_lineage_is_route(strategy, grid, start, goal, s, rank, bound, path);
    assert(s.records.dom().contains(path[j]));
    assert(well_recorded(strategy, grid, start, s.records, rank, path[j]));
    assert(s.records[path[j]].parent == Some(path[j - 1]));
    if i < j - 1 {
        lemma_lineage_ascends(strategy, grid, start, goal, s, rank, bound, path, i, j - 1);
    }
}

/// A path that the search returns leads from the start to the goal along
/// edges of the grid graph and visits no cell twice.
pub proof fn lemma_outcome_is_route(
    strategy: Strategy,
    grid: Grid,
    start: Point,
    goal: Point,
    path: Seq<Point>,
)
    requires
        is_outcome(strategy, grid, start, goal, path),
        path.len() > 0,
    ensures
        is_route(grid, start, goal, path),
        path.no_duplicates(),
{
    let n = choose|n: nat| yields(#[trigger] run(strategy, grid, start, goal, n), goal, path);
    let s = run(strategy, grid, start, goal, n);
    let w = lemma_run_consistent(strategy, grid, start, goal, n);
    lemma_lineage_is_route(strategy, grid, start, goal, s, w.0, w.1, path);
    assert forall|i: int, j: int| 0 <= i < path.len() && 0 <= j < path.len() && i != j implies path[i]
        != path[j] by {
        if i < j {
            lemma_lineage_ascends(strategy, grid, start, goal, s, w.0, w.1, path, i, j);
        } else {
            lemma_lineage_ascends(strategy, grid, start, goal, s, w.0, w.1, path, j, i);
        }
    }
}

/// No strategy of the search returns a path through an obstacle or
/// through a cell outside the grid: every cell after the first is
/// passable, and so is the first when the caller starts on a passable
/// cell.
pub proof fn lemma_outcome_is_passable(
    strategy: Strategy,
    grid: Grid,
    start: Point,
    goal: Point,
    path: Seq<Point>,
)
    requires
        is_outcome(strategy, grid, start, goal, path),
    ensures
        forall|i: int| 0 < i < path.len() ==> grid.passable(#[trigger] path[i].x as int, path[i].y as int),
        grid.passable(start.x as int, start.y as int) ==> all_passable(grid, path),
{
    if path.len() > 0 {
        lemma_outcome_is_route(strategy, grid, start, goal, path);
        assert forall|i: int| 0 < i < path.len() implies grid.passable(
            #[trigger] path[i].x as int,
            path[i].y as int,
        ) by {
            assert(is_step(grid, path[i - 1], path[i]));
        }
    }
}

/// Where the start is the goal, the search returns that one cell.
pub proof fn lemma_outcome_at_goal(strategy: Strategy, grid: Grid, start: Point, path: Seq<Point>)
    requires
        is_outcome(strategy, grid, start, start, path),
    ensures
        path == seq![start],
{
    let s = initial(strategy, start, start);
    assert(s.open[0].position == start);
    assert(select(s.open) == 0);
    let only = seq![start];
    assert(lineage(s.records, only));
    assert(yields(run(strategy, grid, start, start, 0), start, only));
    lemma_outcome_unique(strategy, grid, start, start, path, only);
}

/// Where the start is the goal, the greedy strategy returns that one
/// cell.
pub proof fn lemma_greedy_at_goal(grid: Grid, start: Point, limit: nat)
    ensures
        greedy_walk(grid, start, seq![start], limit) == seq![start],
{
}

/// Where no route leads from the start to the goal, the search returns
/// the empty path.
pub proof fn lemma_outcome_without_route(
    strategy: Strategy,
    grid: Grid,
    start: Point,
    goal: Point,
    path: Seq<Point>,
)
    requires
        is_outcome(strategy, grid, start, goal, path),
        forall|route: Seq<Point>| !is_route(grid, start, goal, route),
    ensures
        path.len() == 0,
{
    if path.len() > 0 {
        lemma_outcome_is_route(strategy, grid, start, goal, path);
    }
}

/// Where every cell next to the goal is an obstacle or lies outside the
/// grid, the search from a passable start elsewhere returns the empty
/// path.
pub proof fn lemma_outcome_for_enclosed_goal(
    strategy: Strategy,
    grid: Grid,
    start: Point,
    goal: Point,
    path: Seq<Point>,
)
    requires
        is_outcome(strategy, grid, start, goal, path),
        start != goal,
        grid.passable(start.x as int, start.y as int),
        forall|q: Point| adjacent(goal, q) ==> !grid.passable(q.x as int, q.y as int),
    ensures
        path.len() == 0,
{
    if path.len() > 0 {
        lemma_outcome_is_route(strategy, grid, start, goal, path);
        lemma_outcome_is_passable(strategy, grid, start, goal, path);
        let last = path.len() - 1;
        assert(last > 0);
        assert(is_step(grid, path[last - 1], path[last]));
        assert(adjacent(goal, path[last - 1]));
        assert(grid.passable(path[last - 1].x as int, path[last - 1].y as int));
    }
}

/// What holds of every path of the greedy strategy that was begun at
/// `start`: it still begins there, each of its steps leads to a passable
/// adjacent cell, and it has at most one cell more than `limit`.
pub open spec fn greedy_shaped(grid: Grid, start: Point, path: Seq<Point>, limit: nat) -> bool {
    &&& path.len() > 0
    &&& path[0] == start
    &&& path.len() <= limit + 1
    &&& forall|i: int|
        0 < i < path.len() ==> adjacent(path[i - 1], #[trigger] path[i]) && grid.passable(
            path[i].x as int,
            path[i].y as int,
        )
}

/// Continuing a greedy path keeps its shape.
pub proof fn lemma_greedy_walk_shaped(
    grid: Grid,
    start: Point,
    goal: Point,
    path: Seq<Point>,
    limit: nat,
)
    requires
        greedy_shaped(grid, start, path, limit),
        path.len() <= limit,
    ensures
        greedy_shaped(grid, start, greedy_walk(grid, goal, path, limit), limit),
    decreases limit + 1 - path.len(),
{
    if path.last() != goal {
        match greedy_choice(grid, path.last(), goal) {
            None => {},
            Some(next) => {
                let neighbors = grid.neighbors(path.last());
                lemma_nearest_among(neighbors, goal, neighbors.len());
                grid.lemma_neighbors(path.last());
                let longer = path.push(next);
                assert(greedy_shaped(grid, start, longer, limit)) by {
                    assert forall|i: int| 0 < i < longer.len() implies adjacent(
                        longer[i - 1],
                        #[trigger] longer[i],
                    ) && grid.passable(longer[i].x as int, longer[i].y as int) by {
                        if i < path.len() {
                            assert(longer[i] == path[i]);
                            assert(longer[i - 1] == path[i - 1]);
                        }
                    }
                }
                if path.len() + 1 <= limit {
                    lemma_greedy_walk_shaped(grid, start, goal, longer, limit);
                }
            },
        }
    }
}

/// The position of the nearest neighbour is a position of the list.
pub proof fn lemma_nearest_among(neighbors: Seq<Point>, goal: Point, k: nat)
    requires
        0 < k <= neighbors.len(),
    ensures
        0 <= nearest_among(neighbors, goal, k) < k,
        forall|j: int|
            0 <= j < k ==> squared_distance(
                neighbors[nearest_among(neighbors, goal, k)],
                goal,
            ) <= squared_distance(#[trigger] neighbors[j], goal),
    decreases k,
{
    if k > 1 {
        lemma_nearest_among(neighbors, goal, (k - 1) as nat);
    }
}

/// The path of the greedy strategy begins at the start, moves only to
/// passable adjacent cells, and has at most one cell more than the grid
/// has cells.
pub proof fn lemma_greedy_path(grid: Grid, start: Point, goal: Point)
    ensures
        greedy_shaped(
            grid,
            start,
            greedy_walk(grid, goal, seq![start], grid.width * grid.height),
            grid.width * grid.height,
        ),
{
    let limit = grid.width * grid.height;
    let path = seq![start];
    assert(greedy_shaped(grid, start, path, limit));
    if limit > 0 {
        lemma_greedy_walk_shaped(grid, start, goal, path, limit);
    } else {
        let neighbors = grid.neighbors(start);
        grid.lemma_neighbors(start);
        if neighbors.len() > 0 {
            let q = neighbors[0];
            assert(grid.contains(q.x as int, q.y as int));
            assert(grid.width * grid.height > 0) by (nonlinear_arith)
                requires
                    grid.width > 0,
                    grid.height > 0,
            ;
        }
    }
}

/// With a weight of one, entering a cell counts for its movement cost.
pub proof fn lemma_unit_weight_relax(
    grid: Grid,
    goal: Point,
    s: SearchState,
    current: PathNode,
    n: Point,
)
    ensures
        relax(Strategy::EnergyWeighted { weight: 1000 }, grid, goal, s, current, n) == relax(
            Strategy::AStar,
            grid,
            goal,
            s,
            current,
            n,
        ),
{
    let cost = grid.movement_cost(n.x as int, n.y as int);
    assert(cost * 1000 / 1000 == cost);
}

/// With a weight of one, relaxing the edges to the neighbours does what
/// it does under A*.
pub proof fn lemma_unit_weight_expand(
    grid: Grid,
    goal: Point,
    s: SearchState,
    current: PathNode,
    neighbors: Seq<Point>,
    k: nat,
)
    ensures
        expand(Strategy::EnergyWeighted { weight: 1000 }, grid, goal, s, current, neighbors, k)
            == expand(Strategy::AStar, grid, goal, s, current, neighbors, k),
    decreases k,
{
    if k > 0 {
        lemma_unit_weight_expand(grid, goal, s, current, neighbors, (k - 1) as nat);
        lemma_unit_weight_relax(
            grid,
            goal,
            expand(Strategy::AStar, grid, goal, s, current, neighbors, (k - 1) as nat),
            current,
            neighbors[k - 1],
        );
    }
}

/// With a weight of one, the search runs through the states that A*
/// runs through.
pub proof fn lemma_unit_weight_run(grid: Grid, start: Point, goal: Point, n: nat)
    ensures
        run(Strategy::EnergyWeighted { weight: 1000 }, grid, start, goal, n) == run(
            Strategy::AStar,
            grid,
            start,
            goal,
            n,
        ),
    decreases n,
{
    if n > 0 {
        lemma_unit_weight_run(grid, start, goal, (n - 1) as nat);
        let s = run(Strategy::AStar, grid, start, goal, (n - 1) as nat);
        if !finished(s, goal) {
            let i = select(s.open);
            let current = s.open[i];
            let neighbors = grid.neighbors(current.position);
            lemma_unit_weight_expand(
                grid,
                goal,
                SearchState { open: s.open.remove(i), records: s.records },
                current,
                neighbors,
                neighbors.len(),
            );
        }
    }
}

/// The energy-weighted search with a weight of one returns the path
/// that A* returns.
pub proof fn lemma_unit_weight_outcome(
    grid: Grid,
    start: Point,
    goal: Point,
    weighted: Seq<Point>,
    plain: Seq<Point>,
)
    requires
        is_outcome(Strategy::EnergyWeighted { weight: 1000 }, grid, start, goal, weighted),
        is_outcome(Strategy::AStar, grid, start, goal, plain),
    ensures
        weighted == plain,
{
    let n = choose|n: nat|
        yields(
            #[trigger] run(Strategy::EnergyWeighted { weight: 1000 }, grid, start, goal, n),
            goal,
            weighted,
        );
    lemma_unit_weight_run(grid, start, goal, n);
    assert(yields(run(Strategy::AStar, grid, start, goal, n), goal, weighted));
    lemma_outcome_unique(Strategy::AStar, grid, start, goal, weighted, plain);
}

} // verus!
