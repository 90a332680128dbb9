//! The frontier of the search: between two rounds every cell that the
//! search has reached is either waiting in the open list at its recorded
//! cost, or all edges from it have been relaxed at that cost.

use crate::route::is_step;
use crate::search::{
    expand, finished, initial, relax, run, select, step, PathNode, Record, SearchState, Strategy,
};
use crate::search_laws::{lemma_run_consistent, lemma_select, well_queued};
use crate::terrain::{Grid, Point};
use vstd::prelude::*;

verus! {

/// Whether the open list holds an entry for `u` at the cost that is
/// recorded for it.
pub open spec fn queued(s: SearchState, u: Point) -> bool {
    exists|i: int|
        0 <= i < s.open.len() && (#[trigger] s.open[i]).position == u && s.open[i].g_cost
            == s.records[u].g_cost
}

/// Whether the edge from `u` to `v` has been relaxed at the cost that is
/// recorded for `u`: if it is an edge, `v` is recorded at no more than
/// the cost of the way through `u`.
pub open spec fn settled_toward(
    strategy: Strategy,
    grid: Grid,
    s: SearchState,
    u: Point,
    v: Point,
) -> bool {
    is_step(grid, u, v) ==> {
        &&& s.records.dom().contains(v)
        &&& s.records[v].g_cost <= s.records[u].g_cost + strategy.step_cost(grid, u, v)
    }
}

/// Whether all edges from `u` have been relaxed at its recorded cost.
pub open spec fn settled(strategy: Strategy, grid: Grid, s: SearchState, u: Point) -> bool {
    forall|v: Point| #[trigger] settled_toward(strategy, grid, s, u, v)
}

/// Between two rounds every recorded cell is queued at its recorded cost
/// or settled, and the goal, once recorded, is queued.
pub open spec fn frontier_ok(strategy: Strategy, grid: Grid, goal: Point, s: SearchState) -> bool {
    &&& forall|u: Point| #[trigger]
        s.records.dom().contains(u) ==> queued(s, u) || settled(strategy, grid, s, u)
    &&& s.records.dom().contains(goal) ==> queued(s, goal)
}

/// Within a round, after the edges to the first `k` neighbours of the
/// popped entry have been relaxed.
pub open spec fn expanding_ok(
    strategy: Strategy,
    grid: Grid,
    goal: Point,
    s: SearchState,
    current: PathNode,
    k: nat,
) -> bool {
    let p = current.position;
    let neighbors = grid.neighbors(p);
    &&& forall|u: Point| #[trigger]
        s.records.dom().contains(u) && u != p ==> queued(s, u) || settled(strategy, grid, s, u)
    &&& s.records.dom().contains(goal) ==> queued(s, goal)
    &&& p != goal
    &&& s.records.dom().contains(p)
    &&& {
        ||| queued(s, p)
        ||| settled(strategy, grid, s, p)
        ||| (current.g_cost == s.records[p].g_cost && forall|j: int|
            0 <= j < k ==> settled_toward(strategy, grid, s, p, #[trigger] neighbors[j]))
    }
}

/// A cell that is queued stays queued when an entry is pushed and the
/// record of another cell is written.
proof fn lemma_queued_after_push(s: SearchState, after: SearchState, u: Point, entry: PathNode)
    requires
        queued(s, u),
        after.open == s.open.push(entry),
        after.records[u] == s.records[u],
    ensures
        queued(after, u),
{
    let i = choose|i: int|
        0 <= i < s.open.len() && (#[trigger] s.open[i]).position == u && s.open[i].g_cost
            == s.records[u].g_cost;
    assert(after.open[i] == s.open[i]);
}

/// A cell that is settled stays settled when the record of another cell
/// is lowered or added.
proof fn lemma_settled_after_write(
    strategy: Strategy,
    grid: Grid,
    s: SearchState,
    after: SearchState,
    u: Point,
    n: Point,
    record: Record,
)
    requires
        settled(strategy, grid, s, u),
        u != n,
        after.records == s.records.insert(n, record),
        s.records.dom().contains(n) ==> record.g_cost <= s.records[n].g_cost,
    ensures
        settled(strategy, grid, after, u),
{
    assert forall|v: Point| #[trigger] settled_toward(strategy, grid, after, u, v) by {
        assert(settled_toward(strategy, grid, s, u, v));
    }
}

/// Relaxing the next edge keeps the invariant of the round.
pub proof fn lemma_relax_frontier(
    strategy: Strategy,
    grid: Grid,
    goal: Point,
    s: SearchState,
    current: PathNode,
    k: nat,
)
    requires
        k < grid.neighbors(current.position).len(),
        expanding_ok(strategy, grid, goal, s, current, k),
    ensures
        expanding_ok(
            strategy,
            grid,
            goal,
            relax(strategy, grid, goal, s, current, grid.neighbors(current.position)[k as int]),
            current,
            k + 1,
        ),
{
    let p = current.position;
    let neighbors = grid.neighbors(p);
    let n = neighbors[k as int];
    let after = relax(strategy, grid, goal, s, current, n);
    grid.lemma_neighbors(p);
    assert(neighbors.contains(n));
    assert(n != p);
    let tentative = current.g_cost + strategy.step_cost(grid, p, n);
    if after.open.len() != s.open.len() {
        let record = Record { g_cost: tentative as u128, parent: Some(p) };
        let entry = after.open[s.open.len() as int];
        assert(after.open == s.open.push(entry));
        assert(after.records == s.records.insert(n, record));
        assert(entry.position == n && entry.g_cost == after.records[n].g_cost);
        assert(queued(after, n));
        assert forall|u: Point| #[trigger] after.records.dom().contains(u) && u != p implies queued(
            after,
            u,
        ) || settled(strategy, grid, after, u) by {
            if u != n {
                assert(s.records.dom().contains(u));
                if queued(s, u) {
                    lemma_queued_after_push(s, after, u, entry);
                } else {
                    lemma_settled_after_write(strategy, grid, s, after, u, n, record);
                }
            }
        }
        if after.records.dom().contains(goal) && goal != n {
            lemma_queued_after_push(s, after, goal, entry);
        }
        if queued(s, p) {
            lemma_queued_after_push(s, after, p, entry);
        } else if settled(strategy, grid, s, p) {
            lemma_settled_after_write(strategy, grid, s, after, p, n, record);
        } else {
            assert forall|j: int| 0 <= j < k + 1 implies settled_toward(
                strategy,
                grid,
                after,
                p,
                #[trigger] neighbors[j],
            ) by {
                if j < k {
                    assert(settled_toward(strategy, grid, s, p, neighbors[j]));
                }
            }
        }
    } else {
        assert(after == s);
        if !queued(s, p) && !settled(strategy, grid, s, p) {
            assert forall|j: int| 0 <= j < k + 1 implies settled_toward(
                strategy,
                grid,
                after,
                p,
                #[trigger] neighbors[j],
            ) by {
                if j < k {
                    assert(settled_toward(strategy, grid, s, p, neighbors[j]));
                }
            }
        }
    }
}

/// Relaxing the edges to the first `k` neighbours keeps the invariant of
/// the round.
pub proof fn lemma_expand_frontier(
    strategy: Strategy,
    grid: Grid,
    goal: Point,
    s: SearchState,
    current: PathNode,
    k: nat,
)
    requires
        k <= grid.neighbors(current.position).len(),
        expanding_ok(strategy, grid, goal, s, current, 0),
    ensures
        expanding_ok(
            strategy,
            grid,
            goal,
            expand(strategy, grid, goal, s, current, grid.neighbors(current.position), k),
            current,
            k,
        ),
    decreases k,
{
    if k > 0 {
        lemma_expand_frontier(strategy, grid, goal, s, current, (k - 1) as nat);
        lemma_relax_frontier(
            strategy,
            grid,
            goal,
            expand(
                strategy,
                grid,
                goal,
                s,
                current,
                grid.neighbors(current.position),
                (k - 1) as nat,
            ),
            current,
            (k - 1) as nat,
        );
    }
}

/// One round of the search keeps the frontier in order.
pub proof fn lemma_step_frontier(strategy: Strategy, grid: Grid, goal: Point, s: SearchState)
    requires
        frontier_ok(strategy, grid, goal, s),
        forall|i: int|
            0 <= i < s.open.len() ==> s.records.dom().contains((#[trigger] s.open[i]).position),
    ensures
        frontier_ok(strategy, grid, goal, step(strategy, grid, goal, s)),
{
    if !finished(s, goal) {
        lemma_select(s.open);
        let i = select(s.open);
        let current = s.open[i];
        let p = current.position;
        let neighbors = grid.neighbors(p);
        let popped = SearchState { open: s.open.remove(i), records: s.records };
        assert forall|u: Point| queued(s, u) && (u != p || current.g_cost
            != s.records[p].g_cost) implies queued(popped, u) by {
            let j = choose|j: int|
                0 <= j < s.open.len() && (#[trigger] s.open[j]).position == u && s.open[j].g_cost
                    == s.records[u].g_cost;
            if j < i {
                assert(popped.open[j] == s.open[j]);
            } else {
                assert(popped.open[j - 1] == s.open[j]);
            }
        }
        assert forall|u: Point| settled(strategy, grid, s, u) implies settled(
            strategy,
            grid,
            popped,
            u,
        ) by {
            assert forall|v: Point| #[trigger] settled_toward(strategy, grid, popped, u, v) by {
                assert(settled_toward(strategy, grid, s, u, v));
            }
        }
        assert(expanding_ok(strategy, grid, goal, popped, current, 0));
        lemma_expand_frontier(strategy, grid, goal, popped, current, neighbors.len());
        let after = step(strategy, grid, goal, s);
        assert(after == expand(strategy, grid, goal, popped, current, neighbors, neighbors.len()));
        if !queued(after, p) && !settled(strategy, grid, after, p) {
            grid.lemma_neighbors(p);
            assert forall|v: Point| #[trigger] settled_toward(strategy, grid, after, p, v) by {
                if is_step(grid, p, v) {
                    assert(neighbors.contains(v));
                    let j = choose|j: int| 0 <= j < neighbors.len() && neighbors[j] == v;
                    assert(settled_toward(strategy, grid, after, p, neighbors[j]));
                }
            }
        }
    }
}

/// The frontier is in order in every state that the search reaches.
pub proof fn lemma_run_frontier(strategy: Strategy, grid: Grid, start: Point, goal: Point, n: nat)
    ensures
        frontier_ok(strategy, grid, goal, run(strategy, grid, start, goal, n)),
    decreases n,
{
    if n == 0 {
        let s = initial(strategy, start, goal);
        assert(s.open[0].position == start);
        assert(queued(s, start));
    } else {
        lemma_run_frontier(strategy, grid, start, goal, (n - 1) as nat);
        let before = run(strategy, grid, start, goal, (n - 1) as nat);
        let w = lemma_run_consistent(strategy, grid, start, goal, (n - 1) as nat);
        assert forall|i: int| 0 <= i < before.open.len() implies before.records.dom().contains(
            (#[trigger] before.open[i]).position,
        ) by {
            assert(well_queued(strategy, goal, before.records, before.open[i]));
        }
        lemma_step_frontier(strategy, grid, goal, before);
    }
}

} // verus!
