use crate::search::astar::links_view;
use crate::search::order::{first_tables, lemma_halted, pick_spec, relax_spec, run_spec, Tables};
use crate::search::walks::CostGraph;
use vstd::prelude::*;

verus! {

/// How many entries of `flags` are set.
pub open spec fn count_true(flags: Seq<bool>) -> nat
    decreases flags.len(),
{
    if flags.len() == 0 {
        0
    } else {
        count_true(flags.drop_last()) + if flags.last() {
            1nat
        } else {
            0nat
        }
    }
}

/// No more flags are set than there are, and one fewer where one is
/// known to be clear.
pub proof fn lemma_count_bound(flags: Seq<bool>, at: int)
    ensures
        count_true(flags) <= flags.len(),
        0 <= at < flags.len() && !flags[at] ==> count_true(flags) < flags.len(),
    decreases flags.len(),
{
    if flags.len() > 0 {
        lemma_count_bound(flags.drop_last(), at);
    }
}

/// Where no flag is set the count is zero.
pub proof fn lemma_count_none(flags: Seq<bool>)
    requires
        forall|i: int| 0 <= i < flags.len() ==> !#[trigger] flags[i],
    ensures
        count_true(flags) == 0,
    decreases flags.len(),
{
    if flags.len() > 0 {
        lemma_count_none(flags.drop_last());
    }
}

/// Setting a clear flag raises the count by one.
pub proof fn lemma_count_set(flags: Seq<bool>, at: int)
    requires
        0 <= at < flags.len(),
        !flags[at],
    ensures
        count_true(flags.update(at, true)) == count_true(flags) + 1,
    decreases flags.len(),
{
    let after = flags.update(at, true);
    if at == flags.len() - 1 {
        assert(after.drop_last() =~= flags.drop_last());
    } else {
        lemma_count_set(flags.drop_last(), at);
        assert(after.drop_last() =~= flags.drop_last().update(at, true));
    }
}

/// Whether the cost `c` is within the budget, where there is one.
pub open spec fn within(budget: Option<u128>, c: int) -> bool {
    budget matches Some(b) ==> c <= b
}

/// Whether cell `v` has been reached and not yet settled.
pub open spec fn is_open(best: Seq<Option<u128>>, done: Seq<bool>, v: int) -> bool {
    best[v] is Some && !done[v]
}

/// Whether a step that arrives with cost `via` has been taken into
/// account at a cell whose best known cost is `target`.
pub open spec fn relaxed(budget: Option<u128>, via: int, target: Option<u128>) -> bool {
    !within(budget, via) || (target matches Some(t) && t <= via)
}

/// Before the start is settled nothing is, and the start alone has been
/// reached.
pub open spec fn fresh_ok(graph: CostGraph, start: int, best: Seq<Option<u128>>, done: Seq<bool>) -> bool {
    !done[start] ==> forall|v: int|
        0 <= v < graph.size() ==> !#[trigger] done[v] && (best[v] is Some ==> v == start)
}

/// Every reached cell has a walk from the start at its best known cost,
/// within the budget and no longer than the settled cells allow.
pub open spec fn reached_ok(
    graph: CostGraph,
    start: int,
    budget: Option<u128>,
    best: Seq<Option<u128>>,
    done: Seq<bool>,
    routes: Seq<Seq<int>>,
) -> bool {
    forall|v: int|
        0 <= v < graph.size() && (#[trigger] best[v]) is Some ==> graph.route(routes[v], start, v)
            && graph.walk_cost(routes[v]) == best[v].unwrap() && within(
            budget,
            best[v].unwrap() as int,
        ) && routes[v].len() <= count_true(done) + 1
}

/// The walk of every reached cell but the start is the walk of a settled
/// cell with one more step.
pub open spec fn parents_ok(
    graph: CostGraph,
    start: int,
    best: Seq<Option<u128>>,
    done: Seq<bool>,
    from: Seq<usize>,
    routes: Seq<Seq<int>>,
) -> bool {
    forall|v: int|
        0 <= v < graph.size() && (#[trigger] best[v]) is Some && v != start ==> from[v]
            < graph.size() && done[from[v] as int] && routes[v] == routes[from[v] as int].push(v)
}

/// The cost of every settled cell is the cost of a cheapest walk to it.
pub open spec fn settled_ok(graph: CostGraph, start: int, best: Seq<Option<u128>>, done: Seq<bool>) -> bool {
    &&& forall|v: int| 0 <= v < graph.size() && #[trigger] done[v] ==> best[v] is Some
    &&& forall|v: int, p: Seq<int>|
        0 <= v < graph.size() && done[v] && #[trigger] graph.route(p, start, v)
            ==> best[v].unwrap() <= graph.walk_cost(p)
}

/// Every step out of a settled cell has been taken into account, but for
/// the links of cell `pending` from position `progress` on.
pub open spec fn steps_ok(
    graph: CostGraph,
    budget: Option<u128>,
    best: Seq<Option<u128>>,
    done: Seq<bool>,
    pending: int,
    progress: int,
) -> bool {
    forall|a: int, k: int|
        0 <= a < graph.size() && done[a] && 0 <= k < graph.links@[a]@.len()
            && graph.passable@[graph.links@[a]@[k] as int] && (a != pending || k < progress)
            ==> relaxed(
            budget,
            best[a].unwrap() + graph.cost@[graph.links@[a]@[k] as int],
            best[#[trigger] graph.links@[a]@[k] as int],
        )
}

/// What holds of a search between two of its steps.
///
/// Every reached cell has a walk from the start at its best known cost;
/// the cost of a settled cell is the cost of a cheapest walk; and every
/// step out of a settled cell has been taken into account, but for the
/// links of cell `pending` from position `progress` on.
#[verifier::opaque]
pub open spec fn explored(
    graph: CostGraph,
    start: int,
    budget: Option<u128>,
    best: Seq<Option<u128>>,
    done: Seq<bool>,
    from: Seq<usize>,
    routes: Seq<Seq<int>>,
    pending: int,
    progress: int,
) -> bool {
    let n = graph.size();
    &&& graph.well_formed()
    &&& 0 <= start < n
    &&& best.len() == n
    &&& done.len() == n
    &&& from.len() == n
    &&& routes.len() == n
    &&& best[start] == Some(0u128)
    &&& routes[start] == seq![start]
    &&& 0 <= pending < n ==> done[pending] && routes[pending].len() <= count_true(done)
    &&& fresh_ok(graph, start, best, done)
    &&& reached_ok(graph, start, budget, best, done, routes)
    &&& parents_ok(graph, start, best, done, from, routes)
    &&& settled_ok(graph, start, best, done)
    &&& steps_ok(graph, budget, best, done, pending, progress)
}

/// What the search knows of every cell that it has reached.
pub proof fn lemma_reached(
    graph: CostGraph,
    start: int,
    budget: Option<u128>,
    best: Seq<Option<u128>>,
    done: Seq<bool>,
    from: Seq<usize>,
    routes: Seq<Seq<int>>,
    pending: int,
    progress: int,
)
    requires
        explored(graph, start, budget, best, done, from, routes, pending, progress),
    ensures
        graph.well_formed(),
        0 <= start < graph.size(),
        best.len() == graph.size(),
        done.len() == graph.size(),
        from.len() == graph.size(),
        routes.len() == graph.size(),
        best[start] == Some(0u128),
        forall|v: int|
            0 <= v < graph.size() && (#[trigger] best[v]) is Some ==> graph.route(
                routes[v],
                start,
                v,
            ) && graph.walk_cost(routes[v]) == best[v].unwrap() && within(
                budget,
                best[v].unwrap() as int,
            ) && routes[v].len() <= count_true(done) + 1,
        forall|v: int|
            0 <= v < graph.size() && (#[trigger] best[v]) is Some && v != start ==> from[v]
                < graph.size() && done[from[v] as int] && routes[v] == routes[from[v] as int].push(
                v,
            ),
        forall|v: int| 0 <= v < graph.size() && #[trigger] done[v] ==> best[v] is Some,
{
    reveal(explored);
}

/// The first cell of a walk that is not settled, when the walk starts at
/// a settled cell and ends at one that is not.
proof fn lemma_first_unsettled(graph: CostGraph, done: Seq<bool>, p: Seq<int>, k: int) -> (i: int)
    requires
        graph.walk(p),
        done.len() == graph.size(),
        1 <= k < p.len(),
        forall|j: int| 0 <= j < k ==> done[#[trigger] p[j]],
        !done[p[p.len() - 1]],
    ensures
        1 <= i < p.len(),
        !done[p[i]],
        forall|j: int| 0 <= j < i ==> done[#[trigger] p[j]],
    decreases p.len() - k,
{
    if !done[p[k]] {
        k
    } else {
        lemma_first_unsettled(graph, done, p, k + 1)
    }
}

/// A walk that leaves the settled cells does so through a cell whose
/// best known cost is no more than the walk has cost up to there, unless
/// the walk is over the budget.
proof fn lemma_frontier(
    graph: CostGraph,
    start: int,
    budget: Option<u128>,
    best: Seq<Option<u128>>,
    done: Seq<bool>,
    from: Seq<usize>,
    routes: Seq<Seq<int>>,
    p: Seq<int>,
) -> (i: int)
    requires
        explored(graph, start, budget, best, done, from, routes, graph.size(), 0),
        graph.walk(p),
        p[0] == start,
        done[start],
        !done[p[p.len() - 1]],
        within(budget, graph.walk_cost(p) as int),
    ensures
        1 <= i < p.len(),
        is_open(best, done, p[i]),
        best[p[i]].unwrap() <= graph.walk_cost(p.take(i + 1)),
        graph.walk_cost(p) == graph.walk_cost(p.take(i + 1)) + graph.walk_cost(p.skip(i)),
        graph.walk(p.skip(i)),
{
    reveal(explored);
    let i = lemma_first_unsettled(graph, done, p, 1);
    let c = p[i - 1];
    let o = p[i];
    graph.lemma_walk_cells(p, i - 1);
    graph.lemma_walk_cells(p, i);
    assert(graph.step(p, i - 1));
    let k = choose|k: int| 0 <= k < graph.links@[c]@.len() && #[trigger] graph.links@[c]@[k] == o;
    graph.lemma_walk_take(p, i);
    graph.lemma_walk_take(p, i + 1);
    graph.lemma_walk_skip(p, i);
    graph.lemma_cost_split(p, i);
    let head = p.take(i);
    let upto = p.take(i + 1);
    assert(graph.route(head, start, c));
    assert(best[c].unwrap() <= graph.walk_cost(head));
    assert(upto.drop_last() =~= head);
    assert(graph.walk_cost(upto) == graph.walk_cost(head) + graph.cost@[o]);
    assert(relaxed(budget, best[c].unwrap() + graph.cost@[o], best[graph.links@[c]@[k] as int]));
    i
}

/// What the search knows of one cell that it has reached.
proof fn lemma_reached_at(
    graph: CostGraph,
    start: int,
    budget: Option<u128>,
    best: Seq<Option<u128>>,
    done: Seq<bool>,
    from: Seq<usize>,
    routes: Seq<Seq<int>>,
    v: int,
)
    requires
        explored(graph, start, budget, best, done, from, routes, graph.size(), 0),
        0 <= v < graph.size(),
        best[v] is Some,
    ensures
        graph.well_formed(),
        within(budget, best[v].unwrap() as int),
        !done[start] ==> v == start && best[v] == Some(0u128),
{
    reveal(explored);
}

/// A cell on a walk to `u` whose cost plus estimate is no less than that
/// of `u`, and whose cost is no more than the walk has cost up to it,
/// shows that the walk costs no less than `u` is known to cost.
proof fn lemma_no_shortcut(
    graph: CostGraph,
    estimate: Seq<u64>,
    p: Seq<int>,
    i: int,
    cost_u: int,
    cost_o: int,
)
    requires
        graph.well_formed(),
        graph.consistent(estimate),
        graph.walk(p),
        0 <= i < p.len(),
        graph.walk_cost(p) == graph.walk_cost(p.take(i + 1)) + graph.walk_cost(p.skip(i)),
        cost_o <= graph.walk_cost(p.take(i + 1)),
        cost_u + estimate[p[p.len() - 1]] <= cost_o + estimate[p[i]],
    ensures
        cost_u <= graph.walk_cost(p),
{
    graph.lemma_walk_skip(p, i);
    graph.lemma_estimate_along(estimate, p.skip(i));
    assert(p.skip(i)[0] == p[i]);
    assert(p.skip(i)[p.skip(i).len() - 1] == p[p.len() - 1]);
}

/// The cost of the cell that a search picks next is the cost of a
/// cheapest walk to it.
proof fn lemma_settle(
    graph: CostGraph,
    estimate: Seq<u64>,
    start: int,
    budget: Option<u128>,
    best: Seq<Option<u128>>,
    done: Seq<bool>,
    from: Seq<usize>,
    routes: Seq<Seq<int>>,
    u: int,
    p: Seq<int>,
)
    requires
        explored(graph, start, budget, best, done, from, routes, graph.size(), 0),
        graph.consistent(estimate),
        0 <= u < graph.size(),
        is_open(best, done, u),
        forall|v: int|
            0 <= v < graph.size() && is_open(best, done, v) ==> best[u].unwrap() + estimate[u]
                <= (#[trigger] best[v]).unwrap() + estimate[v],
        graph.route(p, start, u),
    ensures
        best[u].unwrap() <= graph.walk_cost(p),
{
    lemma_reached_at(graph, start, budget, best, done, from, routes, u);
    if done[start] && graph.walk_cost(p) < best[u].unwrap() {
        let i = lemma_frontier(graph, start, budget, best, done, from, routes, p);
        let o = p[i];
        graph.lemma_walk_cells(p, i);
        assert(best[u].unwrap() + estimate[u] <= best[o].unwrap() + estimate[o]);
        lemma_no_shortcut(graph, estimate, p, i, best[u].unwrap() as int, best[o].unwrap() as int);
    }
}

/// When no reached cell is left unsettled, every cell that a walk within
/// the budget leads to is settled.
pub(crate) proof fn lemma_exhausted(
    graph: CostGraph,
    start: int,
    budget: Option<u128>,
    best: Seq<Option<u128>>,
    done: Seq<bool>,
    from: Seq<usize>,
    routes: Seq<Seq<int>>,
    p: Seq<int>,
)
    requires
        explored(graph, start, budget, best, done, from, routes, graph.size(), 0),
        forall|v: int| 0 <= v < graph.size() ==> !#[trigger] is_open(best, done, v),
        graph.walk(p),
        p[0] == start,
        within(budget, graph.walk_cost(p) as int),
    ensures
        done[p[p.len() - 1]],
{
    assert(!is_open(best, done, start));
    assert(done[start]) by {
        reveal(explored);
    }
    if !done[p[p.len() - 1]] {
        let i = lemma_frontier(graph, start, budget, best, done, from, routes, p);
        graph.lemma_walk_cells(p, i);
        assert(!is_open(best, done, p[i]));
    }
}

/// The state in which a search sets out: the start has been reached at
/// no cost, and nothing else.
proof fn lemma_set_out(
    graph: CostGraph,
    start: int,
    budget: Option<u128>,
    best: Seq<Option<u128>>,
    done: Seq<bool>,
    from: Seq<usize>,
    routes: Seq<Seq<int>>,
)
    requires
        graph.well_formed(),
        0 <= start < graph.size(),
        best.len() == graph.size(),
        done.len() == graph.size(),
        from.len() == graph.size(),
        routes.len() == graph.size(),
        forall|v: int| 0 <= v < graph.size() ==> !#[trigger] done[v],
        forall|v: int| 0 <= v < graph.size() ==> (#[trigger] best[v]) == (if v == start {
            Some(0u128)
        } else {
            None
        }),
        routes[start] == seq![start],
    ensures
        explored(graph, start, budget, best, done, from, routes, graph.size(), 0),
{
    reveal(explored);
    let only = seq![start];
    assert(graph.walk(only));
    assert(graph.walk_cost(only) == 0);
    assert(reached_ok(graph, start, budget, best, done, routes));
}

/// Settling the cell that the search picked keeps what the search knows;
/// the links of that cell are then pending.
proof fn lemma_close(
    graph: CostGraph,
    estimate: Seq<u64>,
    start: int,
    budget: Option<u128>,
    best: Seq<Option<u128>>,
    done: Seq<bool>,
    from: Seq<usize>,
    routes: Seq<Seq<int>>,
    u: int,
)
    requires
        explored(graph, start, budget, best, done, from, routes, graph.size(), 0),
        graph.consistent(estimate),
        0 <= u < graph.size(),
        is_open(best, done, u),
        forall|v: int|
            0 <= v < graph.size() && is_open(best, done, v) ==> best[u].unwrap() + estimate[u]
                <= (#[trigger] best[v]).unwrap() + estimate[v],
    ensures
        explored(graph, start, budget, best, done.update(u, true), from, routes, u, 0),
        count_true(done.update(u, true)) == count_true(done) + 1,
{
    lemma_reached(graph, start, budget, best, done, from, routes, graph.size(), 0);
    let after = done.update(u, true);
    lemma_count_set(done, u);
    assert(settled_ok(graph, start, best, after)) by {
        reveal(explored);
        assert forall|v: int, p: Seq<int>|
            0 <= v < graph.size() && after[v] && #[trigger] graph.route(
                p,
                start,
                v,
            ) implies best[v].unwrap() <= graph.walk_cost(p) by {
            if v == u {
                lemma_settle(graph, estimate, start, budget, best, done, from, routes, u, p);
            }
        }
    }
    assert(fresh_ok(graph, start, best, after)) by {
        reveal(explored);
    }
    assert(reached_ok(graph, start, budget, best, after, routes)) by {
        reveal(explored);
    }
    assert(parents_ok(graph, start, best, after, from, routes)) by {
        reveal(explored);
    }
    assert(steps_ok(graph, budget, best, after, u, 0)) by {
        reveal(explored);
    }
    reveal(explored);
}

/// A link of the pending cell that changes nothing counts as taken into
/// account: its target may not be entered, or is over the budget, or is
/// already known at no higher cost.
proof fn lemma_pass(
    graph: CostGraph,
    start: int,
    budget: Option<u128>,
    best: Seq<Option<u128>>,
    done: Seq<bool>,
    from: Seq<usize>,
    routes: Seq<Seq<int>>,
    u: int,
    k: int,
)
    requires
        explored(graph, start, budget, best, done, from, routes, u, k),
        0 <= u < graph.size(),
        0 <= k < graph.links@[u]@.len(),
        ({
            let v = graph.links@[u]@[k] as int;
            !graph.passable@[v] || done[v] || relaxed(
                budget,
                best[u].unwrap() + graph.cost@[v],
                best[v],
            )
        }),
    ensures
        explored(graph, start, budget, best, done, from, routes, u, k + 1),
{
    reveal(explored);
    let v = graph.links@[u]@[k] as int;
    if graph.passable@[v] && done[v] {
        assert(graph.edge(u, v));
        graph.lemma_walk_push(routes[u], v);
        assert(graph.route(routes[u].push(v), start, v));
    }
    assert(steps_ok(graph, budget, best, done, u, k + 1));
}

/// A link of the pending cell that leads to an unsettled cell at a lower
/// cost than was known: the cell takes the new cost and the new walk.
proof fn lemma_improve(
    graph: CostGraph,
    start: int,
    budget: Option<u128>,
    best: Seq<Option<u128>>,
    done: Seq<bool>,
    from: Seq<usize>,
    routes: Seq<Seq<int>>,
    u: int,
    k: int,
)
    requires
        explored(graph, start, budget, best, done, from, routes, u, k),
        0 <= u < graph.size(),
        u <= usize::MAX,
        0 <= k < graph.links@[u]@.len(),
        ({
            let v = graph.links@[u]@[k] as int;
            let via = best[u].unwrap() + graph.cost@[v];
            &&& graph.passable@[v]
            &&& !done[v]
            &&& within(budget, via)
            &&& via <= u128::MAX
            &&& best[v] matches Some(t) ==> via < t
        }),
    ensures
        ({
            let v = graph.links@[u]@[k] as int;
            let via = (best[u].unwrap() + graph.cost@[v]) as u128;
            explored(
                graph,
                start,
                budget,
                best.update(v, Some(via)),
                done,
                from.update(v, u as usize),
                routes.update(v, routes[u].push(v)),
                u,
                k + 1,
            )
        }),
{
    reveal(explored);
    let v = graph.links@[u]@[k] as int;
    let via = (best[u].unwrap() + graph.cost@[v]) as u128;
    let best2 = best.update(v, Some(via));
    let from2 = from.update(v, u as usize);
    let routes2 = routes.update(v, routes[u].push(v));
    assert(graph.edge(u, v));
    graph.lemma_walk_push(routes[u], v);
    assert(done[start]);
    assert(v != start);
    assert(fresh_ok(graph, start, best2, done));
    assert(reached_ok(graph, start, budget, best2, done, routes2));
    assert(parents_ok(graph, start, best2, done, from2, routes2)) by {
        assert forall|w: int|
            0 <= w < graph.size() && (#[trigger] best2[w]) is Some && w != start implies from2[w]
            < graph.size() && done[from2[w] as int] && routes2[w] == routes2[from2[w] as int].push(
            w,
        ) by {
            if w != v {
                assert(best[w] is Some);
                assert(done[from[w] as int]);
                assert(from[w] as int != v);
                assert(routes2[from2[w] as int] == routes[from[w] as int]);
            } else {
                assert(done[u]);
                assert(from2[w] == u);
                assert(routes2[u] == routes[u]);
            }
        }
    }
    assert(settled_ok(graph, start, best2, done));
    assert(steps_ok(graph, budget, best2, done, u, k + 1)) by {
        assert forall|a: int, j: int|
            0 <= a < graph.size() && done[a] && 0 <= j < graph.links@[a]@.len()
                && graph.passable@[graph.links@[a]@[j] as int] && (a != u || j < k + 1)
                implies relaxed(
            budget,
            best2[a].unwrap() + graph.cost@[graph.links@[a]@[j] as int],
            best2[#[trigger] graph.links@[a]@[j] as int],
        ) by {
            if a == u && j == k {
            } else {
                assert(relaxed(
                    budget,
                    best[a].unwrap() + graph.cost@[graph.links@[a]@[j] as int],
                    best[graph.links@[a]@[j] as int],
                ));
            }
        }
    }
}

/// When all links of the pending cell are done, nothing is pending.
proof fn lemma_links_done(
    graph: CostGraph,
    start: int,
    budget: Option<u128>,
    best: Seq<Option<u128>>,
    done: Seq<bool>,
    from: Seq<usize>,
    routes: Seq<Seq<int>>,
    u: int,
)
    requires
        0 <= u < graph.size(),
        explored(graph, start, budget, best, done, from, routes, u, graph.links@[u]@.len() as int),
    ensures
        explored(graph, start, budget, best, done, from, routes, graph.size(), 0),
{
    reveal(explored);
}

/// Cell numbers, read as unbounded integers.
pub open spec fn as_cells(path: Seq<usize>) -> Seq<int> {
    path.map_values(|v: usize| v as int)
}

/// The best known cost of a reached cell leaves room for one more cost.
proof fn lemma_cost_fits(
    graph: CostGraph,
    start: int,
    budget: Option<u128>,
    best: Seq<Option<u128>>,
    done: Seq<bool>,
    from: Seq<usize>,
    routes: Seq<Seq<int>>,
    pending: int,
    progress: int,
)
    requires
        explored(graph, start, budget, best, done, from, routes, pending, progress),
        graph.size() <= usize::MAX,
    ensures
        forall|v: int|
            0 <= v < graph.size() && (#[trigger] best[v]) is Some ==> best[v].unwrap() + u64::MAX
                <= u128::MAX,
{
    lemma_reached(graph, start, budget, best, done, from, routes, pending, progress);
    lemma_count_bound(done, 0);
    assert forall|v: int| 0 <= v < graph.size() && (#[trigger] best[v]) is Some implies best[v].unwrap()
        + u64::MAX <= u128::MAX by {
        graph.lemma_cost_bound(routes[v]);
        let m = routes[v].len() - 1;
        assert(m * u64::MAX + u64::MAX <= u128::MAX) by (nonlinear_arith)
            requires
                0 <= m <= u64::MAX,
        ;
    }
}

/// A picked cell as a plain value.
pub open spec fn picked(r: Option<usize>) -> Option<int> {
    match r {
        Some(u) => Some(u as int),
        None => None,
    }
}

/// The reached and unsettled cell with the least sum of cost and
/// estimate; of several such cells, the one with the least number.
pub fn pick(best: &Vec<Option<u128>>, done: &Vec<bool>, estimate: &Vec<u64>) -> (r: Option<usize>)
    requires
        done@.len() == best@.len(),
        estimate@.len() == best@.len(),
        forall|v: int|
            0 <= v < best@.len() && (#[trigger] best@[v]) is Some ==> best@[v].unwrap() + u64::MAX
                <= u128::MAX,
    ensures
        picked(r) == pick_spec(best@, done@, estimate@, best@.len() as int),
        r is None ==> forall|v: int| 0 <= v < best@.len() ==> !#[trigger] is_open(best@, done@, v),
        r matches Some(u) ==> u < best@.len() && is_open(best@, done@, u as int) && forall|v: int|
            0 <= v < best@.len() && is_open(best@, done@, v) ==> best@[u as int].unwrap()
                + estimate@[u as int] <= (#[trigger] best@[v]).unwrap() + estimate@[v] && (
            best@[u as int].unwrap() + estimate@[u as int] == best@[v].unwrap() + estimate@[v]
                ==> u <= v),
{
    let mut chosen: Option<usize> = None;
    let mut least: u128 = 0;
    let mut v: usize = 0;
    while v < best.len()
        invariant
            v <= best@.len(),
            done@.len() == best@.len(),
            estimate@.len() == best@.len(),
            forall|w: int|
                0 <= w < best@.len() && (#[trigger] best@[w]) is Some ==> best@[w].unwrap()
                    + u64::MAX <= u128::MAX,
            picked(chosen) == pick_spec(best@, done@, estimate@, v as int),
            chosen is None ==> forall|w: int| 0 <= w < v ==> !#[trigger] is_open(best@, done@, w),
            chosen matches Some(u) ==> u < v && is_open(best@, done@, u as int) && least
                == best@[u as int].unwrap() + estimate@[u as int] && forall|w: int|
                0 <= w < v && is_open(best@, done@, w) ==> least <= (#[trigger] best@[w]).unwrap()
                    + estimate@[w] && (least == best@[w].unwrap() + estimate@[w] ==> u <= w),
        decreases best@.len() - v,
    {
        if !done[v] {
            match best[v] {
                Some(c) => {
                    let sum: u128 = c + estimate[v] as u128;
                    if chosen.is_none() || sum < least {
                        chosen = Some(v);
                        least = sum;
                    }
                },
                None => {},
            }
        }
        v = v + 1;
    }
    chosen
}

/// A vector of `count` copies of `value`.
pub(crate) fn repeated<T: Copy>(count: usize, value: T) -> (r: Vec<T>)
    ensures
        r@.len() == count,
        forall|k: int| 0 <= k < count ==> #[trigger] r@[k] == value,
{
    let mut out: Vec<T> = Vec::new();
    let mut k: usize = 0;
    while k < count
        invariant
            k <= count,
            out@.len() == k,
            forall|m: int| 0 <= m < k ==> #[trigger] out@[m] == value,
        decreases count - k,
    {
        out.push(value);
        k = k + 1;
    }
    out
}

/// Whether the goal is reached and unsettled, at the cost of a cheapest
/// walk to it.
pub open spec fn arrived(
    graph: CostGraph,
    start: int,
    goal: Option<usize>,
    best: Seq<Option<u128>>,
    done: Seq<bool>,
) -> bool {
    match goal {
        Some(t) => is_open(best, done, t as int) && forall|p: Seq<int>| #[trigger]
            graph.route(p, start, t as int) ==> best[t as int].unwrap() <= graph.walk_cost(p),
        None => false,
    }
}

/// A copy of a vector of plain values.
pub(crate) fn copied<R: Copy>(table: &Vec<R>) -> (r: Vec<R>)
    ensures
        r@ == table@,
{
    let mut out: Vec<R> = Vec::new();
    let mut k: usize = 0;
    while k < table.len()
        invariant
            k <= table@.len(),
            out@ == table@.take(k as int),
        decreases table@.len() - k,
    {
        out.push(table[k]);
        k = k + 1;
        assert(out@ =~= table@.take(k as int));
    }
    assert(table@.take(table@.len() as int) =~= table@);
    out
}

/// The tables of the search on `graph` after `rounds` rounds.
pub open spec fn graph_run(
    graph: CostGraph,
    estimate: Seq<u64>,
    start: int,
    goal: Option<usize>,
    budget: Option<u128>,
    rounds: nat,
) -> Tables {
    run_spec(
        links_view(graph.links@),
        graph.passable@,
        graph.cost@,
        estimate,
        start,
        goal,
        budget,
        rounds,
    )
}

/// Whether the tables are those with which the search on `graph` comes
/// to its end.
pub open spec fn settled(
    graph: CostGraph,
    estimate: Seq<u64>,
    start: int,
    goal: Option<usize>,
    budget: Option<u128>,
    best: Seq<Option<u128>>,
    done: Seq<bool>,
    from: Seq<usize>,
    found: bool,
) -> bool {
    let last = graph_run(graph, estimate, start, goal, budget, (graph.size() + 1) as nat);
    &&& last.best == best
    &&& last.done == done
    &&& last.from == from
    &&& last.found == found
    &&& last.halted
}

/// The tables of a finished search: the best known cost of each cell,
/// whether the cell is settled, and the cell before it on its walk.
pub struct Explored {
    /// The best known cost of each cell, `None` where it was not reached.
    pub best: Vec<Option<u128>>,
    /// Whether each cell is settled.
    pub done: Vec<bool>,
    /// The cell before each reached cell on its cheapest known walk.
    pub from: Vec<usize>,
    /// Whether the search stopped at its goal.
    pub found: bool,
}

/// Searches `graph` from `start`, settling cells in the order of their
/// cost plus estimate, until the goal is the next cell to settle or no
/// reached cell is left. Cells that only a cost over the budget reaches
/// are never reached.
pub(crate) fn explore(
    graph: &CostGraph,
    estimate: &Vec<u64>,
    start: usize,
    goal: Option<usize>,
    budget: Option<u128>,
) -> (r: (Explored, Ghost<Seq<Seq<int>>>))
    requires
        graph.well_formed(),
        start < graph.size(),
        graph.consistent(estimate@),
        goal matches Some(t) ==> t < graph.size(),
    ensures
        explored(
            *graph,
            start as int,
            budget,
            r.0.best@,
            r.0.done@,
            r.0.from@,
            r.1@,
            graph.size(),
            0,
        ),
        goal matches Some(t) ==> !r.0.done@[t as int],
        settled(*graph, estimate@, start as int, goal, budget, r.0.best@, r.0.done@, r.0.from@, r.0.found),
        r.0.found ==> arrived(*graph, start as int, goal, r.0.best@, r.0.done@),
        !r.0.found ==> forall|v: int|
            0 <= v < graph.size() ==> !#[trigger] is_open(r.0.best@, r.0.done@, v),
{
    let n = graph.links.len();
    let mut best: Vec<Option<u128>> = repeated(n, None);
    let mut done: Vec<bool> = repeated(n, false);
    let mut from: Vec<usize> = repeated(n, 0);
    best[start] = Some(0u128);
    let ghost mut routes: Seq<Seq<int>> = Seq::new(n as nat, |v: int| seq![v]);
    let mut found = false;
    let ghost mut rounds: nat = 0;
    proof {
        lemma_set_out(*graph, start as int, budget, best@, done@, from@, routes);
        let first = first_tables(n as nat, start as int);
        assert(best@ =~= first.best);
        assert(done@ =~= first.done);
        assert(from@ =~= first.from);
        lemma_count_none(done@);
    }
    loop
        invariant_except_break
            !found,
            rounds == count_true(done@),
            graph_run(*graph, estimate@, start as int, goal, budget, rounds).best == best@,
            graph_run(*graph, estimate@, start as int, goal, budget, rounds).done == done@,
            graph_run(*graph, estimate@, start as int, goal, budget, rounds).from == from@,
            !graph_run(*graph, estimate@, start as int, goal, budget, rounds).halted,
        invariant
            estimate@.len() == n,
            best@.len() == n,
            n == graph.size(),
            graph.well_formed(),
            graph.consistent(estimate@),
            start < n,
            goal matches Some(t) ==> t < n && !done@[t as int],
            done@.len() == n,
            explored(*graph, start as int, budget, best@, done@, from@, routes, n as int, 0),
        ensures
            settled(*graph, estimate@, start as int, goal, budget, best@, done@, from@, found),
            found ==> arrived(*graph, start as int, goal, best@, done@),
            !found ==> forall|v: int| 0 <= v < n ==> !#[trigger] is_open(best@, done@, v),
        decreases n - count_true(done@),
    {
        proof {
            lemma_reached(*graph, start as int, budget, best@, done@, from@, routes, n as int, 0);
            lemma_cost_fits(*graph, start as int, budget, best@, done@, from@, routes, n as int, 0);
            lemma_count_bound(done@, 0);
        }
        let next = pick(&best, &done, estimate);
        let ghost now = graph_run(*graph, estimate@, start as int, goal, budget, rounds);
        if next.is_none() {
            proof {
                let last = graph_run(*graph, estimate@, start as int, goal, budget, rounds + 1);
                assert(last == (Tables { halted: true, found: false, ..now }));
                lemma_halted(
                    links_view(graph.links@),
                    graph.passable@,
                    graph.cost@,
                    estimate@,
                    start as int,
                    goal,
                    budget,
                    rounds + 1,
                    (n + 1) as nat,
                );
            }
            break ;
        }
        let u = next.unwrap();
        match goal {
            Some(t) => {
                if t == u {
                    proof {
                        assert forall|p: Seq<int>| #[trigger]
                            graph.route(p, start as int, t as int) implies best@[t as int].unwrap()
                            <= graph.walk_cost(p) by {
                            lemma_settle(
                                *graph,
                                estimate@,
                                start as int,
                                budget,
                                best@,
                                done@,
                                from@,
                                routes,
                                u as int,
                                p,
                            );
                        }
                    }
                    proof {
                        let last = graph_run(
                            *graph,
                            estimate@,
                            start as int,
                            goal,
                            budget,
                            rounds + 1,
                        );
                        assert(last == (Tables { halted: true, found: true, ..now }));
                        lemma_halted(
                            links_view(graph.links@),
                            graph.passable@,
                            graph.cost@,
                            estimate@,
                            start as int,
                            goal,
                            budget,
                            rounds + 1,
                            (n + 1) as nat,
                        );
                    }
                    found = true;
                    break ;
                }
            },
            None => {},
        }
        proof {
            lemma_close(
                *graph,
                estimate@,
                start as int,
                budget,
                best@,
                done@,
                from@,
                routes,
                u as int,
            );
            lemma_count_bound(done@, u as int);
        }
        done[u] = true;
        let cost_here = best[u].unwrap();
        let ghost best_before = best@;
        let ghost from_before = from@;
        let mut k: usize = 0;
        while k < graph.links[u].len()
            invariant
                relax_spec(
                    links_view(graph.links@),
                    graph.passable@,
                    graph.cost@,
                    budget,
                    best_before,
                    from_before,
                    done@,
                    u as int,
                    k as int,
                ) == (best@, from@),
                best_before.len() == n,
                best@.len() == n,
                best_before[u as int] == Some(cost_here),
                n == graph.size(),
                graph.well_formed(),
                u < n,
                k <= graph.links@[u as int]@.len(),
                best@[u as int] == Some(cost_here),
                goal matches Some(t) ==> t < n && !done@[t as int],
                done@.len() == n,
                explored(*graph, start as int, budget, best@, done@, from@, routes, u as int, k as int),
            decreases graph.links@[u as int]@.len() - k,
        {
            proof {
                lemma_reached(*graph, start as int, budget, best@, done@, from@, routes, u as int, k as int);
                lemma_cost_fits(*graph, start as int, budget, best@, done@, from@, routes, u as int, k as int);
            }
            let v = graph.links[u][k];
            if graph.passable[v] && !done[v] {
                let via: u128 = cost_here + graph.cost[v] as u128;
                let affordable = match budget {
                    Some(b) => via <= b,
                    None => true,
                };
                let better = match best[v] {
                    Some(t) => via < t,
                    None => true,
                };
                if affordable && better {
                    proof {
                        assert(u != v) by {
                            reveal(explored);
                        }
                        lemma_improve(
                            *graph,
                            start as int,
                            budget,
                            best@,
                            done@,
                            from@,
                            routes,
                            u as int,
                            k as int,
                        );
                        routes = routes.update(v as int, routes[u as int].push(v as int));
                    }
                    best[v] = Some(via);
                    from[v] = u;
                } else {
                    proof {
                        lemma_pass(
                            *graph,
                            start as int,
                            budget,
                            best@,
                            done@,
                            from@,
                            routes,
                            u as int,
                            k as int,
                        );
                    }
                }
            } else {
                proof {
                    lemma_pass(
                        *graph,
                        start as int,
                        budget,
                        best@,
                        done@,
                        from@,
                        routes,
                        u as int,
                        k as int,
                    );
                }
            }
            k = k + 1;
        }
        proof {
            lemma_links_done(*graph, start as int, budget, best@, done@, from@, routes, u as int);
            let next_tables = graph_run(*graph, estimate@, start as int, goal, budget, rounds + 1);
            assert(goal != Some(u));
            assert(links_view(graph.links@)[u as int].len() == graph.links@[u as int]@.len());
            assert(next_tables.best == best@);
            assert(next_tables.done == done@);
            assert(next_tables.from == from@);
            rounds = rounds + 1;
        }
    }
    (Explored { best, done, from, found }, Ghost(routes))
}

} // verus!
