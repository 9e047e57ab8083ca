use crate::search::astar::links_view;
use crate::search::explore::{
    as_cells, explore, explored, lemma_count_bound, lemma_exhausted, lemma_reached, repeated,
    Explored,
};
use crate::search::order::{chain_spec, settled_route};
use crate::search::walks::CostGraph;
use vstd::prelude::*;

verus! {

/// Whether entry `a` comes no later than entry `b`: by cost first, then
/// by the number of the cell.
pub open spec fn entry_le(a: (u128, usize), b: (u128, usize)) -> bool {
    a.0 < b.0 || (a.0 == b.0 && a.1 <= b.1)
}

/// `Itertools::sorted_unstable` of the itertools crate, on pairs of a
/// cost and a cell: the same pairs, each as often as before, in ascending
/// order of the pairs.
#[verifier::external_body]
fn sorted_entries(entries: Vec<(u128, usize)>) -> (r: Vec<(u128, usize)>)
    ensures
        r@.to_multiset() == entries@.to_multiset(),
        forall|i: int, j: int| 0 <= i < j < r@.len() ==> entry_le(r@[i], r@[j]),
{
    itertools::Itertools::sorted_unstable(entries.into_iter()).collect()
}

/// The walk that the parent links record for the goal of a search.
fn trace(
    graph: &CostGraph,
    found: &Explored,
    start: usize,
    goal: usize,
    budget: Option<u128>,
    Ghost(routes): Ghost<Seq<Seq<int>>>,
) -> (r: Vec<usize>)
    requires
        explored(
            *graph,
            start as int,
            budget,
            found.best@,
            found.done@,
            found.from@,
            routes,
            graph.size(),
            0,
        ),
        goal < graph.size(),
        found.best@[goal as int] is Some,
    ensures
        as_cells(r@) == routes[goal as int],
{
    let ghost full = routes[goal as int];
    proof {
        lemma_reached(
            *graph,
            start as int,
            budget,
            found.best@,
            found.done@,
            found.from@,
            routes,
            graph.size(),
            0,
        );
    }
    let mut back: Vec<usize> = Vec::new();
    let mut cur = goal;
    while cur != start
        invariant
            graph.size() == found.best@.len(),
            found.from@.len() == graph.size(),
            found.done@.len() == graph.size(),
            routes.len() == graph.size(),
            start < graph.size(),
            cur < graph.size(),
            found.best@[cur as int] is Some,
            forall|v: int|
                0 <= v < graph.size() && (#[trigger] found.best@[v]) is Some ==> graph.route(
                    routes[v],
                    start as int,
                    v,
                ),
            forall|v: int|
                0 <= v < graph.size() && (#[trigger] found.best@[v]) is Some && v != start
                    ==> found.from@[v] < graph.size() && found.done@[found.from@[v] as int]
                    && routes[v] == routes[found.from@[v] as int].push(v),
            forall|v: int| 0 <= v < graph.size() && #[trigger] found.done@[v] ==> found.best@[v] is Some,
            full == routes[goal as int],
            back@.len() + routes[cur as int].len() == full.len(),
            routes[cur as int] == full.take(routes[cur as int].len() as int),
            forall|j: int| 0 <= j < back@.len() ==> #[trigger] back@[j] == full[full.len() - 1 - j],
        decreases routes[cur as int].len(),
    {
        let ghost here = routes[cur as int];
        let before = found.from[cur];
        proof {
            assert(here == routes[before as int].push(cur as int));
            assert(found.done@[before as int]);
            assert(here[here.len() - 1] == cur);
            assert(full[here.len() - 1] == here[here.len() - 1]);
            assert(routes[before as int] =~= full.take(routes[before as int].len() as int));
        }
        back.push(cur);
        cur = before;
    }
    proof {
        assert(routes[start as int] == seq![start as int]) by {
            reveal(explored);
        }
        assert(full[0] == start);
    }
    back.push(cur);
    let mut path: Vec<usize> = Vec::new();
    let mut k: usize = back.len();
    while k > 0
        invariant
            k <= back@.len(),
            back@.len() == full.len(),
            path@.len() == back@.len() - k,
            forall|j: int| 0 <= j < back@.len() ==> #[trigger] back@[j] == full[full.len() - 1 - j],
            forall|j: int| 0 <= j < path@.len() ==> #[trigger] path@[j] == full[j],
        decreases k,
    {
        k = k - 1;
        path.push(back[k]);
    }
    assert(as_cells(path@) =~= full);
    path
}

/// A cheapest walk from `start` to `goal` with its cost, or `None` when
/// no walk leads there.
///
/// The search settles cells in the order of their cost plus `estimate`,
/// and the cell with the least number first among equals. The estimate
/// must be consistent; the estimate that is zero everywhere always is.
pub fn shortest_route(graph: &CostGraph, estimate: &Vec<u64>, start: usize, goal: usize) -> (r:
    Option<(Vec<usize>, u128)>)
    requires
        graph.well_formed(),
        graph.consistent(estimate@),
        start < graph.size(),
        goal < graph.size(),
    ensures
        route_view(r) == settled_route(
            links_view(graph.links@),
            graph.passable@,
            graph.cost@,
            estimate@,
            start as int,
            goal as int,
            None,
        ),
        r is None <==> !graph.connected(start as int, goal as int),
        r matches Some(found) ==> graph.route(as_cells(found.0@), start as int, goal as int)
            && found.1 == graph.walk_cost(as_cells(found.0@)) && forall|p: Seq<int>| #[trigger]
            graph.route(p, start as int, goal as int) ==> found.1 <= graph.walk_cost(p),
{
    shortest_route_within(graph, estimate, start, goal, None)
}

/// A cheapest walk from `start` to `goal` with its cost, where that cost
/// is within the budget, or `None` when no walk within the budget leads
/// there. Without a budget every walk is within it.
pub fn shortest_route_within(
    graph: &CostGraph,
    estimate: &Vec<u64>,
    start: usize,
    goal: usize,
    budget: Option<u128>,
) -> (r: Option<(Vec<usize>, u128)>)
    requires
        graph.well_formed(),
        graph.consistent(estimate@),
        start < graph.size(),
        goal < graph.size(),
    ensures
        route_view(r) == settled_route(
            links_view(graph.links@),
            graph.passable@,
            graph.cost@,
            estimate@,
            start as int,
            goal as int,
            budget,
        ),
        r is None <==> forall|p: Seq<int>| #[trigger]
            graph.route(p, start as int, goal as int) ==> !affordable(budget, graph.walk_cost(p)),
        r matches Some(found) ==> graph.route(as_cells(found.0@), start as int, goal as int)
            && found.1 == graph.walk_cost(as_cells(found.0@)) && affordable(
            budget,
            found.1 as nat,
        ) && forall|p: Seq<int>| #[trigger]
            graph.route(p, start as int, goal as int) ==> found.1 <= graph.walk_cost(p),
{
    let (tables, Ghost(routes)) = explore(graph, estimate, start, Some(goal), budget);
    proof {
        lemma_reached(
            *graph,
            start as int,
            budget,
            tables.best@,
            tables.done@,
            tables.from@,
            routes,
            graph.size(),
            0,
        );
    }
    if tables.found {
        let path = trace(graph, &tables, start, goal, budget, Ghost(routes));
        let cost = tables.best[goal].unwrap();
        assert(graph.route(routes[goal as int], start as int, goal as int));
        proof {
            lemma_count_bound(tables.done@, 0);
            lemma_chain(
                *graph,
                start as int,
                budget,
                tables.best@,
                tables.done@,
                tables.from@,
                routes,
                goal as int,
                graph.size() as nat,
            );
        }
        Some((path, cost))
    } else {
        proof {
            assert forall|p: Seq<int>| #[trigger]
                graph.route(p, start as int, goal as int) implies !affordable(
                budget,
                graph.walk_cost(p),
            ) by {
                if affordable(budget, graph.walk_cost(p)) {
                    lemma_exhausted(
                        *graph,
                        start as int,
                        budget,
                        tables.best@,
                        tables.done@,
                        tables.from@,
                        routes,
                        p,
                    );
                }
            }
        }
        None
    }
}

/// A route with its cost as plain values.
pub open spec fn route_view(r: Option<(Vec<usize>, u128)>) -> Option<(Seq<int>, u128)> {
    match r {
        Some(f) => Some((as_cells(f.0@), f.1)),
        None => None,
    }
}

/// The walk that the search keeps for a reached cell is the walk that
/// the cells before record for it.
proof fn lemma_chain(
    graph: CostGraph,
    start: int,
    budget: Option<u128>,
    best: Seq<Option<u128>>,
    done: Seq<bool>,
    from: Seq<usize>,
    routes: Seq<Seq<int>>,
    v: int,
    fuel: nat,
)
    requires
        explored(graph, start, budget, best, done, from, routes, graph.size(), 0),
        0 <= v < graph.size(),
        best[v] is Some,
        routes[v].len() <= fuel + 1,
    ensures
        chain_spec(from, start, v, fuel) == routes[v],
    decreases fuel,
{
    lemma_reached(graph, start, budget, best, done, from, routes, graph.size(), 0);
    if v == start {
        assert(routes[start] == seq![start]) by {
            reveal(explored);
        }
    } else {
        let u = from[v] as int;
        assert(routes[v] == routes[u].push(v));
        assert(graph.route(routes[u], start, u));
        lemma_chain(graph, start, budget, best, done, from, routes, u, (fuel - 1) as nat);
    }
}

/// Whether the cost `c` is within the budget, where there is one.
pub open spec fn affordable(budget: Option<u128>, c: nat) -> bool {
    budget matches Some(b) ==> c <= b
}

/// A settled cell is known at the cost of a cheapest walk to it, and
/// that cost is within the budget.
proof fn lemma_settled(
    graph: CostGraph,
    start: int,
    budget: Option<u128>,
    best: Seq<Option<u128>>,
    done: Seq<bool>,
    from: Seq<usize>,
    routes: Seq<Seq<int>>,
    v: int,
)
    requires
        explored(graph, start, budget, best, done, from, routes, graph.size(), 0),
        0 <= v < graph.size(),
        done[v],
    ensures
        best[v] is Some,
        affordable(budget, best[v].unwrap() as nat),
        graph.distance_is(start, v, best[v].unwrap() as nat),
{
    reveal(explored);
    assert(graph.route(routes[v], start, v) && graph.walk_cost(routes[v]) == best[v].unwrap());
}

/// Two sequences that hold the same entries equally often hold the same
/// entries, and neither repeats one if the other does not.
proof fn lemma_same_entries(a: Seq<(u128, usize)>, b: Seq<(u128, usize)>)
    requires
        a.to_multiset() == b.to_multiset(),
    ensures
        forall|e: (u128, usize)| a.contains(e) <==> #[trigger] b.contains(e),
        a.no_duplicates() ==> b.no_duplicates(),
{
    a.to_multiset_ensures();
    b.to_multiset_ensures();
    assert forall|e: (u128, usize)| a.contains(e) <==> #[trigger] b.contains(e) by {
        vstd::seq_lib::to_multiset_contains(a, e);
        vstd::seq_lib::to_multiset_contains(b, e);
    }
    if a.no_duplicates() {
        a.lemma_multiset_has_no_duplicates();
        b.lemma_multiset_has_no_duplicates_conv();
    }
}

/// What the sorted entries of a finished search say.
proof fn lemma_report(
    graph: CostGraph,
    start: int,
    budget: u128,
    best: Seq<Option<u128>>,
    done: Seq<bool>,
    from: Seq<usize>,
    routes: Seq<Seq<int>>,
    unsorted: Seq<(u128, usize)>,
    sorted: Seq<(u128, usize)>,
)
    requires
        explored(graph, start, Some(budget), best, done, from, routes, graph.size(), 0),
        graph.size() <= usize::MAX,
        forall|v: int| 0 <= v < graph.size() ==> !#[trigger] crate::search::explore::is_open(best, done, v),
        forall|k: int|
            0 <= k < unsorted.len() ==> (#[trigger] unsorted[k]).1 < graph.size()
                && done[unsorted[k].1 as int] && best[unsorted[k].1 as int] == Some(unsorted[k].0),
        forall|w: int|
            0 <= w < graph.size() && done[w] ==> unsorted.contains(
                ((#[trigger] best[w]).unwrap(), w as usize),
            ),
        forall|e: (u128, usize)| unsorted.contains(e) <==> #[trigger] sorted.contains(e),
        sorted.no_duplicates(),
        forall|i: int, j: int| 0 <= i < j < sorted.len() ==> entry_le(sorted[i], sorted[j]),
    ensures
        forall|i: int|
            0 <= i < sorted.len() ==> (#[trigger] sorted[i]).1 < graph.size() && sorted[i].0
                <= budget && graph.distance_is(start, sorted[i].1 as int, sorted[i].0 as nat),
        forall|v: int, p: Seq<int>|
            #[trigger] graph.route(p, start, v) && graph.walk_cost(p) <= budget ==> exists|i: int|
                0 <= i < sorted.len() && (#[trigger] sorted[i]).1 == v,
        forall|i: int, j: int|
            0 <= i < j < sorted.len() ==> entry_le(#[trigger] sorted[i], #[trigger] sorted[j])
                && sorted[i].1 != sorted[j].1,
{
    assert forall|i: int| 0 <= i < sorted.len() implies (#[trigger] sorted[i]).1 < graph.size()
        && sorted[i].0 <= budget && graph.distance_is(
        start,
        sorted[i].1 as int,
        sorted[i].0 as nat,
    ) by {
        lemma_entry_known(graph, start, budget, best, done, from, routes, unsorted, sorted, i);
    }
    assert forall|v: int, p: Seq<int>|
        #[trigger] graph.route(p, start, v) && graph.walk_cost(p) <= budget implies exists|i: int|
        0 <= i < sorted.len() && (#[trigger] sorted[i]).1 == v by {
        graph.lemma_walk_cells(p, p.len() - 1);
        lemma_exhausted(graph, start, Some(budget), best, done, from, routes, p);
        assert(done[v]);
        let e = (best[v].unwrap(), v as usize);
        assert(unsorted.contains(e));
        assert(sorted.contains(e));
        let i = choose|i: int| 0 <= i < sorted.len() && sorted[i] == e;
        assert(sorted[i].1 == v);
    }
    assert forall|i: int, j: int| 0 <= i < j < sorted.len() implies entry_le(
        #[trigger] sorted[i],
        #[trigger] sorted[j],
    ) && sorted[i].1 != sorted[j].1 by {
        lemma_entry_known(graph, start, budget, best, done, from, routes, unsorted, sorted, i);
        lemma_entry_known(graph, start, budget, best, done, from, routes, unsorted, sorted, j);
    }
}

/// Each sorted entry is a settled cell with its cost.
proof fn lemma_entry_known(
    graph: CostGraph,
    start: int,
    budget: u128,
    best: Seq<Option<u128>>,
    done: Seq<bool>,
    from: Seq<usize>,
    routes: Seq<Seq<int>>,
    unsorted: Seq<(u128, usize)>,
    sorted: Seq<(u128, usize)>,
    i: int,
)
    requires
        explored(graph, start, Some(budget), best, done, from, routes, graph.size(), 0),
        forall|k: int|
            0 <= k < unsorted.len() ==> (#[trigger] unsorted[k]).1 < graph.size()
                && done[unsorted[k].1 as int] && best[unsorted[k].1 as int] == Some(unsorted[k].0),
        forall|e: (u128, usize)| unsorted.contains(e) <==> #[trigger] sorted.contains(e),
        0 <= i < sorted.len(),
    ensures
        sorted[i].1 < graph.size(),
        done[sorted[i].1 as int],
        best[sorted[i].1 as int] == Some(sorted[i].0),
        sorted[i].0 <= budget,
        graph.distance_is(start, sorted[i].1 as int, sorted[i].0 as nat),
{
    let e = sorted[i];
    assert(sorted.contains(e));
    assert(unsorted.contains(e));
    let k = choose|k: int| 0 <= k < unsorted.len() && unsorted[k] == e;
    assert(done[unsorted[k].1 as int]);
    lemma_settled(graph, start, Some(budget), best, done, from, routes, e.1 as int);
}

/// The cells that a walk from `start` reaches at a cost within `budget`,
/// each with the cost of a cheapest walk to it, in ascending order of
/// the cost, and of the cell's number among equal costs.
pub fn reachable_within(graph: &CostGraph, start: usize, budget: u128) -> (r: Vec<(u128, usize)>)
    requires
        graph.well_formed(),
        start < graph.size(),
    ensures
        forall|i: int|
            0 <= i < r@.len() ==> (#[trigger] r@[i]).1 < graph.size() && r@[i].0 <= budget
                && graph.distance_is(start as int, r@[i].1 as int, r@[i].0 as nat),
        forall|v: int, p: Seq<int>|
            #[trigger] graph.route(p, start as int, v) && graph.walk_cost(p) <= budget
                ==> exists|i: int| 0 <= i < r@.len() && (#[trigger] r@[i]).1 == v,
        forall|i: int, j: int|
            0 <= i < j < r@.len() ==> entry_le(#[trigger] r@[i], #[trigger] r@[j]) && r@[i].1
                != r@[j].1,
{
    let n = graph.links.len();
    let zeros: Vec<u64> = repeated(n, 0u64);
    let (tables, Ghost(routes)) = explore(graph, &zeros, start, None, Some(budget));
    proof {
        lemma_reached(
            *graph,
            start as int,
            Some(budget),
            tables.best@,
            tables.done@,
            tables.from@,
            routes,
            graph.size(),
            0,
        );
    }
    let mut entries: Vec<(u128, usize)> = Vec::new();
    let mut v: usize = 0;
    while v < n
        invariant
            v <= n,
            n == graph.size(),
            tables.best@.len() == n,
            tables.done@.len() == n,
            forall|w: int| 0 <= w < n && #[trigger] tables.done@[w] ==> tables.best@[w] is Some,
            forall|k: int|
                0 <= k < entries@.len() ==> (#[trigger] entries@[k]).1 < v
                    && tables.done@[entries@[k].1 as int] && tables.best@[entries@[k].1 as int]
                    == Some(entries@[k].0),
            forall|w: int|
                0 <= w < v && tables.done@[w] ==> entries@.contains(
                    ((#[trigger] tables.best@[w]).unwrap(), w as usize),
                ),
            forall|k: int, m: int|
                0 <= k < m < entries@.len() ==> (#[trigger] entries@[k]).1 < (
                #[trigger] entries@[m]).1,
        decreases n - v,
    {
        if tables.done[v] {
            let ghost before = entries@;
            let cost = tables.best[v].unwrap();
            entries.push((cost, v));
            proof {
                assert forall|w: int| 0 <= w < v + 1 && tables.done@[w] implies entries@.contains(
                    ((#[trigger] tables.best@[w]).unwrap(), w as usize),
                ) by {
                    if w < v {
                        let e = (tables.best@[w].unwrap(), w as usize);
                        let k = choose|k: int| 0 <= k < before.len() && before[k] == e;
                        assert(entries@[k] == e);
                    } else {
                        assert(entries@[entries@.len() - 1] == (cost, v));
                    }
                }
            }
        }
        v = v + 1;
    }
    let ghost unsorted = entries@;
    let sorted = sorted_entries(entries);
    proof {
        lemma_same_entries(unsorted, sorted@);
        lemma_report(
            *graph,
            start as int,
            budget,
            tables.best@,
            tables.done@,
            tables.from@,
            routes,
            unsorted,
            sorted@,
        );
    }
    sorted
}

} // verus!
