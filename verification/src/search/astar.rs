use crate::search::explore::as_cells;
use crate::search::walks::CostGraph;
use vstd::prelude::*;

verus! {

/// The links of a graph as plain sequences.
pub open spec fn links_view(links: Seq<Vec<usize>>) -> Seq<Seq<usize>> {
    links.map_values(|row: Vec<usize>| row@)
}

/// A found route as plain values.
pub open spec fn found_view(found: Option<(Vec<usize>, u128)>) -> Option<(Seq<usize>, u128)> {
    match found {
        Some(f) => Some((f.0@, f.1)),
        None => None,
    }
}

/// The route that the A* search of the pathfinding crate finds in a graph
/// with the given links, flags, costs and estimate.
pub uninterp spec fn astar_route(
    links: Seq<Seq<usize>>,
    passable: Seq<bool>,
    cost: Seq<u64>,
    estimate: Seq<u64>,
    start: usize,
    goal: usize,
) -> Option<(Seq<usize>, u128)>;

/// The cells that one step leads to from `at`, each with the cost of
/// entering it.
pub(crate) fn successors(graph: &CostGraph, at: usize) -> (r: Vec<(usize, u128)>)
    requires
        graph.well_formed(),
        at < graph.size(),
    ensures
        forall|k: int|
            0 <= k < r@.len() ==> graph.edge(at as int, (#[trigger] r@[k]).0 as int) && r@[k].1
                == graph.cost@[r@[k].0 as int],
        forall|b: int| graph.edge(at as int, b) ==> exists|k: int|
            0 <= k < r@.len() && (#[trigger] r@[k]).0 == b,
{
    let mut out: Vec<(usize, u128)> = Vec::new();
    let mut k: usize = 0;
    while k < graph.links[at].len()
        invariant
            graph.well_formed(),
            at < graph.size(),
            k <= graph.links@[at as int]@.len(),
            forall|m: int|
                0 <= m < out@.len() ==> graph.edge(at as int, (#[trigger] out@[m]).0 as int)
                    && out@[m].1 == graph.cost@[out@[m].0 as int],
            forall|j: int|
                0 <= j < k && graph.passable@[graph.links@[at as int]@[j] as int] ==> exists|m: int|
                    0 <= m < out@.len() && (#[trigger] out@[m]).0
                        == #[trigger] graph.links@[at as int]@[j],
        decreases graph.links@[at as int]@.len() - k,
    {
        let b = graph.links[at][k];
        let ghost before = out@;
        if graph.passable[b] {
            out.push((b, graph.cost[b] as u128));
            proof {
                assert(graph.links@[at as int]@[k as int] == b);
                assert(graph.edge(at as int, b as int));
                assert forall|j: int|
                    0 <= j < k + 1
                        && graph.passable@[graph.links@[at as int]@[j] as int] implies exists|m: int|
                    0 <= m < out@.len() && (#[trigger] out@[m]).0
                        == #[trigger] graph.links@[at as int]@[j] by {
                    if j < k {
                        let m = choose|m: int|
                            0 <= m < before.len() && (#[trigger] before[m]).0
                                == graph.links@[at as int]@[j];
                        assert(out@[m] == before[m]);
                    } else {
                        assert(out@[out@.len() - 1].0 == b);
                    }
                }
            }
        }
        k = k + 1;
    }
    proof {
        assert forall|b: int| graph.edge(at as int, b) implies exists|m: int|
            0 <= m < out@.len() && (#[trigger] out@[m]).0 == b by {
            let j = choose|j: int|
                0 <= j < graph.links@[at as int]@.len() && #[trigger] graph.links@[at as int]@[j]
                    == b;
            assert(graph.passable@[graph.links@[at as int]@[j] as int]);
        }
    }
    out
}

/// The estimate at a cell, as a cost.
pub(crate) fn estimate_at(estimate: &Vec<u64>, at: usize) -> (r: u128)
    requires
        at < estimate@.len(),
    ensures
        r == estimate@[at as int],
{
    estimate[at] as u128
}

/// Whether `at` is the cell `goal`.
pub(crate) fn same_cell(at: usize, goal: usize) -> (r: bool)
    ensures
        r == (at == goal),
{
    at == goal
}

/// `astar` of the pathfinding crate, on the cells of `graph`: the walk
/// it returns leads from `start` to `goal`, comes with its cost, and no
/// walk between the two costs less; it returns `None` only where no walk
/// leads from `start` to `goal`. Which of several cheapest walks it
/// returns is left to the crate and named `astar_route`.
///
/// The crate asks for an estimate that never exceeds the cost that is
/// left. A consistent estimate that is zero at the goal is such a one.
#[verifier::external_body]
pub(crate) fn astar_search(graph: &CostGraph, estimate: &Vec<u64>, start: usize, goal: usize) -> (r: Option<
    (Vec<usize>, u128),
>)
    requires
        graph.well_formed(),
        graph.consistent(estimate@),
        start < graph.size(),
        goal < graph.size(),
        estimate@[goal as int] == 0,
    ensures
        found_view(r) == astar_route(
            links_view(graph.links@),
            graph.passable@,
            graph.cost@,
            estimate@,
            start,
            goal,
        ),
        r is None ==> !graph.connected(start as int, goal as int),
        r matches Some(found) ==> graph.route(as_cells(found.0@), start as int, goal as int)
            && found.1 == graph.walk_cost(as_cells(found.0@)) && forall|p: Seq<int>| #[trigger]
            graph.route(p, start as int, goal as int) ==> found.1 <= graph.walk_cost(p),
{
    pathfinding::prelude::astar(
        &start,
        |at| successors(graph, *at),
        |at| estimate_at(estimate, *at),
        |at| same_cell(*at, goal),
    )
}

} // verus!
