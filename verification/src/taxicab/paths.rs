use crate::search::walks::CostGraph;
use crate::taxicab::direction::Direction;
use crate::taxicab::iters::{lemma_position_injective, position_spec};
use crate::taxicab::map::{lemma_cell_position, lemma_normalize_bound, TaxicabMap};
use crate::taxicab::terrain::{
    graph_of, lemma_graph_edge, lemma_step_offsets, lemma_step_target, position_linked,
    step_target,
};
use vstd::prelude::*;

verus! {

/// Whether the coordinate `c` names a cell of the map that may be
/// entered.
pub open spec fn enterable<T>(map: TaxicabMap<T>, passable: Seq<bool>, c: (int, int)) -> bool {
    position_spec(map, c) matches Some(k) && passable[k]
}

/// The cost of entering the cell that the coordinate `c` names.
pub open spec fn price_at<T>(map: TaxicabMap<T>, cost: Seq<u64>, c: (int, int)) -> nat {
    match position_spec(map, c) {
        Some(k) => cost[k] as nat,
        None => 0,
    }
}

/// Whether one step leads from the cell of `a` to the cell of `b`: both
/// belong to the map, and a neighbour of `a` names the cell of `b`.
pub open spec fn touching<T>(map: TaxicabMap<T>, a: (int, int), b: (int, int)) -> bool {
    &&& map.contains_spec(a.0, a.1)
    &&& map.contains_spec(b.0, b.1)
    &&& exists|d: Direction|
        #[trigger] map.offsets_of(a.0 + d.dx(), a.1 + d.dy()) == map.offsets_of(b.0, b.1)
}

/// Whether two coordinates name the same cell of the map.
pub open spec fn same_cell<T>(map: TaxicabMap<T>, a: (int, int), b: (int, int)) -> bool {
    map.contains_spec(a.0, a.1) && map.offsets_of(a.0, a.1) == map.offsets_of(b.0, b.1)
}

/// Whether `path` is a path of the map: at least one coordinate, the
/// first on the map, and each next one a step away and open to entry.
pub open spec fn path_spec<T>(map: TaxicabMap<T>, passable: Seq<bool>, path: Seq<(int, int)>) -> bool {
    &&& path.len() >= 1
    &&& map.contains_spec(path[0].0, path[0].1)
    &&& forall|i: int| 0 <= i < path.len() - 1 ==> #[trigger] step_spec(map, passable, path, i)
}

/// Whether the step of `path` at place `i` leads to a neighbouring cell
/// that may be entered.
pub open spec fn step_spec<T>(
    map: TaxicabMap<T>,
    passable: Seq<bool>,
    path: Seq<(int, int)>,
    i: int,
) -> bool {
    touching(map, path[i], path[i + 1]) && enterable(map, passable, path[i + 1])
}

/// The cost of a path: the sum of the costs of the cells it enters, which
/// are all but the first.
pub open spec fn path_cost<T>(map: TaxicabMap<T>, cost: Seq<u64>, path: Seq<(int, int)>) -> nat
    decreases path.len(),
{
    if path.len() <= 1 {
        0
    } else {
        path_cost(map, cost, path.drop_last()) + price_at(map, cost, path.last())
    }
}

/// The positions in storage of the cells of a path.
pub open spec fn positions<T>(map: TaxicabMap<T>, path: Seq<(int, int)>) -> Seq<int> {
    path.map_values(|c: (int, int)| position_spec(map, c).unwrap())
}

/// The coordinate in the window of the map of the cell at position `k`.
pub open spec fn canonical<T>(map: TaxicabMap<T>, k: int) -> (int, int) {
    (
        k / (map.size_spec().1 as int) + map.origin_spec().0,
        k % (map.size_spec().1 as int) + map.origin_spec().1,
    )
}

/// The coordinates in the window of the map of the cells of a walk.
pub open spec fn coordinates<T>(map: TaxicabMap<T>, cells: Seq<int>) -> Seq<(int, int)> {
    cells.map_values(|k: int| canonical(map, k))
}

/// The coordinate of a position lies in the window and names the cell at
/// that position.
pub proof fn lemma_canonical<T>(map: TaxicabMap<T>, k: int)
    requires
        map.well_formed(),
        0 <= k < map.size_spec().0 * map.size_spec().1,
    ensures
        map.in_window(canonical(map, k).0, canonical(map, k).1),
        map.offsets_of(canonical(map, k).0, canonical(map, k).1) == Some(
            (k / (map.size_spec().1 as int), k % (map.size_spec().1 as int)),
        ),
        position_spec(map, canonical(map, k)) == Some(k),
        isize::MIN <= canonical(map, k).0 <= isize::MAX,
        isize::MIN <= canonical(map, k).1 <= isize::MAX,
{
    map.lemma_well_formed();
    let w = map.size_spec().0 as int;
    let h = map.size_spec().1 as int;
    assert(0 < h) by (nonlinear_arith)
        requires
            0 <= k < w * h,
            0 <= w,
            0 <= h,
    ;
    let i = k / h;
    let j = k % h;
    vstd::arithmetic::div_mod::lemma_fundamental_div_mod(k, h);
    vstd::arithmetic::div_mod::lemma_mod_bound(k, h);
    assert(0 <= i < w) by (nonlinear_arith)
        requires
            k == h * i + j,
            0 <= j < h,
            0 <= k < w * h,
    ;
    assert(h * i == i * h) by (nonlinear_arith);
    let c = canonical(map, k);
    lemma_normalize_bound(c.0, map.origin_spec().0 as int, w, map.cycle_spec().0);
    lemma_normalize_bound(c.1, map.origin_spec().1 as int, h, map.cycle_spec().1);
}

/// The position of a coordinate of the map is a position of the map and
/// gives the offsets back.
pub proof fn lemma_position<T>(map: TaxicabMap<T>, c: (int, int))
    requires
        map.contains_spec(c.0, c.1),
    ensures
        position_spec(map, c) matches Some(k) && 0 <= k < map.size_spec().0 * map.size_spec().1
            && map.offsets_of(c.0, c.1) == Some(
            (k / (map.size_spec().1 as int), k % (map.size_spec().1 as int)),
        ) && 0 <= k / (map.size_spec().1 as int) < map.size_spec().0 && 0 <= k % (
        map.size_spec().1 as int) < map.size_spec().1,
{
    let w = map.size_spec().0 as int;
    let h = map.size_spec().1 as int;
    lemma_normalize_bound(c.0, map.origin_spec().0 as int, w, map.cycle_spec().0);
    lemma_normalize_bound(c.1, map.origin_spec().1 as int, h, map.cycle_spec().1);
    let p = map.offsets_of(c.0, c.1).unwrap();
    lemma_cell_position(p.0, p.1, w, h);
}

/// One step between coordinates of the map is one step between their
/// positions, and the other way round.
pub proof fn lemma_touching<T>(map: TaxicabMap<T>, a: (int, int), b: (int, int))
    requires
        map.contains_spec(a.0, a.1),
        map.contains_spec(b.0, b.1),
    ensures
        touching(map, a, b) <==> position_linked(
            position_spec(map, a).unwrap(),
            position_spec(map, b).unwrap(),
            map.size_spec().0 as int,
            map.size_spec().1 as int,
            map.cycle_spec().0,
            map.cycle_spec().1,
        ),
{
    let w = map.size_spec().0 as int;
    let h = map.size_spec().1 as int;
    let (cx, cy) = map.cycle_spec();
    lemma_position(map, a);
    lemma_position(map, b);
    let ka = position_spec(map, a).unwrap();
    let kb = position_spec(map, b).unwrap();
    let (i, j) = (ka / h, ka % h);
    if touching(map, a, b) {
        let d = choose|d: Direction|
            #[trigger] map.offsets_of(a.0 + d.dx(), a.1 + d.dy()) == map.offsets_of(b.0, b.1);
        lemma_step_offsets(map, a.0, a.1, d);
        lemma_step_target(i, j, d, w, h, cx, cy);
        assert(step_target(ka / h, ka % h, d, w, h, cx, cy) == Some(kb));
    }
    if position_linked(ka, kb, w, h, cx, cy) {
        let d = choose|d: Direction| #[trigger] step_target(ka / h, ka % h, d, w, h, cx, cy) == Some(kb);
        lemma_step_offsets(map, a.0, a.1, d);
        lemma_step_target(i, j, d, w, h, cx, cy);
        assert(map.offsets_of(a.0 + d.dx(), a.1 + d.dy()) == map.offsets_of(b.0, b.1));
    }
}

/// The positions of a path of the map are a walk of its graph, at the
/// same cost.
pub proof fn lemma_path_to_walk<T>(
    graph: CostGraph,
    map: TaxicabMap<T>,
    passable: Seq<bool>,
    cost: Seq<u64>,
    path: Seq<(int, int)>,
)
    requires
        graph_of(
            graph,
            map.size_spec().0 as int,
            map.size_spec().1 as int,
            map.cycle_spec().0,
            map.cycle_spec().1,
            passable,
            cost,
        ),
        map.size_spec().0 * map.size_spec().1 <= usize::MAX,
        path_spec(map, passable, path),
    ensures
        graph.walk(positions(map, path)),
        graph.walk_cost(positions(map, path)) == path_cost(map, cost, path),
    decreases path.len(),
{
    let w = map.size_spec().0 as int;
    let h = map.size_spec().1 as int;
    let p = positions(map, path);
    lemma_position(map, path[0]);
    assert forall|i: int| 0 <= i < p.len() - 1 implies #[trigger] graph.step(p, i) by {
        assert(step_spec(map, passable, path, i));
        lemma_position(map, path[i]);
        lemma_position(map, path[i + 1]);
        lemma_touching(map, path[i], path[i + 1]);
        lemma_graph_edge(
            graph,
            w,
            h,
            map.cycle_spec().0,
            map.cycle_spec().1,
            passable,
            cost,
            p[i],
            p[i + 1],
        );
    }
    if path.len() > 1 {
        let shorter = path.drop_last();
        assert forall|i: int| 0 <= i < shorter.len() - 1 implies #[trigger] step_spec(
            map,
            passable,
            shorter,
            i,
        ) by {
            assert(step_spec(map, passable, path, i));
        }
        lemma_path_to_walk(graph, map, passable, cost, shorter);
        assert(positions(map, shorter) =~= p.drop_last());
        assert(step_spec(map, passable, path, path.len() - 2));
    }
}

/// The coordinates of a walk of the graph of a map are a path of the map,
/// at the same cost, and their positions are the walk.
pub proof fn lemma_walk_to_path<T>(
    graph: CostGraph,
    map: TaxicabMap<T>,
    passable: Seq<bool>,
    cost: Seq<u64>,
    p: Seq<int>,
)
    requires
        graph_of(
            graph,
            map.size_spec().0 as int,
            map.size_spec().1 as int,
            map.cycle_spec().0,
            map.cycle_spec().1,
            passable,
            cost,
        ),
        map.well_formed(),
        map.size_spec().0 * map.size_spec().1 <= usize::MAX,
        graph.walk(p),
    ensures
        path_spec(map, passable, coordinates(map, p)),
        path_cost(map, cost, coordinates(map, p)) == graph.walk_cost(p),
        positions(map, coordinates(map, p)) == p,
        forall|i: int|
            0 <= i < p.len() ==> map.in_window(
                (#[trigger] coordinates(map, p)[i]).0,
                coordinates(map, p)[i].1,
            ),
    decreases p.len(),
{
    let w = map.size_spec().0 as int;
    let h = map.size_spec().1 as int;
    let path = coordinates(map, p);
    assert forall|i: int| 0 <= i < p.len() implies 0 <= #[trigger] p[i] < w * h by {
        graph.lemma_walk_cells(p, i);
    }
    assert forall|i: int| 0 <= i < p.len() implies map.in_window(
        (#[trigger] path[i]).0,
        path[i].1,
    ) && position_spec(map, path[i]) == Some(p[i]) by {
        lemma_canonical(map, p[i]);
    }
    assert(positions(map, path) =~= p);
    assert forall|i: int| 0 <= i < path.len() - 1 implies #[trigger] step_spec(
        map,
        passable,
        path,
        i,
    ) by {
        assert(graph.step(p, i));
        lemma_graph_edge(
            graph,
            w,
            h,
            map.cycle_spec().0,
            map.cycle_spec().1,
            passable,
            cost,
            p[i],
            p[i + 1],
        );
        lemma_touching(map, path[i], path[i + 1]);
    }
    if p.len() > 1 {
        graph.lemma_walk_take(p, p.len() - 1);
        assert(p.take(p.len() - 1) =~= p.drop_last());
        lemma_walk_to_path(graph, map, passable, cost, p.drop_last());
        assert(coordinates(map, p.drop_last()) =~= path.drop_last());
    }
}

/// Whether `path` is a path from the cell of `from` to the cell of `to`.
pub open spec fn reach_spec<T>(
    map: TaxicabMap<T>,
    passable: Seq<bool>,
    path: Seq<(int, int)>,
    from: (int, int),
    to: (int, int),
) -> bool {
    &&& path_spec(map, passable, path)
    &&& same_cell(map, path[0], from)
    &&& same_cell(map, path[path.len() - 1], to)
}

/// Whether `c` is the cost of a cheapest path from the cell of `from` to
/// the cell of `to`.
pub open spec fn cheapest<T>(
    map: TaxicabMap<T>,
    passable: Seq<bool>,
    cost: Seq<u64>,
    from: (int, int),
    to: (int, int),
    c: nat,
) -> bool {
    &&& exists|path: Seq<(int, int)>|
        #[trigger] reach_spec(map, passable, path, from, to) && path_cost(map, cost, path) == c
    &&& forall|path: Seq<(int, int)>|
        #[trigger] reach_spec(map, passable, path, from, to) ==> c <= path_cost(map, cost, path)
}

/// A path between two cells of the map is a walk of its graph between
/// their positions, at the same cost.
pub proof fn lemma_reach_walk<T>(
    graph: CostGraph,
    map: TaxicabMap<T>,
    passable: Seq<bool>,
    cost: Seq<u64>,
    path: Seq<(int, int)>,
    from: (int, int),
    to: (int, int),
)
    requires
        graph_of(
            graph,
            map.size_spec().0 as int,
            map.size_spec().1 as int,
            map.cycle_spec().0,
            map.cycle_spec().1,
            passable,
            cost,
        ),
        map.size_spec().0 * map.size_spec().1 <= usize::MAX,
        reach_spec(map, passable, path, from, to),
    ensures
        position_spec(map, from) is Some,
        position_spec(map, to) is Some,
        graph.route(
            positions(map, path),
            position_spec(map, from).unwrap(),
            position_spec(map, to).unwrap(),
        ),
        graph.walk_cost(positions(map, path)) == path_cost(map, cost, path),
{
    lemma_path_to_walk(graph, map, passable, cost, path);
    lemma_position_injective(map, path[0], from);
    lemma_position_injective(map, path[path.len() - 1], to);
}

/// A walk of the graph of a map from the position of `from` gives a path
/// of the map from the cell of `from`, at the same cost.
pub proof fn lemma_walk_reach<T>(
    graph: CostGraph,
    map: TaxicabMap<T>,
    passable: Seq<bool>,
    cost: Seq<u64>,
    p: Seq<int>,
    from: (int, int),
)
    requires
        graph_of(
            graph,
            map.size_spec().0 as int,
            map.size_spec().1 as int,
            map.cycle_spec().0,
            map.cycle_spec().1,
            passable,
            cost,
        ),
        map.well_formed(),
        map.size_spec().0 * map.size_spec().1 <= usize::MAX,
        graph.walk(p),
        position_spec(map, from) == Some(p[0]),
    ensures
        reach_spec(map, passable, coordinates(map, p), from, canonical(map, p[p.len() - 1])),
        path_cost(map, cost, coordinates(map, p)) == graph.walk_cost(p),
{
    lemma_walk_to_path(graph, map, passable, cost, p);
    let path = coordinates(map, p);
    graph.lemma_walk_cells(p, 0);
    graph.lemma_walk_cells(p, p.len() - 1);
    lemma_canonical(map, p[0]);
    lemma_canonical(map, p[p.len() - 1]);
    lemma_position_injective(map, path[0], from);
}

/// The cost of a cheapest walk between two positions of the graph of a
/// map is the cost of a cheapest path between their cells.
pub proof fn lemma_distance<T>(
    graph: CostGraph,
    map: TaxicabMap<T>,
    passable: Seq<bool>,
    cost: Seq<u64>,
    from: (int, int),
    k: int,
    c: nat,
)
    requires
        graph_of(
            graph,
            map.size_spec().0 as int,
            map.size_spec().1 as int,
            map.cycle_spec().0,
            map.cycle_spec().1,
            passable,
            cost,
        ),
        map.well_formed(),
        map.size_spec().0 * map.size_spec().1 <= usize::MAX,
        position_spec(map, from) is Some,
        0 <= k < map.size_spec().0 * map.size_spec().1,
        graph.distance_is(position_spec(map, from).unwrap(), k, c),
    ensures
        cheapest(map, passable, cost, from, canonical(map, k), c),
{
    let start = position_spec(map, from).unwrap();
    let to = canonical(map, k);
    lemma_canonical(map, k);
    let p = choose|p: Seq<int>| #[trigger] graph.route(p, start, k) && graph.walk_cost(p) == c;
    lemma_walk_reach(graph, map, passable, cost, p, from);
    assert(reach_spec(map, passable, coordinates(map, p), from, to));
    assert forall|path: Seq<(int, int)>| #[trigger]
        reach_spec(map, passable, path, from, to) implies c <= path_cost(map, cost, path) by {
        lemma_reach_walk(graph, map, passable, cost, path, from, to);
    }
}

/// The coordinates among the first `upto` of `cells` whose cells may be
/// entered, in their order.
pub open spec fn open_cells<T>(
    map: TaxicabMap<T>,
    passable: Seq<bool>,
    cells: Seq<(int, int)>,
    upto: int,
) -> Seq<(int, int)>
    decreases upto,
{
    if upto <= 0 {
        Seq::empty()
    } else if enterable(map, passable, cells[upto - 1]) {
        open_cells(map, passable, cells, upto - 1).push(cells[upto - 1])
    } else {
        open_cells(map, passable, cells, upto - 1)
    }
}

} // verus!
