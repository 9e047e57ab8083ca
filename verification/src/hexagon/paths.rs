use crate::hexagon::joint::adjacent;
use crate::hexagon::point::{Direction, Point};
use crate::hexagon::terrain::{find, graph_of, lemma_rank, point_at, rank, sorted, try_go};
use crate::search::walks::CostGraph;
use vstd::prelude::*;

verus! {

/// Whether `p` is one of the cells `keys` and may be entered.
pub open spec fn enterable(keys: Seq<Point>, passable: Seq<bool>, p: Point) -> bool {
    rank(keys, p) matches Some(k) && passable[k]
}

/// The cost of entering the cell `p`.
pub open spec fn price_at(keys: Seq<Point>, cost: Seq<u64>, p: Point) -> nat {
    match rank(keys, p) {
        Some(k) => cost[k] as nat,
        None => 0,
    }
}

/// Whether `path` is a path among the cells `keys`: at least one cell,
/// the first of them a key, and each next one a neighbour that may be
/// entered.
pub open spec fn path_spec(keys: Seq<Point>, passable: Seq<bool>, path: Seq<Point>) -> bool {
    &&& path.len() >= 1
    &&& keys.contains(path[0])
    &&& forall|i: int| 0 <= i < path.len() - 1 ==> #[trigger] step_spec(keys, passable, path, i)
}

/// Whether the step of `path` at place `i` leads to a neighbour that may
/// be entered.
pub open spec fn step_spec(keys: Seq<Point>, passable: Seq<bool>, path: Seq<Point>, i: int) -> bool {
    adjacent(path[i], path[i + 1]) && enterable(keys, passable, path[i + 1])
}

/// Whether `path` is a path from `from` to `to`.
pub open spec fn reach_spec(
    keys: Seq<Point>,
    passable: Seq<bool>,
    path: Seq<Point>,
    from: Point,
    to: Point,
) -> bool {
    &&& path_spec(keys, passable, path)
    &&& path[0] == from
    &&& path[path.len() - 1] == to
}

/// Whether `path` is a path from `from` to `to`, which may be entered.
pub open spec fn route_spec(
    keys: Seq<Point>,
    passable: Seq<bool>,
    path: Seq<Point>,
    from: Point,
    to: Point,
) -> bool {
    &&& reach_spec(keys, passable, path, from, to)
    &&& enterable(keys, passable, to)
}

/// The cost of a path: the sum of the costs of the cells it enters, which
/// are all but the first.
pub open spec fn path_cost(keys: Seq<Point>, cost: Seq<u64>, path: Seq<Point>) -> nat
    decreases path.len(),
{
    if path.len() <= 1 {
        0
    } else {
        path_cost(keys, cost, path.drop_last()) + price_at(keys, cost, path.last())
    }
}

/// Whether `c` is the cost of a cheapest path from `from` to `to`.
pub open spec fn cheapest(
    keys: Seq<Point>,
    passable: Seq<bool>,
    cost: Seq<u64>,
    from: Point,
    to: Point,
    c: nat,
) -> bool {
    &&& exists|path: Seq<Point>|
        #[trigger] reach_spec(keys, passable, path, from, to) && path_cost(keys, cost, path) == c
    &&& forall|path: Seq<Point>|
        #[trigger] reach_spec(keys, passable, path, from, to) ==> c <= path_cost(keys, cost, path)
}

/// The places among the keys of the cells of a path.
pub open spec fn places(keys: Seq<Point>, path: Seq<Point>) -> Seq<int> {
    path.map_values(|p: Point| rank(keys, p).unwrap())
}

/// The cells at the places of a walk.
pub open spec fn cells_at(keys: Seq<Point>, walk: Seq<int>) -> Seq<Point> {
    walk.map_values(|k: int| keys[k])
}

/// Every cell of a path is a key.
pub proof fn lemma_path_cells(keys: Seq<Point>, passable: Seq<bool>, path: Seq<Point>, i: int)
    requires
        path_spec(keys, passable, path),
        0 <= i < path.len(),
    ensures
        rank(keys, path[i]) matches Some(k) && 0 <= k < keys.len() && keys[k] == path[i],
{
    if i > 0 {
        assert(step_spec(keys, passable, path, i - 1));
    }
}

/// The places of a path are a walk of the graph of the keys, at the same
/// cost.
pub proof fn lemma_path_to_walk(
    graph: CostGraph,
    keys: Seq<Point>,
    passable: Seq<bool>,
    cost: Seq<u64>,
    path: Seq<Point>,
)
    requires
        graph_of(graph, keys, passable, cost),
        path_spec(keys, passable, path),
    ensures
        graph.walk(places(keys, path)),
        graph.walk_cost(places(keys, path)) == path_cost(keys, cost, path),
    decreases path.len(),
{
    let p = places(keys, path);
    lemma_path_cells(keys, passable, path, 0);
    assert forall|i: int| 0 <= i < p.len() - 1 implies #[trigger] graph.step(p, i) by {
        lemma_path_cells(keys, passable, path, i);
        lemma_path_cells(keys, passable, path, i + 1);
        assert(step_spec(keys, passable, path, i));
    }
    if path.len() > 1 {
        let shorter = path.drop_last();
        assert forall|i: int| 0 <= i < shorter.len() - 1 implies #[trigger] step_spec(
            keys,
            passable,
            shorter,
            i,
        ) by {
            assert(step_spec(keys, passable, path, i));
        }
        lemma_path_to_walk(graph, keys, passable, cost, shorter);
        assert(places(keys, shorter) =~= p.drop_last());
        lemma_path_cells(keys, passable, path, path.len() - 1);
        assert(p[p.len() - 1] == rank(keys, path[path.len() - 1]).unwrap());
    }
}

/// The cells of a walk of the graph of the keys are a path, at the same
/// cost, and their places are the walk.
pub proof fn lemma_walk_to_path(
    graph: CostGraph,
    keys: Seq<Point>,
    passable: Seq<bool>,
    cost: Seq<u64>,
    walk: Seq<int>,
)
    requires
        graph_of(graph, keys, passable, cost),
        sorted(keys),
        graph.walk(walk),
    ensures
        path_spec(keys, passable, cells_at(keys, walk)),
        path_cost(keys, cost, cells_at(keys, walk)) == graph.walk_cost(walk),
        places(keys, cells_at(keys, walk)) == walk,
    decreases walk.len(),
{
    let path = cells_at(keys, walk);
    assert forall|i: int| 0 <= i < walk.len() implies 0 <= #[trigger] walk[i] < keys.len() && rank(
        keys,
        path[i],
    ) == Some(walk[i]) by {
        graph.lemma_walk_cells(walk, i);
        lemma_rank(keys, walk[i]);
    }
    assert(places(keys, path) =~= walk);
    assert(keys.contains(path[0]));
    assert forall|i: int| 0 <= i < path.len() - 1 implies #[trigger] step_spec(
        keys,
        passable,
        path,
        i,
    ) by {
        assert(graph.step(walk, i));
        assert(rank(keys, path[i + 1]) == Some(walk[i + 1]));
    }
    if walk.len() > 1 {
        graph.lemma_walk_take(walk, walk.len() - 1);
        assert(walk.take(walk.len() - 1) =~= walk.drop_last());
        lemma_walk_to_path(graph, keys, passable, cost, walk.drop_last());
        assert(cells_at(keys, walk.drop_last()) =~= path.drop_last());
        assert(rank(keys, path[path.len() - 1]) == Some(walk[walk.len() - 1]));
    }
}

/// A path between two cells is a walk of the graph of the keys between
/// their places, at the same cost.
pub proof fn lemma_reach_walk(
    graph: CostGraph,
    keys: Seq<Point>,
    passable: Seq<bool>,
    cost: Seq<u64>,
    path: Seq<Point>,
    from: Point,
    to: Point,
)
    requires
        graph_of(graph, keys, passable, cost),
        reach_spec(keys, passable, path, from, to),
    ensures
        rank(keys, from) is Some,
        rank(keys, to) is Some,
        graph.route(places(keys, path), rank(keys, from).unwrap(), rank(keys, to).unwrap()),
        graph.walk_cost(places(keys, path)) == path_cost(keys, cost, path),
{
    lemma_path_to_walk(graph, keys, passable, cost, path);
    lemma_path_cells(keys, passable, path, 0);
    lemma_path_cells(keys, passable, path, path.len() - 1);
}

/// The cost of a cheapest walk between two places of the graph of the
/// keys is the cost of a cheapest path between their cells.
pub proof fn lemma_distance(
    graph: CostGraph,
    keys: Seq<Point>,
    passable: Seq<bool>,
    cost: Seq<u64>,
    start: int,
    k: int,
    c: nat,
)
    requires
        graph_of(graph, keys, passable, cost),
        sorted(keys),
        0 <= start < keys.len(),
        0 <= k < keys.len(),
        graph.distance_is(start, k, c),
    ensures
        cheapest(keys, passable, cost, keys[start], keys[k], c),
{
    let from = keys[start];
    let to = keys[k];
    lemma_rank(keys, start);
    lemma_rank(keys, k);
    let walk = choose|p: Seq<int>| #[trigger] graph.route(p, start, k) && graph.walk_cost(p) == c;
    lemma_walk_to_path(graph, keys, passable, cost, walk);
    assert(reach_spec(keys, passable, cells_at(keys, walk), from, to));
    assert forall|path: Seq<Point>| #[trigger]
        reach_spec(keys, passable, path, from, to) implies c <= path_cost(keys, cost, path) by {
        lemma_reach_walk(graph, keys, passable, cost, path, from, to);
    }
}

/// The neighbours of `p` in the first `upto` directions that are keys
/// and may be entered, in the order of the directions, each once.
pub open spec fn open_neighbours(keys: Seq<Point>, passable: Seq<bool>, p: Point, upto: int) -> Seq<
    Point,
>
    decreases upto,
{
    if upto <= 0 {
        Seq::empty()
    } else {
        let d = Direction::all_spec()[upto - 1];
        let rest = open_neighbours(keys, passable, p, upto - 1);
        if p.can_go(d) && enterable(keys, passable, point_at(p.go_spec(d))) {
            rest.push(point_at(p.go_spec(d)))
        } else {
            rest
        }
    }
}

/// Cells, each with the cost of entering it.
pub open spec fn priced(keys: Seq<Point>, cost: Seq<u64>, cells: Seq<Point>) -> Seq<(Point, u64)> {
    cells.map_values(|q: Point| (q, price_at(keys, cost, q) as u64))
}

/// The neighbours of `point` among the keys that may be entered, in the
/// order of `Direction::all`, each with the cost of entering it.
pub fn open_around(keys: &Vec<Point>, passable: &Vec<bool>, cost: &Vec<u64>, point: Point) -> (r:
    Vec<(Point, u64)>)
    requires
        sorted(keys@),
        passable@.len() == keys@.len(),
        cost@.len() == keys@.len(),
    ensures
        r@ == priced(keys@, cost@, open_neighbours(keys@, passable@, point, 6)),
        r@.len() <= 6,
{
    let all = Direction::all();
    let mut out: Vec<(Point, u64)> = Vec::new();
    let mut m: usize = 0;
    assert(out@ =~= priced(keys@, cost@, open_neighbours(keys@, passable@, point, 0)));
    while m < 6
        invariant
            m <= 6,
            all@ == Direction::all_spec(),
            sorted(keys@),
            passable@.len() == keys@.len(),
            cost@.len() == keys@.len(),
            out@ == priced(keys@, cost@, open_neighbours(keys@, passable@, point, m as int)),
            out@.len() <= m,
        decreases 6 - m,
    {
        let d = all[m];
        let ghost before = open_neighbours(keys@, passable@, point, m as int);
        match try_go(point, d) {
            Some(q) => {
                assert(q == point_at(point.go_spec(d)));
                match find(keys, q) {
                    Some(k) => {
                        if passable[k] {
                            out.push((q, cost[k]));
                            assert(out@ =~= priced(keys@, cost@, before.push(q)));
                        }
                    },
                    None => {},
                }
            },
            None => {},
        }
        m = m + 1;
    }
    out
}

/// Every open neighbour is a neighbour that may be entered, and every
/// neighbour that may be entered is an open neighbour.
pub proof fn lemma_open_neighbours(keys: Seq<Point>, passable: Seq<bool>, p: Point, upto: int)
    requires
        0 <= upto <= 6,
    ensures
        open_neighbours(keys, passable, p, upto).len() <= upto,
        forall|i: int|
            0 <= i < open_neighbours(keys, passable, p, upto).len() ==> adjacent(
                p,
                #[trigger] open_neighbours(keys, passable, p, upto)[i],
            ) && enterable(keys, passable, open_neighbours(keys, passable, p, upto)[i]),
        forall|e: int|
            0 <= e < upto && p.can_go(#[trigger] Direction::all_spec()[e]) && enterable(
                keys,
                passable,
                point_at(p.go_spec(Direction::all_spec()[e])),
            ) ==> open_neighbours(keys, passable, p, upto).contains(
                point_at(p.go_spec(Direction::all_spec()[e])),
            ),
    decreases upto,
{
    if upto > 0 {
        lemma_open_neighbours(keys, passable, p, upto - 1);
        let before = open_neighbours(keys, passable, p, upto - 1);
        let now = open_neighbours(keys, passable, p, upto);
        let d = Direction::all_spec()[upto - 1];
        let q = point_at(p.go_spec(d));
        if p.can_go(d) && enterable(keys, passable, q) {
            assert(p.go_spec(d) == q@);
            assert(now[now.len() - 1] == q);
        }
        assert forall|e: int|
            0 <= e < upto && p.can_go(#[trigger] Direction::all_spec()[e]) && enterable(
                keys,
                passable,
                point_at(p.go_spec(Direction::all_spec()[e])),
            ) implies now.contains(point_at(p.go_spec(Direction::all_spec()[e]))) by {
            let t = point_at(p.go_spec(Direction::all_spec()[e]));
            if e < upto - 1 {
                assert(before.contains(t));
                let i = choose|i: int| 0 <= i < before.len() && before[i] == t;
                assert(now[i] == t);
            } else {
                assert(now[now.len() - 1] == t);
            }
        }
    }
}

} // verus!
