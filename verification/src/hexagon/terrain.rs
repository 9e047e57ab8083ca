use crate::hexagon::joint::adjacent;
use crate::hexagon::map::point_before;
use crate::hexagon::point::{hex_distance_spec, hex_steps, Direction, Point};
use crate::search::astar::links_view;
use crate::search::walks::{all_unit, links_to, unit_costs, CostGraph};
use vstd::prelude::*;

verus! {

/// Whether `keys` stand in the order of their coordinates, each once.
pub open spec fn sorted(keys: Seq<Point>) -> bool {
    forall|i: int, j: int| 0 <= i < j < keys.len() ==> point_before(keys[i], keys[j])
}

/// The place of `p` among `keys`, if it is one of them.
pub open spec fn rank(keys: Seq<Point>, p: Point) -> Option<int> {
    if keys.contains(p) {
        Some(keys.index_of(p))
    } else {
        None
    }
}

/// Among sorted keys every key has its own place.
pub proof fn lemma_rank(keys: Seq<Point>, k: int)
    requires
        sorted(keys),
        0 <= k < keys.len(),
    ensures
        rank(keys, keys[k]) == Some(k),
{
    assert(keys.contains(keys[k]));
    let found = keys.index_of(keys[k]);
    if found < k {
        assert(point_before(keys[found], keys[k]));
    } else if k < found {
        assert(point_before(keys[k], keys[found]));
    }
}

/// The place of `p` among the sorted `keys`.
pub fn find(keys: &Vec<Point>, p: Point) -> (r: Option<usize>)
    requires
        sorted(keys@),
    ensures
        r matches Some(k) ==> k < keys@.len() && keys@[k as int] == p && rank(keys@, p) == Some(
            k as int,
        ),
        r is None ==> !keys@.contains(p) && rank(keys@, p) is None,
{
    let mut low: usize = 0;
    let mut high: usize = keys.len();
    while low < high
        invariant
            low <= high <= keys@.len(),
            sorted(keys@),
            forall|i: int| 0 <= i < low ==> point_before(#[trigger] keys@[i], p),
            forall|i: int| high <= i < keys@.len() ==> point_before(p, #[trigger] keys@[i]),
        decreases high - low,
    {
        let mid = low + (high - low) / 2;
        let at = keys[mid];
        if at.x == p.x && at.y == p.y {
            proof {
                lemma_rank(keys@, mid as int);
            }
            return Some(mid);
        }
        if at.x < p.x || (at.x == p.x && at.y < p.y) {
            proof {
                assert forall|i: int| 0 <= i < mid + 1 implies point_before(#[trigger] keys@[i], p) by {
                    if i < mid {
                        assert(point_before(keys@[i], keys@[mid as int]));
                    }
                }
            }
            low = mid + 1;
        } else {
            proof {
                assert forall|i: int| mid <= i < keys@.len() implies point_before(
                    p,
                    #[trigger] keys@[i],
                ) by {
                    if mid < i {
                        assert(point_before(keys@[mid as int], keys@[i]));
                    }
                }
            }
            high = mid;
        }
    }
    proof {
        if keys@.contains(p) {
            let i = choose|i: int| 0 <= i < keys@.len() && keys@[i] == p;
            if i < low {
                assert(point_before(keys@[i], p));
            } else {
                assert(point_before(p, keys@[i]));
            }
        }
    }
    None
}

/// The cell one step from `p` in `direction`, where its coordinates fit
/// the machine integers.
pub fn try_go(p: Point, direction: Direction) -> (r: Option<Point>)
    ensures
        r matches Some(q) ==> p.can_go(direction) && q@ == p.go_spec(direction),
        r is None ==> !p.can_go(direction),
{
    let (dx, dy): (i128, i128) = match direction {
        Direction::X(true) => (1, -1),
        Direction::X(false) => (-1, 1),
        Direction::Y(true) => (1, 0),
        Direction::Y(false) => (-1, 0),
        Direction::Q(true) => (0, -1),
        Direction::Q(false) => (0, 1),
    };
    let x = p.x as i128 + dx;
    let y = p.y as i128 + dy;
    if isize::MIN as i128 <= x && x <= isize::MAX as i128 && isize::MIN as i128 <= y && y
        <= isize::MAX as i128 {
        Some(Point::new(x as isize, y as isize))
    } else {
        None
    }
}

/// The cell with the coordinates `c`.
pub open spec fn point_at(c: (int, int)) -> Point {
    Point { x: c.0 as isize, y: c.1 as isize }
}

/// The links of the key at place `a` that the first `upto` directions
/// give: the places of its neighbours among the keys, in the order of the
/// directions.
pub open spec fn key_links(keys: Seq<Point>, a: int, upto: int) -> Seq<usize>
    decreases upto,
{
    if upto <= 0 {
        Seq::empty()
    } else {
        let d = Direction::all_spec()[upto - 1];
        let rest = key_links(keys, a, upto - 1);
        if keys[a].can_go(d) && keys.contains(point_at(keys[a].go_spec(d))) {
            rest.push(keys.index_of(point_at(keys[a].go_spec(d))) as usize)
        } else {
            rest
        }
    }
}

/// The links of all keys, by place.
pub open spec fn hex_links(keys: Seq<Point>) -> Seq<Seq<usize>> {
    Seq::new(keys.len(), |a: int| key_links(keys, a, 6))
}

/// Whether `graph` is the graph of the cells `keys` with the given
/// tables: one step leads from one cell to another exactly where the two
/// are neighbours and the other may be entered.
pub open spec fn graph_of(graph: CostGraph, keys: Seq<Point>, passable: Seq<bool>, cost: Seq<u64>) -> bool {
    &&& graph.well_formed()
    &&& graph.size() == keys.len()
    &&& graph.passable@ == passable
    &&& graph.cost@ == cost
    &&& links_view(graph.links@) == hex_links(keys)
    &&& forall|a: int, b: int|
        0 <= a < keys.len() && 0 <= b < keys.len() ==> (#[trigger] graph.edge(a, b) <==> adjacent(
            keys[a],
            keys[b],
        ) && passable[b])
}

/// The places of the neighbours of the cell at place `a` among the keys.
fn cell_links(keys: &Vec<Point>, a: usize) -> (row: Vec<usize>)
    requires
        sorted(keys@),
        a < keys@.len(),
    ensures
        row@ == key_links(keys@, a as int, 6),
        forall|k: int| 0 <= k < row@.len() ==> #[trigger] row@[k] < keys@.len(),
        forall|b: int|
            0 <= b < keys@.len() ==> (#[trigger] links_to(row@, b) <==> adjacent(
                keys@[a as int],
                keys@[b],
            )),
{
    let all = Direction::all();
    let here = keys[a];
    let mut row: Vec<usize> = Vec::new();
    let mut m: usize = 0;
    while m < 6
        invariant
            m <= 6,
            sorted(keys@),
            a < keys@.len(),
            here == keys@[a as int],
            all@ == Direction::all_spec(),
            row@ == key_links(keys@, a as int, m as int),
            forall|k: int|
                0 <= k < row@.len() ==> #[trigger] row@[k] < keys@.len() && adjacent(
                    here,
                    keys@[row@[k] as int],
                ),
            forall|e: int, b: int|
                #![trigger Direction::all_spec()[e], keys@[b]]
                0 <= e < m && 0 <= b < keys@.len() && here.go_spec(Direction::all_spec()[e])
                    == keys@[b]@ ==> links_to(row@, b),
        decreases 6 - m,
    {
        let d = all[m];
        let ghost before = row@;
        match try_go(here, d) {
            Some(q) => {
                assert(q == point_at(here.go_spec(d)));
                match find(keys, q) {
                    Some(b) => {
                        row.push(b);
                        proof {
                            assert(here.go_spec(d) == keys@[b as int]@);
                            assert(row@[row@.len() - 1] == b);
                            assert forall|e: int, c: int|
                                #![trigger Direction::all_spec()[e], keys@[c]]
                                0 <= e < m + 1 && 0 <= c < keys@.len() && here.go_spec(
                                    Direction::all_spec()[e],
                                ) == keys@[c]@ implies links_to(row@, c) by {
                                if e < m {
                                    assert(links_to(before, c));
                                    let k = choose|k: int|
                                        0 <= k < before.len() && #[trigger] before[k] == c;
                                    assert(row@[k] == c);
                                } else {
                                    assert(keys@[c] == keys@[b as int]);
                                    lemma_rank(keys@, c);
                                    lemma_rank(keys@, b as int);
                                }
                            }
                        }
                    },
                    None => {
                        proof {
                            assert forall|e: int, c: int|
                                #![trigger Direction::all_spec()[e], keys@[c]]
                                0 <= e < m + 1 && 0 <= c < keys@.len() && here.go_spec(
                                    Direction::all_spec()[e],
                                ) == keys@[c]@ implies links_to(row@, c) by {
                                if e == m {
                                    assert(keys@[c] == q);
                                    assert(keys@.contains(q));
                                }
                            }
                        }
                    },
                }
            },
            None => {},
        }
        m = m + 1;
    }
    proof {
        assert forall|b: int| 0 <= b < keys@.len() implies (#[trigger] links_to(row@, b)
            <==> adjacent(keys@[a as int], keys@[b])) by {
            if links_to(row@, b) {
                let k = choose|k: int| 0 <= k < row@.len() && #[trigger] row@[k] == b;
                assert(adjacent(here, keys@[row@[k] as int]));
            }
            if adjacent(here, keys@[b]) {
                let d = choose|d: Direction| #[trigger] here.go_spec(d) == keys@[b]@;
                let e: int = match d {
                    Direction::X(true) => 0,
                    Direction::X(false) => 1,
                    Direction::Y(true) => 2,
                    Direction::Y(false) => 3,
                    Direction::Q(true) => 4,
                    Direction::Q(false) => 5,
                };
                assert(Direction::all_spec()[e] == d);
                assert(here.go_spec(Direction::all_spec()[e]) == keys@[b]@);
            }
        }
    }
    row
}

/// The graph of the cells `keys`: each cell links to its neighbours among
/// the keys, in the order of `Direction::all`.
pub fn build_graph(keys: &Vec<Point>, passable: Vec<bool>, cost: Vec<u64>) -> (graph: CostGraph)
    requires
        sorted(keys@),
        passable@.len() == keys@.len(),
        cost@.len() == keys@.len(),
    ensures
        graph_of(graph, keys@, passable@, cost@),
{
    let n = keys.len();
    let mut links: Vec<Vec<usize>> = Vec::new();
    let mut a: usize = 0;
    while a < n
        invariant
            a <= n,
            n == keys@.len(),
            sorted(keys@),
            links@.len() == a,
            forall|c: int| 0 <= c < links@.len() ==> (#[trigger] links@[c])@ == key_links(keys@, c, 6),
            forall|c: int, k: int|
                0 <= c < links@.len() && 0 <= k < links@[c]@.len() ==> #[trigger] links@[c]@[k] < n,
            forall|c: int, b: int|
                0 <= c < links@.len() && 0 <= b < n ==> (#[trigger] links_to(links@[c]@, b)
                    <==> adjacent(keys@[c], keys@[b])),
        decreases n - a,
    {
        let row = cell_links(keys, a);
        let ghost before = links@;
        links.push(row);
        proof {
            assert forall|c: int, k: int|
                0 <= c < links@.len() && 0 <= k < links@[c]@.len() implies #[trigger] links@[c]@[k]
                < n by {
                if c < before.len() {
                    assert(links@[c] == before[c]);
                }
            }
            assert forall|c: int, b: int| 0 <= c < links@.len() && 0 <= b < n implies (
            #[trigger] links_to(links@[c]@, b) <==> adjacent(keys@[c], keys@[b])) by {
                if c < before.len() {
                    assert(links@[c] == before[c]);
                    assert(links_to(before[c]@, b) <==> adjacent(keys@[c], keys@[b]));
                }
            }
        }
        a = a + 1;
    }
    let graph = CostGraph { links, passable, cost };
    proof {
        assert(links_view(graph.links@) =~= hex_links(keys@));
        assert forall|c: int, b: int| 0 <= c < keys@.len() && 0 <= b < keys@.len() implies (
        #[trigger] graph.edge(c, b) <==> adjacent(keys@[c], keys@[b]) && passable@[b]) by {
            assert(links_to(links@[c]@, b) <==> adjacent(keys@[c], keys@[b]));
        }
    }
    graph
}

/// The number of steps between two cells, cut off at the largest cost of
/// a cell.
pub open spec fn steps_between(a: Point, b: Point) -> u64 {
    let d = hex_distance_spec(a@, b@);
    if d <= u64::MAX {
        d as u64
    } else {
        u64::MAX
    }
}

/// The estimate that a path finder works with: the number of steps to
/// the goal where every cell that may be entered costs at least one, and
/// zero everywhere else.
pub open spec fn estimate_spec(keys: Seq<Point>, passable: Seq<bool>, cost: Seq<u64>, goal: int) -> Seq<
    u64,
> {
    if unit_costs(passable, cost) {
        Seq::new(keys.len(), |a: int| steps_between(keys[a], keys[goal]))
    } else {
        Seq::new(keys.len(), |a: int| 0u64)
    }
}

/// The estimate of a path finder is consistent on the graph of its map.
pub proof fn lemma_estimate_consistent(
    graph: CostGraph,
    keys: Seq<Point>,
    passable: Seq<bool>,
    cost: Seq<u64>,
    goal: int,
)
    requires
        graph_of(graph, keys, passable, cost),
        0 <= goal < keys.len(),
    ensures
        graph.consistent(estimate_spec(keys, passable, cost, goal)),
{
    let estimate = estimate_spec(keys, passable, cost, goal);
    assert forall|a: int, b: int| #[trigger] graph.edge(a, b) implies estimate[a] <= graph.cost@[b]
        + estimate[b] by {
        if unit_costs(passable, cost) {
            assert(adjacent(keys[a], keys[b]));
            let d = choose|d: Direction| #[trigger] keys[a].go_spec(d) == keys[b]@;
            assert(cost[b] >= 1);
            match d {
                Direction::X(true) => {},
                Direction::X(false) => {},
                Direction::Y(true) => {},
                Direction::Y(false) => {},
                Direction::Q(true) => {},
                Direction::Q(false) => {},
            }
        }
    }
}

/// The estimate that a path finder works with, for each cell.
pub fn make_estimate(keys: &Vec<Point>, passable: &Vec<bool>, cost: &Vec<u64>, goal: usize) -> (r:
    Vec<u64>)
    requires
        passable@.len() == keys@.len(),
        cost@.len() == keys@.len(),
        goal < keys@.len(),
    ensures
        r@ == estimate_spec(keys@, passable@, cost@, goal as int),
{
    let guided = all_unit(passable, cost);
    let target = keys[goal];
    let mut out: Vec<u64> = Vec::new();
    let mut a: usize = 0;
    while a < keys.len()
        invariant
            a <= keys@.len(),
            target == keys@[goal as int],
            out@.len() == a,
            forall|k: int|
                0 <= k < a ==> #[trigger] out@[k] == (if guided {
                    steps_between(keys@[k], target)
                } else {
                    0u64
                }),
        decreases keys@.len() - a,
    {
        if guided {
            let d = hex_steps(keys[a], target);
            if d <= u64::MAX as u128 {
                out.push(d as u64);
            } else {
                out.push(u64::MAX);
            }
        } else {
            out.push(0);
        }
        a = a + 1;
    }
    assert(out@ =~= estimate_spec(keys@, passable@, cost@, goal as int));
    out
}

} // verus!
