use crate::search::walks::{links_to, CostGraph};
use crate::taxicab::direction::Direction;
use crate::taxicab::map::{lemma_cell_position, lemma_normalize_bound, normalize, TaxicabMap};
use vstd::prelude::*;

verus! {

/// Where one step of `delta` leads from the storage offset `v` on an axis
/// of extent `extent`: to the next offset, around the end on a wrapping
/// axis, and nowhere over the end of a plain one.
pub open spec fn axis_step(v: int, delta: int, extent: int, cycle: bool) -> Option<int> {
    let t = v + delta;
    if 0 <= t < extent {
        Some(t)
    } else if cycle && extent > 0 {
        Some(t % extent)
    } else {
        None
    }
}

/// Where one step in `direction` leads from the storage offsets `(i, j)`
/// of a map of extent `w` by `h`.
pub open spec fn offset_step(
    i: int,
    j: int,
    direction: Direction,
    w: int,
    h: int,
    cycle_x: bool,
    cycle_y: bool,
) -> Option<(int, int)> {
    match (
        axis_step(i, direction.dx(), w, cycle_x),
        axis_step(j, direction.dy(), h, cycle_y),
    ) {
        (Some(a), Some(b)) => Some((a, b)),
        _ => None,
    }
}

/// A step between coordinates is a step between their storage offsets.
pub proof fn lemma_axis_step(v: int, delta: int, origin: int, extent: int, cycle: bool)
    requires
        normalize(v, origin, extent, cycle) is Some,
        -1 <= delta <= 1,
    ensures
        normalize(v + delta, origin, extent, cycle) == axis_step(
            normalize(v, origin, extent, cycle).unwrap(),
            delta,
            extent,
            cycle,
        ),
{
    lemma_normalize_bound(v, origin, extent, cycle);
    lemma_normalize_bound(v + delta, origin, extent, cycle);
    if cycle {
        let d = v - origin;
        let r = d % extent;
        vstd::arithmetic::div_mod::lemma_fundamental_div_mod(d, extent);
        let q = d / extent;
        assert(d + delta == extent * q + (r + delta));
        vstd::arithmetic::div_mod::lemma_mod_multiples_vanish(q, r + delta, extent);
        if 0 <= r + delta < extent {
            vstd::arithmetic::div_mod::lemma_small_mod((r + delta) as nat, extent as nat);
        }
    }
}

/// The offsets of the neighbour of a coordinate of the map are the
/// offsets that a step leads to from the coordinate's own offsets.
pub proof fn lemma_step_offsets<T>(map: TaxicabMap<T>, x: int, y: int, direction: Direction)
    requires
        map.offsets_of(x, y) is Some,
    ensures
        map.offsets_of(x + direction.dx(), y + direction.dy()) == offset_step(
            map.offsets_of(x, y).unwrap().0,
            map.offsets_of(x, y).unwrap().1,
            direction,
            map.size_spec().0 as int,
            map.size_spec().1 as int,
            map.cycle_spec().0,
            map.cycle_spec().1,
        ),
{
    lemma_axis_step(
        x,
        direction.dx(),
        map.origin_spec().0 as int,
        map.size_spec().0 as int,
        map.cycle_spec().0,
    );
    lemma_axis_step(
        y,
        direction.dy(),
        map.origin_spec().1 as int,
        map.size_spec().1 as int,
        map.cycle_spec().1,
    );
}

/// The directions in the order in which a ring of radius one is walked.
pub open spec fn ring_directions() -> Seq<Direction> {
    seq![Direction::X(true), Direction::Y(true), Direction::X(false), Direction::Y(false)]
}

/// Where one step leads from a storage offset on one axis.
fn step_axis(v: usize, forward: bool, extent: usize, cycle: bool) -> (r: Option<usize>)
    requires
        v < extent,
    ensures
        r matches Some(t) ==> t < extent,
        (match r {
            Some(t) => Some(t as int),
            None => None,
        }) == axis_step(v as int, if forward {
            1int
        } else {
            -1int
        }, extent as int, cycle),
{
    if forward {
        if v + 1 < extent {
            Some(v + 1)
        } else if cycle {
            proof {
                vstd::arithmetic::div_mod::lemma_mod_self_0(extent as int);
            }
            Some(0)
        } else {
            None
        }
    } else {
        if v >= 1 {
            Some(v - 1)
        } else if cycle {
            proof {
                vstd::arithmetic::div_mod::lemma_fundamental_div_mod_converse(
                    -1,
                    extent as int,
                    -1,
                    extent - 1,
                );
            }
            Some(extent - 1)
        } else {
            None
        }
    }
}

/// The position in storage that one step in `direction` leads to from
/// the storage offsets `(i, j)`.
pub open spec fn step_target(
    i: int,
    j: int,
    direction: Direction,
    w: int,
    h: int,
    cycle_x: bool,
    cycle_y: bool,
) -> Option<int> {
    match offset_step(i, j, direction, w, h, cycle_x, cycle_y) {
        Some(t) => Some(t.0 * h + t.1),
        None => None,
    }
}

/// Where one step in `direction` leads from the storage offsets `(i, j)`,
/// as a position in storage.
pub(crate) fn step_position(
    i: usize,
    j: usize,
    direction: Direction,
    w: usize,
    h: usize,
    cycle_x: bool,
    cycle_y: bool,
) -> (r: Option<usize>)
    requires
        i < w,
        j < h,
        w * h <= usize::MAX,
    ensures
        r matches Some(k) ==> k < w * h && step_target(
            i as int,
            j as int,
            direction,
            w as int,
            h as int,
            cycle_x,
            cycle_y,
        ) == Some(k as int),
        r is None ==> step_target(i as int, j as int, direction, w as int, h as int, cycle_x, cycle_y)
            is None,
{
    let there: Option<(usize, usize)> = match direction {
        Direction::X(forward) => match step_axis(i, forward, w, cycle_x) {
            Some(a) => Some((a, j)),
            None => None,
        },
        Direction::Y(forward) => match step_axis(j, forward, h, cycle_y) {
            Some(b) => Some((i, b)),
            None => None,
        },
    };
    match there {
        Some((a, b)) => {
            proof {
                lemma_cell_position(a as int, b as int, w as int, h as int);
            }
            Some(a * h + b)
        },
        None => None,
    }
}

/// Whether position `b` is one step from position `a` in a map of extent
/// `w` by `h`.
pub open spec fn position_linked(a: int, b: int, w: int, h: int, cycle_x: bool, cycle_y: bool) -> bool {
    exists|d: Direction| #[trigger] step_target(a / h, a % h, d, w, h, cycle_x, cycle_y) == Some(b)
}

/// The links of the cell at offsets `(i, j)` that the first `upto`
/// directions of the ring give: the positions that the steps lead to, in
/// the order of the directions.
pub open spec fn row_links(
    i: int,
    j: int,
    w: int,
    h: int,
    cycle_x: bool,
    cycle_y: bool,
    upto: int,
) -> Seq<usize>
    decreases upto,
{
    if upto <= 0 {
        Seq::empty()
    } else {
        match step_target(i, j, ring_directions()[upto - 1], w, h, cycle_x, cycle_y) {
            Some(b) => row_links(i, j, w, h, cycle_x, cycle_y, upto - 1).push(b as usize),
            None => row_links(i, j, w, h, cycle_x, cycle_y, upto - 1),
        }
    }
}

/// The links of all cells of a map of extent `w` by `h`, by position.
pub open spec fn grid_links(w: int, h: int, cycle_x: bool, cycle_y: bool) -> Seq<Seq<usize>> {
    Seq::new((w * h) as nat, |a: int| row_links(a / h, a % h, w, h, cycle_x, cycle_y, 4))
}

/// A step from a cell of the map leads to a cell of the map.
pub proof fn lemma_step_target(
    i: int,
    j: int,
    d: Direction,
    w: int,
    h: int,
    cycle_x: bool,
    cycle_y: bool,
)
    requires
        0 <= i < w,
        0 <= j < h,
    ensures
        step_target(i, j, d, w, h, cycle_x, cycle_y) matches Some(b) ==> 0 <= b < w * h
            && offset_step(i, j, d, w, h, cycle_x, cycle_y) == Some((b / h, b % h)),
{
    if let Some(t) = offset_step(i, j, d, w, h, cycle_x, cycle_y) {
        if cycle_x {
            vstd::arithmetic::div_mod::lemma_mod_bound(i + d.dx(), w);
        }
        if cycle_y {
            vstd::arithmetic::div_mod::lemma_mod_bound(j + d.dy(), h);
        }
        lemma_cell_position(t.0, t.1, w, h);
    }
}

/// The links of a cell lead exactly to the positions that one step leads
/// to.
pub proof fn lemma_row_links(
    i: int,
    j: int,
    w: int,
    h: int,
    cycle_x: bool,
    cycle_y: bool,
    upto: int,
    b: int,
)
    requires
        0 <= i < w,
        0 <= j < h,
        0 <= upto <= 4,
        w * h <= usize::MAX,
    ensures
        links_to(row_links(i, j, w, h, cycle_x, cycle_y, upto), b) <==> exists|e: int|
            0 <= e < upto && #[trigger] step_target(
                i,
                j,
                ring_directions()[e],
                w,
                h,
                cycle_x,
                cycle_y,
            ) == Some(b),
        forall|k: int|
            0 <= k < row_links(i, j, w, h, cycle_x, cycle_y, upto).len() ==> #[trigger] row_links(
                i,
                j,
                w,
                h,
                cycle_x,
                cycle_y,
                upto,
            )[k] < w * h,
    decreases upto,
{
    if upto > 0 {
        lemma_row_links(i, j, w, h, cycle_x, cycle_y, upto - 1, b);
        let before = row_links(i, j, w, h, cycle_x, cycle_y, upto - 1);
        let now = row_links(i, j, w, h, cycle_x, cycle_y, upto);
        let last = step_target(i, j, ring_directions()[upto - 1], w, h, cycle_x, cycle_y);
        lemma_step_target(i, j, ring_directions()[upto - 1], w, h, cycle_x, cycle_y);
        if links_to(now, b) {
            let k = choose|k: int| 0 <= k < now.len() && #[trigger] now[k] == b;
            if k < before.len() {
                assert(before[k] == b);
                assert(links_to(before, b));
                let e = choose|e: int|
                    0 <= e < upto - 1 && #[trigger] step_target(
                        i,
                        j,
                        ring_directions()[e],
                        w,
                        h,
                        cycle_x,
                        cycle_y,
                    ) == Some(b);
                assert(step_target(i, j, ring_directions()[e], w, h, cycle_x, cycle_y) == Some(b));
            } else {
                assert(step_target(i, j, ring_directions()[upto - 1], w, h, cycle_x, cycle_y) == Some(
                    b,
                ));
            }
        }
        if exists|e: int|
            0 <= e < upto && #[trigger] step_target(
                i,
                j,
                ring_directions()[e],
                w,
                h,
                cycle_x,
                cycle_y,
            ) == Some(b) {
            let e = choose|e: int|
                0 <= e < upto && #[trigger] step_target(
                    i,
                    j,
                    ring_directions()[e],
                    w,
                    h,
                    cycle_x,
                    cycle_y,
                ) == Some(b);
            if e < upto - 1 {
                assert(links_to(before, b));
                let k = choose|k: int| 0 <= k < before.len() && #[trigger] before[k] == b;
                assert(now[k] == b);
            } else {
                assert(now[now.len() - 1] == b);
            }
        }
    }
}

/// The links of a cell lead exactly to the positions one step away.
pub proof fn lemma_links_are_steps(a: int, b: int, w: int, h: int, cycle_x: bool, cycle_y: bool)
    requires
        0 <= a < w * h,
        w * h <= usize::MAX,
        0 < h,
    ensures
        links_to(grid_links(w, h, cycle_x, cycle_y)[a], b) <==> position_linked(
            a,
            b,
            w,
            h,
            cycle_x,
            cycle_y,
        ),
{
    let i = a / h;
    let j = a % h;
    vstd::arithmetic::div_mod::lemma_fundamental_div_mod(a, h);
    vstd::arithmetic::div_mod::lemma_mod_bound(a, h);
    assert(0 <= i < w) by (nonlinear_arith)
        requires
            a == h * i + j,
            0 <= j < h,
            0 <= a < w * h,
    ;
    lemma_row_links(i, j, w, h, cycle_x, cycle_y, 4, b);
    if position_linked(a, b, w, h, cycle_x, cycle_y) {
        let d = choose|d: Direction|
            #[trigger] step_target(a / h, a % h, d, w, h, cycle_x, cycle_y) == Some(b);
        let e: int = match d {
            Direction::X(true) => 0,
            Direction::Y(true) => 1,
            Direction::X(false) => 2,
            Direction::Y(false) => 3,
        };
        assert(ring_directions()[e] == d);
        assert(step_target(i, j, ring_directions()[e], w, h, cycle_x, cycle_y) == Some(b));
    }
}

/// Whether `graph` is the graph of a map of extent `w` by `h` with the
/// given tables.
pub open spec fn graph_of(
    graph: CostGraph,
    w: int,
    h: int,
    cycle_x: bool,
    cycle_y: bool,
    passable: Seq<bool>,
    cost: Seq<u64>,
) -> bool {
    &&& graph.well_formed()
    &&& graph.size() == w * h
    &&& graph.passable@ == passable
    &&& graph.cost@ == cost
    &&& crate::search::astar::links_view(graph.links@) == grid_links(w, h, cycle_x, cycle_y)
}

/// A step of the graph of a map is a step between positions to a cell
/// that may be entered.
pub proof fn lemma_graph_edge(
    graph: CostGraph,
    w: int,
    h: int,
    cycle_x: bool,
    cycle_y: bool,
    passable: Seq<bool>,
    cost: Seq<u64>,
    a: int,
    b: int,
)
    requires
        graph_of(graph, w, h, cycle_x, cycle_y, passable, cost),
        0 <= w,
        0 <= h,
        w * h <= usize::MAX,
        0 <= a < w * h,
        0 <= b < w * h,
    ensures
        graph.edge(a, b) <==> position_linked(a, b, w, h, cycle_x, cycle_y) && passable[b],
{
    assert(0 < h) by (nonlinear_arith)
        requires
            0 <= a < w * h,
            0 <= w,
            0 <= h,
    ;
    lemma_links_are_steps(a, b, w, h, cycle_x, cycle_y);
    let row = grid_links(w, h, cycle_x, cycle_y)[a];
    assert(crate::search::astar::links_view(graph.links@)[a] == graph.links@[a]@);
    assert(links_to(row, b) <==> (exists|k: int|
        0 <= k < graph.links@[a]@.len() && #[trigger] graph.links@[a]@[k] == b));
}

/// The graph of the cells of a map of extent `w` by `h`: each cell links
/// to the cells one step away, in the order east, north, west, south.
pub fn build_graph(
    w: usize,
    h: usize,
    cycle_x: bool,
    cycle_y: bool,
    passable: Vec<bool>,
    cost: Vec<u64>,
) -> (graph: CostGraph)
    requires
        w * h <= usize::MAX,
        passable@.len() == w * h,
        cost@.len() == w * h,
    ensures
        graph_of(graph, w as int, h as int, cycle_x, cycle_y, passable@, cost@),
{
    let n = w * h;
    let ghost want = grid_links(w as int, h as int, cycle_x, cycle_y);
    let mut links: Vec<Vec<usize>> = Vec::new();
    let mut i: usize = 0;
    while i < w
        invariant
            i <= w,
            n == w * h,
            n <= usize::MAX,
            want == grid_links(w as int, h as int, cycle_x, cycle_y),
            links@.len() == i * h,
            links@.len() <= n,
            forall|a: int, k: int|
                0 <= a < links@.len() && 0 <= k < links@[a]@.len() ==> #[trigger] links@[a]@[k] < n,
            forall|a: int| 0 <= a < links@.len() ==> (#[trigger] links@[a])@ == want[a],
        decreases w - i,
    {
        let mut j: usize = 0;
        while j < h
            invariant
                i < w,
                j <= h,
                n == w * h,
                n <= usize::MAX,
                want == grid_links(w as int, h as int, cycle_x, cycle_y),
                links@.len() == i * h + j,
                links@.len() <= n,
                forall|a: int, k: int|
                    0 <= a < links@.len() && 0 <= k < links@[a]@.len() ==> #[trigger] links@[a]@[k]
                        < n,
                forall|a: int| 0 <= a < links@.len() ==> (#[trigger] links@[a])@ == want[a],
            decreases h - j,
        {
            let row = cell_links(i, j, w, h, cycle_x, cycle_y);
            let ghost before = links@;
            proof {
                lemma_cell_position(i as int, j as int, w as int, h as int);
                lemma_row_links(i as int, j as int, w as int, h as int, cycle_x, cycle_y, 4, 0);
            }
            links.push(row);
            proof {
                assert forall|a: int, k: int|
                    0 <= a < links@.len() && 0 <= k < links@[a]@.len() implies #[trigger] links@[a]@[k]
                    < n by {
                    if a < before.len() {
                        assert(links@[a] == before[a]);
                    }
                }
                assert forall|a: int| 0 <= a < links@.len() implies (#[trigger] links@[a])@
                    == want[a] by {
                    if a < before.len() {
                        assert(links@[a] == before[a]);
                    }
                }
            }
            j = j + 1;
        }
        proof {
            assert((i + 1) * h == i * h + h) by (nonlinear_arith);
            assert((i + 1) * h <= w * h) by (nonlinear_arith)
                requires
                    i + 1 <= w,
                    0 <= h,
            ;
        }
        i = i + 1;
    }
    let graph = CostGraph { links, passable, cost };
    assert(crate::search::astar::links_view(graph.links@) =~= want);
    graph
}

/// The positions one step from the cell at offsets `(i, j)`.
fn cell_links(i: usize, j: usize, w: usize, h: usize, cycle_x: bool, cycle_y: bool) -> (row: Vec<
    usize,
>)
    requires
        i < w,
        j < h,
        w * h <= usize::MAX,
    ensures
        row@ == row_links(i as int, j as int, w as int, h as int, cycle_x, cycle_y, 4),
{
    let order = [Direction::X(true), Direction::Y(true), Direction::X(false), Direction::Y(false)];
    assert(order@ =~= ring_directions());
    let mut row: Vec<usize> = Vec::new();
    let mut m: usize = 0;
    assert(row@ =~= row_links(i as int, j as int, w as int, h as int, cycle_x, cycle_y, 0));
    while m < 4
        invariant
            m <= 4,
            i < w,
            j < h,
            w * h <= usize::MAX,
            order@ == ring_directions(),
            row@ == row_links(i as int, j as int, w as int, h as int, cycle_x, cycle_y, m as int),
        decreases 4 - m,
    {
        let d = order[m];
        match step_position(i, j, d, w, h, cycle_x, cycle_y) {
            Some(k) => {
                row.push(k);
            },
            None => {},
        }
        m = m + 1;
    }
    row
}

} // verus!
