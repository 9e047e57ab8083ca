use crate::search::walks::{all_unit, unit_costs, CostGraph};
use crate::taxicab::direction::Direction;
use crate::taxicab::map::lemma_cell_position;
use crate::taxicab::terrain::{graph_of, lemma_graph_edge, step_target};
use vstd::prelude::*;

verus! {

/// The absolute difference of two offsets.
pub open spec fn gap(a: int, b: int) -> int {
    if a >= b {
        a - b
    } else {
        b - a
    }
}

/// The taxicab distance between two positions of a map of height `h`, cut
/// off at the largest cost of a cell.
pub open spec fn offsets_distance(a: int, b: int, h: int) -> u64 {
    let d = gap(a / h, b / h) + gap(a % h, b % h);
    if d <= u64::MAX {
        d as u64
    } else {
        u64::MAX
    }
}

/// The estimate that a path finder works with: the taxicab distance to
/// the goal where that is consistent, which it is on a map without
/// wraparound whose cells cost at least one, and zero everywhere else.
pub open spec fn estimate_spec(
    w: int,
    h: int,
    cycle_x: bool,
    cycle_y: bool,
    passable: Seq<bool>,
    cost: Seq<u64>,
    goal: int,
) -> Seq<u64> {
    if !cycle_x && !cycle_y && unit_costs(passable, cost) {
        Seq::new((w * h) as nat, |a: int| offsets_distance(a, goal, h))
    } else {
        Seq::new((w * h) as nat, |a: int| 0u64)
    }
}

/// The estimate of a path finder is consistent on the graph of its map,
/// and zero at the goal.
pub proof fn lemma_estimate_consistent(
    graph: CostGraph,
    w: int,
    h: int,
    cycle_x: bool,
    cycle_y: bool,
    passable: Seq<bool>,
    cost: Seq<u64>,
    goal: int,
)
    requires
        graph_of(graph, w, h, cycle_x, cycle_y, passable, cost),
        0 <= w,
        0 <= h,
        w * h <= usize::MAX,
        0 <= goal < w * h,
    ensures
        graph.consistent(estimate_spec(w, h, cycle_x, cycle_y, passable, cost, goal)),
        estimate_spec(w, h, cycle_x, cycle_y, passable, cost, goal)[goal] == 0,
{
    let estimate = estimate_spec(w, h, cycle_x, cycle_y, passable, cost, goal);
    assert forall|a: int, b: int| #[trigger] graph.edge(a, b) implies estimate[a] <= graph.cost@[b]
        + estimate[b] by {
        if !cycle_x && !cycle_y && unit_costs(passable, cost) {
            lemma_graph_edge(graph, w, h, cycle_x, cycle_y, passable, cost, a, b);
            assert(0 < h) by (nonlinear_arith)
                requires
                    0 <= a < w * h,
                    0 <= w,
                    0 <= h,
            ;
            let d = choose|d: Direction|
                #[trigger] step_target(a / h, a % h, d, w, h, cycle_x, cycle_y) == Some(b);
            let i = a / h + d.dx();
            let j = a % h + d.dy();
            vstd::arithmetic::div_mod::lemma_mod_bound(a, h);
            lemma_cell_position(i, j, w, h);
            assert(cost[b] >= 1);
        }
    }
}

/// The estimate that a path finder works with, for each position.
pub fn make_estimate(
    w: usize,
    h: usize,
    cycle_x: bool,
    cycle_y: bool,
    passable: &Vec<bool>,
    cost: &Vec<u64>,
    goal: usize,
) -> (r: Vec<u64>)
    requires
        w * h <= usize::MAX,
        passable@.len() == w * h,
        cost@.len() == w * h,
        goal < w * h,
    ensures
        r@ == estimate_spec(w as int, h as int, cycle_x, cycle_y, passable@, cost@, goal as int),
{
    let n = w * h;
    let guided = !cycle_x && !cycle_y && all_unit(passable, cost);
    assert(0 < h) by (nonlinear_arith)
        requires
            goal < w * h,
    ;
    let gi = goal / h;
    let gj = goal % h;
    let mut out: Vec<u64> = Vec::new();
    let mut a: usize = 0;
    while a < n
        invariant
            a <= n,
            n == w * h,
            0 < h,
            gi == goal / h,
            gj == goal % h,
            out@.len() == a,
            forall|k: int|
                0 <= k < a ==> #[trigger] out@[k] == (if guided {
                    offsets_distance(k, goal as int, h as int)
                } else {
                    0u64
                }),
        decreases n - a,
    {
        if guided {
            let i = a / h;
            let j = a % h;
            let di: u128 = if i >= gi {
                (i - gi) as u128
            } else {
                (gi - i) as u128
            };
            let dj: u128 = if j >= gj {
                (j - gj) as u128
            } else {
                (gj - j) as u128
            };
            let d = di + dj;
            if d <= u64::MAX as u128 {
                out.push(d as u64);
            } else {
                out.push(u64::MAX);
            }
        } else {
            out.push(0);
        }
        a = a + 1;
    }
    assert(out@ =~= estimate_spec(
        w as int,
        h as int,
        cycle_x,
        cycle_y,
        passable@,
        cost@,
        goal as int,
    ));
    out
}

} // verus!
