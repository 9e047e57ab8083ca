use crate::hexagon::action_field::ActionFieldSolver;
use crate::hexagon::joint::adjacent;
use crate::hexagon::paths::{
    cheapest, enterable, path_cost, path_spec, price_at, reach_spec, step_spec,
};
use crate::hexagon::point::{hex_distance_spec, Direction, Point};
use crate::hexagon::terrain::{rank, sorted};
use vstd::prelude::*;

verus! {

/// Whether every one of the cells `keys` may be entered at the cost of
/// one.
pub open spec fn open_unit(keys: Seq<Point>, passable: Seq<bool>, cost: Seq<u64>) -> bool {
    &&& passable.len() == keys.len()
    &&& cost.len() == keys.len()
    &&& forall|k: int| 0 <= k < passable.len() ==> #[trigger] passable[k]
    &&& forall|k: int| 0 <= k < cost.len() ==> #[trigger] cost[k] == 1
}

/// Whether the sorted cells `keys` hold every cell within `reach` steps
/// of `centre`.
pub open spec fn holds_disk(keys: Seq<Point>, centre: Point, reach: int) -> bool {
    &&& sorted(keys)
    &&& forall|q: Point| hex_distance_spec(centre@, q@) <= reach ==> #[trigger] keys.contains(q)
}

/// The direction of a step from `b` that leads one step nearer to `a`.
pub open spec fn homeward(a: Point, b: Point) -> Direction {
    let dx = b.x - a.x;
    let dy = b.y - a.y;
    if dx > 0 && dy < 0 {
        Direction::X(false)
    } else if dx < 0 && dy > 0 {
        Direction::X(true)
    } else if dx > 0 {
        Direction::Y(false)
    } else if dx < 0 {
        Direction::Y(true)
    } else if dy > 0 {
        Direction::Q(true)
    } else {
        Direction::Q(false)
    }
}

/// The cell one step from `b` towards `a`.
pub open spec fn back(a: Point, b: Point) -> Point {
    Point {
        x: (b.x + homeward(a, b).dx()) as isize,
        y: (b.y + homeward(a, b).dy()) as isize,
    }
}

/// A path of as many steps from `a` to `b` as the two are apart.
pub open spec fn straight(a: Point, b: Point) -> Seq<Point>
    decreases hex_distance_spec(a@, b@),
{
    if a == b {
        seq![a]
    } else {
        straight(a, back(a, b)).push(b)
    }
}

/// The step back from `b` towards another cell `a` leads to a neighbour
/// of `b` that is one step nearer to `a`.
pub proof fn lemma_back(a: Point, b: Point)
    requires
        a != b,
    ensures
        adjacent(back(a, b), b),
        hex_distance_spec(a@, back(a, b)@) == hex_distance_spec(a@, b@) - 1,
{
    let c = back(a, b);
    let d = homeward(a, b).reversed();
    assert(c.go_spec(d) == b@);
}

/// What holds of a key where every cell may be entered at the cost of
/// one.
proof fn lemma_unit_cell(keys: Seq<Point>, passable: Seq<bool>, cost: Seq<u64>, c: Point)
    requires
        open_unit(keys, passable, cost),
        keys.contains(c),
    ensures
        enterable(keys, passable, c),
        price_at(keys, cost, c) == 1,
{
    let k = rank(keys, c).unwrap();
    assert(passable[k]);
    assert(cost[k] == 1);
}

/// Where every cell costs one, a path costs as much as it has steps, and
/// has no fewer steps than its ends are apart.
pub proof fn lemma_unit_floor(keys: Seq<Point>, passable: Seq<bool>, cost: Seq<u64>, path: Seq<Point>)
    requires
        open_unit(keys, passable, cost),
        path_spec(keys, passable, path),
    ensures
        path_cost(keys, cost, path) == path.len() - 1,
        hex_distance_spec(path[0]@, path[path.len() - 1]@) <= path.len() - 1,
    decreases path.len(),
{
    if path.len() > 1 {
        let shorter = path.drop_last();
        assert forall|i: int| 0 <= i < shorter.len() - 1 implies #[trigger] step_spec(
            keys,
            passable,
            shorter,
            i,
        ) by {
            assert(step_spec(keys, passable, path, i));
        }
        lemma_unit_floor(keys, passable, cost, shorter);
        let prev = path[path.len() - 2];
        let last = path[path.len() - 1];
        assert(step_spec(keys, passable, path, path.len() - 2));
        assert(keys.contains(last));
        lemma_unit_cell(keys, passable, cost, last);
        let d = choose|d: Direction| #[trigger] prev.go_spec(d) == last@;
        assert(hex_distance_spec(prev@, last@) == 1);
    }
}

/// Where the cells hold the disk around `a` that reaches `b`, and every
/// cell costs one, the straight path leads from `a` to `b` at the cost of
/// their distance.
pub proof fn lemma_straight(
    keys: Seq<Point>,
    passable: Seq<bool>,
    cost: Seq<u64>,
    a: Point,
    b: Point,
)
    requires
        holds_disk(keys, a, hex_distance_spec(a@, b@)),
        open_unit(keys, passable, cost),
    ensures
        reach_spec(keys, passable, straight(a, b), a, b),
        path_cost(keys, cost, straight(a, b)) == hex_distance_spec(a@, b@),
    decreases hex_distance_spec(a@, b@),
{
    assert(keys.contains(a));
    assert(keys.contains(b));
    if a != b {
        let c = back(a, b);
        let shorter = straight(a, c);
        let path = straight(a, b);
        lemma_back(a, b);
        lemma_straight(keys, passable, cost, a, c);
        lemma_unit_cell(keys, passable, cost, b);
        assert(path.drop_last() =~= shorter);
        assert forall|i: int| 0 <= i < path.len() - 1 implies #[trigger] step_spec(
            keys,
            passable,
            path,
            i,
        ) by {
            if i < shorter.len() - 1 {
                assert(step_spec(keys, passable, shorter, i));
            }
        }
    }
}

/// Where the cells hold the disk of radius `budget` around `start`, and
/// every cell may be entered at the cost of one, the cells that a path
/// reaches within the budget are the cells of that disk, each at the cost
/// of its distance from the start.
pub proof fn lemma_unit_field(
    keys: Seq<Point>,
    passable: Seq<bool>,
    cost: Seq<u64>,
    start: Point,
    budget: nat,
    to: Point,
    c: nat,
)
    requires
        holds_disk(keys, start, budget as int),
        open_unit(keys, passable, cost),
    ensures
        (cheapest(keys, passable, cost, start, to, c) && c <= budget) <==> (c == hex_distance_spec(
            start@,
            to@,
        ) && hex_distance_spec(start@, to@) <= budget),
{
    let d = hex_distance_spec(start@, to@);
    if cheapest(keys, passable, cost, start, to, c) && c <= budget {
        let path = choose|path: Seq<Point>|
            #[trigger] reach_spec(keys, passable, path, start, to) && path_cost(keys, cost, path)
                == c;
        lemma_unit_floor(keys, passable, cost, path);
        lemma_straight(keys, passable, cost, start, to);
    }
    if d <= budget {
        lemma_straight(keys, passable, cost, start, to);
        assert forall|path: Seq<Point>| #[trigger]
            reach_spec(keys, passable, path, start, to) implies d <= path_cost(
            keys,
            cost,
            path,
        ) by {
            lemma_unit_floor(keys, passable, cost, path);
        }
    }
}

/// Where the cells of the map hold the disk of the budget's radius around
/// the start, and every cell may be entered at the cost of one, the field
/// of a solver is that disk: every entry is tagged with its distance from
/// the start, and every cell of the disk has an entry.
pub proof fn lemma_unit_solution<T>(solver: ActionFieldSolver<'_, T>, r: Seq<(u128, Point)>)
    requires
        holds_disk(solver.keys_spec(), solver.start_spec(), solver.budget_spec() as int),
        open_unit(solver.keys_spec(), solver.passable_spec(), solver.cost_spec()),
        solver.field_spec(r),
    ensures
        forall|i: int|
            0 <= i < r.len() ==> (#[trigger] r[i]).0 == hex_distance_spec(
                solver.start_spec()@,
                r[i].1@,
            ) && r[i].0 <= solver.budget_spec(),
        forall|q: Point| #[trigger]
            hex_distance_spec(solver.start_spec()@, q@) <= solver.budget_spec() ==> exists|i: int|
                0 <= i < r.len() && (#[trigger] r[i]).1 == q,
{
    let keys = solver.keys_spec();
    let passable = solver.passable_spec();
    let cost = solver.cost_spec();
    let start = solver.start_spec();
    let budget = solver.budget_spec() as nat;
    assert forall|i: int| 0 <= i < r.len() implies (#[trigger] r[i]).0 == hex_distance_spec(
        start@,
        r[i].1@,
    ) && r[i].0 <= solver.budget_spec() by {
        assert(solver.cheapest_to(r[i].1, r[i].0 as nat));
        lemma_unit_field(keys, passable, cost, start, budget, r[i].1, r[i].0 as nat);
    }
    assert forall|q: Point| #[trigger]
        hex_distance_spec(start@, q@) <= solver.budget_spec() implies exists|i: int|
        0 <= i < r.len() && (#[trigger] r[i]).1 == q by {
        lemma_straight(keys, passable, cost, start, q);
        assert(solver.reaches(straight(start, q), q));
    }
}

} // verus!
