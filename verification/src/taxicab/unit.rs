use crate::taxicab::action_field::ActionFieldSolver;
use crate::taxicab::iters::position_spec;
use crate::taxicab::map::TaxicabMap;
use crate::taxicab::map::lemma_normalize_bound;
use crate::taxicab::paths::{
    cheapest, enterable, lemma_position, path_cost, path_spec, price_at, reach_spec, same_cell,
    step_spec, touching,
};
use crate::taxicab::ring::{as_pair, taxicab_distance};
use crate::taxicab::tracks::{framed, in_frame, lemma_region_touching};
use vstd::prelude::*;

verus! {

/// Whether every cell of the map may be entered at the cost of one.
pub open spec fn open_unit<T>(map: TaxicabMap<T>, passable: Seq<bool>, cost: Seq<u64>) -> bool {
    &&& passable.len() == map.size_spec().0 * map.size_spec().1
    &&& cost.len() == map.size_spec().0 * map.size_spec().1
    &&& forall|k: int| 0 <= k < passable.len() ==> #[trigger] passable[k]
    &&& forall|k: int| 0 <= k < cost.len() ==> #[trigger] cost[k] == 1
}

/// The window of a map as a frame.
pub open spec fn window<T>(map: TaxicabMap<T>) -> ((int, int), (int, int)) {
    (
        (map.origin_spec().0 as int, map.origin_spec().1 as int),
        (map.size_spec().0 as int, map.size_spec().1 as int),
    )
}

/// Whether the map is one without wraparound that holds every
/// coordinate within the taxicab distance `reach` of `centre`.
pub open spec fn holds_disk<T>(map: TaxicabMap<T>, centre: (int, int), reach: int) -> bool {
    &&& map.well_formed()
    &&& map.cycle_spec() == (false, false)
    &&& forall|q: (int, int)|
        taxicab_distance(centre, q) <= reach ==> #[trigger] map.contains_spec(q.0, q.1)
}

/// The coordinate one step from `b` towards `a`, along the first axis
/// while the two differ there.
pub open spec fn back(a: (int, int), b: (int, int)) -> (int, int) {
    if b.0 > a.0 {
        (b.0 - 1, b.1)
    } else if b.0 < a.0 {
        (b.0 + 1, b.1)
    } else if b.1 > a.1 {
        (b.0, b.1 - 1)
    } else {
        (b.0, b.1 + 1)
    }
}

/// A path of as many steps from `a` to `b` as the two are apart.
pub open spec fn straight(a: (int, int), b: (int, int)) -> Seq<(int, int)>
    decreases taxicab_distance(a, b),
{
    if a == b {
        seq![a]
    } else {
        straight(a, back(a, b)).push(b)
    }
}

/// What holds of a coordinate of a map without wraparound where every
/// cell may be entered at the cost of one.
proof fn lemma_unit_cell<T>(map: TaxicabMap<T>, passable: Seq<bool>, cost: Seq<u64>, c: (int, int))
    requires
        map.well_formed(),
        map.cycle_spec() == (false, false),
        open_unit(map, passable, cost),
        map.contains_spec(c.0, c.1),
    ensures
        framed(map, window(map)),
        in_frame(window(map), c),
        enterable(map, passable, c),
        price_at(map, cost, c) == 1,
{
    lemma_position(map, c);
    map.lemma_window(c.0, c.1);
    let k = position_spec(map, c).unwrap();
    assert(passable[k]);
    assert(cost[k] == 1);
}

/// Where every cell costs one, a path costs as much as it has steps, and
/// has no fewer steps than its ends are apart.
pub proof fn lemma_unit_floor<T>(
    map: TaxicabMap<T>,
    passable: Seq<bool>,
    cost: Seq<u64>,
    path: Seq<(int, int)>,
)
    requires
        map.well_formed(),
        map.cycle_spec() == (false, false),
        open_unit(map, passable, cost),
        path_spec(map, passable, path),
    ensures
        path_cost(map, cost, path) == path.len() - 1,
        taxicab_distance(path[0], path[path.len() - 1]) <= path.len() - 1,
        map.contains_spec(path[path.len() - 1].0, path[path.len() - 1].1),
    decreases path.len(),
{
    if path.len() > 1 {
        let shorter = path.drop_last();
        assert forall|i: int| 0 <= i < shorter.len() - 1 implies #[trigger] step_spec(
            map,
            passable,
            shorter,
            i,
        ) by {
            assert(step_spec(map, passable, path, i));
        }
        lemma_unit_floor(map, passable, cost, shorter);
        let prev = path[path.len() - 2];
        let last = path[path.len() - 1];
        assert(step_spec(map, passable, path, path.len() - 2));
        assert(touching(map, prev, last));
        lemma_unit_cell(map, passable, cost, prev);
        lemma_unit_cell(map, passable, cost, last);
        lemma_region_touching(map, window(map), prev, last);
    }
}

/// Where the map holds the disk around `a` that reaches `b`, and every
/// cell costs one, the straight path leads from `a` to `b` at the cost of
/// their distance.
pub proof fn lemma_straight<T>(
    map: TaxicabMap<T>,
    passable: Seq<bool>,
    cost: Seq<u64>,
    a: (int, int),
    b: (int, int),
)
    requires
        holds_disk(map, a, taxicab_distance(a, b)),
        open_unit(map, passable, cost),
    ensures
        reach_spec(map, passable, straight(a, b), a, b),
        path_cost(map, cost, straight(a, b)) == taxicab_distance(a, b),
    decreases taxicab_distance(a, b),
{
    assert(map.contains_spec(a.0, a.1));
    assert(map.contains_spec(b.0, b.1));
    if a != b {
        let c = back(a, b);
        let shorter = straight(a, c);
        let path = straight(a, b);
        lemma_straight(map, passable, cost, a, c);
        assert(map.contains_spec(c.0, c.1));
        lemma_unit_cell(map, passable, cost, c);
        lemma_unit_cell(map, passable, cost, b);
        lemma_region_touching(map, window(map), c, b);
        assert(path.drop_last() =~= shorter);
        assert forall|i: int| 0 <= i < path.len() - 1 implies #[trigger] step_spec(
            map,
            passable,
            path,
            i,
        ) by {
            if i < shorter.len() - 1 {
                assert(step_spec(map, passable, shorter, i));
            }
        }
    }
}

/// On a map without wraparound that holds the disk around `a` that
/// reaches `b`, and where every cell may be entered at the cost of one,
/// the cheapest path from `a` to `b` costs what the two are apart.
pub proof fn lemma_unit_cheapest<T>(
    map: TaxicabMap<T>,
    passable: Seq<bool>,
    cost: Seq<u64>,
    a: (int, int),
    b: (int, int),
)
    requires
        holds_disk(map, a, taxicab_distance(a, b)),
        open_unit(map, passable, cost),
    ensures
        cheapest(map, passable, cost, a, b, taxicab_distance(a, b) as nat),
{
    lemma_straight(map, passable, cost, a, b);
    assert forall|path: Seq<(int, int)>| #[trigger]
        reach_spec(map, passable, path, a, b) implies taxicab_distance(a, b) <= path_cost(
        map,
        cost,
        path,
    ) by {
        lemma_unit_floor(map, passable, cost, path);
        lemma_same_coordinate(map, path[0], a);
        lemma_same_coordinate(map, path[path.len() - 1], b);
    }
}

/// On a map without wraparound two coordinates that name the same cell
/// are the same.
proof fn lemma_same_coordinate<T>(map: TaxicabMap<T>, a: (int, int), b: (int, int))
    requires
        map.cycle_spec() == (false, false),
        same_cell(map, a, b),
    ensures
        a == b,
{
    map.lemma_window(a.0, a.1);
    map.lemma_window(b.0, b.1);
    lemma_normalize_bound(
        a.0,
        map.origin_spec().0 as int,
        map.size_spec().0 as int,
        false,
    );
    lemma_normalize_bound(
        a.1,
        map.origin_spec().1 as int,
        map.size_spec().1 as int,
        false,
    );
    lemma_normalize_bound(
        b.0,
        map.origin_spec().0 as int,
        map.size_spec().0 as int,
        false,
    );
    lemma_normalize_bound(
        b.1,
        map.origin_spec().1 as int,
        map.size_spec().1 as int,
        false,
    );
}

/// On a map without wraparound that holds the disk of radius `budget`
/// around `start`, and where every cell may be entered at the cost of
/// one, the cells that a path reaches within the budget are the cells of
/// that disk, each at the cost of its distance from the start.
pub proof fn lemma_unit_field<T>(
    map: TaxicabMap<T>,
    passable: Seq<bool>,
    cost: Seq<u64>,
    start: (int, int),
    budget: nat,
    to: (int, int),
    c: nat,
)
    requires
        holds_disk(map, start, budget as int),
        open_unit(map, passable, cost),
    ensures
        (cheapest(map, passable, cost, start, to, c) && c <= budget) <==> (c == taxicab_distance(
            start,
            to,
        ) && taxicab_distance(start, to) <= budget),
{
    let d = taxicab_distance(start, to);
    if cheapest(map, passable, cost, start, to, c) && c <= budget {
        let path = choose|path: Seq<(int, int)>|
            #[trigger] reach_spec(map, passable, path, start, to) && path_cost(map, cost, path)
                == c;
        lemma_unit_floor(map, passable, cost, path);
        lemma_same_coordinate(map, path[0], start);
        lemma_same_coordinate(map, path[path.len() - 1], to);
        lemma_straight(map, passable, cost, start, to);
        lemma_unit_cheapest(map, passable, cost, start, to);
    }
    if d <= budget {
        lemma_unit_cheapest(map, passable, cost, start, to);
    }
}

/// Where the map has no wraparound and holds the disk of the budget's
/// radius around the start, and every cell may be entered at the cost of
/// one, the field of a solver is that disk: every entry is tagged with its
/// distance from the start, and every coordinate of the disk has an entry.
pub proof fn lemma_unit_solution<T>(solver: ActionFieldSolver<'_, T>, r: Seq<(u128, (isize, isize))>)
    requires
        holds_disk(solver.map_spec(), as_pair(solver.start_spec()), solver.budget_spec() as int),
        open_unit(solver.map_spec(), solver.passable_spec(), solver.cost_spec()),
        solver.field_spec(r),
    ensures
        forall|i: int|
            0 <= i < r.len() ==> (#[trigger] r[i]).0 == taxicab_distance(
                as_pair(solver.start_spec()),
                as_pair(r[i].1),
            ) && r[i].0 <= solver.budget_spec(),
        forall|q: (int, int)| #[trigger]
            taxicab_distance(as_pair(solver.start_spec()), q) <= solver.budget_spec() ==> exists|
                i: int,
            |
                0 <= i < r.len() && as_pair((#[trigger] r[i]).1) == q,
{
    let map = solver.map_spec();
    let passable = solver.passable_spec();
    let cost = solver.cost_spec();
    let start = as_pair(solver.start_spec());
    let budget = solver.budget_spec() as nat;
    assert forall|i: int| 0 <= i < r.len() implies (#[trigger] r[i]).0 == taxicab_distance(
        start,
        as_pair(r[i].1),
    ) && r[i].0 <= solver.budget_spec() by {
        assert(solver.cheapest_to(as_pair(r[i].1), r[i].0 as nat));
        lemma_unit_field(map, passable, cost, start, budget, as_pair(r[i].1), r[i].0 as nat);
    }
    assert forall|q: (int, int)| #[trigger]
        taxicab_distance(start, q) <= solver.budget_spec() implies exists|i: int|
        0 <= i < r.len() && as_pair((#[trigger] r[i]).1) == q by {
        lemma_straight(map, passable, cost, start, q);
        assert(solver.reaches(straight(start, q), q));
        let i = choose|i: int|
            0 <= i < r.len() && same_cell(map, ((#[trigger] r[i]).1.0 as int, r[i].1.1 as int), q);
        lemma_same_coordinate(map, as_pair(r[i].1), q);
    }
}

} // verus!
