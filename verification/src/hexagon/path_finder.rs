use crate::hexagon::joint::Joint;
use crate::hexagon::map::{judged, judges, keys_of, open_cell, point_before, HexagonMap};
use crate::hexagon::paths::{
    cells_at, lemma_reach_walk, lemma_walk_to_path, open_around, open_neighbours, path_cost,
    places, priced, route_spec, step_spec,
};
use crate::hexagon::point::{hex_distance_spec, Point};
use crate::hexagon::terrain::{
    build_graph, estimate_spec, find, hex_links, lemma_estimate_consistent, lemma_rank,
    make_estimate, rank,
};
use crate::search::order::settled_route;
use crate::search::explore::{as_cells, copied, repeated};
use crate::search::routes::{affordable, shortest_route_within};
use vstd::prelude::*;

verus! {

/// A search for a cheapest path between two cells of a map.
///
/// The finder holds, for each cell, whether it may be entered and what
/// entering it costs. Without further word every cell may be entered at
/// the cost of one, and a path may cost what it will.
pub struct PathFinder<'a, T> {
    map: &'a HexagonMap<T>,
    start: Point,
    end: Point,
    keys: Vec<Point>,
    passable: Vec<bool>,
    cost: Vec<u64>,
    action_point: Option<u128>,
}

impl<T> HexagonMap<T> {
    /// A path finder from `start` to `end` on this map, in which every
    /// cell may be entered at the cost of one.
    pub fn path_finder(&self, start: &Point, end: &Point) -> (r: PathFinder<'_, T>)
        ensures
            r.map_spec() == *self,
            r.start_spec() == *start,
            r.end_spec() == *end,
            r.budget_spec() is None,
            keys_of(*self, r.keys_spec()),
            r.passable_spec().len() == r.keys_spec().len(),
            r.cost_spec().len() == r.keys_spec().len(),
            forall|k: int| 0 <= k < r.passable_spec().len() ==> #[trigger] r.passable_spec()[k],
            forall|k: int| 0 <= k < r.cost_spec().len() ==> #[trigger] r.cost_spec()[k] == 1,
    {
        let (keys, passable) = self.survey(open_cell::<T>);
        let n = keys.len();
        PathFinder {
            map: self,
            start: *start,
            end: *end,
            keys,
            passable,
            cost: repeated(n, 1u64),
            action_point: None,
        }
    }
}

impl<'a, T> PathFinder<'a, T> {
    /// The keys are the cells of the map in order, and the tables hold
    /// one entry for each.
    #[verifier::type_invariant]
    pub closed spec fn well_formed(&self) -> bool {
        &&& keys_of(*self.map, self.keys@)
        &&& self.passable@.len() == self.keys@.len()
        &&& self.cost@.len() == self.keys@.len()
    }

    /// The map that is searched.
    pub closed spec fn map_spec(&self) -> HexagonMap<T> {
        *self.map
    }

    /// The cell at which paths start.
    pub closed spec fn start_spec(&self) -> Point {
        self.start
    }

    /// The cell at which paths end.
    pub closed spec fn end_spec(&self) -> Point {
        self.end
    }

    /// The cells of the map in the order of their coordinates.
    pub closed spec fn keys_spec(&self) -> Seq<Point> {
        self.keys@
    }

    /// For each cell, in the order of the keys, whether it may be entered.
    pub closed spec fn passable_spec(&self) -> Seq<bool> {
        self.passable@
    }

    /// For each cell, in the order of the keys, the cost of entering it.
    pub closed spec fn cost_spec(&self) -> Seq<u64> {
        self.cost@
    }

    /// The most that a path may cost, if there is a limit.
    pub closed spec fn budget_spec(&self) -> Option<u128> {
        self.action_point
    }

    /// Whether `path` leads from the start to the end of this finder.
    pub open spec fn route(&self, path: Seq<Point>) -> bool {
        route_spec(self.keys_spec(), self.passable_spec(), path, self.start_spec(), self.end_spec())
    }

    /// The cost of `path` under the costs of this finder.
    pub open spec fn cost_of(&self, path: Seq<Point>) -> nat {
        path_cost(self.keys_spec(), self.cost_spec(), path)
    }

    /// Replaces the judgement of which cells may be entered: `passable`
    /// is asked once about every cell and its value.
    pub fn with_passable<F>(self, passable: F) -> (r: Self) where F: Fn(&Point, &T) -> bool
        requires
            judges(self.map_spec(), passable),
        ensures
            r.map_spec() == self.map_spec(),
            r.start_spec() == self.start_spec(),
            r.end_spec() == self.end_spec(),
            r.budget_spec() == self.budget_spec(),
            r.keys_spec() == self.keys_spec(),
            r.cost_spec() == self.cost_spec(),
            judged(self.map_spec(), passable, r.keys_spec(), r.passable_spec()),
    {
        proof {
            use_type_invariant(&self);
        }
        let (keys, table) = self.map.survey(passable);
        proof {
            lemma_same_keys(*self.map, keys@, self.keys@);
        }
        PathFinder {
            map: self.map,
            start: self.start,
            end: self.end,
            keys: self.keys,
            passable: table,
            cost: self.cost,
            action_point: self.action_point,
        }
    }

    /// Sets the most that a path may cost; `None` lifts the limit.
    pub fn with_action(self, action: Option<u128>) -> (r: Self)
        ensures
            r.map_spec() == self.map_spec(),
            r.start_spec() == self.start_spec(),
            r.end_spec() == self.end_spec(),
            r.budget_spec() == action,
            r.keys_spec() == self.keys_spec(),
            r.passable_spec() == self.passable_spec(),
            r.cost_spec() == self.cost_spec(),
    {
        proof {
            use_type_invariant(&self);
        }
        PathFinder {
            map: self.map,
            start: self.start,
            end: self.end,
            keys: self.keys,
            passable: self.passable,
            cost: self.cost,
            action_point: action,
        }
    }

    /// Replaces the cost of entering each cell: `cost` is asked once
    /// about every cell and its value.
    pub fn with_cost<F>(self, cost: F) -> (r: Self) where F: Fn(&Point, &T) -> u64
        requires
            judges(self.map_spec(), cost),
        ensures
            r.map_spec() == self.map_spec(),
            r.start_spec() == self.start_spec(),
            r.end_spec() == self.end_spec(),
            r.budget_spec() == self.budget_spec(),
            r.keys_spec() == self.keys_spec(),
            r.passable_spec() == self.passable_spec(),
            judged(self.map_spec(), cost, r.keys_spec(), r.cost_spec()),
    {
        proof {
            use_type_invariant(&self);
        }
        let (keys, table) = self.map.survey(cost);
        proof {
            lemma_same_keys(*self.map, keys@, self.keys@);
        }
        PathFinder {
            map: self.map,
            start: self.start,
            end: self.end,
            keys: self.keys,
            passable: self.passable,
            cost: table,
            action_point: self.action_point,
        }
    }

    /// The value at `point`, or `None` when the point does not belong to
    /// the map.
    pub fn get_point(&self, point: &Point) -> (r: Option<&T>)
        ensures
            r matches Some(v) ==> self.map_spec().value_at(*point) == Some(*v),
            r is None ==> self.map_spec().value_at(*point) is None,
    {
        self.map.get_point(*point)
    }

    /// Whether `point` belongs to the map.
    pub fn has_point(&self, point: &Point) -> (r: bool)
        ensures
            r == self.map_spec().contains_spec(*point),
    {
        self.map.has_point(*point)
    }

    /// The number of steps between the start and `point`.
    pub fn distance_to_start(&self, point: &Point) -> (r: usize)
        requires
            hex_distance_spec(self.start_spec()@, point@) <= usize::MAX,
        ensures
            r == hex_distance_spec(self.start_spec()@, point@),
    {
        self.start.hex_distance(point)
    }

    /// The number of steps between the end and `point`.
    pub fn distance_to_end(&self, point: &Point) -> (r: usize)
        requires
            hex_distance_spec(self.end_spec()@, point@) <= usize::MAX,
        ensures
            r == hex_distance_spec(self.end_spec()@, point@),
    {
        self.end.hex_distance(point)
    }

    /// The neighbours of `point` that belong to the map and may be
    /// entered, in the order of `Direction::all`, each once.
    pub fn neighbors(&self, point: &Point) -> (r: Vec<Point>)
        ensures
            r@ == open_neighbours(self.keys_spec(), self.passable_spec(), *point, 6),
            r@.len() <= 6,
    {
        proof {
            use_type_invariant(self);
        }
        let found = open_around(&self.keys, &self.passable, &self.cost, *point);
        let ghost want = open_neighbours(self.keys@, self.passable@, *point, 6);
        let mut out: Vec<Point> = Vec::new();
        let mut k: usize = 0;
        while k < found.len()
            invariant
                k <= found@.len(),
                found@ == priced(self.keys@, self.cost@, want),
                out@ == want.take(k as int),
            decreases found@.len() - k,
        {
            out.push(found[k].0);
            k = k + 1;
            assert(out@ =~= want.take(k as int));
        }
        assert(want.take(want.len() as int) =~= want);
        out
    }

    /// The path of `solve_path` as the joints between its cells, with its
    /// cost, or `None` when no path within the limit on the cost leads
    /// from the start to the end. Each joint leaves a cell of the path
    /// towards the next one.
    pub fn solve_joint(self) -> (r: Option<(Vec<Joint>, u128)>)
        ensures
            r is None <==> forall|path: Seq<Point>| #[trigger]
                self.route(path) ==> !affordable(self.budget_spec(), self.cost_of(path)),
            r matches Some(found) ==> ({
                let path = joints_path(self.start_spec(), found.0@);
                &&& Some((path, found.1)) == self.solved_spec()
                &&& self.route(path)
                &&& found.1 == self.cost_of(path)
                &&& affordable(self.budget_spec(), found.1 as nat)
                &&& forall|other: Seq<Point>| #[trigger]
                    self.route(other) ==> found.1 <= self.cost_of(other)
                &&& forall|i: int| 0 <= i < found.0@.len() ==> (#[trigger] found.0@[i]).point == path[i]
            }),
    {
        let ghost start = self.start_spec();
        let ghost keys = self.keys_spec();
        let ghost passable = self.passable_spec();
        let (points, total) = match self.solve_path() {
            Some(found) => found,
            None => {
                return None;
            },
        };
        let mut joints: Vec<Joint> = Vec::new();
        let mut k: usize = 0;
        while k + 1 < points.len()
            invariant
                k < points@.len(),
                points@[0] == start,
                joints@.len() == k,
                forall|i: int|
                    0 <= i < points@.len() - 1 ==> #[trigger] step_spec(keys, passable, points@, i),
                forall|i: int|
                    0 <= i < k ==> (#[trigger] joints@[i]).point == points@[i] && joints@[i].point.go_spec(
                        joints@[i].direction,
                    ) == points@[i + 1]@,
            decreases points@.len() - k,
        {
            proof {
                assert(step_spec(keys, passable, points@, k as int));
            }
            match Joint::from_points(points[k], points[k + 1]) {
                Ok(joint) => {
                    joints.push(joint);
                },
                Err(_) => {
                    assert(false);
                },
            }
            k = k + 1;
        }
        proof {
            assert(joints_path(start, joints@) =~= points@);
        }
        Some((joints, total))
    }

    /// The path that `solve_path` gives: of the cheapest paths the one
    /// that the order of settling decides, which takes cells by their cost
    /// plus the estimate of the steps left, and the cell that comes first
    /// in the order of the coordinates among equals.
    pub open spec fn solved_spec(&self) -> Option<(Seq<Point>, u128)> {
        let keys = self.keys_spec();
        let start = rank(keys, self.start_spec());
        let end = rank(keys, self.end_spec());
        if start is Some && end is Some && self.passable_spec()[end.unwrap()] {
            match settled_route(
                hex_links(keys),
                self.passable_spec(),
                self.cost_spec(),
                estimate_spec(keys, self.passable_spec(), self.cost_spec(), end.unwrap()),
                start.unwrap(),
                end.unwrap(),
                self.budget_spec(),
            ) {
                Some(found) => Some((cells_at(keys, found.0), found.1)),
                None => None,
            }
        } else {
            None
        }
    }

    /// A cheapest path from the start to the end with its cost, or `None`
    /// when no path within the limit on the cost leads there.
    ///
    /// A path starts at the start, moves by single steps through cells of
    /// the map that may be entered, and ends at the end, which must itself
    /// be open to entry. Its cost is the sum of the costs of the cells it
    /// enters. Where the start or the end does not belong to the map, or
    /// the end may not be entered, there is no path.
    pub fn solve_path(self) -> (r: Option<(Vec<Point>, u128)>)
        ensures
            solved_view(r) == self.solved_spec(),
            r is None <==> forall|path: Seq<Point>| #[trigger]
                self.route(path) ==> !affordable(self.budget_spec(), self.cost_of(path)),
            r matches Some(found) ==> self.route(found.0@) && found.1 == self.cost_of(found.0@)
                && affordable(self.budget_spec(), found.1 as nat) && forall|path: Seq<Point>| #[trigger]
                self.route(path) ==> found.1 <= self.cost_of(path),
    {
        proof {
            use_type_invariant(&self);
        }
        let start = match find(&self.keys, self.start) {
            Some(k) => k,
            None => {
                return None;
            },
        };
        let end = match find(&self.keys, self.end) {
            Some(k) => k,
            None => {
                return None;
            },
        };
        if !self.passable[end] {
            return None;
        }
        let estimate = make_estimate(&self.keys, &self.passable, &self.cost, end);
        let graph = build_graph(&self.keys, copied(&self.passable), copied(&self.cost));
        proof {
            lemma_estimate_consistent(graph, self.keys@, self.passable@, self.cost@, end as int);
        }
        let found = shortest_route_within(&graph, &estimate, start, end, self.action_point);
        proof {
            lemma_rank_found(self.keys@, self.start, start as int);
            lemma_rank_found(self.keys@, self.end, end as int);
            assert forall|path: Seq<Point>| #[trigger] self.route(path) implies graph.route(
                places(self.keys@, path),
                start as int,
                end as int,
            ) && graph.walk_cost(places(self.keys@, path)) == self.cost_of(path) by {
                lemma_reach_walk(
                    graph,
                    self.keys@,
                    self.passable@,
                    self.cost@,
                    path,
                    self.start,
                    self.end,
                );
            }
        }
        match found {
            None => None,
            Some((cells, total)) => {
                proof {
                    lemma_walk_to_path(graph, self.keys@, self.passable@, self.cost@, as_cells(cells@));
                    lemma_rank(self.keys@, start as int);
                    lemma_rank(self.keys@, end as int);
                }
                let mut points: Vec<Point> = Vec::new();
                let mut k: usize = 0;
                let ghost walk = as_cells(cells@);
                while k < cells.len()
                    invariant
                        k <= cells@.len(),
                        walk == as_cells(cells@),
                        graph.walk(walk),
                        graph.size() == self.keys@.len(),
                        points@.len() == k,
                        forall|i: int| 0 <= i < k ==> #[trigger] points@[i] == self.keys@[walk[i]],
                    decreases cells@.len() - k,
                {
                    proof {
                        graph.lemma_walk_cells(walk, k as int);
                        assert(walk[k as int] == cells@[k as int]);
                    }
                    points.push(self.keys[cells[k]]);
                    k = k + 1;
                }
                proof {
                    assert(points@ =~= cells_at(self.keys@, walk));
                    assert(points@[0] == self.start);
                    assert(points@[points@.len() - 1] == self.end);
                    assert(self.route(points@));
                }
                Some((points, total))
            },
        }
    }
}

/// A path with its cost as plain values.
pub open spec fn solved_view(r: Option<(Vec<Point>, u128)>) -> Option<(Seq<Point>, u128)> {
    match r {
        Some(f) => Some((f.0@, f.1)),
        None => None,
    }
}

/// A key that was found at a place has that place as its rank.
proof fn lemma_rank_found(keys: Seq<Point>, p: Point, k: int)
    requires
        rank(keys, p) == Some(k),
    ensures
        rank(keys, p) is Some,
        rank(keys, p).unwrap() == k,
{
}

/// The path that joints describe from `start` on: the start, then the
/// target of each joint.
pub open spec fn joints_path(start: Point, joints: Seq<Joint>) -> Seq<Point> {
    Seq::new(
        joints.len() + 1,
        |i: int|
            if i == 0 {
                start
            } else {
                Point {
                    x: joints[i - 1].point.go_spec(joints[i - 1].direction).0 as isize,
                    y: joints[i - 1].point.go_spec(joints[i - 1].direction).1 as isize,
                }
            },
    )
}

/// Two listings of the cells of one map in order are the same.
pub proof fn lemma_same_keys<T>(map: HexagonMap<T>, a: Seq<Point>, b: Seq<Point>)
    requires
        keys_of(map, a),
        keys_of(map, b),
    ensures
        a == b,
    decreases a.len(),
{
    assert(a.len() == b.len());
    if a.len() > 0 {
        lemma_first_key(map, a, b);
        lemma_first_key(map, b, a);
    }
    assert forall|i: int| 0 <= i < a.len() implies a[i] == b[i] by {
        lemma_key_at(map, a, b, i);
    }
    assert(a =~= b);
}

/// The first key of one listing is no later than the first of another.
proof fn lemma_first_key<T>(map: HexagonMap<T>, a: Seq<Point>, b: Seq<Point>)
    requires
        keys_of(map, a),
        keys_of(map, b),
        a.len() > 0,
    ensures
        !point_before(b[0], a[0]),
{
    assert(b.contains(b[0]));
    assert(a.contains(b[0]));
    let i = choose|i: int| 0 <= i < a.len() && a[i] == b[0];
    if i > 0 {
        assert(point_before(a[0], a[i]));
    }
}

/// Two listings of the cells of one map in order agree at every place.
proof fn lemma_key_at<T>(map: HexagonMap<T>, a: Seq<Point>, b: Seq<Point>, i: int)
    requires
        keys_of(map, a),
        keys_of(map, b),
        0 <= i < a.len(),
    ensures
        a[i] == b[i],
    decreases i,
{
    if i > 0 {
        lemma_key_at(map, a, b, i - 1);
    }
    // The key a[i] occurs in b, at a place that is not before i, and the
    // other way round; in sorted listings that leaves place i alone.
    assert(a.contains(a[i]));
    assert(b.contains(a[i]));
    let j = choose|j: int| 0 <= j < b.len() && b[j] == a[i];
    assert(b.contains(b[i]));
    assert(a.contains(b[i]));
    let k = choose|k: int| 0 <= k < a.len() && a[k] == b[i];
    if j < i {
        lemma_key_at(map, a, b, j);
        assert(point_before(a[j], a[i]));
    }
    if k < i {
        lemma_key_at(map, a, b, k);
        assert(point_before(b[k], b[i]));
    }
    if j > i {
        assert(point_before(b[i], b[j]));
        if k > i {
            assert(point_before(a[i], a[k]));
        }
    }
}

} // verus!
