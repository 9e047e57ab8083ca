use crate::hexagon::map::{judged, judges, keys_of, open_cell, point_before, HexagonMap};
use crate::hexagon::path_finder::lemma_same_keys;
use crate::hexagon::paths::{
    cheapest, lemma_distance, lemma_reach_walk, open_around, open_neighbours, path_cost, places,
    priced, reach_spec,
};
use crate::hexagon::point::Point;
use crate::hexagon::terrain::{build_graph, find, lemma_rank, rank};
use crate::search::explore::{copied, repeated};
use crate::search::routes::{entry_le, reachable_within};
use vstd::prelude::*;

verus! {

/// A search for all the cells that can be reached from one cell of a map
/// at a cost within a budget.
///
/// The solver holds, for each cell, whether it may be entered and what
/// entering it costs. Without further word every cell may be entered at
/// the cost of one.
pub struct ActionFieldSolver<'a, T> {
    map: &'a HexagonMap<T>,
    start: Point,
    action_points: u128,
    keys: Vec<Point>,
    passable: Vec<bool>,
    cost: Vec<u64>,
}

impl<T> HexagonMap<T> {
    /// A solver for the cells within `action` of `start` on this map, in
    /// which every cell may be entered at the cost of one.
    pub fn action_field(&self, start: Point, action: u128) -> (r: ActionFieldSolver<'_, T>)
        ensures
            r.map_spec() == *self,
            r.start_spec() == start,
            r.budget_spec() == action,
            keys_of(*self, r.keys_spec()),
            r.passable_spec().len() == r.keys_spec().len(),
            r.cost_spec().len() == r.keys_spec().len(),
            forall|k: int| 0 <= k < r.passable_spec().len() ==> #[trigger] r.passable_spec()[k],
            forall|k: int| 0 <= k < r.cost_spec().len() ==> #[trigger] r.cost_spec()[k] == 1,
    {
        let (keys, passable) = self.survey(open_cell::<T>);
        let n = keys.len();
        ActionFieldSolver {
            map: self,
            start,
            action_points: action,
            keys,
            passable,
            cost: repeated(n, 1u64),
        }
    }
}

impl<'a, T> ActionFieldSolver<'a, T> {
    /// The keys are the cells of the map in order, and the tables hold
    /// one entry for each.
    #[verifier::type_invariant]
    pub closed spec fn well_formed(&self) -> bool {
        &&& keys_of(*self.map, self.keys@)
        &&& self.passable@.len() == self.keys@.len()
        &&& self.cost@.len() == self.keys@.len()
    }

    /// The map that is searched.
    pub closed spec fn map_spec(&self) -> HexagonMap<T> {
        *self.map
    }

    /// The cell from which the cells are reached.
    pub closed spec fn start_spec(&self) -> Point {
        self.start
    }

    /// The budget that the cost of a reached cell may not exceed.
    pub closed spec fn budget_spec(&self) -> u128 {
        self.action_points
    }

    /// The cells of the map in the order of their coordinates.
    pub closed spec fn keys_spec(&self) -> Seq<Point> {
        self.keys@
    }

    /// For each cell, in the order of the keys, whether it may be entered.
    pub closed spec fn passable_spec(&self) -> Seq<bool> {
        self.passable@
    }

    /// For each cell, in the order of the keys, the cost of entering it.
    pub closed spec fn cost_spec(&self) -> Seq<u64> {
        self.cost@
    }

    /// Whether `c` is the cost of a cheapest path from the start to `to`.
    pub open spec fn cheapest_to(&self, to: Point, c: nat) -> bool {
        cheapest(self.keys_spec(), self.passable_spec(), self.cost_spec(), self.start_spec(), to, c)
    }

    /// Whether `path` leads from the start to `to`.
    pub open spec fn reaches(&self, path: Seq<Point>, to: Point) -> bool {
        reach_spec(self.keys_spec(), self.passable_spec(), path, self.start_spec(), to)
    }

    /// Replaces the judgement of which cells may be entered: `passable`
    /// is asked once about every cell and its value.
    pub fn with_passable<F>(self, passable: F) -> (r: Self) where F: Fn(&Point, &T) -> bool
        requires
            judges(self.map_spec(), passable),
        ensures
            r.map_spec() == self.map_spec(),
            r.start_spec() == self.start_spec(),
            r.budget_spec() == self.budget_spec(),
            r.keys_spec() == self.keys_spec(),
            r.cost_spec() == self.cost_spec(),
            judged(self.map_spec(), passable, r.keys_spec(), r.passable_spec()),
    {
        proof {
            use_type_invariant(&self);
        }
        let (keys, table) = self.map.survey(passable);
        proof {
            lemma_same_keys(*self.map, keys@, self.keys@);
        }
        ActionFieldSolver {
            map: self.map,
            start: self.start,
            action_points: self.action_points,
            keys: self.keys,
            passable: table,
            cost: self.cost,
        }
    }

    /// Replaces the cost of entering each cell: `cost` is asked once
    /// about every cell and its value.
    pub fn with_cost<F>(self, cost: F) -> (r: Self) where F: Fn(&Point, &T) -> u64
        requires
            judges(self.map_spec(), cost),
        ensures
            r.map_spec() == self.map_spec(),
            r.start_spec() == self.start_spec(),
            r.budget_spec() == self.budget_spec(),
            r.keys_spec() == self.keys_spec(),
            r.passable_spec() == self.passable_spec(),
            judged(self.map_spec(), cost, r.keys_spec(), r.cost_spec()),
    {
        proof {
            use_type_invariant(&self);
        }
        let (keys, table) = self.map.survey(cost);
        proof {
            lemma_same_keys(*self.map, keys@, self.keys@);
        }
        ActionFieldSolver {
            map: self.map,
            start: self.start,
            action_points: self.action_points,
            keys: self.keys,
            passable: self.passable,
            cost: table,
        }
    }

    /// The neighbours of `point` that belong to the map and may be
    /// entered, each once and with the cost of entering it, in the order
    /// of `Direction::all`.
    pub fn neighbors(&self, point: &Point) -> (r: Vec<(Point, u64)>)
        ensures
            r@ == priced(
                self.keys_spec(),
                self.cost_spec(),
                open_neighbours(self.keys_spec(), self.passable_spec(), *point, 6),
            ),
            r@.len() <= 6,
    {
        proof {
            use_type_invariant(self);
        }
        open_around(&self.keys, &self.passable, &self.cost, *point)
    }

    /// Whether `r` is the field of this solver: every entry is a cell of
    /// the map with the cost of a cheapest path to it, which is within the
    /// budget; every cell that a path reaches within the budget has an
    /// entry; and the entries ascend by cost, then by coordinate.
    pub open spec fn field_spec(&self, r: Seq<(u128, Point)>) -> bool {
        &&& forall|i: int|
            0 <= i < r.len() ==> (#[trigger] r[i]).0 <= self.budget_spec()
                && self.map_spec().contains_spec(r[i].1) && self.cheapest_to(r[i].1, r[i].0 as nat)
        &&& forall|path: Seq<Point>, to: Point|
            #[trigger] self.reaches(path, to) && path_cost(self.keys_spec(), self.cost_spec(), path)
                <= self.budget_spec() ==> exists|i: int|
                0 <= i < r.len() && (#[trigger] r[i]).1 == to
        &&& forall|i: int, j: int|
            0 <= i < j < r.len() ==> (#[trigger] r[i]).0 < (#[trigger] r[j]).0 || (r[i].0 == r[j].0
                && point_before(r[i].1, r[j].1))
    }

    /// The cells that a path from the start reaches at a cost within the
    /// budget, each with the cost of a cheapest path to it.
    ///
    /// The cells come in ascending order of their cost, and in the order
    /// of their coordinates among equal costs; no cell comes twice. The
    /// start itself is among them, at no cost. Where the start does not
    /// belong to the map, nothing is reached.
    pub fn solve(self) -> (r: Vec<(u128, Point)>)
        ensures
            !self.map_spec().contains_spec(self.start_spec()) ==> r@.len() == 0,
            self.field_spec(r@),
    {
        proof {
            use_type_invariant(&self);
        }
        let ghost keys = self.keys@;
        let start = match find(&self.keys, self.start) {
            Some(k) => k,
            None => {
                assert forall|path: Seq<Point>, to: Point| !#[trigger] self.reaches(path, to) by {}
                return Vec::new();
            },
        };
        let graph = build_graph(&self.keys, copied(&self.passable), copied(&self.cost));
        let entries = reachable_within(&graph, start, self.action_points);
        let mut out: Vec<(u128, Point)> = Vec::new();
        let mut k: usize = 0;
        while k < entries.len()
            invariant
                k <= entries@.len(),
                keys == self.keys@,
                forall|i: int| 0 <= i < entries@.len() ==> (#[trigger] entries@[i]).1 < keys.len(),
                out@.len() == k,
                forall|i: int|
                    0 <= i < k ==> (#[trigger] out@[i]).0 == entries@[i].0 && out@[i].1
                        == keys[entries@[i].1 as int],
            decreases entries@.len() - k,
        {
            let (c, cell) = entries[k];
            out.push((c, self.keys[cell]));
            k = k + 1;
        }
        proof {
            lemma_rank(keys, start as int);
            assert forall|i: int| 0 <= i < out@.len() implies (#[trigger] out@[i]).0
                <= self.budget_spec() && self.map_spec().contains_spec(out@[i].1)
                && self.cheapest_to(out@[i].1, out@[i].0 as nat) by {
                let e = entries@[i];
                assert(keys.contains(keys[e.1 as int]));
                lemma_distance(
                    graph,
                    keys,
                    self.passable@,
                    self.cost@,
                    start as int,
                    e.1 as int,
                    e.0 as nat,
                );
            }
            assert forall|path: Seq<Point>, to: Point|
                #[trigger] self.reaches(path, to) && path_cost(
                    self.keys_spec(),
                    self.cost_spec(),
                    path,
                ) <= self.budget_spec() implies exists|i: int|
                0 <= i < out@.len() && (#[trigger] out@[i]).1 == to by {
                lemma_reach_walk(graph, keys, self.passable@, self.cost@, path, self.start, to);
                let p = places(keys, path);
                let v = rank(keys, to).unwrap();
                assert(graph.route(p, start as int, v));
                let i = choose|i: int| 0 <= i < entries@.len() && (#[trigger] entries@[i]).1 == v;
                assert(out@[i].1 == keys[v]);
            }
            assert forall|i: int, j: int| 0 <= i < j < out@.len() implies (#[trigger] out@[i]).0 < (
            #[trigger] out@[j]).0 || (out@[i].0 == out@[j].0 && point_before(
                out@[i].1,
                out@[j].1,
            )) by {
                let a = entries@[i];
                let b = entries@[j];
                assert(entry_le(a, b) && a.1 != b.1);
                if a.0 == b.0 {
                    assert(point_before(keys[a.1 as int], keys[b.1 as int]));
                }
            }
        }
        out
    }
}

} // verus!
