use crate::search::routes::{entry_le, reachable_within};
use crate::taxicab::iters::position_spec;
use crate::taxicab::map::TaxicabMap;
use crate::search::explore::{copied, repeated};
use crate::taxicab::path_finder::{judged, judges, survey};
use crate::taxicab::paths::{
    canonical, cheapest, lemma_canonical, lemma_distance, lemma_position, lemma_reach_walk,
    path_cost, positions, reach_spec, same_cell,
};
use crate::taxicab::terrain::build_graph;
use vstd::prelude::*;

verus! {

/// A search for all the cells that can be reached from one cell of a map
/// at a cost within a budget.
///
/// The solver holds, for each cell, whether it may be entered and what
/// entering it costs. Without further word every cell may be entered at
/// the cost of one.
pub struct ActionFieldSolver<'a, T> {
    map: &'a TaxicabMap<T>,
    start: (isize, isize),
    action_points: u128,
    passable: Vec<bool>,
    cost: Vec<u64>,
}

/// Whether coordinate `a` comes before `b`: by the first coordinate, then
/// by the second.
pub open spec fn coordinate_before(a: (isize, isize), b: (isize, isize)) -> bool {
    a.0 < b.0 || (a.0 == b.0 && a.1 < b.1)
}

impl<T> TaxicabMap<T> {
    /// A solver for the cells within `action` of `start` on this map, in
    /// which every cell may be entered at the cost of one.
    pub fn action_field(&self, start: (isize, isize), action: u128) -> (r: ActionFieldSolver<'_, T>)
        ensures
            r.map_spec() == *self,
            r.start_spec() == start,
            r.budget_spec() == action,
            r.passable_spec().len() == self.size_spec().0 * self.size_spec().1,
            r.cost_spec().len() == self.size_spec().0 * self.size_spec().1,
            forall|k: int| 0 <= k < r.passable_spec().len() ==> #[trigger] r.passable_spec()[k],
            forall|k: int| 0 <= k < r.cost_spec().len() ==> #[trigger] r.cost_spec()[k] == 1,
    {
        let n = self.count_points();
        let _ = self.get_size();
        ActionFieldSolver {
            map: self,
            start,
            action_points: action,
            passable: repeated(n, true),
            cost: repeated(n, 1u64),
        }
    }
}

impl<'a, T> ActionFieldSolver<'a, T> {
    /// The tables hold one entry for each cell of the map.
    #[verifier::type_invariant]
    pub closed spec fn well_formed(&self) -> bool {
        &&& self.map.well_formed()
        &&& self.passable@.len() == self.map.size_spec().0 * self.map.size_spec().1
        &&& self.cost@.len() == self.map.size_spec().0 * self.map.size_spec().1
    }

    /// The map that is searched.
    pub closed spec fn map_spec(&self) -> TaxicabMap<T> {
        *self.map
    }

    /// The coordinate from which the cells are reached.
    pub closed spec fn start_spec(&self) -> (isize, isize) {
        self.start
    }

    /// The budget that the cost of a reached cell may not exceed.
    pub closed spec fn budget_spec(&self) -> u128 {
        self.action_points
    }

    /// For each cell, in the order of storage, whether it may be entered.
    pub closed spec fn passable_spec(&self) -> Seq<bool> {
        self.passable@
    }

    /// For each cell, in the order of storage, the cost of entering it.
    pub closed spec fn cost_spec(&self) -> Seq<u64> {
        self.cost@
    }

    /// Whether `c` is the cost of a cheapest path from the start to the
    /// cell of `to`.
    pub open spec fn cheapest_to(&self, to: (int, int), c: nat) -> bool {
        cheapest(
            self.map_spec(),
            self.passable_spec(),
            self.cost_spec(),
            (self.start_spec().0 as int, self.start_spec().1 as int),
            to,
            c,
        )
    }

    /// Whether `path` leads from the start to the cell of `to`.
    pub open spec fn reaches(&self, path: Seq<(int, int)>, to: (int, int)) -> bool {
        reach_spec(
            self.map_spec(),
            self.passable_spec(),
            path,
            (self.start_spec().0 as int, self.start_spec().1 as int),
            to,
        )
    }

    /// Replaces the judgement of which cells may be entered: `passable`
    /// is asked once about every cell, with the cell's coordinate in the
    /// window of the map and its value.
    pub fn with_passable<F>(self, passable: F) -> (r: Self) where F: Fn(isize, isize, &T) -> bool
        requires
            judges(self.map_spec(), passable),
        ensures
            r.map_spec() == self.map_spec(),
            r.start_spec() == self.start_spec(),
            r.budget_spec() == self.budget_spec(),
            r.cost_spec() == self.cost_spec(),
            judged(self.map_spec(), passable, r.passable_spec()),
    {
        proof {
            use_type_invariant(&self);
        }
        let table = survey(self.map, passable);
        ActionFieldSolver {
            map: self.map,
            start: self.start,
            action_points: self.action_points,
            passable: table,
            cost: self.cost,
        }
    }

    /// Replaces the cost of entering each cell: `cost` is asked once
    /// about every cell, with the cell's coordinate in the window of the
    /// map and its value.
    pub fn with_cost<F>(self, cost: F) -> (r: Self) where F: Fn(isize, isize, &T) -> u64
        requires
            judges(self.map_spec(), cost),
        ensures
            r.map_spec() == self.map_spec(),
            r.start_spec() == self.start_spec(),
            r.budget_spec() == self.budget_spec(),
            r.passable_spec() == self.passable_spec(),
            judged(self.map_spec(), cost, r.cost_spec()),
    {
        proof {
            use_type_invariant(&self);
        }
        let table = survey(self.map, cost);
        ActionFieldSolver {
            map: self.map,
            start: self.start,
            action_points: self.action_points,
            passable: self.passable,
            cost: table,
        }
    }

    /// Whether `r` is the field of this solver: every entry is a cell of
    /// the window with the cost of a cheapest path to it, which is within
    /// the budget; every cell that a path reaches within the budget has
    /// an entry; and the entries ascend by cost, then by coordinate.
    pub open spec fn field_spec(&self, r: Seq<(u128, (isize, isize))>) -> bool {
        &&& forall|i: int|
            0 <= i < r.len() ==> (#[trigger] r[i]).0 <= self.budget_spec()
                && self.map_spec().in_window(r[i].1.0 as int, r[i].1.1 as int) && self.cheapest_to(
                (r[i].1.0 as int, r[i].1.1 as int),
                r[i].0 as nat,
            )
        &&& forall|path: Seq<(int, int)>, to: (int, int)|
            #[trigger] self.reaches(path, to) && path_cost(self.map_spec(), self.cost_spec(), path)
                <= self.budget_spec() ==> exists|i: int|
                0 <= i < r.len() && same_cell(
                    self.map_spec(),
                    ((#[trigger] r[i]).1.0 as int, r[i].1.1 as int),
                    to,
                )
        &&& forall|i: int, j: int|
            0 <= i < j < r.len() ==> (#[trigger] r[i]).0 < (#[trigger] r[j]).0 || (r[i].0 == r[j].0
                && coordinate_before(r[i].1, r[j].1))
    }

    /// The cells that a path from the start reaches at a cost within the
    /// budget, each with the cost of a cheapest path to it and under its
    /// coordinate in the window of the map.
    ///
    /// The cells come in ascending order of their cost, and in the order
    /// of their coordinates among equal costs; no cell comes twice. The
    /// start itself is among them, at no cost. Where the start does not
    /// belong to the map, nothing is reached.
    pub fn solve(self) -> (r: Vec<(u128, (isize, isize))>)
        ensures
            !self.map_spec().contains_spec(self.start_spec().0 as int, self.start_spec().1 as int)
                ==> r@.len() == 0,
            self.field_spec(r@),
    {
        proof {
            use_type_invariant(&self);
            self.map.lemma_well_formed();
        }
        let ghost map = *self.map;
        let ghost from = (self.start.0 as int, self.start.1 as int);
        let (w, h) = self.map.get_size();
        let (ox, oy) = self.map.get_origin();
        let (cycle_x, cycle_y) = self.map.get_cycle();
        let cells = self.map.count_points();
        assert(w * h == cells);
        let start = match self.map.position(self.start.0, self.start.1) {
            Some(k) => k,
            None => {
                assert forall|path: Seq<(int, int)>, to: (int, int)| !#[trigger] self.reaches(
                    path,
                    to,
                ) by {
                    if self.reaches(path, to) {
                        assert(same_cell(map, path[0], from));
                    }
                }
                return Vec::new();
            },
        };
        let graph = build_graph(w, h, cycle_x, cycle_y, copied(&self.passable), copied(&self.cost));
        let entries = reachable_within(&graph, start, self.action_points);
        let mut out: Vec<(u128, (isize, isize))> = Vec::new();
        let mut k: usize = 0;
        while k < entries.len()
            invariant
                k <= entries@.len(),
                map == *self.map,
                map.well_formed(),
                (w, h) == map.size_spec(),
                (ox, oy) == map.origin_spec(),
                w * h <= usize::MAX,
                forall|i: int| 0 <= i < entries@.len() ==> (#[trigger] entries@[i]).1 < w * h,
                out@.len() == k,
                forall|i: int|
                    0 <= i < k ==> (#[trigger] out@[i]).0 == entries@[i].0 && (
                    out@[i].1.0 as int,
                    out@[i].1.1 as int,
                    ) == canonical(map, entries@[i].1 as int),
            decreases entries@.len() - k,
        {
            let (c, cell) = entries[k];
            proof {
                lemma_canonical(map, cell as int);
                assert(0 < h) by (nonlinear_arith)
                    requires
                        cell < w * h,
                ;
            }
            let x = ((cell / h) as i128 + ox as i128) as isize;
            let y = ((cell % h) as i128 + oy as i128) as isize;
            out.push((c, (x, y)));
            k = k + 1;
        }
        proof {
            assert forall|i: int| 0 <= i < out@.len() implies (#[trigger] out@[i]).0
                <= self.budget_spec() && self.map_spec().in_window(
                out@[i].1.0 as int,
                out@[i].1.1 as int,
            ) && self.cheapest_to((out@[i].1.0 as int, out@[i].1.1 as int), out@[i].0 as nat) by {
                let e = entries@[i];
                lemma_canonical(map, e.1 as int);
                lemma_distance(graph, map, self.passable@, self.cost@, from, e.1 as int, e.0 as nat);
            }
            assert forall|path: Seq<(int, int)>, to: (int, int)|
                #[trigger] self.reaches(path, to) && path_cost(
                    self.map_spec(),
                    self.cost_spec(),
                    path,
                ) <= self.budget_spec() implies exists|i: int|
                0 <= i < out@.len() && same_cell(
                    self.map_spec(),
                    ((#[trigger] out@[i]).1.0 as int, out@[i].1.1 as int),
                    to,
                ) by {
                lemma_reach_walk(graph, map, self.passable@, self.cost@, path, from, to);
                let p = positions(map, path);
                let v = position_spec(map, to).unwrap();
                assert(graph.route(p, start as int, v));
                let i = choose|i: int| 0 <= i < entries@.len() && (#[trigger] entries@[i]).1 == v;
                lemma_canonical(map, v);
                lemma_position(map, to);
                assert(same_cell(map, (out@[i].1.0 as int, out@[i].1.1 as int), to));
            }
            assert forall|i: int, j: int| 0 <= i < j < out@.len() implies (#[trigger] out@[i]).0 < (
            #[trigger] out@[j]).0 || (out@[i].0 == out@[j].0 && coordinate_before(
                out@[i].1,
                out@[j].1,
            )) by {
                let a = entries@[i];
                let b = entries@[j];
                assert(entry_le(a, b) && a.1 != b.1);
                lemma_canonical(map, a.1 as int);
                lemma_canonical(map, b.1 as int);
                if a.0 == b.0 {
                    lemma_position_order(a.1 as int, b.1 as int, h as int);
                }
            }
        }
        out
    }
}

/// Of two positions in storage the earlier one has the smaller offsets,
/// by the first offset and then by the second.
pub proof fn lemma_position_order(a: int, b: int, h: int)
    requires
        0 <= a < b,
        0 < h,
    ensures
        a / h < b / h || (a / h == b / h && a % h < b % h),
{
    vstd::arithmetic::div_mod::lemma_fundamental_div_mod(a, h);
    vstd::arithmetic::div_mod::lemma_fundamental_div_mod(b, h);
    vstd::arithmetic::div_mod::lemma_mod_bound(a, h);
    vstd::arithmetic::div_mod::lemma_mod_bound(b, h);
    let (qa, qb) = (a / h, b / h);
    if qa > qb {
        assert(h * qa >= h * qb + h) by (nonlinear_arith)
            requires
                qa >= qb + 1,
                0 < h,
        ;
    }
}

} // verus!
