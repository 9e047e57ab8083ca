use crate::search::astar::{astar_route, astar_search, found_view};
use crate::search::explore::{as_cells, repeated};
use crate::search::walks::CostGraph;
use crate::taxicab::direction::Direction;
use crate::taxicab::estimate::{estimate_spec, lemma_estimate_consistent, make_estimate};
use crate::taxicab::iters::{around_spec, lemma_position_injective, position_spec};
use crate::taxicab::joint::Joint;
use crate::taxicab::map::{lemma_cell_position, lemma_normalize_bound, TaxicabMap};
use crate::taxicab::paths::{
    canonical, coordinates, enterable, lemma_canonical, lemma_path_to_walk, lemma_position,
    lemma_walk_to_path, open_cells, path_cost, positions, price_at,
};
use crate::taxicab::ring::{
    as_ints, as_pair, manhattan_distance, ring, ring_fits, taxicab_distance,
};
use crate::taxicab::terrain::{build_graph, graph_of, grid_links};
use crate::taxicab::tracks::{
    frame_cell, frame_fits, frame_spec, framed, hop, in_frame, lane, lemma_frame_holds,
    frame_within, least_reach, lemma_frame_within, lemma_path_to_track, lemma_reach,
    lemma_track_roams, lemma_track_to_path, lemma_unrolled, reach, roam_spec, track_spec, unroll,
    unrolled_cost, unrolled_passable,
};
use crate::taxicab::windings::{
    lemma_frame_suffices, lemma_short_stays, lemma_short_within, lemma_steps_cost,
};
use vstd::prelude::*;

verus! {

/// A search for a cheapest path between two cells of a map.
///
/// The finder holds, for each cell, whether it may be entered and what
/// entering it costs. Without further word every cell may be entered at
/// the cost of one.
pub struct PathFinder<'a, T> {
    map: &'a TaxicabMap<T>,
    start: (isize, isize),
    end: (isize, isize),
    passable: Vec<bool>,
    cost: Vec<u64>,
}

/// What a judgement of the cells of a map says: for each cell, in the
/// order of storage, a value that `f` returns for the cell's coordinate
/// in the window of the map and the cell's value.
pub open spec fn judged<T, R, F: Fn(isize, isize, &T) -> R>(
    map: TaxicabMap<T>,
    f: F,
    table: Seq<R>,
) -> bool {
    &&& table.len() == map.size_spec().0 * map.size_spec().1
    &&& forall|i: int, j: int|
        0 <= i < map.size_spec().0 && 0 <= j < map.size_spec().1 ==> call_ensures(
            f,
            (
                (i + map.origin_spec().0) as isize,
                (j + map.origin_spec().1) as isize,
                &map.cell_spec(i, j),
            ),
            #[trigger] table[i * map.size_spec().1 + j],
        )
}

/// Whether `f` accepts every cell of the map.
pub open spec fn judges<T, R, F: Fn(isize, isize, &T) -> R>(map: TaxicabMap<T>, f: F) -> bool {
    forall|i: int, j: int|
        0 <= i < map.size_spec().0 && 0 <= j < map.size_spec().1 ==> call_requires(
            f,
            (
                (i + map.origin_spec().0) as isize,
                (j + map.origin_spec().1) as isize,
                &#[trigger] map.cell_spec(i, j),
            ),
        )
}

/// Asks `f` about every cell of the map, in the order of storage.
pub(crate) fn survey<T, R, F: Fn(isize, isize, &T) -> R>(map: &TaxicabMap<T>, f: F) -> (r: Vec<R>)
    requires
        judges(*map, f),
    ensures
        judged(*map, f, r@),
{
    let (w, h) = map.get_size();
    let (ox, oy) = map.get_origin();
    proof {
        map.lemma_well_formed();
    }
    let mut out: Vec<R> = Vec::new();
    let mut i: usize = 0;
    while i < w
        invariant
            i <= w,
            (w, h) == map.size_spec(),
            (ox, oy) == map.origin_spec(),
            ox + w <= isize::MAX,
            oy + h <= isize::MAX,
            judges(*map, f),
            out@.len() == i * h,
            forall|a: int, b: int|
                0 <= a < i && 0 <= b < h ==> call_ensures(
                    f,
                    ((a + ox) as isize, (b + oy) as isize, &map.cell_spec(a, b)),
                    #[trigger] out@[a * h + b],
                ),
        decreases w - i,
    {
        let mut j: usize = 0;
        while j < h
            invariant
                i < w,
                j <= h,
                (w, h) == map.size_spec(),
                (ox, oy) == map.origin_spec(),
                ox + w <= isize::MAX,
                oy + h <= isize::MAX,
                judges(*map, f),
                out@.len() == i * h + j,
                forall|a: int, b: int|
                    (0 <= a < i && 0 <= b < h) || (a == i && 0 <= b < j) ==> call_ensures(
                        f,
                        ((a + ox) as isize, (b + oy) as isize, &map.cell_spec(a, b)),
                        #[trigger] out@[a * h + b],
                    ),
            decreases h - j,
        {
            let x = (i as i128 + ox as i128) as isize;
            let y = (j as i128 + oy as i128) as isize;
            let value = map.cell(i, j);
            assert(call_requires(f, (x, y, &map.cell_spec(i as int, j as int))));
            let answer = f(x, y, value);
            let ghost before = out@;
            out.push(answer);
            proof {
                assert forall|a: int, b: int|
                    (0 <= a < i && 0 <= b < h) || (a == i && 0 <= b < j + 1) implies call_ensures(
                    f,
                    ((a + ox) as isize, (b + oy) as isize, &map.cell_spec(a, b)),
                    #[trigger] out@[a * h + b],
                ) by {
                    lemma_cell_position(a, b, w as int, h as int);
                    lemma_cell_position(i as int, j as int, w as int, h as int);
                    if a == i && b == j {
                    } else {
                        assert(a * h + b < i * h + j) by (nonlinear_arith)
                            requires
                                (0 <= a < i && 0 <= b < h) || (a == i && 0 <= b < j),
                                0 <= j,
                        ;
                        assert(out@[a * h + b] == before[a * h + b]);
                    }
                }
            }
            j = j + 1;
        }
        proof {
            assert((i + 1) * h == i * h + h) by (nonlinear_arith);
        }
        i = i + 1;
    }
    out
}

/// A found route of cells as the coordinates of the cells in the window
/// of the map, where all its cells are cells of the map.
pub open spec fn report_spec<T>(map: TaxicabMap<T>, found: Option<(Seq<usize>, u128)>) -> Option<
    (Seq<(int, int)>, u128),
> {
    match found {
        Some(f) => if forall|i: int|
            0 <= i < f.0.len() ==> #[trigger] f.0[i] < map.size_spec().0 * map.size_spec().1 {
            Some((coordinates(map, as_cells(f.0)), f.1))
        } else {
            None
        },
        None => None,
    }
}

/// A path with its cost as plain values.
pub open spec fn path_view(r: Option<(Vec<(isize, isize)>, u128)>) -> Option<
    (Seq<(int, int)>, u128),
> {
    match r {
        Some(f) => Some((as_ints(f.0@), f.1)),
        None => None,
    }
}

impl<T> TaxicabMap<T> {
    /// A path finder from `start` to `end` on this map, in which every
    /// cell may be entered at the cost of one.
    pub fn path_finder(&self, start: (isize, isize), end: (isize, isize)) -> (r: PathFinder<'_, T>)
        ensures
            r.map_spec() == *self,
            r.start_spec() == start,
            r.end_spec() == end,
            r.passable_spec().len() == self.size_spec().0 * self.size_spec().1,
            r.cost_spec().len() == self.size_spec().0 * self.size_spec().1,
            forall|k: int| 0 <= k < r.passable_spec().len() ==> #[trigger] r.passable_spec()[k],
            forall|k: int| 0 <= k < r.cost_spec().len() ==> #[trigger] r.cost_spec()[k] == 1,
    {
        let n = self.count_points();
        let _ = self.get_size();
        PathFinder {
            map: self,
            start,
            end,
            passable: repeated(n, true),
            cost: repeated(n, 1u64),
        }
    }
}

impl<'a, T> PathFinder<'a, T> {
    /// The tables hold one entry for each cell of the map.
    #[verifier::type_invariant]
    pub closed spec fn well_formed(&self) -> bool {
        &&& self.map.well_formed()
        &&& self.passable@.len() == self.map.size_spec().0 * self.map.size_spec().1
        &&& self.cost@.len() == self.map.size_spec().0 * self.map.size_spec().1
    }

    /// The map that is searched.
    pub closed spec fn map_spec(&self) -> TaxicabMap<T> {
        *self.map
    }

    /// The coordinate at which paths start.
    pub closed spec fn start_spec(&self) -> (isize, isize) {
        self.start
    }

    /// The coordinate at which paths end.
    pub closed spec fn end_spec(&self) -> (isize, isize) {
        self.end
    }

    /// For each cell, in the order of storage, whether it may be entered.
    pub closed spec fn passable_spec(&self) -> Seq<bool> {
        self.passable@
    }

    /// For each cell, in the order of storage, the cost of entering it.
    pub closed spec fn cost_spec(&self) -> Seq<u64> {
        self.cost@
    }

    /// The frame of coordinates that the search of this finder covers.
    ///
    /// On an axis without wraparound it is the window of the map. On a
    /// wrapping axis it reaches from the lesser to the greater of the
    /// start and the end, and further on either side by the extent of
    /// that axis times the square of the other extent, and one.
    pub open spec fn frame(&self) -> ((int, int), (int, int)) {
        frame_spec(self.map_spec(), as_pair(self.start_spec()), as_pair(self.end_spec()))
    }

    /// Whether the frame of the search fits the machine: on a map without
    /// wraparound it always does.
    pub open spec fn searchable(&self) -> bool {
        self.map_spec().cycle_spec() != (false, false) ==> frame_fits(self.frame())
    }

    /// Whether `path` leads from the start to the end of this finder: it
    /// begins with the start and ends with the end as they were given,
    /// moves by single grid steps, and enters only cells that may be
    /// entered.
    pub open spec fn route(&self, path: Seq<(int, int)>) -> bool {
        roam_spec(
            self.map_spec(),
            self.passable_spec(),
            path,
            as_pair(self.start_spec()),
            as_pair(self.end_spec()),
        )
    }

    /// Whether `path` is a route that stays inside the frame of the
    /// search.
    pub open spec fn track(&self, path: Seq<(int, int)>) -> bool {
        track_spec(
            self.map_spec(),
            self.passable_spec(),
            self.frame(),
            path,
            as_pair(self.start_spec()),
            as_pair(self.end_spec()),
        )
    }

    /// Whether the frame of the search holds a cheapest of all routes: it
    /// does where at most one axis of the map wraps around.
    pub open spec fn thorough(&self) -> bool {
        !(self.map_spec().cycle_spec().0 && self.map_spec().cycle_spec().1)
    }

    /// The number of steps up to which every route lies inside the frame
    /// of the search, whatever wraps: the lesser of the two reaches.
    pub open spec fn sweep(&self) -> int {
        let w = self.map_spec().size_spec().0 as int;
        let h = self.map_spec().size_spec().1 as int;
        if reach(w, h) <= reach(h, w) {
            reach(w, h)
        } else {
            reach(h, w)
        }
    }

    /// Whether `found` answers the search of this finder.
    ///
    /// A path with its cost is a route at that cost, and no route inside
    /// the frame is cheaper; no path means that no route stays inside
    /// the frame. Where the search is thorough, a path is a cheapest of
    /// all routes, and no path means that there is no route at all.
    /// Where it is not, as much holds of the routes of no more steps
    /// than the sweep.
    pub open spec fn answers(&self, found: Option<(Seq<(int, int)>, u128)>) -> bool {
        &&& found is None <==> !exists|path: Seq<(int, int)>| #[trigger] self.track(path)
        &&& found matches Some(f) ==> self.route(f.0) && self.track(f.0) && f.1 == self.cost_of(
            f.0,
        ) && (forall|path: Seq<(int, int)>| #[trigger]
            self.track(path) ==> f.1 <= self.cost_of(path))
        &&& self.thorough() ==> (found is None <==> !exists|path: Seq<(int, int)>| #[trigger]
            self.route(path))
        &&& self.thorough() ==> (found matches Some(f) ==> forall|path: Seq<(int, int)>| #[trigger]
            self.route(path) ==> f.1 <= self.cost_of(path))
        &&& found is None ==> forall|path: Seq<(int, int)>| #[trigger]
            self.route(path) ==> path.len() - 1 > self.sweep()
        &&& found matches Some(f) ==> forall|path: Seq<(int, int)>| #[trigger]
            self.route(path) && path.len() - 1 <= self.sweep() ==> f.1 <= self.cost_of(path)
    }

    /// The cost of `path` under the costs of this finder.
    pub open spec fn cost_of(&self, path: Seq<(int, int)>) -> nat {
        path_cost(self.map_spec(), self.cost_spec(), path)
    }

    /// Whether `path` is a route that stays inside `frame`.
    pub open spec fn track_over(
        &self,
        frame: ((int, int), (int, int)),
        path: Seq<(int, int)>,
    ) -> bool {
        track_spec(
            self.map_spec(),
            self.passable_spec(),
            frame,
            path,
            as_pair(self.start_spec()),
            as_pair(self.end_spec()),
        )
    }

    /// Whether `found` answers a search over `frame`: a path with its
    /// cost is a route inside the frame at that cost, and no route inside
    /// the frame is cheaper; no path means that no route stays inside the
    /// frame.
    pub open spec fn answers_over(
        &self,
        frame: ((int, int), (int, int)),
        found: Option<(Seq<(int, int)>, u128)>,
    ) -> bool {
        &&& found is None <==> !exists|path: Seq<(int, int)>| #[trigger]
            self.track_over(frame, path)
        &&& found matches Some(f) ==> self.route(f.0) && self.track_over(frame, f.0) && f.1
            == self.cost_of(f.0) && (forall|path: Seq<(int, int)>| #[trigger]
            self.track_over(frame, path) ==> f.1 <= self.cost_of(path))
    }

    /// The route of cells of `frame` that a search over it finds.
    pub open spec fn found_over(&self, frame: ((int, int), (int, int))) -> Option<
        (Seq<usize>, u128),
    > {
        let map = self.map_spec();
        let open = unrolled_passable(map, self.passable_spec(), frame);
        let price = unrolled_cost(map, self.cost_spec(), frame);
        astar_route(
            grid_links(frame.1.0, frame.1.1, false, false),
            open,
            price,
            estimate_spec(
                frame.1.0,
                frame.1.1,
                false,
                false,
                open,
                price,
                place_in(frame, self.end_spec()),
            ),
            place_in(frame, self.start_spec()) as usize,
            place_in(frame, self.end_spec()) as usize,
        )
    }

    /// The path that a search over `frame` gives, as plain values.
    pub open spec fn report_over(&self, frame: ((int, int), (int, int))) -> Option<
        (Seq<(int, int)>, u128),
    > {
        frame_report(frame, self.found_over(frame))
    }

    /// Whether every cell that may be entered costs one at least.
    pub open spec fn positive(&self) -> bool {
        forall|k: int|
            0 <= k < self.passable_spec().len() && #[trigger] self.passable_spec()[k]
                ==> self.cost_spec()[k] >= 1
    }

    /// Whether a path found no further than `margin` beyond the ends of
    /// the search is known to be a cheapest of all routes: every cell
    /// costs one at least, and the path costs no more than `margin`, so
    /// that a cheaper route has fewer steps than would lead out of the
    /// frame.
    pub open spec fn assured(&self, margin: int, found: Option<(Seq<(int, int)>, u128)>) -> bool {
        self.positive() && (found matches Some(f) && f.1 <= margin)
    }

    /// The frame of a search that follows paths `margin` coordinates
    /// beyond its ends.
    pub open spec fn frame_in(&self, margin: int) -> ((int, int), (int, int)) {
        frame_within(
            self.map_spec(),
            as_pair(self.start_spec()),
            as_pair(self.end_spec()),
            margin,
        )
    }

    /// The path that the search gives once it has come to look `margin`
    /// coordinates beyond its ends: what it finds there, where that is
    /// assured to be a cheapest of all; else what it gives at twice the
    /// margin, and at last what it finds in the whole frame.
    pub open spec fn solved_from(&self, margin: int) -> Option<(Seq<(int, int)>, u128)>
        decreases
                (if margin < least_reach(self.map_spec()) {
                    least_reach(self.map_spec()) - margin
                } else {
                    0
                }),
    {
        if 1 <= margin < least_reach(self.map_spec()) {
            if self.assured(margin, self.report_over(self.frame_in(margin))) {
                self.report_over(self.frame_in(margin))
            } else {
                self.solved_from(2 * margin)
            }
        } else {
            self.report_over(self.frame())
        }
    }

    /// The path that `solve_path` gives, as plain values.
    pub open spec fn solved_spec(&self) -> Option<(Seq<(int, int)>, u128)> {
        if self.map_spec().contains_spec(self.start_spec().0 as int, self.start_spec().1 as int)
            && enterable(self.map_spec(), self.passable_spec(), as_pair(self.end_spec())) {
            self.solved_from(NEAR as int)
        } else {
            None
        }
    }

    /// Replaces the judgement of which cells may be entered: `passable`
    /// is asked once about every cell, with the cell's coordinate in the
    /// window of the map and its value.
    pub fn with_passable<F>(self, passable: F) -> (r: Self) where F: Fn(isize, isize, &T) -> bool
        requires
            judges(self.map_spec(), passable),
        ensures
            r.map_spec() == self.map_spec(),
            r.start_spec() == self.start_spec(),
            r.end_spec() == self.end_spec(),
            r.cost_spec() == self.cost_spec(),
            judged(self.map_spec(), passable, r.passable_spec()),
    {
        proof {
            use_type_invariant(&self);
        }
        let table = survey(self.map, passable);
        PathFinder { map: self.map, start: self.start, end: self.end, passable: table, cost: self.cost }
    }

    /// Replaces the cost of entering each cell: `cost` is asked once
    /// about every cell, with the cell's coordinate in the window of the
    /// map and its value.
    pub fn with_action_cost<F>(self, cost: F) -> (r: Self) where F: Fn(isize, isize, &T) -> u64
        requires
            judges(self.map_spec(), cost),
        ensures
            r.map_spec() == self.map_spec(),
            r.start_spec() == self.start_spec(),
            r.end_spec() == self.end_spec(),
            r.passable_spec() == self.passable_spec(),
            judged(self.map_spec(), cost, r.cost_spec()),
    {
        proof {
            use_type_invariant(&self);
        }
        let table = survey(self.map, cost);
        PathFinder { map: self.map, start: self.start, end: self.end, passable: self.passable, cost: table }
    }

    /// The value at the coordinate `(x, y)`, or `None` when the
    /// coordinate does not belong to the map.
    pub fn get_point(&self, x: isize, y: isize) -> (r: Option<&T>)
        ensures
            r matches Some(v) ==> self.map_spec().value_at(x as int, y as int) == Some(*v),
            r is None ==> self.map_spec().value_at(x as int, y as int) is None,
    {
        self.map.get_point(x, y)
    }

    /// Whether the coordinate `(x, y)` belongs to the map.
    pub fn has_point(&self, x: isize, y: isize) -> (r: bool)
        ensures
            r == self.map_spec().contains_spec(x as int, y as int),
    {
        self.map.has_point(x, y)
    }

    /// The taxicab distance between the start and `(x, y)`.
    pub fn distance_to_start(&self, x: isize, y: isize) -> (r: u128)
        ensures
            r == taxicab_distance(
                (x as int, y as int),
                (self.start_spec().0 as int, self.start_spec().1 as int),
            ),
    {
        manhattan_distance((x, y), self.start)
    }

    /// The taxicab distance between the end and `(x, y)`.
    pub fn distance_to_end(&self, x: isize, y: isize) -> (r: u128)
        ensures
            r == taxicab_distance(
                (x as int, y as int),
                (self.end_spec().0 as int, self.end_spec().1 as int),
            ),
    {
        manhattan_distance((x, y), self.end)
    }

    /// The neighbours of `(x, y)` that belong to the map and may be
    /// entered, each once and with the cost of entering it, in the order
    /// of `points_nearby`.
    pub fn neighbors(&self, x: isize, y: isize) -> (r: Vec<((isize, isize), u64)>)
        requires
            ring_fits(x as int, y as int, 1),
        ensures
            r@.len() == self.open_nearby(x as int, y as int).len(),
            r@.len() <= 4,
            forall|i: int|
                0 <= i < r@.len() ==> as_pair((#[trigger] r@[i]).0) == self.open_nearby(
                    x as int,
                    y as int,
                )[i] && r@[i].1 == price_at(self.map_spec(), self.cost_spec(), as_pair(r@[i].0)),
    {
        proof {
            use_type_invariant(self);
            self.map.lemma_well_formed();
        }
        let ghost near = around_spec(*self.map, ring(x as int, y as int, 1), 4);
        let points = self.map.points_nearby(x, y).collect_vec();
        let mut out: Vec<((isize, isize), u64)> = Vec::new();
        let mut k: usize = 0;
        while k < points.len()
            invariant
                k <= points@.len(),
                points@.len() <= 4,
                as_ints(points@) == near,
                self.map.cells_spec().len() == self.map.size_spec().0 * self.map.size_spec().1,
                self.passable@.len() == self.map.size_spec().0 * self.map.size_spec().1,
                self.cost@.len() == self.map.size_spec().0 * self.map.size_spec().1,
                out@.len() <= k,
                out@.len() == open_cells(*self.map, self.passable@, near, k as int).len(),
                forall|i: int|
                    0 <= i < out@.len() ==> as_pair((#[trigger] out@[i]).0) == open_cells(
                        *self.map,
                        self.passable@,
                        near,
                        k as int,
                    )[i] && out@[i].1 == price_at(*self.map, self.cost@, as_pair(out@[i].0)),
            decreases points@.len() - k,
        {
            let p = points[k];
            proof {
                assert(near[k as int] == as_pair(p));
            }
            match self.map.position(p.0, p.1) {
                Some(at) => {
                    if self.passable[at] {
                        out.push((p, self.cost[at]));
                    }
                },
                None => {},
            }
            k = k + 1;
        }
        out
    }

    /// The neighbours of `(x, y)` that belong to the map and may be
    /// entered, in the order of `points_nearby`.
    pub open spec fn open_nearby(&self, x: int, y: int) -> Seq<(int, int)> {
        open_cells(
            self.map_spec(),
            self.passable_spec(),
            around_spec(self.map_spec(), ring(x, y, 1), 4),
            around_spec(self.map_spec(), ring(x, y, 1), 4).len() as int,
        )
    }

    /// A cheapest path from the start to the end with its cost, or `None`
    /// when no path leads there.
    ///
    /// A path begins with the start and ends with the end as they were
    /// given, and each of its coordinates is one grid step from the one
    /// before. Which cell a coordinate names, whether it may be entered
    /// and what entering it costs, the map decides, around the edge where
    /// it wraps. The cost of a path is the sum of the costs of the cells
    /// it enters. Where the start or the end does not belong to the map,
    /// or the end may not be entered, there is no path.
    ///
    /// On a wrapping axis a path may leave the window of the map, and the
    /// search follows it as far as its frame reaches. Where at most one
    /// axis wraps, that is far enough: for every path there is one inside
    /// the frame that costs no more, so the path returned is a cheapest
    /// of all, and `None` means that there is none at all. Where both
    /// axes wrap, the path returned is a cheapest of those inside the
    /// frame, which all paths of no more steps than `sweep` are.
    ///
    /// The search begins close to its ends and doubles how far it looks
    /// beyond them. Where every cell costs one at least, it stops at
    /// the first path that costs no more than the search has looked
    /// beyond its ends, which is a cheapest of all. Else it goes on to
    /// the whole frame, which grows with the extent of a wrapping axis
    /// times the square of the other extent, and fills a table of that
    /// size.
    pub fn solve_path(self) -> (r: Option<(Vec<(isize, isize)>, u128)>)
        requires
            self.searchable(),
        ensures
            path_view(r) == self.solved_spec(),
            self.answers(path_view(r)),
    {
        proof {
            use_type_invariant(&self);
            self.map.lemma_well_formed();
        }
        let ghost map = *self.map;
        let ghost from = as_pair(self.start);
        let ghost to = as_pair(self.end);
        if self.map.position(self.start.0, self.start.1).is_none() {
            proof {
                self.lemma_no_route();
            }
            return None;
        }
        let end = match self.map.position(self.end.0, self.end.1) {
            Some(k) => k,
            None => {
                proof {
                    self.lemma_no_route();
                }
                return None;
            },
        };
        if !self.passable[end] {
            proof {
                self.lemma_no_route();
            }
            return None;
        }
        let (w, h) = self.map.get_size();
        let (ox, oy) = self.map.get_origin();
        let (cycle_x, cycle_y) = self.map.get_cycle();
        let cells = self.map.count_points();
        assert(w * h == cells);
        let (across_reach, along_reach) = self.reaches();
        let least = if cycle_x && cycle_y {
            if across_reach <= along_reach {
                across_reach
            } else {
                along_reach
            }
        } else if cycle_x {
            across_reach
        } else if cycle_y {
            along_reach
        } else {
            0
        };
        let sure = self.costs_positive();
        let mut margin: usize = NEAR;
        while margin < least
            invariant
                1 <= margin,
                self.searchable(),
                self.well_formed(),
                map == self.map_spec(),
                from == as_pair(self.start_spec()),
                to == as_pair(self.end_spec()),
                (w, h) == map.size_spec(),
                (ox, oy) == map.origin_spec(),
                (cycle_x, cycle_y) == map.cycle_spec(),
                least == least_reach(map),
                sure == self.positive(),
                map.contains_spec(from.0, from.1),
                enterable(map, self.passable_spec(), to),
                self.solved_spec() == self.solved_from(margin as int),
            decreases least - margin,
        {
            proof {
                lemma_position(map, to);
                lemma_frame_within(map, from, to, margin as int);
            }
            let (x, across) = lane_of(ox, w, cycle_x, self.start.0, self.end.0, margin);
            let (y, along) = lane_of(oy, h, cycle_y, self.start.1, self.end.1, margin);
            let found = self.search_over(x as isize, y as isize, across as usize, along as usize);
            let cheap = match &found {
                Some(f) => f.1 <= margin as u128,
                None => false,
            };
            if sure && cheap {
                proof {
                    self.lemma_assured(margin as int, path_view(found));
                }
                return found;
            }
            proof {
                reveal_with_fuel(PathFinder::solved_from, 2);
            }
            if margin >= least - margin {
                margin = least;
            } else {
                margin = 2 * margin;
            }
        }
        proof {
            lemma_position(map, to);
            lemma_frame_holds(map, from, to, from);
        }
        let (x, across) = lane_of(ox, w, cycle_x, self.start.0, self.end.0, across_reach);
        let (y, along) = lane_of(oy, h, cycle_y, self.start.1, self.end.1, along_reach);
        let found = self.search_over(x as isize, y as isize, across as usize, along as usize);
        proof {
            self.lemma_whole(path_view(found));
        }
        found
    }

    /// A cheapest of the routes inside the frame with the lowest corner
    /// `(x, y)` and the extent `across` by `along`, or `None` where no
    /// route stays inside that frame.
    fn search_over(&self, x: isize, y: isize, across: usize, along: usize) -> (r: Option<
        (Vec<(isize, isize)>, u128),
    >)
        requires
            frame_fits(((x as int, y as int), (across as int, along as int))),
            in_frame(((x as int, y as int), (across as int, along as int)), as_pair(self.start_spec())),
            in_frame(((x as int, y as int), (across as int, along as int)), as_pair(self.end_spec())),
            self.map_spec().contains_spec(self.start_spec().0 as int, self.start_spec().1 as int),
            enterable(self.map_spec(), self.passable_spec(), as_pair(self.end_spec())),
        ensures
            path_view(r) == self.report_over(((x as int, y as int), (across as int, along as int))),
            self.answers_over(((x as int, y as int), (across as int, along as int)), path_view(r)),
    {
        proof {
            use_type_invariant(self);
            self.map.lemma_well_formed();
        }
        let ghost map = *self.map;
        let ghost frame = ((x as int, y as int), (across as int, along as int));
        let ghost from = as_pair(self.start);
        let ghost to = as_pair(self.end);
        let region = TaxicabMap::rectangle_at((x, y), across, along, &());
        let (open, price) = unroll(self.map, &self.passable, &self.cost, &region, Ghost(frame));
        let (w, h) = region.get_size();
        let cells = region.count_points();
        assert(w * h == cells);
        proof {
            lemma_unrolled(map, self.passable@, self.cost@, region, frame, from);
            lemma_unrolled(map, self.passable@, self.cost@, region, frame, to);
        }
        let s = region.position(self.start.0, self.start.1).unwrap();
        let t = region.position(self.end.0, self.end.1).unwrap();
        proof {
            lemma_normalize_bound(from.0, frame.0.0, frame.1.0, false);
            lemma_normalize_bound(from.1, frame.0.1, frame.1.1, false);
            lemma_normalize_bound(to.0, frame.0.0, frame.1.0, false);
            lemma_normalize_bound(to.1, frame.0.1, frame.1.1, false);
            assert(s == place_in(frame, self.start));
            assert(t == place_in(frame, self.end));
        }
        let estimate = make_estimate(w, h, false, false, &open, &price, t);
        let graph = build_graph(w, h, false, false, open, price);
        proof {
            lemma_estimate_consistent(
                graph,
                w as int,
                h as int,
                false,
                false,
                graph.passable@,
                graph.cost@,
                t as int,
            );
        }
        let found = astar_search(&graph, &estimate, s, t);
        proof {
            self.lemma_searched(frame, graph, region, found_view(found), s as int, t as int);
        }
        report(&region, found)
    }

    /// The reaches of the search along the first and the second axis.
    fn reaches(&self) -> (r: (usize, usize))
        requires
            self.searchable(),
        ensures
            self.map_spec().cycle_spec().0 ==> r.0 == reach(
                self.map_spec().size_spec().0 as int,
                self.map_spec().size_spec().1 as int,
            ),
            self.map_spec().cycle_spec().1 ==> r.1 == reach(
                self.map_spec().size_spec().1 as int,
                self.map_spec().size_spec().0 as int,
            ),
    {
        proof {
            use_type_invariant(self);
            self.map.lemma_well_formed();
        }
        let (w, h) = self.map.get_size();
        let (cycle_x, cycle_y) = self.map.get_cycle();
        proof {
            lemma_reach(w as int, h as int);
            lemma_reach(h as int, w as int);
        }
        let across_reach = match reach_of(w, h) {
            Some(m) => m,
            None => 0,
        };
        let along_reach = match reach_of(h, w) {
            Some(m) => m,
            None => 0,
        };
        (across_reach, along_reach)
    }

    /// Whether every cell that may be entered costs one at least.
    fn costs_positive(&self) -> (r: bool)
        ensures
            r == self.positive(),
    {
        proof {
            use_type_invariant(self);
        }
        let mut k: usize = 0;
        while k < self.passable.len()
            invariant
                k <= self.passable@.len(),
                self.passable@.len() == self.cost@.len(),
                forall|i: int| 0 <= i < k && #[trigger] self.passable@[i] ==> self.cost@[i] >= 1,
            decreases self.passable@.len() - k,
        {
            if self.passable[k] && self.cost[k] == 0 {
                assert(self.passable_spec()[k as int]);
                return false;
            }
            k = k + 1;
        }
        true
    }

    /// The path of `solve_path` as the joints between its coordinates,
    /// with its cost, or `None` where `solve_path` gives none. Each joint
    /// leaves a coordinate of the path, and its target is the next
    /// coordinate.
    pub fn solve_joint(self) -> (r: Option<(Vec<Joint>, u128)>)
        requires
            self.searchable(),
        ensures
            r matches Some(found) ==> ({
                let path = joints_path(self.start_spec(), found.0@);
                &&& Some((path, found.1)) == self.solved_spec()
                &&& self.answers(Some((path, found.1)))
                &&& forall|i: int|
                    0 <= i < found.0@.len() ==> as_pair((#[trigger] found.0@[i]).source_spec())
                        == path[i]
            }),
            r is None ==> self.solved_spec() is None && self.answers(None),
    {
        let ghost start = self.start_spec();
        let ghost map = self.map_spec();
        let ghost passable = self.passable_spec();
        let ghost frame = self.frame();
        let (points, total) = match self.solve_path() {
            Some(found) => found,
            None => {
                return None;
            },
        };
        let ghost path = as_ints(points@);
        assert(points@.len() == path.len());
        assert(path[0] == as_pair(points@[0]));
        let steps = points.len() - 1;
        let mut joints: Vec<Joint> = Vec::new();
        let mut k: usize = 0;
        while k < steps
            invariant
                k <= steps,
                steps + 1 == points@.len(),
                path == as_ints(points@),
                joints@.len() == k,
                forall|i: int|
                    0 <= i < path.len() - 1 ==> #[trigger] hop(map, passable, frame, path, i),
                forall|i: int|
                    0 <= i < k ==> (#[trigger] joints@[i]).source_spec() == points@[i]
                        && joints@[i].target_spec() == as_pair(points@[i + 1]),
            decreases steps - k,
        {
            let here = points[k];
            let next = points[k + 1];
            proof {
                assert(path[k as int] == as_pair(here));
                assert(path[k + 1] == as_pair(next));
                assert(hop(map, passable, frame, path, k as int));
                let d = if next.0 == here.0 + 1 {
                    Direction::X(true)
                } else if next.0 == here.0 - 1 {
                    Direction::X(false)
                } else if next.1 == here.1 + 1 {
                    Direction::Y(true)
                } else {
                    Direction::Y(false)
                };
                assert(crate::taxicab::joint::step_spec(here, d) == as_pair(next));
            }
            match Joint::from_point(here, next) {
                Ok(joint) => {
                    joints.push(joint);
                },
                Err(_) => {
                    assert(false);
                },
            }
            k = k + 1;
        }
        proof {
            assert(joints_path(start, joints@) =~= path);
        }
        Some((joints, total))
    }

    /// Whether the frame of the search fits the machine, as `solve_path`
    /// and `solve_joint` ask.
    pub fn can_search(&self) -> (r: bool)
        ensures
            r == self.searchable(),
    {
        proof {
            use_type_invariant(self);
            self.map.lemma_well_formed();
        }
        let (w, h) = self.map.get_size();
        let (ox, oy) = self.map.get_origin();
        let (cycle_x, cycle_y) = self.map.get_cycle();
        if !cycle_x && !cycle_y {
            return true;
        }
        proof {
            lemma_reach(w as int, h as int);
            lemma_reach(h as int, w as int);
        }
        let across_reach = match reach_of(w, h) {
            Some(m) => m,
            None => {
                if cycle_x {
                    return false;
                }
                0
            },
        };
        let along_reach = match reach_of(h, w) {
            Some(m) => m,
            None => {
                if cycle_y {
                    return false;
                }
                0
            },
        };
        let (x, across) = lane_of(ox, w, cycle_x, self.start.0, self.end.0, across_reach);
        let (y, along) = lane_of(oy, h, cycle_y, self.start.1, self.end.1, along_reach);
        let low: i128 = isize::MIN as i128;
        let high: i128 = isize::MAX as i128;
        let most: u128 = usize::MAX as u128;
        if x < low || y < low || across > most || along > most {
            return false;
        }
        if x + across as i128 > high || y + along as i128 > high {
            return false;
        }
        assert(across * along <= most * most) by (nonlinear_arith)
            requires
                across <= most,
                along <= most,
        ;
        assert(most * most <= u128::MAX) by (nonlinear_arith)
            requires
                most <= 0xffff_ffff_ffff_ffff,
        ;
        across * along <= most
    }

    /// Where every cell that may be entered costs one at least, a path
    /// that was found at a cost of no more than the sweep is a cheapest
    /// of all routes, whatever wraps.
    pub proof fn lemma_found_is_cheapest(&self, path: Seq<(int, int)>, total: u128)
        requires
            self.answers(Some((path, total))),
            total <= self.sweep(),
            forall|c: (int, int)|
                enterable(self.map_spec(), self.passable_spec(), c) ==> #[trigger] price_at(
                    self.map_spec(),
                    self.cost_spec(),
                    c,
                ) >= 1,
        ensures
            forall|other: Seq<(int, int)>| #[trigger]
                self.route(other) ==> total <= self.cost_of(other),
    {
        assert forall|other: Seq<(int, int)>| #[trigger] self.route(other) implies total
            <= self.cost_of(other) by {
            lemma_steps_cost(
                self.map_spec(),
                self.passable_spec(),
                self.cost_spec(),
                other,
                as_pair(self.start_spec()),
                as_pair(self.end_spec()),
                other.len() - 1,
            );
        }
    }

    /// Without a start on the map and an end that may be entered there
    /// is no route, and nothing is searched.
    proof fn lemma_no_route(&self)
        requires
            !(self.map_spec().contains_spec(
                self.start_spec().0 as int,
                self.start_spec().1 as int,
            ) && enterable(self.map_spec(), self.passable_spec(), as_pair(self.end_spec()))),
        ensures
            self.solved_spec() is None,
            self.answers(None),
    {
        assert forall|path: Seq<(int, int)>| !#[trigger] self.route(path) by {}
        assert forall|path: Seq<(int, int)>| !#[trigger] self.track(path) by {}
    }

    /// What answers a search over the whole frame answers the search.
    proof fn lemma_whole(&self, found: Option<(Seq<(int, int)>, u128)>)
        requires
            self.answers_over(self.frame(), found),
        ensures
            self.answers(found),
    {
        let map = self.map_spec();
        let frame = self.frame();
        let from = as_pair(self.start_spec());
        let to = as_pair(self.end_spec());
        assert forall|other: Seq<(int, int)>| #[trigger] self.track(other) == self.track_over(
            frame,
            other,
        ) by {}
        assert forall|other: Seq<(int, int)>| #[trigger] self.route(other) && self.thorough()
            implies exists|inside: Seq<(int, int)>| #[trigger]
            self.track(inside) && self.cost_of(inside) <= self.cost_of(other) by {
            lemma_frame_suffices(map, self.passable_spec(), self.cost_spec(), from, to, other);
            let inside = choose|inside: Seq<(int, int)>| #[trigger]
                track_spec(map, self.passable_spec(), frame, inside, from, to) && path_cost(
                    map,
                    self.cost_spec(),
                    inside,
                ) <= path_cost(map, self.cost_spec(), other);
            assert(self.track(inside));
        }
        assert forall|other: Seq<(int, int)>| #[trigger]
            self.route(other) && other.len() - 1 <= self.sweep() implies self.track(other) by {
            lemma_short_stays(map, self.passable_spec(), from, to, other);
        }
        if found is None {
            assert forall|path: Seq<(int, int)>| !#[trigger] self.track(path) by {
                assert(!self.track_over(frame, path));
            }
        }
        if found is Some {
            let f = found.unwrap();
            assert(self.track(f.0));
        }
    }

    /// Where every cell costs one at least, a path found no further than
    /// `margin` beyond the ends of the search, at a cost of no more than
    /// `margin`, answers the search: a cheaper route would have too few
    /// steps to leave the frame in which the path is a cheapest.
    proof fn lemma_assured(&self, margin: int, found: Option<(Seq<(int, int)>, u128)>)
        requires
            self.answers_over(self.frame_in(margin), found),
            self.assured(margin, found),
            1 <= margin <= least_reach(self.map_spec()),
            self.passable_spec().len() == self.map_spec().size_spec().0
                * self.map_spec().size_spec().1,
        ensures
            self.answers(found),
    {
        let map = self.map_spec();
        let from = as_pair(self.start_spec());
        let to = as_pair(self.end_spec());
        let f = found.unwrap();
        let small = self.frame_in(margin);
        assert(self.route(f.0));
        assert(enterable(map, self.passable_spec(), to));
        lemma_position(map, to);
        lemma_frame_within(map, from, to, margin);
        assert forall|i: int| 0 <= i < f.0.len() - 1 implies #[trigger] hop(
            map,
            self.passable_spec(),
            self.frame(),
            f.0,
            i,
        ) by {
            assert(hop(map, self.passable_spec(), small, f.0, i));
        }
        assert(self.track(f.0));
        assert forall|c: (int, int)|
            enterable(map, self.passable_spec(), c) implies #[trigger] price_at(
            map,
            self.cost_spec(),
            c,
        ) >= 1 by {
            lemma_position_injective(map, c, c);
            let k = position_spec(map, c).unwrap();
            assert(self.passable_spec()[k]);
        }
        assert forall|other: Seq<(int, int)>| #[trigger] self.route(other) implies f.1
            <= self.cost_of(other) by {
            if other.len() - 1 <= margin {
                lemma_short_within(map, self.passable_spec(), from, to, other, margin);
                assert(self.track_over(small, other));
            } else {
                lemma_steps_cost(
                    map,
                    self.passable_spec(),
                    self.cost_spec(),
                    other,
                    from,
                    to,
                    other.len() - 1,
                );
            }
        }
        assert forall|other: Seq<(int, int)>| #[trigger] self.track(other) implies f.1
            <= self.cost_of(other) by {
            lemma_track_roams(map, self.passable_spec(), self.frame(), other, from, to);
            assert(self.route(other));
        }
    }

    /// What a cheapest walk of the graph of a frame, or the lack of any,
    /// says of the routes inside that frame.
    proof fn lemma_searched(
        &self,
        frame: ((int, int), (int, int)),
        graph: CostGraph,
        region: TaxicabMap<()>,
        seen: Option<(Seq<usize>, u128)>,
        start: int,
        end: int,
    )
        requires
            framed(region, frame),
            frame_fits(frame),
            graph_of(
                graph,
                frame.1.0,
                frame.1.1,
                false,
                false,
                unrolled_passable(self.map_spec(), self.passable_spec(), frame),
                unrolled_cost(self.map_spec(), self.cost_spec(), frame),
            ),
            self.map_spec().contains_spec(self.start_spec().0 as int, self.start_spec().1 as int),
            enterable(self.map_spec(), self.passable_spec(), as_pair(self.end_spec())),
            in_frame(frame, as_pair(self.start_spec())),
            in_frame(frame, as_pair(self.end_spec())),
            position_spec(region, as_pair(self.start_spec())) == Some(start),
            position_spec(region, as_pair(self.end_spec())) == Some(end),
            seen is None ==> !graph.connected(start, end),
            seen matches Some(f) ==> graph.route(as_cells(f.0), start, end) && f.1
                == graph.walk_cost(as_cells(f.0)) && forall|p: Seq<int>| #[trigger]
                graph.route(p, start, end) ==> f.1 <= graph.walk_cost(p),
        ensures
            frame_report(frame, seen) == report_spec(region, seen),
            seen is None <==> frame_report(frame, seen) is None,
            self.answers_over(frame, frame_report(frame, seen)),
    {
        let map = self.map_spec();
        let open = unrolled_passable(map, self.passable_spec(), frame);
        let price = unrolled_cost(map, self.cost_spec(), frame);
        let from = as_pair(self.start_spec());
        let to = as_pair(self.end_spec());
        assert forall|other: Seq<(int, int)>| #[trigger]
            self.track_over(frame, other) implies graph.route(
            positions(region, other),
            start,
            end,
        ) && graph.walk_cost(positions(region, other)) == self.cost_of(other) by {
            lemma_track_to_path(map, self.passable_spec(), self.cost_spec(), region, frame, other);
            lemma_path_to_walk(graph, region, open, price, other);
        }
        match seen {
            Some(f) => {
                let cells = as_cells(f.0);
                assert forall|i: int| 0 <= i < f.0.len() implies #[trigger] f.0[i] < frame.1.0
                    * frame.1.1 by {
                    graph.lemma_walk_cells(cells, i);
                    assert(cells[i] == f.0[i]);
                }
                lemma_walk_to_path(graph, region, open, price, cells);
                let path = coordinates(region, cells);
                assert(path =~= f.0.map_values(|k: usize| frame_cell(frame, k as int)));
                lemma_path_to_track(map, self.passable_spec(), self.cost_spec(), region, frame, path);
                assert(positions(region, path)[0] == start);
                assert(positions(region, path)[path.len() - 1] == end);
                lemma_same_place(region, frame, path[0], from);
                lemma_same_place(region, frame, path[path.len() - 1], to);
                assert(self.track_over(frame, path));
                lemma_track_roams(map, self.passable_spec(), frame, path, from, to);
                assert(frame_report(frame, seen) == Some((path, f.1)));
            },
            None => {
                if exists|path: Seq<(int, int)>| #[trigger] self.track_over(frame, path) {
                    let path = choose|path: Seq<(int, int)>| #[trigger]
                        self.track_over(frame, path);
                    assert(graph.route(positions(region, path), start, end));
                    assert(false);
                }
            },
        }
    }
}

/// The margin at which a search begins to look beyond its ends.
pub const NEAR: usize = 16;

/// The place of the coordinate `c` among the cells of `frame`.
pub open spec fn place_in(frame: ((int, int), (int, int)), c: (isize, isize)) -> int {
    (c.0 - frame.0.0) * frame.1.1 + (c.1 - frame.0.1)
}

/// Two coordinates of the frame at the same place of the region are the
/// same coordinate.
proof fn lemma_same_place(
    region: TaxicabMap<()>,
    frame: ((int, int), (int, int)),
    a: (int, int),
    b: (int, int),
)
    requires
        framed(region, frame),
        in_frame(frame, a),
        in_frame(frame, b),
        position_spec(region, a) == position_spec(region, b),
    ensures
        a == b,
{
    lemma_position_injective(region, a, b);
    lemma_normalize_bound(a.0, frame.0.0, frame.1.0, false);
    lemma_normalize_bound(a.1, frame.0.1, frame.1.1, false);
    lemma_normalize_bound(b.0, frame.0.0, frame.1.0, false);
    lemma_normalize_bound(b.1, frame.0.1, frame.1.1, false);
}

/// The path that joints describe from `start` on: the start, then the
/// target of each joint.
pub open spec fn joints_path(start: (isize, isize), joints: Seq<Joint>) -> Seq<(int, int)> {
    Seq::new(
        joints.len() + 1,
        |i: int|
            if i == 0 {
                as_pair(start)
            } else {
                joints[i - 1].target_spec()
            },
    )
}

/// A found route of cells of the frame as the coordinates of the cells,
/// where all its cells are cells of the frame.
pub open spec fn frame_report(frame: ((int, int), (int, int)), found: Option<(Seq<usize>, u128)>) -> Option<
    (Seq<(int, int)>, u128),
> {
    match found {
        Some(f) => if forall|i: int| 0 <= i < f.0.len() ==> #[trigger] f.0[i] < frame.1.0 * frame.1.1 {
            Some((f.0.map_values(|k: usize| frame_cell(frame, k as int)), f.1))
        } else {
            None
        },
        None => None,
    }
}

/// How far beyond its ends a search follows a path along a wrapping
/// axis, or `None` where that is more than the machine can count.
fn reach_of(extent: usize, other: usize) -> (r: Option<usize>)
    ensures
        r matches Some(m) ==> m == reach(extent as int, other as int),
        r is None ==> reach(extent as int, other as int) > usize::MAX,
{
    proof {
        lemma_reach(extent as int, other as int);
    }
    let most: u128 = usize::MAX as u128;
    assert(other * other <= most * most) by (nonlinear_arith)
        requires
            0 <= other <= most,
    ;
    assert(most * most <= u128::MAX) by (nonlinear_arith)
        requires
            most <= 0xffff_ffff_ffff_ffff,
    ;
    let square: u128 = other as u128 * other as u128;
    if extent == 0 {
        assert(extent * (other * other) == 0) by (nonlinear_arith)
            requires
                extent == 0,
        ;
        return Some(1);
    }
    if square >= most {
        assert(extent * (other * other) >= other * other) by (nonlinear_arith)
            requires
                extent >= 1,
                other * other >= 0,
        ;
        return None;
    }
    assert(extent * square <= most * most) by (nonlinear_arith)
        requires
            0 <= extent <= most,
            0 <= square <= most,
    ;
    let all: u128 = extent as u128 * square;
    if all >= most {
        None
    } else {
        Some((all + 1) as usize)
    }
}

/// The stretch of one axis that a search covers, as its lowest
/// coordinate and its length.
fn lane_of(origin: isize, extent: usize, cycle: bool, a: isize, b: isize, margin: usize) -> (r: (
    i128,
    u128,
))
    ensures
        (r.0 as int, r.1 as int) == lane(
            origin as int,
            extent as int,
            cycle,
            a as int,
            b as int,
            margin as int,
        ),
{
    if cycle {
        let low: i128 = if a <= b {
            a as i128
        } else {
            b as i128
        };
        let span: u128 = if a <= b {
            (b as i128 - a as i128) as u128
        } else {
            (a as i128 - b as i128) as u128
        };
        (low - margin as i128, span + 2 * (margin as u128) + 1)
    } else {
        (origin as i128, extent as u128)
    }
}

/// Turns a route of cells of `region` into the path of their
/// coordinates. A route with a cell that the region does not have gives
/// no path.
pub fn report<R>(region: &TaxicabMap<R>, found: Option<(Vec<usize>, u128)>) -> (r: Option<
    (Vec<(isize, isize)>, u128),
>)
    ensures
        path_view(r) == report_spec(*region, found_view(found)),
{
    let (w, h) = region.get_size();
    let (ox, oy) = region.get_origin();
    let n = region.count_points();
    proof {
        region.lemma_well_formed();
    }
    let ghost given = found_view(found);
    match found {
        None => None,
        Some((cells, total)) => {
            let mut out: Vec<(isize, isize)> = Vec::new();
            let mut k: usize = 0;
            while k < cells.len()
                invariant
                    k <= cells@.len(),
                    given == Some((cells@, total)),
                    given == found_view(found),
                    region.well_formed(),
                    (w, h) == region.size_spec(),
                    (ox, oy) == region.origin_spec(),
                    n == w * h,
                    out@.len() == k,
                    forall|m: int| 0 <= m < k ==> #[trigger] cells@[m] < n,
                    forall|m: int|
                        0 <= m < k ==> as_pair(#[trigger] out@[m]) == canonical(
                            *region,
                            cells@[m] as int,
                        ),
                decreases cells@.len() - k,
            {
                let cell = cells[k];
                if cell >= n {
                    assert(given.unwrap().0[k as int] >= region.size_spec().0
                        * region.size_spec().1);
                    assert(report_spec(*region, given) is None);
                    return None;
                }
                proof {
                    lemma_canonical(*region, cell as int);
                    assert(0 < h) by (nonlinear_arith)
                        requires
                            cell < w * h,
                    ;
                }
                let x = ((cell / h) as i128 + ox as i128) as isize;
                let y = ((cell % h) as i128 + oy as i128) as isize;
                out.push((x, y));
                k = k + 1;
            }
            proof {
                assert(as_ints(out@) =~= coordinates(*region, as_cells(cells@)));
            }
            Some((out, total))
        },
    }
}

} // verus!
