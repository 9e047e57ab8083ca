use crate::taxicab::direction::Direction;
use crate::taxicab::iters::position_spec;
use crate::taxicab::map::{lemma_cell_position, lemma_normalize_bound, TaxicabMap};
use crate::taxicab::paths::{enterable, path_cost, path_spec, price_at, step_spec, touching};
use crate::taxicab::ring::taxicab_distance;
use vstd::prelude::*;

verus! {

/// How far beyond its two ends a search follows a path along a wrapping
/// axis of `extent` cells, where the other axis has `other` cells.
pub open spec fn reach(extent: int, other: int) -> int {
    extent * other * other + 1
}

/// The stretch of one axis that a search covers, as its lowest coordinate
/// and its length. On a plain axis it is the window of the map. On a
/// wrapping axis it reaches from the lesser of the two ends `a` and `b`
/// to the greater, and `margin` coordinates further on either side.
pub open spec fn lane(origin: int, extent: int, cycle: bool, a: int, b: int, margin: int) -> (
    int,
    int,
) {
    if cycle {
        if a <= b {
            (a - margin, b - a + 2 * margin + 1)
        } else {
            (b - margin, a - b + 2 * margin + 1)
        }
    } else {
        (origin, extent)
    }
}

/// The frame of coordinates that a search from `a` to `b` covers: its
/// lowest corner and its extent.
pub open spec fn frame_spec<T>(map: TaxicabMap<T>, a: (int, int), b: (int, int)) -> (
    (int, int),
    (int, int),
) {
    let w = map.size_spec().0 as int;
    let h = map.size_spec().1 as int;
    let lx = lane(map.origin_spec().0 as int, w, map.cycle_spec().0, a.0, b.0, reach(w, h));
    let ly = lane(map.origin_spec().1 as int, h, map.cycle_spec().1, a.1, b.1, reach(h, w));
    ((lx.0, ly.0), (lx.1, ly.1))
}

/// The frame of a search from `a` to `b` that follows paths `margin`
/// coordinates beyond its ends along each wrapping axis.
pub open spec fn frame_within<T>(map: TaxicabMap<T>, a: (int, int), b: (int, int), margin: int) -> (
    (int, int),
    (int, int),
) {
    let w = map.size_spec().0 as int;
    let h = map.size_spec().1 as int;
    let lx = lane(map.origin_spec().0 as int, w, map.cycle_spec().0, a.0, b.0, margin);
    let ly = lane(map.origin_spec().1 as int, h, map.cycle_spec().1, a.1, b.1, margin);
    ((lx.0, ly.0), (lx.1, ly.1))
}

/// The least of the reaches of a search along the axes of the map that
/// wrap, or nothing where none does.
pub open spec fn least_reach<T>(map: TaxicabMap<T>) -> int {
    let w = map.size_spec().0 as int;
    let h = map.size_spec().1 as int;
    if map.cycle_spec().0 && map.cycle_spec().1 {
        if reach(w, h) <= reach(h, w) {
            reach(w, h)
        } else {
            reach(h, w)
        }
    } else if map.cycle_spec().0 {
        reach(w, h)
    } else if map.cycle_spec().1 {
        reach(h, w)
    } else {
        0
    }
}

/// Whether the coordinate `c` lies in the frame.
pub open spec fn in_frame(frame: ((int, int), (int, int)), c: (int, int)) -> bool {
    &&& 0 <= c.0 - frame.0.0 < frame.1.0
    &&& 0 <= c.1 - frame.0.1 < frame.1.1
}

/// Whether the coordinates of the frame fit the machine integers, and
/// its cells can be counted.
pub open spec fn frame_fits(frame: ((int, int), (int, int))) -> bool {
    &&& isize::MIN <= frame.0.0
    &&& frame.0.0 + frame.1.0 <= isize::MAX
    &&& isize::MIN <= frame.0.1
    &&& frame.0.1 + frame.1.1 <= isize::MAX
    &&& 0 <= frame.1.0
    &&& 0 <= frame.1.1
    &&& frame.1.0 * frame.1.1 <= usize::MAX
}

/// The coordinate of the `k`-th cell of the frame, counted along the
/// second axis first.
pub open spec fn frame_cell(frame: ((int, int), (int, int)), k: int) -> (int, int) {
    (k / frame.1.1 + frame.0.0, k % frame.1.1 + frame.0.1)
}

/// Whether the step of `path` at place `i` leads one grid step on, to a
/// coordinate of the frame whose cell may be entered.
pub open spec fn hop<T>(
    map: TaxicabMap<T>,
    passable: Seq<bool>,
    frame: ((int, int), (int, int)),
    path: Seq<(int, int)>,
    i: int,
) -> bool {
    &&& taxicab_distance(path[i], path[i + 1]) == 1
    &&& enterable(map, passable, path[i + 1])
    &&& in_frame(frame, path[i + 1])
}

/// Whether `path` leads from the coordinate `from` to the coordinate
/// `to` by single grid steps inside the frame, through cells that may be
/// entered. The start must belong to the map, and the end be open to
/// entry.
pub open spec fn track_spec<T>(
    map: TaxicabMap<T>,
    passable: Seq<bool>,
    frame: ((int, int), (int, int)),
    path: Seq<(int, int)>,
    from: (int, int),
    to: (int, int),
) -> bool {
    &&& path.len() >= 1
    &&& path[0] == from
    &&& path[path.len() - 1] == to
    &&& map.contains_spec(from.0, from.1)
    &&& enterable(map, passable, to)
    &&& forall|i: int| 0 <= i < path.len() - 1 ==> #[trigger] hop(map, passable, frame, path, i)
}

/// Whether the step of `path` at place `i` leads one grid step on, to a
/// coordinate whose cell may be entered.
pub open spec fn stride<T>(
    map: TaxicabMap<T>,
    passable: Seq<bool>,
    path: Seq<(int, int)>,
    i: int,
) -> bool {
    &&& taxicab_distance(path[i], path[i + 1]) == 1
    &&& enterable(map, passable, path[i + 1])
}

/// Whether `path` leads from the coordinate `from` to the coordinate
/// `to` by single grid steps, through cells that may be entered. The
/// start must belong to the map, and the end be open to entry.
pub open spec fn roam_spec<T>(
    map: TaxicabMap<T>,
    passable: Seq<bool>,
    path: Seq<(int, int)>,
    from: (int, int),
    to: (int, int),
) -> bool {
    &&& path.len() >= 1
    &&& path[0] == from
    &&& path[path.len() - 1] == to
    &&& map.contains_spec(from.0, from.1)
    &&& enterable(map, passable, to)
    &&& forall|i: int| 0 <= i < path.len() - 1 ==> #[trigger] stride(map, passable, path, i)
}

/// A path inside a frame is a path.
pub proof fn lemma_track_roams<T>(
    map: TaxicabMap<T>,
    passable: Seq<bool>,
    frame: ((int, int), (int, int)),
    path: Seq<(int, int)>,
    from: (int, int),
    to: (int, int),
)
    requires
        track_spec(map, passable, frame, path, from, to),
    ensures
        roam_spec(map, passable, path, from, to),
{
    assert forall|i: int| 0 <= i < path.len() - 1 implies #[trigger] stride(
        map,
        passable,
        path,
        i,
    ) by {
        assert(hop(map, passable, frame, path, i));
    }
}

/// For each cell of the frame, whether the cell of the map that its
/// coordinate names may be entered.
pub open spec fn unrolled_passable<T>(
    map: TaxicabMap<T>,
    passable: Seq<bool>,
    frame: ((int, int), (int, int)),
) -> Seq<bool> {
    Seq::new(
        (frame.1.0 * frame.1.1) as nat,
        |k: int| enterable(map, passable, frame_cell(frame, k)),
    )
}

/// For each cell of the frame, the cost of entering the cell of the map
/// that its coordinate names.
pub open spec fn unrolled_cost<T>(
    map: TaxicabMap<T>,
    cost: Seq<u64>,
    frame: ((int, int), (int, int)),
) -> Seq<u64> {
    Seq::new(
        (frame.1.0 * frame.1.1) as nat,
        |k: int| price_at(map, cost, frame_cell(frame, k)) as u64,
    )
}

/// Whether `region` is a map without wraparound over the frame.
pub open spec fn framed<R>(region: TaxicabMap<R>, frame: ((int, int), (int, int))) -> bool {
    &&& region.well_formed()
    &&& region.origin_spec().0 == frame.0.0
    &&& region.origin_spec().1 == frame.0.1
    &&& region.size_spec().0 == frame.1.0
    &&& region.size_spec().1 == frame.1.1
    &&& region.cycle_spec() == (false, false)
}

/// The reach of a search is at least one coordinate.
pub proof fn lemma_reach(extent: int, other: int)
    requires
        0 <= extent,
    ensures
        reach(extent, other) >= 1,
        reach(extent, other) == extent * (other * other) + 1,
{
    assert(extent * other * other == extent * (other * other)) by (nonlinear_arith);
    assert(extent * (other * other) >= 0) by (nonlinear_arith)
        requires
            0 <= extent,
    ;
}

/// A frame of a lesser margin than the reach holds both ends of the
/// search, lies inside the frame of the search, and fits the machine
/// where that does.
pub proof fn lemma_frame_within<T>(map: TaxicabMap<T>, a: (int, int), b: (int, int), margin: int)
    requires
        map.contains_spec(a.0, a.1),
        map.contains_spec(b.0, b.1),
        0 <= margin <= least_reach(map),
    ensures
        in_frame(frame_within(map, a, b, margin), a),
        in_frame(frame_within(map, a, b, margin), b),
        forall|c: (int, int)|
            in_frame(frame_within(map, a, b, margin), c) ==> #[trigger] in_frame(
                frame_spec(map, a, b),
                c,
            ),
        frame_fits(frame_spec(map, a, b)) ==> frame_fits(frame_within(map, a, b, margin)),
{
    lemma_reach(map.size_spec().0 as int, map.size_spec().1 as int);
    lemma_reach(map.size_spec().1 as int, map.size_spec().0 as int);
    lemma_frame_holds(map, a, b, a);
    map.lemma_window(a.0, a.1);
    map.lemma_window(b.0, b.1);
    lemma_normalize_bound(
        a.0,
        map.origin_spec().0 as int,
        map.size_spec().0 as int,
        map.cycle_spec().0,
    );
    lemma_normalize_bound(
        a.1,
        map.origin_spec().1 as int,
        map.size_spec().1 as int,
        map.cycle_spec().1,
    );
    lemma_normalize_bound(
        b.0,
        map.origin_spec().0 as int,
        map.size_spec().0 as int,
        map.cycle_spec().0,
    );
    lemma_normalize_bound(
        b.1,
        map.origin_spec().1 as int,
        map.size_spec().1 as int,
        map.cycle_spec().1,
    );
    let small = frame_within(map, a, b, margin);
    let large = frame_spec(map, a, b);
    if frame_fits(large) {
        assert(small.1.0 * small.1.1 <= large.1.0 * large.1.1) by (nonlinear_arith)
            requires
                0 <= small.1.0 <= large.1.0,
                0 <= small.1.1 <= large.1.1,
        ;
    }
}

/// Both ends of a search lie in its frame, and on a map without
/// wraparound so does every coordinate of the map.
pub proof fn lemma_frame_holds<T>(map: TaxicabMap<T>, a: (int, int), b: (int, int), c: (int, int))
    requires
        map.contains_spec(a.0, a.1),
        map.contains_spec(b.0, b.1),
    ensures
        in_frame(frame_spec(map, a, b), a),
        in_frame(frame_spec(map, a, b), b),
        map.cycle_spec() == (false, false) && map.contains_spec(c.0, c.1) ==> in_frame(
            frame_spec(map, a, b),
            c,
        ),
{
    lemma_reach(map.size_spec().0 as int, map.size_spec().1 as int);
    lemma_reach(map.size_spec().1 as int, map.size_spec().0 as int);
    map.lemma_window(a.0, a.1);
    map.lemma_window(b.0, b.1);
    map.lemma_window(c.0, c.1);
    lemma_normalize_bound(
        a.0,
        map.origin_spec().0 as int,
        map.size_spec().0 as int,
        map.cycle_spec().0,
    );
    lemma_normalize_bound(
        a.1,
        map.origin_spec().1 as int,
        map.size_spec().1 as int,
        map.cycle_spec().1,
    );
    lemma_normalize_bound(
        b.0,
        map.origin_spec().0 as int,
        map.size_spec().0 as int,
        map.cycle_spec().0,
    );
    lemma_normalize_bound(
        b.1,
        map.origin_spec().1 as int,
        map.size_spec().1 as int,
        map.cycle_spec().1,
    );
}

/// What the unrolled tables say of a coordinate of the frame: the region
/// holds it at the place that gives the coordinate back, and the tables
/// of the region say of it what the tables of the map say of its cell.
pub proof fn lemma_unrolled<T, R>(
    map: TaxicabMap<T>,
    passable: Seq<bool>,
    cost: Seq<u64>,
    region: TaxicabMap<R>,
    frame: ((int, int), (int, int)),
    c: (int, int),
)
    requires
        framed(region, frame),
        in_frame(frame, c),
    ensures
        region.contains_spec(c.0, c.1),
        position_spec(region, c) matches Some(k) && 0 <= k < frame.1.0 * frame.1.1 && frame_cell(
            frame,
            k,
        ) == c,
        enterable(region, unrolled_passable(map, passable, frame), c) == enterable(
            map,
            passable,
            c,
        ),
        price_at(region, unrolled_cost(map, cost, frame), c) == price_at(map, cost, c),
{
    lemma_normalize_bound(c.0, frame.0.0, frame.1.0, false);
    lemma_normalize_bound(c.1, frame.0.1, frame.1.1, false);
    lemma_cell_position(c.0 - frame.0.0, c.1 - frame.0.1, frame.1.0, frame.1.1);
}

/// In a region without wraparound two coordinates touch exactly when
/// they are one grid step apart.
pub proof fn lemma_region_touching<R>(
    region: TaxicabMap<R>,
    frame: ((int, int), (int, int)),
    a: (int, int),
    b: (int, int),
)
    requires
        framed(region, frame),
        in_frame(frame, a),
        in_frame(frame, b),
    ensures
        touching(region, a, b) <==> taxicab_distance(a, b) == 1,
{
    lemma_normalize_bound(a.0, frame.0.0, frame.1.0, false);
    lemma_normalize_bound(a.1, frame.0.1, frame.1.1, false);
    lemma_normalize_bound(b.0, frame.0.0, frame.1.0, false);
    lemma_normalize_bound(b.1, frame.0.1, frame.1.1, false);
    if touching(region, a, b) {
        let d = choose|d: Direction|
            #[trigger] region.offsets_of(a.0 + d.dx(), a.1 + d.dy()) == region.offsets_of(b.0, b.1);
        lemma_normalize_bound(a.0 + d.dx(), frame.0.0, frame.1.0, false);
        lemma_normalize_bound(a.1 + d.dy(), frame.0.1, frame.1.1, false);
    }
    if taxicab_distance(a, b) == 1 {
        let d = if b.0 == a.0 + 1 {
            Direction::X(true)
        } else if b.0 == a.0 - 1 {
            Direction::X(false)
        } else if b.1 == a.1 + 1 {
            Direction::Y(true)
        } else {
            Direction::Y(false)
        };
        assert(region.offsets_of(a.0 + d.dx(), a.1 + d.dy()) == region.offsets_of(b.0, b.1));
    }
}

/// A track of the map is a path of the region over its frame, at the
/// same cost.
pub proof fn lemma_track_to_path<T, R>(
    map: TaxicabMap<T>,
    passable: Seq<bool>,
    cost: Seq<u64>,
    region: TaxicabMap<R>,
    frame: ((int, int), (int, int)),
    path: Seq<(int, int)>,
)
    requires
        framed(region, frame),
        path.len() >= 1,
        in_frame(frame, path[0]),
        forall|i: int| 0 <= i < path.len() - 1 ==> #[trigger] hop(map, passable, frame, path, i),
    ensures
        path_spec(region, unrolled_passable(map, passable, frame), path),
        path_cost(region, unrolled_cost(map, cost, frame), path) == path_cost(map, cost, path),
        forall|i: int| 0 <= i < path.len() ==> in_frame(frame, #[trigger] path[i]),
    decreases path.len(),
{
    assert forall|i: int| 0 <= i < path.len() implies in_frame(frame, #[trigger] path[i]) by {
        if i > 0 {
            assert(hop(map, passable, frame, path, i - 1));
        }
    }
    lemma_unrolled(map, passable, cost, region, frame, path[0]);
    assert forall|i: int| 0 <= i < path.len() - 1 implies #[trigger] step_spec(
        region,
        unrolled_passable(map, passable, frame),
        path,
        i,
    ) by {
        assert(hop(map, passable, frame, path, i));
        lemma_region_touching(region, frame, path[i], path[i + 1]);
        lemma_unrolled(map, passable, cost, region, frame, path[i + 1]);
    }
    if path.len() > 1 {
        let shorter = path.drop_last();
        assert forall|i: int| 0 <= i < shorter.len() - 1 implies #[trigger] hop(
            map,
            passable,
            frame,
            shorter,
            i,
        ) by {
            assert(hop(map, passable, frame, path, i));
        }
        lemma_track_to_path(map, passable, cost, region, frame, shorter);
        lemma_unrolled(map, passable, cost, region, frame, path[path.len() - 1]);
    }
}

/// A path of the region over the frame moves by hops of the map, at the
/// same cost.
pub proof fn lemma_path_to_track<T, R>(
    map: TaxicabMap<T>,
    passable: Seq<bool>,
    cost: Seq<u64>,
    region: TaxicabMap<R>,
    frame: ((int, int), (int, int)),
    path: Seq<(int, int)>,
)
    requires
        framed(region, frame),
        path_spec(region, unrolled_passable(map, passable, frame), path),
    ensures
        forall|i: int| 0 <= i < path.len() - 1 ==> #[trigger] hop(map, passable, frame, path, i),
        forall|i: int| 0 <= i < path.len() ==> in_frame(frame, #[trigger] path[i]),
        path_cost(region, unrolled_cost(map, cost, frame), path) == path_cost(map, cost, path),
    decreases path.len(),
{
    let up = unrolled_passable(map, passable, frame);
    region.lemma_window(path[0].0, path[0].1);
    assert forall|i: int| 0 <= i < path.len() implies in_frame(frame, #[trigger] path[i]) by {
        if i > 0 {
            assert(step_spec(region, up, path, i - 1));
            region.lemma_window(path[i].0, path[i].1);
        }
    }
    assert forall|i: int| 0 <= i < path.len() - 1 implies #[trigger] hop(
        map,
        passable,
        frame,
        path,
        i,
    ) by {
        assert(step_spec(region, up, path, i));
        lemma_region_touching(region, frame, path[i], path[i + 1]);
        lemma_unrolled(map, passable, cost, region, frame, path[i + 1]);
    }
    if path.len() > 1 {
        let shorter = path.drop_last();
        assert forall|i: int| 0 <= i < shorter.len() - 1 implies #[trigger] step_spec(
            region,
            up,
            shorter,
            i,
        ) by {
            assert(step_spec(region, up, path, i));
        }
        lemma_path_to_track(map, passable, cost, region, frame, shorter);
        lemma_unrolled(map, passable, cost, region, frame, path[path.len() - 1]);
    }
}

/// The tables of the map, unrolled over the cells of `region`.
pub fn unroll<T, R>(
    map: &TaxicabMap<T>,
    passable: &Vec<bool>,
    cost: &Vec<u64>,
    region: &TaxicabMap<R>,
    Ghost(frame): Ghost<((int, int), (int, int))>,
) -> (r: (Vec<bool>, Vec<u64>))
    requires
        framed(*region, frame),
        passable@.len() == map.size_spec().0 * map.size_spec().1,
        cost@.len() == map.size_spec().0 * map.size_spec().1,
    ensures
        r.0@ == unrolled_passable(*map, passable@, frame),
        r.1@ == unrolled_cost(*map, cost@, frame),
{
    let (w, h) = region.get_size();
    let (ox, oy) = region.get_origin();
    let _ = map.get_size();
    proof {
        region.lemma_well_formed();
        map.lemma_well_formed();
    }
    let ghost want_open = unrolled_passable(*map, passable@, frame);
    let ghost want_cost = unrolled_cost(*map, cost@, frame);
    let mut open: Vec<bool> = Vec::new();
    let mut price: Vec<u64> = Vec::new();
    let mut i: usize = 0;
    while i < w
        invariant
            i <= w,
            framed(*region, frame),
            (w, h) == region.size_spec(),
            (ox, oy) == region.origin_spec(),
            ox + w <= isize::MAX,
            oy + h <= isize::MAX,
            passable@.len() == map.size_spec().0 * map.size_spec().1,
            cost@.len() == map.size_spec().0 * map.size_spec().1,
            map.cells_spec().len() == map.size_spec().0 * map.size_spec().1,
            want_open == unrolled_passable(*map, passable@, frame),
            want_cost == unrolled_cost(*map, cost@, frame),
            open@.len() == i * h,
            price@.len() == i * h,
            i * h <= w * h,
            forall|k: int| 0 <= k < open@.len() ==> #[trigger] open@[k] == want_open[k],
            forall|k: int| 0 <= k < price@.len() ==> #[trigger] price@[k] == want_cost[k],
        decreases w - i,
    {
        let mut j: usize = 0;
        while j < h
            invariant
                i < w,
                j <= h,
                framed(*region, frame),
                (w, h) == region.size_spec(),
                (ox, oy) == region.origin_spec(),
                ox + w <= isize::MAX,
                oy + h <= isize::MAX,
                passable@.len() == map.size_spec().0 * map.size_spec().1,
                cost@.len() == map.size_spec().0 * map.size_spec().1,
                map.cells_spec().len() == map.size_spec().0 * map.size_spec().1,
                want_open == unrolled_passable(*map, passable@, frame),
                want_cost == unrolled_cost(*map, cost@, frame),
                open@.len() == i * h + j,
                price@.len() == i * h + j,
                forall|k: int| 0 <= k < open@.len() ==> #[trigger] open@[k] == want_open[k],
                forall|k: int| 0 <= k < price@.len() ==> #[trigger] price@[k] == want_cost[k],
            decreases h - j,
        {
            let x = (i as i128 + ox as i128) as isize;
            let y = (j as i128 + oy as i128) as isize;
            proof {
                lemma_cell_position(i as int, j as int, w as int, h as int);
                assert(frame_cell(frame, i * h + j) == (x as int, y as int));
            }
            match map.position(x, y) {
                Some(k) => {
                    open.push(passable[k]);
                    price.push(cost[k]);
                },
                None => {
                    open.push(false);
                    price.push(0);
                },
            }
            j = j + 1;
        }
        proof {
            assert((i + 1) * h == i * h + h) by (nonlinear_arith);
            assert((i + 1) * h <= w * h) by (nonlinear_arith)
                requires
                    i + 1 <= w,
                    0 <= h,
            ;
        }
        i = i + 1;
    }
    assert(open@ =~= want_open);
    assert(price@ =~= want_cost);
    (open, price)
}

} // verus!
