use crate::taxicab::iters::position_spec;
use crate::taxicab::map::{lemma_cell_position, lemma_normalize_bound, TaxicabMap};
use crate::taxicab::paths::{enterable, lemma_position, path_cost, price_at};
use crate::taxicab::ring::taxicab_distance;
use crate::taxicab::tracks::{
    frame_spec, frame_within, hop, lemma_frame_holds, lemma_reach, reach, roam_spec, stride,
    track_spec,
};
use vstd::prelude::*;

verus! {

/// The coordinate of `c` on the second axis where `axis` is set, else on
/// the first.
pub open spec fn along(c: (int, int), axis: bool) -> int {
    if axis {
        c.1
    } else {
        c.0
    }
}

/// The coordinate `c` moved by `d` along the axis.
pub open spec fn slide(c: (int, int), axis: bool, d: int) -> (int, int) {
    if axis {
        (c.0, c.1 + d)
    } else {
        (c.0 + d, c.1)
    }
}

/// How high `c` stands on the axis: its coordinate there, or the
/// negative of it where `up` is not set.
pub open spec fn height(c: (int, int), axis: bool, up: bool) -> int {
    if up {
        along(c, axis)
    } else {
        -along(c, axis)
    }
}

/// The extent of the map along the axis.
pub open spec fn extent<T>(map: TaxicabMap<T>, axis: bool) -> int {
    if axis {
        map.size_spec().1 as int
    } else {
        map.size_spec().0 as int
    }
}

/// The first coordinate of the window of the map on the axis.
pub open spec fn base<T>(map: TaxicabMap<T>, axis: bool) -> int {
    if axis {
        map.origin_spec().1 as int
    } else {
        map.origin_spec().0 as int
    }
}

/// Whether the map wraps around along the axis.
pub open spec fn wraps<T>(map: TaxicabMap<T>, axis: bool) -> bool {
    if axis {
        map.cycle_spec().1
    } else {
        map.cycle_spec().0
    }
}

/// Two coordinates that differ by a multiple of the extent along a
/// wrapping axis name the same cell.
pub proof fn lemma_lifts<T>(map: TaxicabMap<T>, c: (int, int), d: (int, int), axis: bool)
    requires
        wraps(map, axis),
        along(c, !axis) == along(d, !axis),
        extent(map, axis) > 0,
        (along(c, axis) - along(d, axis)) % extent(map, axis) == 0,
    ensures
        position_spec(map, c) == position_spec(map, d),
{
    let m = extent(map, axis);
    let o = base(map, axis);
    let x = along(c, axis);
    let y = along(d, axis);
    assert((x - o) - (y - o) == x - y);
    vstd::arithmetic::div_mod::lemma_mod_equivalence(x - o, y - o, m);
}

/// Among more numbers than there are values for them, two are the same.
pub proof fn lemma_pigeonhole(f: spec_fn(int) -> int, n: int, k: int) -> (r: (int, int))
    requires
        0 <= k < n,
        forall|i: int| 0 <= i < n ==> 0 <= #[trigger] f(i) < k,
    ensures
        0 <= r.0 < r.1 < n,
        f(r.0) == f(r.1),
    decreases n,
{
    assert(0 <= f(0) < k);
    let c = f(n - 1);
    if exists|i: int| 0 <= i < n - 1 && #[trigger] f(i) == c {
        let i = choose|i: int| 0 <= i < n - 1 && #[trigger] f(i) == c;
        (i, n - 1)
    } else {
        let g = |i: int|
            if f(i) < c {
                f(i)
            } else {
                f(i) - 1
            };
        assert forall|i: int| 0 <= i < n - 1 implies 0 <= #[trigger] g(i) < k - 1 by {
            assert(0 <= f(i) < k);
            assert(f(i) != c);
        }
        let r = lemma_pigeonhole(g, n - 1, k - 1);
        assert(f(r.0) != c && f(r.1) != c);
        r
    }
}

/// Whether the numbers at places `i` and `i + 1` differ by one at most.
pub open spec fn near(xs: Seq<int>, i: int) -> bool {
    -1 <= xs[i + 1] - xs[i] <= 1
}

/// Whether each number differs from the next by one at most.
pub open spec fn gentle(xs: Seq<int>) -> bool {
    forall|i: int| 0 <= i < xs.len() - 1 ==> #[trigger] near(xs, i)
}

/// Whether `i` is the last place up to `t` where the numbers are at
/// `level`, with all the later ones up to `t` above it.
pub open spec fn leaves_at(xs: Seq<int>, t: int, level: int, i: int) -> bool {
    &&& 0 <= i <= t
    &&& xs[i] == level
    &&& forall|k: int| i < k <= t ==> #[trigger] xs[k] > level
}

/// Whether `i` is the first place from `t` on where the numbers are at
/// `level`, with all the earlier ones from `t` on above it.
pub open spec fn returns_at(xs: Seq<int>, t: int, level: int, i: int) -> bool {
    &&& t <= i < xs.len()
    &&& xs[i] == level
    &&& forall|k: int| t <= k < i ==> #[trigger] xs[k] > level
}

/// The last place up to `t` where the numbers are at `level`.
pub open spec fn last_at(xs: Seq<int>, t: int, level: int) -> int {
    choose|i: int| leaves_at(xs, t, level, i)
}

/// The first place from `t` on where the numbers are at `level`.
pub open spec fn first_at(xs: Seq<int>, t: int, level: int) -> int {
    choose|i: int| returns_at(xs, t, level, i)
}

/// Numbers that start at or below a level and reach it or more at `t`
/// are at the level somewhere up to `t`.
pub proof fn lemma_last_at(xs: Seq<int>, t: int, level: int)
    requires
        gentle(xs),
        0 <= t < xs.len(),
        xs[0] <= level <= xs[t],
    ensures
        leaves_at(xs, t, level, last_at(xs, t, level)),
    decreases t,
{
    if xs[t] == level {
        assert(leaves_at(xs, t, level, t));
    } else {
        assert(near(xs, t - 1));
        lemma_last_at(xs, t - 1, level);
        let i = last_at(xs, t - 1, level);
        assert(leaves_at(xs, t, level, i));
    }
}

/// Numbers that are at a level or above it at `t` and end at or below it
/// are at the level somewhere from `t` on.
pub proof fn lemma_first_at(xs: Seq<int>, t: int, level: int)
    requires
        gentle(xs),
        0 <= t < xs.len(),
        xs[xs.len() - 1] <= level <= xs[t],
    ensures
        returns_at(xs, t, level, first_at(xs, t, level)),
    decreases xs.len() - t,
{
    if xs[t] == level {
        assert(returns_at(xs, t, level, t));
    } else {
        assert(near(xs, t));
        lemma_first_at(xs, t + 1, level);
        let i = first_at(xs, t + 1, level);
        assert(returns_at(xs, t, level, i));
    }
}

/// The cost of the first `k` steps of a path.
pub open spec fn spent<T>(map: TaxicabMap<T>, cost: Seq<u64>, path: Seq<(int, int)>, k: int) -> nat {
    path_cost(map, cost, path.take(k + 1))
}

/// Each step of a path adds the cost of the cell it enters.
pub proof fn lemma_spent<T>(map: TaxicabMap<T>, cost: Seq<u64>, path: Seq<(int, int)>, k: int)
    requires
        0 <= k < path.len(),
    ensures
        k == 0 ==> spent(map, cost, path, k) == 0,
        k > 0 ==> spent(map, cost, path, k) == spent(map, cost, path, k - 1) + price_at(
            map,
            cost,
            path[k],
        ),
        k == path.len() - 1 ==> spent(map, cost, path, k) == path_cost(map, cost, path),
{
    if k > 0 {
        assert(path.take(k + 1).drop_last() =~= path.take(k));
    }
    if k == path.len() - 1 {
        assert(path.take(k + 1) =~= path);
    }
}

/// More steps of a path cost no less.
pub proof fn lemma_spent_grows<T>(
    map: TaxicabMap<T>,
    cost: Seq<u64>,
    path: Seq<(int, int)>,
    j: int,
    k: int,
)
    requires
        0 <= j <= k < path.len(),
    ensures
        spent(map, cost, path, j) <= spent(map, cost, path, k),
    decreases k - j,
{
    if j < k {
        lemma_spent(map, cost, path, k);
        lemma_spent_grows(map, cost, path, j, k - 1);
    }
}

/// A path whose steps are some of the steps of another, in their order
/// and at their cost, costs no more than the other.
pub proof fn lemma_selection<T>(
    map: TaxicabMap<T>,
    cost: Seq<u64>,
    path: Seq<(int, int)>,
    part: Seq<(int, int)>,
    pick: spec_fn(int) -> int,
    k: int,
)
    requires
        0 <= k < part.len(),
        forall|n: int| 0 <= n < part.len() ==> 0 <= #[trigger] pick(n) < path.len(),
        forall|m: int, n: int| 0 <= m < n < part.len() ==> #[trigger] pick(m) < #[trigger] pick(n),
        forall|n: int|
            1 <= n < part.len() ==> price_at(map, cost, #[trigger] part[n]) == price_at(
                map,
                cost,
                path[pick(n)],
            ),
    ensures
        spent(map, cost, part, k) <= spent(map, cost, path, pick(k)),
    decreases k,
{
    lemma_spent(map, cost, part, k);
    if k > 0 {
        lemma_selection(map, cost, path, part, pick, k - 1);
        assert(pick(k - 1) < pick(k));
        assert(0 <= pick(k - 1));
        lemma_spent(map, cost, path, pick(k));
        lemma_spent_grows(map, cost, path, pick(k - 1), pick(k) - 1);
        assert(price_at(map, cost, part[k]) == price_at(map, cost, path[pick(k)]));
    }
}

/// A coordinate of the map lies in the window along an axis that does not
/// wrap, and the map has cells along both axes.
pub proof fn lemma_plain_axis<T>(map: TaxicabMap<T>, c: (int, int), axis: bool)
    requires
        map.contains_spec(c.0, c.1),
        !wraps(map, axis),
    ensures
        0 <= along(c, axis) - base(map, axis) < extent(map, axis),
        extent(map, !axis) > 0,
{
    lemma_normalize_bound(c.0, map.origin_spec().0 as int, map.size_spec().0 as int, map.cycle_spec().0);
    lemma_normalize_bound(c.1, map.origin_spec().1 as int, map.size_spec().1 as int, map.cycle_spec().1);
}

/// How high the coordinates of a path stand, one after another.
pub open spec fn heights(path: Seq<(int, int)>, axis: bool, up: bool) -> Seq<int> {
    Seq::new(path.len(), |n: int| height(path[n], axis, up))
}

/// What tells the crossings of one level apart from those of another:
/// where the level lies in the extent of the axis, and where on the
/// other axis the path leaves the level for the last time before `t`
/// and comes back to it for the first time after.
pub open spec fn level_key<T>(
    map: TaxicabMap<T>,
    path: Seq<(int, int)>,
    axis: bool,
    up: bool,
    t: int,
    level: int,
) -> int {
    let xs = heights(path, axis, up);
    let a = last_at(xs, t, level);
    let b = first_at(xs, t, level);
    ((level % extent(map, axis)) * extent(map, !axis) + (along(path[a], !axis) - base(
        map,
        !axis,
    ))) * extent(map, !axis) + (along(path[b], !axis) - base(map, !axis))
}

/// A path moves gently along each axis.
pub proof fn lemma_gentle<T>(
    map: TaxicabMap<T>,
    passable: Seq<bool>,
    path: Seq<(int, int)>,
    from: (int, int),
    to: (int, int),
    axis: bool,
    up: bool,
)
    requires
        roam_spec(map, passable, path, from, to),
    ensures
        gentle(heights(path, axis, up)),
        heights(path, axis, up).len() == path.len(),
        forall|n: int|
            1 <= n < path.len() ==> enterable(map, passable, #[trigger] path[n])
                && map.contains_spec(path[n].0, path[n].1),
{
    let xs = heights(path, axis, up);
    assert forall|i: int| 0 <= i < xs.len() - 1 implies #[trigger] near(xs, i) by {
        assert(stride(map, passable, path, i));
    }
    assert forall|n: int| 1 <= n < path.len() implies enterable(map, passable, #[trigger] path[n])
        && map.contains_spec(path[n].0, path[n].1) by {
        assert(stride(map, passable, path, n - 1));
    }
}

/// Of a level between the ends of a path and its height at `t`: the path
/// leaves it before `t` and comes back to it after, and the key of its
/// crossings is one of as many as the reach of a search counts.
pub proof fn lemma_level<T>(
    map: TaxicabMap<T>,
    passable: Seq<bool>,
    path: Seq<(int, int)>,
    from: (int, int),
    to: (int, int),
    axis: bool,
    up: bool,
    t: int,
    level: int,
)
    requires
        roam_spec(map, passable, path, from, to),
        !wraps(map, !axis),
        0 <= t < path.len(),
        height(from, axis, up) < level,
        height(to, axis, up) < level,
        level < height(path[t], axis, up),
    ensures
        leaves_at(heights(path, axis, up), t, level, last_at(heights(path, axis, up), t, level)),
        returns_at(heights(path, axis, up), t, level, first_at(heights(path, axis, up), t, level)),
        1 <= last_at(heights(path, axis, up), t, level),
        0 <= level_key(map, path, axis, up, t, level) < reach(
            extent(map, axis),
            extent(map, !axis),
        ) - 1,
        extent(map, axis) > 0,
        extent(map, !axis) > 0,
        level_key(map, path, axis, up, t, level) % extent(map, !axis) == along(
            path[first_at(heights(path, axis, up), t, level)],
            !axis,
        ) - base(map, !axis),
        (level_key(map, path, axis, up, t, level) / extent(map, !axis)) % extent(map, !axis)
            == along(path[last_at(heights(path, axis, up), t, level)], !axis) - base(map, !axis),
        (level_key(map, path, axis, up, t, level) / extent(map, !axis)) / extent(map, !axis)
            == level % extent(map, axis),
{
    let xs = heights(path, axis, up);
    lemma_gentle(map, passable, path, from, to, axis, up);
    lemma_last_at(xs, t, level);
    lemma_first_at(xs, t, level);
    let a = last_at(xs, t, level);
    let b = first_at(xs, t, level);
    assert(xs[0] == height(from, axis, up));
    assert(a >= 1);
    assert(b >= 1);
    lemma_plain_axis(map, path[a], !axis);
    lemma_plain_axis(map, path[b], !axis);
    lemma_plain_axis(map, from, !axis);
    let ext = extent(map, axis);
    let oth = extent(map, !axis);
    vstd::arithmetic::div_mod::lemma_mod_bound(level, ext);
    let r = level % ext;
    let ac = along(path[a], !axis) - base(map, !axis);
    let bc = along(path[b], !axis) - base(map, !axis);
    lemma_cell_position(r, ac, ext, oth);
    lemma_cell_position(r * oth + ac, bc, ext * oth, oth);
}

/// The path `path` without its steps from place `a1` to `a2` and from
/// `b2` to `b1`, with what lies between them moved by `d` along the
/// axis.
pub open spec fn spliced(
    path: Seq<(int, int)>,
    axis: bool,
    d: int,
    a1: int,
    a2: int,
    b2: int,
    b1: int,
) -> Seq<(int, int)> {
    Seq::new(
        (path.len() - (a2 - a1) - (b1 - b2)) as nat,
        |n: int|
            if n <= a1 {
                path[n]
            } else if n <= a1 + (b2 - a2) {
                slide(path[n + (a2 - a1)], axis, d)
            } else {
                path[n + (a2 - a1) + (b1 - b2)]
            },
    )
}

/// The place in `path` of the coordinate at place `n` of the spliced
/// path.
pub open spec fn spliced_from(n: int, a1: int, a2: int, b2: int, b1: int) -> int {
    if n <= a1 {
        n
    } else if n <= a1 + (b2 - a2) {
        n + (a2 - a1)
    } else {
        n + (a2 - a1) + (b1 - b2)
    }
}

/// A path that leaves a level twice as it climbs and comes back to it
/// twice at the same cells can do without the climb between them.
pub proof fn lemma_splice<T>(
    map: TaxicabMap<T>,
    passable: Seq<bool>,
    cost: Seq<u64>,
    path: Seq<(int, int)>,
    from: (int, int),
    to: (int, int),
    axis: bool,
    d: int,
    a1: int,
    a2: int,
    b2: int,
    b1: int,
)
    requires
        roam_spec(map, passable, path, from, to),
        wraps(map, axis),
        extent(map, axis) > 0,
        d % extent(map, axis) == 0,
        0 <= a1 < a2 <= b2 < b1 < path.len(),
        path[a1] == slide(path[a2], axis, d),
        path[b1] == slide(path[b2], axis, d),
    ensures
        roam_spec(map, passable, spliced(path, axis, d, a1, a2, b2, b1), from, to),
        spliced(path, axis, d, a1, a2, b2, b1).len() < path.len(),
        path_cost(map, cost, spliced(path, axis, d, a1, a2, b2, b1)) <= path_cost(map, cost, path),
{
    let part = spliced(path, axis, d, a1, a2, b2, b1);
    let g = a2 - a1;
    let c = a1 + (b2 - a2);
    let pick = |n: int| spliced_from(n, a1, a2, b2, b1);
    assert forall|n: int| a1 <= n <= c implies #[trigger] part[n] == slide(
        path[n + g],
        axis,
        d,
    ) by {}
    assert forall|n: int| c <= n < part.len() implies #[trigger] part[n] == path[n + g + (b1
        - b2)] by {}
    assert forall|n: int| 0 <= n < path.len() implies position_spec(
        map,
        slide(#[trigger] path[n], axis, d),
    ) == position_spec(map, path[n]) by {
        lemma_lifts(map, slide(path[n], axis, d), path[n], axis);
    }
    assert forall|n: int| 0 <= n < part.len() - 1 implies #[trigger] stride(
        map,
        passable,
        part,
        n,
    ) by {
        if n < a1 {
            assert(stride(map, passable, path, n));
        } else if n < c {
            assert(stride(map, passable, path, n + g));
            assert(part[n] == slide(path[n + g], axis, d));
            assert(part[n + 1] == slide(path[n + g + 1], axis, d));
        } else {
            assert(stride(map, passable, path, n + g + (b1 - b2)));
            assert(part[n] == path[n + g + (b1 - b2)]);
            assert(part[n + 1] == path[n + 1 + g + (b1 - b2)]);
        }
    }
    assert(part[0] == path[0]);
    assert(part[part.len() - 1] == path[path.len() - 1]);
    assert forall|n: int| 1 <= n < part.len() implies price_at(map, cost, #[trigger] part[n])
        == price_at(map, cost, path[pick(n)]) by {
        if a1 < n <= c {
            assert(part[n] == slide(path[n + g], axis, d));
        }
    }
    lemma_selection(map, cost, path, part, pick, part.len() - 1);
    lemma_spent(map, cost, part, part.len() - 1);
    lemma_spent_grows(map, cost, path, pick(part.len() - 1), path.len() - 1);
    lemma_spent(map, cost, path, path.len() - 1);
}

/// A path that climbs above both its ends by more than the reach of a
/// search along a wrapping axis, on a map whose other axis does not
/// wrap, can give way to a shorter one that costs no more.
pub proof fn lemma_cut<T>(
    map: TaxicabMap<T>,
    passable: Seq<bool>,
    cost: Seq<u64>,
    path: Seq<(int, int)>,
    from: (int, int),
    to: (int, int),
    axis: bool,
    up: bool,
    t: int,
) -> (shorter: Seq<(int, int)>)
    requires
        roam_spec(map, passable, path, from, to),
        wraps(map, axis),
        !wraps(map, !axis),
        0 <= t < path.len(),
        height(path[t], axis, up) > height(from, axis, up) + reach(
            extent(map, axis),
            extent(map, !axis),
        ),
        height(path[t], axis, up) > height(to, axis, up) + reach(
            extent(map, axis),
            extent(map, !axis),
        ),
    ensures
        roam_spec(map, passable, shorter, from, to),
        shorter.len() < path.len(),
        path_cost(map, cost, shorter) <= path_cost(map, cost, path),
{
    let ext = extent(map, axis);
    let oth = extent(map, !axis);
    let m = reach(ext, oth);
    lemma_reach(ext, oth);
    let floor = if height(from, axis, up) >= height(to, axis, up) {
        height(from, axis, up)
    } else {
        height(to, axis, up)
    };
    let f = |i: int| level_key(map, path, axis, up, t, floor + 1 + i);
    assert forall|i: int| 0 <= i < m implies 0 <= #[trigger] f(i) < m - 1 by {
        lemma_level(map, passable, path, from, to, axis, up, t, floor + 1 + i);
    }
    let found = lemma_pigeonhole(f, m, m - 1);
    let l1 = floor + 1 + found.0;
    let l2 = floor + 1 + found.1;
    lemma_level(map, passable, path, from, to, axis, up, t, l1);
    lemma_level(map, passable, path, from, to, axis, up, t, l2);
    assert(f(found.0) == level_key(map, path, axis, up, t, l1));
    assert(f(found.1) == level_key(map, path, axis, up, t, l2));
    let xs = heights(path, axis, up);
    let a1 = last_at(xs, t, l1);
    let a2 = last_at(xs, t, l2);
    let b1 = first_at(xs, t, l1);
    let b2 = first_at(xs, t, l2);
    assert(xs[a1] == l1 && xs[a2] == l2 && xs[b1] == l1 && xs[b2] == l2);
    assert(a1 < a2) by {
        if a2 < a1 {
            assert(xs[a1] > l2);
        }
    }
    assert(b2 < b1) by {
        if b1 < b2 {
            assert(xs[b1] > l2);
        }
    }
    vstd::arithmetic::div_mod::lemma_mod_equivalence(l1, l2, ext);
    vstd::arithmetic::div_mod::lemma_mod_equivalence(l2, l1, ext);
    let d = if up {
        l1 - l2
    } else {
        l2 - l1
    };
    assert(along(path[a1], !axis) == along(path[a2], !axis));
    assert(along(path[b1], !axis) == along(path[b2], !axis));
    assert(path[a1] == slide(path[a2], axis, d));
    assert(path[b1] == slide(path[b2], axis, d));
    lemma_splice(map, passable, cost, path, from, to, axis, d, a1, a2, b2, b1);
    spliced(path, axis, d, a1, a2, b2, b1)
}

/// Whether the coordinate `c` stands along the axis no further than
/// `margin` beyond `a` and `b`.
pub open spec fn confined(c: (int, int), axis: bool, a: (int, int), b: (int, int), margin: int) -> bool {
    &&& along(c, axis) <= along(a, axis) + margin || along(c, axis) <= along(b, axis) + margin
    &&& along(c, axis) >= along(a, axis) - margin || along(c, axis) >= along(b, axis) - margin
}

/// On a map that wraps along one axis only, for every path there is one
/// that costs no more and goes no further beyond its ends along that
/// axis than the reach of a search.
pub proof fn lemma_confine<T>(
    map: TaxicabMap<T>,
    passable: Seq<bool>,
    cost: Seq<u64>,
    path: Seq<(int, int)>,
    from: (int, int),
    to: (int, int),
    axis: bool,
) -> (inside: Seq<(int, int)>)
    requires
        roam_spec(map, passable, path, from, to),
        wraps(map, axis),
        !wraps(map, !axis),
    ensures
        roam_spec(map, passable, inside, from, to),
        path_cost(map, cost, inside) <= path_cost(map, cost, path),
        forall|n: int|
            0 <= n < inside.len() ==> confined(
                #[trigger] inside[n],
                axis,
                from,
                to,
                reach(extent(map, axis), extent(map, !axis)),
            ),
    decreases path.len(),
{
    let m = reach(extent(map, axis), extent(map, !axis));
    if exists|t: int| 0 <= t < path.len() && !confined(#[trigger] path[t], axis, from, to, m) {
        let t = choose|t: int|
            0 <= t < path.len() && !confined(#[trigger] path[t], axis, from, to, m);
        let up = along(path[t], axis) > along(from, axis) + m;
        let shorter = lemma_cut(map, passable, cost, path, from, to, axis, up, t);
        lemma_confine(map, passable, cost, shorter, from, to, axis)
    } else {
        path
    }
}

/// Where at most one axis of the map wraps, the frame of a search holds
/// a cheapest of all paths: for every path there is one inside the frame
/// that costs no more.
pub proof fn lemma_frame_suffices<T>(
    map: TaxicabMap<T>,
    passable: Seq<bool>,
    cost: Seq<u64>,
    from: (int, int),
    to: (int, int),
    path: Seq<(int, int)>,
)
    requires
        !(map.cycle_spec().0 && map.cycle_spec().1),
        roam_spec(map, passable, path, from, to),
    ensures
        exists|inside: Seq<(int, int)>| #[trigger]
            track_spec(map, passable, frame_spec(map, from, to), inside, from, to) && path_cost(
                map,
                cost,
                inside,
            ) <= path_cost(map, cost, path),
{
    let frame = frame_spec(map, from, to);
    let inside = if map.cycle_spec().0 {
        lemma_confine(map, passable, cost, path, from, to, false)
    } else if map.cycle_spec().1 {
        lemma_confine(map, passable, cost, path, from, to, true)
    } else {
        path
    };
    lemma_gentle(map, passable, inside, from, to, false, true);
    assert forall|i: int| 0 <= i < inside.len() - 1 implies #[trigger] hop(
        map,
        passable,
        frame,
        inside,
        i,
    ) by {
        assert(stride(map, passable, inside, i));
        let c = inside[i + 1];
        assert(map.contains_spec(c.0, c.1));
        if map.cycle_spec().0 {
            assert(confined(c, false, from, to, reach(extent(map, false), extent(map, true))));
            lemma_plain_axis(map, c, true);
        } else if map.cycle_spec().1 {
            assert(confined(c, true, from, to, reach(extent(map, true), extent(map, false))));
            lemma_plain_axis(map, c, false);
        } else {
            lemma_frame_holds(map, from, to, c);
        }
    }
    assert(track_spec(map, passable, frame, inside, from, to));
}

/// A path is no further from its start than it has steps.
pub proof fn lemma_strays<T>(
    map: TaxicabMap<T>,
    passable: Seq<bool>,
    path: Seq<(int, int)>,
    from: (int, int),
    to: (int, int),
    i: int,
)
    requires
        roam_spec(map, passable, path, from, to),
        0 <= i < path.len(),
    ensures
        taxicab_distance(from, path[i]) <= i,
    decreases i,
{
    if i > 0 {
        lemma_strays(map, passable, path, from, to, i - 1);
        assert(stride(map, passable, path, i - 1));
    }
}

/// A path of no more steps than the reach of a search along either axis
/// stays inside the frame of the search.
pub proof fn lemma_short_stays<T>(
    map: TaxicabMap<T>,
    passable: Seq<bool>,
    from: (int, int),
    to: (int, int),
    path: Seq<(int, int)>,
)
    requires
        roam_spec(map, passable, path, from, to),
        path.len() - 1 <= reach(extent(map, false), extent(map, true)),
        path.len() - 1 <= reach(extent(map, true), extent(map, false)),
    ensures
        track_spec(map, passable, frame_spec(map, from, to), path, from, to),
{
    let frame = frame_spec(map, from, to);
    lemma_gentle(map, passable, path, from, to, false, true);
    assert forall|i: int| 0 <= i < path.len() - 1 implies #[trigger] hop(
        map,
        passable,
        frame,
        path,
        i,
    ) by {
        assert(stride(map, passable, path, i));
        let c = path[i + 1];
        lemma_strays(map, passable, path, from, to, i + 1);
        if !map.cycle_spec().0 {
            lemma_plain_axis(map, c, false);
        }
        if !map.cycle_spec().1 {
            lemma_plain_axis(map, c, true);
        }
    }
}

/// A path of no more steps than the margin of a frame stays inside that
/// frame.
pub proof fn lemma_short_within<T>(
    map: TaxicabMap<T>,
    passable: Seq<bool>,
    from: (int, int),
    to: (int, int),
    path: Seq<(int, int)>,
    margin: int,
)
    requires
        roam_spec(map, passable, path, from, to),
        path.len() - 1 <= margin,
    ensures
        track_spec(map, passable, frame_within(map, from, to, margin), path, from, to),
{
    let frame = frame_within(map, from, to, margin);
    lemma_gentle(map, passable, path, from, to, false, true);
    assert forall|i: int| 0 <= i < path.len() - 1 implies #[trigger] hop(
        map,
        passable,
        frame,
        path,
        i,
    ) by {
        assert(stride(map, passable, path, i));
        let c = path[i + 1];
        lemma_strays(map, passable, path, from, to, i + 1);
        if !map.cycle_spec().0 {
            lemma_plain_axis(map, c, false);
        }
        if !map.cycle_spec().1 {
            lemma_plain_axis(map, c, true);
        }
    }
}

/// Where every cell that may be entered costs one at least, the first
/// `k` steps of a path cost no less than `k`.
pub proof fn lemma_steps_cost<T>(
    map: TaxicabMap<T>,
    passable: Seq<bool>,
    cost: Seq<u64>,
    path: Seq<(int, int)>,
    from: (int, int),
    to: (int, int),
    k: int,
)
    requires
        roam_spec(map, passable, path, from, to),
        forall|c: (int, int)| enterable(map, passable, c) ==> #[trigger] price_at(map, cost, c) >= 1,
        0 <= k < path.len(),
    ensures
        spent(map, cost, path, k) >= k,
        k == path.len() - 1 ==> path_cost(map, cost, path) >= path.len() - 1,
    decreases k,
{
    lemma_spent(map, cost, path, k);
    if k > 0 {
        lemma_steps_cost(map, passable, cost, path, from, to, k - 1);
        assert(stride(map, passable, path, k - 1));
    }
}

/// Whether no two coordinates of the path name the same cell.
pub open spec fn cell_simple<T>(map: TaxicabMap<T>, path: Seq<(int, int)>) -> bool {
    forall|i: int, j: int|
        0 <= i < j < path.len() ==> position_spec(map, #[trigger] path[i]) != position_spec(
            map,
            #[trigger] path[j],
        )
}

/// A path that enters no cell twice has fewer coordinates than the map
/// has cells, or as many, and so stays inside the frame of a search.
pub proof fn lemma_simple_stays<T>(
    map: TaxicabMap<T>,
    passable: Seq<bool>,
    from: (int, int),
    to: (int, int),
    path: Seq<(int, int)>,
)
    requires
        roam_spec(map, passable, path, from, to),
        cell_simple(map, path),
    ensures
        path.len() <= extent(map, false) * extent(map, true),
        track_spec(map, passable, frame_spec(map, from, to), path, from, to),
{
    let w = extent(map, false);
    let h = extent(map, true);
    let n = w * h;
    lemma_gentle(map, passable, path, from, to, false, true);
    lemma_position(map, from);
    let place = |i: int| position_spec(map, path[i]).unwrap();
    assert forall|i: int| 0 <= i < path.len() implies 0 <= #[trigger] place(i) < n by {
        lemma_position(map, path[i]);
    }
    if path.len() > n {
        let twice = lemma_pigeonhole(place, path.len() as int, n);
        lemma_position(map, path[twice.0]);
        lemma_position(map, path[twice.1]);
        assert(position_spec(map, path[twice.0]) == position_spec(map, path[twice.1]));
    }
    assert(0 < w && 0 < h);
    assert(w * h <= w * h * h + 1) by (nonlinear_arith)
        requires
            0 < w,
            0 < h,
    ;
    assert(w * h <= h * w * w + 1) by (nonlinear_arith)
        requires
            0 < w,
            0 < h,
    ;
    lemma_short_stays(map, passable, from, to, path);
}

} // verus!
