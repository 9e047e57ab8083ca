use crate::hexagon::point::{Direction, Point};
use crate::hexagon::ring::{ring, ring_fits, ring_len, ring_point};
use std::collections::BTreeMap;
use vstd::prelude::*;
use vstd::std_specs::cmp::OrdSpec;
use vstd::std_specs::iter::IteratorSpec;

verus! {

/// Whether `a` comes before `b` in the order of the map: by the first
/// coordinate, then by the second.
pub open spec fn point_before(a: Point, b: Point) -> bool {
    a.x < b.x || (a.x == b.x && a.y < b.y)
}

/// Keys that a map walks in increasing order are in the order of the
/// points.
proof fn lemma_keys_in_order(keys: Seq<&(isize, isize)>)
    requires
        vstd::std_specs::btree::increasing_seq(keys),
    ensures
        forall|i: int, j: int|
            0 <= i < j < keys.len() ==> (#[trigger] keys[i]).0 < (#[trigger] keys[j]).0 || (
            keys[i].0 == keys[j].0 && keys[i].1 < keys[j].1),
{
    broadcast use vstd::laws_cmp::group_laws_cmp;

    vstd::std_specs::btree::axiom_increasing_seq_meaning(keys);
    assert forall|i: int, j: int| 0 <= i < j < keys.len() implies (#[trigger] keys[i]).0 < (
    #[trigger] keys[j]).0 || (keys[i].0 == keys[j].0 && keys[i].1 < keys[j].1) by {
        assert(OrdSpec::cmp_spec(&keys[i], &keys[j]) is Less);
    }
}

/// A sparse map of the hexagonal grid: it holds a value for each cell
/// that was added to it, and walks its cells in the order of their
/// coordinates.
pub struct HexagonMap<T> {
    cells: BTreeMap<(isize, isize), T>,
}

impl<T> HexagonMap<T> {
    /// The cells of the map with their values, keyed by the two axial
    /// coordinates.
    pub closed spec fn view(&self) -> Map<(isize, isize), T> {
        self.cells@
    }

    /// Whether `point` belongs to the map.
    pub open spec fn contains_spec(&self, point: Point) -> bool {
        self@.contains_key((point.x, point.y))
    }

    /// The value at `point`, if the point belongs to the map.
    pub open spec fn value_at(&self, point: Point) -> Option<T> {
        if self.contains_spec(point) {
            Some(self@[(point.x, point.y)])
        } else {
            None
        }
    }

    /// A map without cells.
    pub fn new() -> (r: Self)
        ensures
            r@ == Map::<(isize, isize), T>::empty(),
    {
        HexagonMap { cells: BTreeMap::new() }
    }

    /// The value at `point`, or `None` when the point does not belong to
    /// the map.
    pub fn get_point(&self, point: Point) -> (r: Option<&T>)
        ensures
            r matches Some(v) ==> self.value_at(point) == Some(*v),
            r is None ==> self.value_at(point) is None,
    {
        broadcast use vstd::laws_cmp::group_laws_cmp;

        let key = (point.x, point.y);
        self.cells.get(&key)
    }

    /// Whether `point` belongs to the map.
    pub fn has_point(&self, point: Point) -> (r: bool)
        ensures
            r == self.contains_spec(point),
    {
        broadcast use vstd::laws_cmp::group_laws_cmp;

        let key = (point.x, point.y);
        self.cells.contains_key(&key)
    }

    /// Puts `value` at `point` and returns the value that was there. No
    /// other cell changes.
    pub fn add_point(&mut self, point: Point, value: T) -> (r: Option<T>)
        ensures
            final(self)@ == old(self)@.insert((point.x, point.y), value),
            r == old(self).value_at(point),
    {
        broadcast use vstd::laws_cmp::group_laws_cmp;

        self.cells.insert((point.x, point.y), value)
    }

    /// Takes `point` out of the map and returns the value that was there.
    /// No other cell changes, and an absent point changes nothing.
    pub fn remove_point(&mut self, point: Point) -> (r: Option<T>)
        ensures
            final(self)@ == old(self)@.remove((point.x, point.y)),
            r == old(self).value_at(point),
    {
        broadcast use vstd::laws_cmp::group_laws_cmp;

        let key = (point.x, point.y);
        self.cells.remove(&key)
    }

    /// The number of cells of the map.
    pub fn count_points(&self) -> (r: usize)
        ensures
            r == self@.len(),
            self@.dom().finite(),
    {
        broadcast use vstd::laws_cmp::group_laws_cmp;

        self.cells.len()
    }

    /// The cells of the map in the order of their coordinates.
    pub fn points(&self) -> (r: Vec<Point>)
        ensures
            r@.len() == self@.len(),
            forall|p: Point| r@.contains(p) <==> self.contains_spec(p),
            forall|i: int, j: int| 0 <= i < j < r@.len() ==> point_before(r@[i], r@[j]),
    {
        broadcast use vstd::laws_cmp::group_laws_cmp;

        let ghost keys = vstd::std_specs::btree::spec_keys_iter(&self.cells).remaining();
        let mut out: Vec<Point> = Vec::new();
        for k in it: self.cells.keys()
            invariant
                it.seq() == keys,
                out@.len() == it.index(),
                forall|i: int| 0 <= i < out@.len() ==> (out@[i].x, out@[i].y) == *it.seq()[i],
        {
            out.push(Point::new(k.0, k.1));
        }
        proof {
            vstd::std_specs::btree::axiom_spec_keys_iter(&self.cells);
            lemma_keys_in_order(keys);
            assert forall|p: Point| out@.contains(p) <==> self.contains_spec(p) by {
                if out@.contains(p) {
                    let i = choose|i: int| 0 <= i < out@.len() && out@[i] == p;
                    assert(keys.unref()[i] == (p.x, p.y));
                    assert(keys.unref().to_set().contains((p.x, p.y)));
                }
                if self.contains_spec(p) {
                    assert(keys.unref().to_set().contains((p.x, p.y)));
                    let i = choose|i: int| 0 <= i < keys.len() && keys.unref()[i] == (p.x, p.y);
                    assert(out@[i] == p);
                }
            }
            assert forall|i: int, j: int| 0 <= i < j < out@.len() implies point_before(
                out@[i],
                out@[j],
            ) by {
                assert(keys[i].0 < keys[j].0 || (keys[i].0 == keys[j].0 && keys[i].1 < keys[j].1));
            }
        }
        out
    }

    /// Asks `f` about every cell of the map, in the order of the
    /// coordinates, and returns the cells with the answers.
    pub(crate) fn survey<R, F: Fn(&Point, &T) -> R>(&self, f: F) -> (r: (Vec<Point>, Vec<R>))
        requires
            judges(*self, f),
        ensures
            keys_of(*self, r.0@),
            judged(*self, f, r.0@, r.1@),
    {
        broadcast use vstd::laws_cmp::group_laws_cmp;

        let ghost entries = vstd::std_specs::btree::spec_btree_map_iter(&self.cells).remaining();
        let mut keys: Vec<Point> = Vec::new();
        let mut answers: Vec<R> = Vec::new();
        proof {
            vstd::std_specs::btree::axiom_spec_btree_map_iter(&self.cells);
        }
        for entry in it: self.cells.iter()
            invariant
                it.seq() == entries,
                judges(*self, f),
                keys@.len() == it.index(),
                answers@.len() == it.index(),
                forall|i: int|
                    #![trigger entries[i]]
                    0 <= i < entries.len() ==> self.cells@.contains_key(*entries[i].0)
                        && self.cells@[*entries[i].0] == *entries[i].1,
                forall|i: int|
                    0 <= i < keys@.len() ==> (keys@[i].x, keys@[i].y) == *(#[trigger] entries[i]).0,
                forall|i: int|
                    0 <= i < keys@.len() ==> call_ensures(
                        f,
                        (&keys@[i], &self.cells@[(keys@[i].x, keys@[i].y)]),
                        #[trigger] answers@[i],
                    ),
        {
            let point = Point::new(entry.0.0, entry.0.1);
            proof {
                let i = it.index();
                assert(entries[i] == entry);
                assert(self.cells@.contains_key(*entries[i].0));
                assert(self.contains_spec(point));
                assert(self@[(point.x, point.y)] == *entry.1);
            }
            let answer = f(&point, entry.1);
            keys.push(point);
            answers.push(answer);
        }
        proof {
            lemma_entries_are_keys(*self, entries, keys@);
        }
        (keys, answers)
    }

    /// A mutable reference to the value at `point`, or `None` when the
    /// point does not belong to the map. What is written through the
    /// reference lands in that cell alone.
    pub fn mut_point(&mut self, point: Point) -> (r: Option<&mut T>)
        ensures
            r is Some == old(self).contains_spec(point),
            r is None ==> final(self)@ == old(self)@,
            r matches Some(v) ==> *v == old(self)@[(point.x, point.y)] && final(self)@ == old(
                self
            )@.insert((point.x, point.y), *final(v)),
    {
        let key = (point.x, point.y);
        cell_mut(&mut self.cells, &key)
    }

    /// The neighbours of `from` that belong to the map: at most six
    /// cells, in the order of `Direction::all`.
    pub fn nearby_points(&self, from: &Point) -> (r: Vec<Point>)
        requires
            from.inner(),
        ensures
            points_view(r@) == members_spec(*self, neighbours(from@), 6),
            r@.len() <= 6,
    {
        let all = Direction::all();
        let ghost cells = neighbours(from@);
        let mut out: Vec<Point> = Vec::new();
        let mut k: usize = 0;
        assert(points_view(out@) =~= members_spec(*self, cells, 0));
        while k < 6
            invariant
                k <= 6,
                from.inner(),
                all@ == Direction::all_spec(),
                cells == neighbours(from@),
                points_view(out@) == members_spec(*self, cells, k as int),
                out@.len() <= k,
            decreases 6 - k,
        {
            let p = from.go(all[k]);
            assert(p@ == cells[k as int]);
            let ghost before = out@;
            if self.has_point(p) {
                out.push(p);
                assert(points_view(out@) =~= points_view(before).push(p@));
            }
            k = k + 1;
        }
        out
    }

    /// The cells within `distance` steps of `from` that belong to the
    /// map: the centre, then ring after ring.
    pub fn within_points(&self, from: &Point, distance: usize) -> (r: Vec<Point>)
        requires
            ring_fits(from.x as int, from.y as int, distance as int),
        ensures
            points_view(r@) == members_spec(
                *self,
                disk(from.x as int, from.y as int, distance as int),
                disk(from.x as int, from.y as int, distance as int).len() as int,
            ),
    {
        let ghost x = from.x as int;
        let ghost y = from.y as int;
        let mut out: Vec<Point> = Vec::new();
        let mut n: usize = 0;
        assert(disk(x, y, -1) =~= Seq::empty());
        assert(points_view(out@) =~= members_spec(*self, disk(x, y, -1), 0));
        while n <= distance
            invariant
                n <= distance + 1,
                x == from.x,
                y == from.y,
                ring_fits(x, y, distance as int),
                points_view(out@) == members_spec(
                    *self,
                    disk(x, y, n - 1),
                    disk(x, y, n - 1).len() as int,
                ),
            decreases distance + 1 - n,
        {
            let ghost before = out@;
            let mut more = self.around_points(from, n);
            let ghost added = more@;
            out.append(&mut more);
            proof {
                lemma_members_concat(*self, disk(x, y, n - 1), ring(x, y, n as int));
                assert(disk(x, y, n - 1) + ring(x, y, n as int) =~= disk(x, y, n as int));
                assert(points_view(out@) =~= points_view(before) + points_view(added));
            }
            if n == distance {
                return out;
            }
            n = n + 1;
        }
        out
    }

    /// The cells `distance` steps from `from` that belong to the map, in
    /// the order of the ring.
    pub fn around_points(&self, from: &Point, distance: usize) -> (r: Vec<Point>)
        requires
            ring_fits(from.x as int, from.y as int, distance as int),
        ensures
            points_view(r@) == members_spec(
                *self,
                ring(from.x as int, from.y as int, distance as int),
                ring_len(distance as int) as int,
            ),
    {
        let ghost cells = ring(from.x as int, from.y as int, distance as int);
        let count: u128 = if distance == 0 {
            1
        } else {
            6 * (distance as u128)
        };
        let mut out: Vec<Point> = Vec::new();
        let mut k: u128 = 0;
        assert(points_view(out@) =~= members_spec(*self, cells, 0));
        while k < count
            invariant
                k <= count,
                count == ring_len(distance as int),
                ring_fits(from.x as int, from.y as int, distance as int),
                cells == ring(from.x as int, from.y as int, distance as int),
                points_view(out@) == members_spec(*self, cells, k as int),
            decreases count - k,
        {
            let p = ring_cell(from.x, from.y, distance, k);
            assert(p@ == cells[k as int]);
            let ghost before = out@;
            if self.has_point(p) {
                out.push(p);
                assert(points_view(out@) =~= points_view(before).push(p@));
            }
            k = k + 1;
        }
        out
    }
}

/// The judgement that lets every cell be entered.
pub(crate) fn open_cell<T>(point: &Point, value: &T) -> (r: bool)
    ensures
        r,
{
    true
}

/// Whether `keys` are the cells of `map` in the order of the
/// coordinates, each once.
pub open spec fn keys_of<T>(map: HexagonMap<T>, keys: Seq<Point>) -> bool {
    &&& keys.len() == map@.len()
    &&& forall|p: Point| keys.contains(p) <==> map.contains_spec(p)
    &&& forall|i: int, j: int| 0 <= i < j < keys.len() ==> point_before(keys[i], keys[j])
}

/// Whether `f` accepts every cell of the map.
pub open spec fn judges<T, R, F: Fn(&Point, &T) -> R>(map: HexagonMap<T>, f: F) -> bool {
    forall|p: Point| #[trigger] map.contains_spec(p) ==> call_requires(f, (&p, &map@[(p.x, p.y)]))
}

/// What a judgement of the cells of a map says: for each cell, a value
/// that `f` returns for the cell's coordinate and the cell's value.
pub open spec fn judged<T, R, F: Fn(&Point, &T) -> R>(
    map: HexagonMap<T>,
    f: F,
    keys: Seq<Point>,
    table: Seq<R>,
) -> bool {
    &&& table.len() == keys.len()
    &&& forall|i: int|
        0 <= i < keys.len() ==> call_ensures(
            f,
            (&keys[i], &map@[(keys[i].x, keys[i].y)]),
            #[trigger] table[i],
        )
}

/// The keys that a walk over the entries of a map collects are the cells
/// of the map in order.
proof fn lemma_entries_are_keys<T>(
    map: HexagonMap<T>,
    entries: Seq<(&(isize, isize), &T)>,
    keys: Seq<Point>,
)
    requires
        entries == vstd::std_specs::btree::spec_btree_map_iter(&map.cells).remaining(),
        vstd::std_specs::btree::increasing_seq(
            entries.map_values(|kv: (&(isize, isize), &T)| *kv.0),
        ),
        entries.no_duplicates(),
        keys.len() == entries.len(),
        forall|i: int|
            0 <= i < keys.len() ==> (keys[i].x, keys[i].y) == *(#[trigger] entries[i]).0,
    ensures
        keys_of(map, keys),
{
    broadcast use vstd::laws_cmp::group_laws_cmp;

    vstd::std_specs::btree::axiom_spec_btree_map_iter(&map.cells);
    let plain = entries.map_values(|kv: (&(isize, isize), &T)| *kv.0);
    lemma_plain_keys_in_order(plain);
    assert forall|p: Point| keys.contains(p) <==> map.contains_spec(p) by {
        if keys.contains(p) {
            let i = choose|i: int| 0 <= i < keys.len() && keys[i] == p;
            assert(map.cells@.contains_key(*entries[i].0));
        }
        if map.contains_spec(p) {
            let k = (p.x, p.y);
            assert(entries.contains((&k, &map.cells@[k])));
            let i = choose|i: int| 0 <= i < entries.len() && entries[i] == (&k, &map.cells@[k]);
            assert(keys[i] == p);
        }
    }
    assert forall|i: int, j: int| 0 <= i < j < keys.len() implies point_before(keys[i], keys[j]) by {
        assert(plain[i] == *entries[i].0);
        assert(plain[j] == *entries[j].0);
    }
}

/// Keys in increasing order are in the order of the points.
proof fn lemma_plain_keys_in_order(keys: Seq<(isize, isize)>)
    requires
        vstd::std_specs::btree::increasing_seq(keys),
    ensures
        forall|i: int, j: int|
            0 <= i < j < keys.len() ==> (#[trigger] keys[i]).0 < (#[trigger] keys[j]).0 || (
            keys[i].0 == keys[j].0 && keys[i].1 < keys[j].1),
{
    broadcast use vstd::laws_cmp::group_laws_cmp;

    vstd::std_specs::btree::axiom_increasing_seq_meaning(keys);
    assert forall|i: int, j: int| 0 <= i < j < keys.len() implies (#[trigger] keys[i]).0 < (
    #[trigger] keys[j]).0 || (keys[i].0 == keys[j].0 && keys[i].1 < keys[j].1) by {
        assert(OrdSpec::cmp_spec(&keys[i], &keys[j]) is Less);
    }
}

/// `BTreeMap::get_mut` of the standard library: a mutable reference to
/// the value under `key`, if the map holds the key. What is written
/// through the reference replaces that value and nothing else.
#[verifier::external_body]
fn cell_mut<'a, T>(cells: &'a mut BTreeMap<(isize, isize), T>, key: &(isize, isize)) -> (r: Option<
    &'a mut T,
>)
    ensures
        r is Some == old(cells)@.contains_key(*key),
        r is None ==> final(cells)@ == old(cells)@,
        r matches Some(v) ==> *v == old(cells)@[*key] && final(cells)@ == old(cells)@.insert(
            *key,
            *final(v),
        ),
{
    cells.get_mut(key)
}

/// A sequence of points, read as pairs of unbounded integers.
pub open spec fn points_view(points: Seq<Point>) -> Seq<(int, int)> {
    points.map_values(|p: Point| p@)
}

/// The six cells one step from `p`, in the order of `Direction::all`.
pub open spec fn neighbours(p: (int, int)) -> Seq<(int, int)> {
    Seq::new(6, |k: int| (p.0 + Direction::all_spec()[k].dx(), p.1 + Direction::all_spec()[k].dy()))
}

/// Whether the pair `c` names a cell of `map`.
pub open spec fn holds<T>(map: HexagonMap<T>, c: (int, int)) -> bool {
    &&& isize::MIN <= c.0 <= isize::MAX
    &&& isize::MIN <= c.1 <= isize::MAX
    &&& map@.contains_key((c.0 as isize, c.1 as isize))
}

/// The cells among the first `upto` of `cells` that belong to `map`, in
/// their order.
pub open spec fn members_spec<T>(map: HexagonMap<T>, cells: Seq<(int, int)>, upto: int) -> Seq<
    (int, int),
>
    decreases upto,
{
    if upto <= 0 {
        Seq::empty()
    } else if holds(map, cells[upto - 1]) {
        members_spec(map, cells, upto - 1).push(cells[upto - 1])
    } else {
        members_spec(map, cells, upto - 1)
    }
}

/// The members are cells of the sequence that belong to the map, and no
/// more than were looked at.
pub proof fn lemma_members<T>(map: HexagonMap<T>, cells: Seq<(int, int)>, upto: int)
    requires
        0 <= upto <= cells.len(),
    ensures
        members_spec(map, cells, upto).len() <= upto,
        forall|k: int|
            0 <= k < members_spec(map, cells, upto).len() ==> cells.contains(
                #[trigger] members_spec(map, cells, upto)[k],
            ) && holds(map, members_spec(map, cells, upto)[k]),
        forall|m: int|
            0 <= m < upto && holds(map, cells[m]) ==> members_spec(map, cells, upto).contains(
                #[trigger] cells[m],
            ),
    decreases upto,
{
    if upto > 0 {
        lemma_members(map, cells, upto - 1);
        let before = members_spec(map, cells, upto - 1);
        let now = members_spec(map, cells, upto);
        assert(cells.contains(cells[upto - 1]));
        assert forall|m: int| 0 <= m < upto && holds(map, cells[m]) implies now.contains(
            #[trigger] cells[m],
        ) by {
            if m < upto - 1 {
                let k = choose|k: int| 0 <= k < before.len() && before[k] == cells[m];
                assert(now[k] == cells[m]);
            } else {
                assert(now[now.len() - 1] == cells[m]);
            }
        }
    }
}

/// The cells within `n` steps of `(x, y)`: the rings of radius zero up to
/// `n`, one after another.
pub open spec fn disk(x: int, y: int, n: int) -> Seq<(int, int)>
    decreases n,
{
    if n < 0 {
        Seq::empty()
    } else if n == 0 {
        ring(x, y, 0)
    } else {
        disk(x, y, n - 1) + ring(x, y, n)
    }
}

/// The members among the first cells of a sequence do not depend on the
/// cells behind them.
pub proof fn lemma_members_prefix<T>(
    map: HexagonMap<T>,
    a: Seq<(int, int)>,
    b: Seq<(int, int)>,
    upto: int,
)
    requires
        0 <= upto <= a.len(),
        upto <= b.len(),
        forall|i: int| 0 <= i < upto ==> a[i] == b[i],
    ensures
        members_spec(map, a, upto) == members_spec(map, b, upto),
    decreases upto,
{
    if upto > 0 {
        lemma_members_prefix(map, a, b, upto - 1);
    }
}

/// The members of two sequences of cells, one behind the other, are the
/// members of the first followed by the members of the second.
pub proof fn lemma_members_concat<T>(map: HexagonMap<T>, a: Seq<(int, int)>, b: Seq<(int, int)>)
    ensures
        members_spec(map, a + b, (a + b).len() as int) == members_spec(map, a, a.len() as int)
            + members_spec(map, b, b.len() as int),
    decreases b.len(),
{
    let whole = a + b;
    if b.len() == 0 {
        assert(whole =~= a);
        assert(members_spec(map, b, 0) =~= Seq::empty());
        assert(members_spec(map, a, a.len() as int) + Seq::<(int, int)>::empty() =~= members_spec(
            map,
            a,
            a.len() as int,
        ));
    } else {
        let shorter = b.drop_last();
        lemma_members_concat(map, a, shorter);
        lemma_members_prefix(map, a + shorter, whole, whole.len() - 1);
        lemma_members_prefix(map, shorter, b, b.len() - 1);
        assert(whole[whole.len() - 1] == b[b.len() - 1]);
        let left = members_spec(map, a, a.len() as int);
        let right = members_spec(map, shorter, shorter.len() as int);
        if holds(map, b[b.len() - 1]) {
            assert((left + right).push(b[b.len() - 1]) =~= left + right.push(b[b.len() - 1]));
        }
    }
}

/// The `k`-th cell of the ring of radius `n` around `(x, y)`.
fn ring_cell(x: isize, y: isize, n: usize, k: u128) -> (r: Point)
    requires
        ring_fits(x as int, y as int, n as int),
        k < ring_len(n as int),
    ensures
        r@ == ring(x as int, y as int, n as int)[k as int],
{
    let cx = x as i128;
    let cy = y as i128;
    let r = n as i128;
    let t = k as i128;
    let (px, py): (i128, i128) = if t < r {
        (cx + r - t, cy + t)
    } else if t < 2 * r {
        (cx - (t - r), cy + r)
    } else if t < 3 * r {
        (cx - r, cy + r - (t - 2 * r))
    } else if t < 4 * r {
        (cx - r + (t - 3 * r), cy - (t - 3 * r))
    } else if t < 5 * r {
        (cx + (t - 4 * r), cy - r)
    } else {
        (cx + r, cy - r + (t - 5 * r))
    };
    assert((px as int, py as int) == ring_point(x as int, y as int, n as int, k as int));
    Point::new(px as isize, py as isize)
}

/// The axial cell of the `j`-th place of the `i`-th line of a staggered
/// rectangle.
///
/// With `by_row` the lines are rows: the second coordinate is the row,
/// and every second row starts half a cell further along. Without it the
/// lines are columns. `odd_shift` chooses whether the shift sets in before
/// the odd lines or before the even ones.
pub open spec fn staggered_cell(i: int, j: int, by_row: bool, odd_shift: bool) -> (int, int) {
    let s: int = if odd_shift {
        1
    } else {
        0
    };
    if by_row {
        (j - (i + s) / 2, i)
    } else {
        (i, j - (i + s) / 2)
    }
}

/// The line and the place of an axial cell in a staggered rectangle.
pub open spec fn staggered_place(c: (int, int), by_row: bool, odd_shift: bool) -> (int, int) {
    let s: int = if odd_shift {
        1
    } else {
        0
    };
    if by_row {
        (c.1, c.0 + (c.1 + s) / 2)
    } else {
        (c.0, c.1 + (c.0 + s) / 2)
    }
}

/// A place of a staggered rectangle and its axial cell determine each
/// other.
pub proof fn lemma_staggered_place(i: int, j: int, by_row: bool, odd_shift: bool)
    ensures
        staggered_place(staggered_cell(i, j, by_row, odd_shift), by_row, odd_shift) == (i, j),
{
}

impl<T: Default> HexagonMap<T> {
    /// The cells `(x, y)` with both coordinates from zero up to
    /// `diameter`, each with the default value.
    pub fn circle(diameter: usize) -> (r: Self)
        requires
            diameter <= isize::MAX,
        ensures
            forall|p: Point|
                r.contains_spec(p) <==> 0 <= p.x < diameter && 0 <= p.y < diameter,
            forall|p: Point|
                r.contains_spec(p) ==> call_ensures(T::default, (), #[trigger] r@[(p.x, p.y)]),
            r@.len() == diameter * diameter,
    {
        Self::rhombus(diameter, diameter)
    }

    /// The cells `(x, y)` with `x` from zero up to `width` and `y` from
    /// zero up to `height`, each with the default value.
    pub fn rhombus(width: usize, height: usize) -> (r: Self)
        requires
            width <= isize::MAX,
            height <= isize::MAX,
        ensures
            forall|p: Point| r.contains_spec(p) <==> 0 <= p.x < width && 0 <= p.y < height,
            forall|p: Point|
                r.contains_spec(p) ==> call_ensures(T::default, (), #[trigger] r@[(p.x, p.y)]),
            r@.len() == width * height,
    {
        let mut map: HexagonMap<T> = HexagonMap::new();
        let mut x: usize = 0;
        while x < width
            invariant
                x <= width,
                width <= isize::MAX,
                height <= isize::MAX,
                map@.dom().finite(),
                map@.len() == x * height,
                forall|p: Point| map.contains_spec(p) <==> 0 <= p.x < x && 0 <= p.y < height,
                forall|p: Point|
                    map.contains_spec(p) ==> call_ensures(
                        T::default,
                        (),
                        #[trigger] map@[(p.x, p.y)],
                    ),
            decreases width - x,
        {
            let mut y: usize = 0;
            while y < height
                invariant
                    x < width,
                    y <= height,
                    width <= isize::MAX,
                    height <= isize::MAX,
                    map@.dom().finite(),
                    map@.len() == x * height + y,
                    forall|p: Point|
                        map.contains_spec(p) <==> (0 <= p.x < x && 0 <= p.y < height) || (p.x == x
                            && 0 <= p.y < y),
                    forall|p: Point|
                        map.contains_spec(p) ==> call_ensures(
                            T::default,
                            (),
                            #[trigger] map@[(p.x, p.y)],
                        ),
                decreases height - y,
            {
                let point = Point::new(to_coordinate(x), to_coordinate(y));
                let ghost before = map;
                assert(!before.contains_spec(point));
                map.add_point(point, T::default());
                proof {
                    assert forall|p: Point|
                        map.contains_spec(p) <==> (0 <= p.x < x && 0 <= p.y < height) || (p.x == x
                            && 0 <= p.y < y + 1) by {
                        assert(before.contains_spec(p) <==> (0 <= p.x < x && 0 <= p.y < height)
                            || (p.x == x && 0 <= p.y < y));
                    }
                    assert forall|p: Point| map.contains_spec(p) implies call_ensures(
                        T::default,
                        (),
                        #[trigger] map@[(p.x, p.y)],
                    ) by {
                        if p != point {
                            assert(before.contains_spec(p));
                        }
                    }
                }
                y = y + 1;
            }
            proof {
                assert((x + 1) * height == x * height + height) by (nonlinear_arith);
            }
            x = x + 1;
        }
        map
    }

    /// A rectangle of `rows` rows of `columns` cells each, every cell with
    /// the default value. The second axial coordinate is the row. Every
    /// second row starts one cell earlier on the first axis than the row
    /// before it, so that the rows stand one above the other: with
    /// `odd_shift` the odd rows are the first to move, without it the
    /// even ones.
    pub fn width_first(rows: usize, columns: usize, odd_shift: bool) -> (r: Self)
        requires
            rows < isize::MAX,
            columns <= isize::MAX,
        ensures
            forall|p: Point|
                r.contains_spec(p) <==> 0 <= staggered_place(p@, true, odd_shift).0 < rows && 0
                    <= staggered_place(p@, true, odd_shift).1 < columns,
            forall|p: Point|
                r.contains_spec(p) ==> call_ensures(T::default, (), #[trigger] r@[(p.x, p.y)]),
            r@.len() == rows * columns,
    {
        Self::staggered(rows, columns, true, odd_shift)
    }

    /// A rectangle of `columns` columns of `rows` cells each, every cell
    /// with the default value. The first axial coordinate is the column.
    /// Every second column starts one cell earlier on the second axis
    /// than the column before it: with `odd_shift` the odd columns are the
    /// first to move, without it the even ones.
    pub fn height_first(rows: usize, columns: usize, odd_shift: bool) -> (r: Self)
        requires
            rows <= isize::MAX,
            columns < isize::MAX,
        ensures
            forall|p: Point|
                r.contains_spec(p) <==> 0 <= staggered_place(p@, false, odd_shift).0 < columns && 0
                    <= staggered_place(p@, false, odd_shift).1 < rows,
            forall|p: Point|
                r.contains_spec(p) ==> call_ensures(T::default, (), #[trigger] r@[(p.x, p.y)]),
            r@.len() == rows * columns,
    {
        proof {
            assert(rows * columns == columns * rows) by (nonlinear_arith);
        }
        Self::staggered(columns, rows, false, odd_shift)
    }

    /// The staggered rectangle of `lines` lines of `places` cells each.
    fn staggered(lines: usize, places: usize, by_row: bool, odd_shift: bool) -> (r: Self)
        requires
            lines < isize::MAX,
            places <= isize::MAX,
        ensures
            forall|p: Point|
                r.contains_spec(p) <==> 0 <= staggered_place(p@, by_row, odd_shift).0 < lines && 0
                    <= staggered_place(p@, by_row, odd_shift).1 < places,
            forall|p: Point|
                r.contains_spec(p) ==> call_ensures(T::default, (), #[trigger] r@[(p.x, p.y)]),
            r@.len() == lines * places,
    {
        let mut map: HexagonMap<T> = HexagonMap::new();
        let mut i: usize = 0;
        while i < lines
            invariant
                i <= lines,
                lines < isize::MAX,
                places <= isize::MAX,
                map@.dom().finite(),
                map@.len() == i * places,
                forall|p: Point|
                    map.contains_spec(p) <==> 0 <= staggered_place(p@, by_row, odd_shift).0 < i
                        && 0 <= staggered_place(p@, by_row, odd_shift).1 < places,
                forall|p: Point|
                    map.contains_spec(p) ==> call_ensures(
                        T::default,
                        (),
                        #[trigger] map@[(p.x, p.y)],
                    ),
            decreases lines - i,
        {
            let mut j: usize = 0;
            while j < places
                invariant
                    i < lines,
                    j <= places,
                    lines < isize::MAX,
                    places <= isize::MAX,
                    map@.dom().finite(),
                    map@.len() == i * places + j,
                    forall|p: Point|
                        map.contains_spec(p) <==> (0 <= staggered_place(p@, by_row, odd_shift).0
                            < i && 0 <= staggered_place(p@, by_row, odd_shift).1 < places) || (
                        staggered_place(p@, by_row, odd_shift).0 == i && 0 <= staggered_place(
                            p@,
                            by_row,
                            odd_shift,
                        ).1 < j),
                    forall|p: Point|
                        map.contains_spec(p) ==> call_ensures(
                            T::default,
                            (),
                            #[trigger] map@[(p.x, p.y)],
                        ),
                decreases places - j,
            {
                let point = staggered_point(i, j, by_row, odd_shift);
                let ghost before = map;
                proof {
                    lemma_staggered_place(i as int, j as int, by_row, odd_shift);
                }
                assert(!before.contains_spec(point));
                map.add_point(point, T::default());
                proof {
                    assert forall|p: Point|
                        map.contains_spec(p) <==> (0 <= staggered_place(p@, by_row, odd_shift).0
                            < i && 0 <= staggered_place(p@, by_row, odd_shift).1 < places) || (
                        staggered_place(p@, by_row, odd_shift).0 == i && 0 <= staggered_place(
                            p@,
                            by_row,
                            odd_shift,
                        ).1 < j + 1) by {
                        assert(before.contains_spec(p) <==> (0 <= staggered_place(
                            p@,
                            by_row,
                            odd_shift,
                        ).0 < i && 0 <= staggered_place(p@, by_row, odd_shift).1 < places) || (
                        staggered_place(p@, by_row, odd_shift).0 == i && 0 <= staggered_place(
                            p@,
                            by_row,
                            odd_shift,
                        ).1 < j));
                        if staggered_place(p@, by_row, odd_shift) == (i as int, j as int) {
                            assert(p == point);
                        }
                    }
                    assert forall|p: Point| map.contains_spec(p) implies call_ensures(
                        T::default,
                        (),
                        #[trigger] map@[(p.x, p.y)],
                    ) by {
                        if p != point {
                            assert(before.contains_spec(p));
                        }
                    }
                }
                j = j + 1;
            }
            proof {
                assert((i + 1) * places == i * places + places) by (nonlinear_arith);
            }
            i = i + 1;
        }
        map
    }
}

/// A count that fits a coordinate, as a coordinate.
fn to_coordinate(v: usize) -> (r: isize)
    requires
        v <= isize::MAX,
    ensures
        r == v,
{
    v as isize
}

/// The axial cell of the `j`-th place of the `i`-th line of a staggered
/// rectangle.
fn staggered_point(i: usize, j: usize, by_row: bool, odd_shift: bool) -> (r: Point)
    requires
        i < isize::MAX,
        j <= isize::MAX,
    ensures
        r@ == staggered_cell(i as int, j as int, by_row, odd_shift),
{
    let s: usize = if odd_shift {
        1
    } else {
        0
    };
    let line = i as isize;
    let place = (j as i128 - ((i + s) / 2) as i128) as isize;
    if by_row {
        Point::new(place, line)
    } else {
        Point::new(line, place)
    }
}

} // verus!
