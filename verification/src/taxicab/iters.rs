use crate::taxicab::direction::Direction;
use crate::taxicab::joint::{step_spec, Joint};
use crate::taxicab::map::{lemma_cell_position, lemma_normalize_bound, TaxicabMap};
use crate::taxicab::ring::{as_ints, ring, ring_fits, ring_len, DiamondPoints};
use vstd::prelude::*;

verus! {

/// Whether the `k`-th cell of `ring` is reported for `map`: it belongs to
/// the map, and no earlier cell of the ring addresses the same storage
/// cell.
pub open spec fn ring_kept<T>(map: TaxicabMap<T>, ring: Seq<(int, int)>, k: int) -> bool {
    &&& map.contains_spec(ring[k].0, ring[k].1)
    &&& forall|m: int|
        0 <= m < k ==> map.offsets_of(#[trigger] ring[m].0, ring[m].1) != map.offsets_of(
            ring[k].0,
            ring[k].1,
        )
}

/// The cells among the first `upto` of `ring` that are reported for
/// `map`, in the order of the ring.
pub open spec fn around_spec<T>(map: TaxicabMap<T>, ring: Seq<(int, int)>, upto: int) -> Seq<
    (int, int),
>
    decreases upto,
{
    if upto <= 0 {
        Seq::empty()
    } else if ring_kept(map, ring, upto - 1) {
        around_spec(map, ring, upto - 1).push(ring[upto - 1])
    } else {
        around_spec(map, ring, upto - 1)
    }
}

/// The cells of a ring that belong to a map, each storage cell once.
pub struct GetTaxicabPointsAround {
    items: Vec<(isize, isize)>,
    index: usize,
}

impl GetTaxicabPointsAround {
    /// The cursor is inside the items.
    #[verifier::type_invariant]
    pub closed spec fn well_formed(&self) -> bool {
        self.index <= self.items@.len()
    }

    /// The cells still to come, in order.
    pub closed spec fn remaining_spec(&self) -> Seq<(isize, isize)> {
        self.items@.subrange(self.index as int, self.items@.len() as int)
    }

    /// The next cell, or `None` when all have been produced.
    pub fn next(&mut self) -> (r: Option<(isize, isize)>)
        ensures
            old(self).remaining_spec().len() == 0 ==> r is None && final(self).remaining_spec()
                == old(self).remaining_spec(),
            old(self).remaining_spec().len() > 0 ==> r == Some(old(self).remaining_spec()[0])
                && final(self).remaining_spec() == old(self).remaining_spec().drop_first(),
    {
        proof {
            use_type_invariant(&*self);
        }
        if self.index < self.items.len() {
            let p = self.items[self.index];
            self.index = self.index + 1;
            assert(self.remaining_spec() =~= old(self).remaining_spec().drop_first());
            Some(p)
        } else {
            None
        }
    }

    /// All the cells still to come, in order.
    pub fn collect_vec(self) -> (r: Vec<(isize, isize)>)
        ensures
            r@ == self.remaining_spec(),
    {
        proof {
            use_type_invariant(&self);
        }
        let mut out: Vec<(isize, isize)> = Vec::new();
        let mut k: usize = self.index;
        while k < self.items.len()
            invariant
                self.index <= k <= self.items@.len(),
                out@ == self.items@.subrange(self.index as int, k as int),
            decreases self.items@.len() - k,
        {
            out.push(self.items[k]);
            k = k + 1;
            assert(out@ =~= self.items@.subrange(self.index as int, k as int));
        }
        out
    }
}

/// One cell of a map as iteration reports it: the logical coordinate of
/// the cell at storage offsets `(i, j)`, and its value.
pub open spec fn cell_entry<T>(map: TaxicabMap<T>, i: int, j: int) -> (int, int, T) {
    (i + map.origin_spec().0, j + map.origin_spec().1, map.cell_spec(i, j))
}

/// The `k`-th cell of a map in iteration order: along the second axis
/// first, then along the first.
pub open spec fn point_spec<T>(map: TaxicabMap<T>, k: int) -> (int, int, T) {
    cell_entry(map, k / (map.size_spec().1 as int), k % (map.size_spec().1 as int))
}

/// What iteration reports of an entry that holds a reference.
pub open spec fn entry_view<T>(e: (isize, isize, &T)) -> (int, int, T) {
    (e.0 as int, e.1 as int, *e.2)
}

/// All the cells of a map, produced one after another.
pub struct GetTaxicabPoints<'i, T> {
    map: &'i TaxicabMap<T>,
    i: usize,
    j: usize,
}

impl<'i, T> GetTaxicabPoints<'i, T> {
    /// The cursor stands on a cell, or just behind the last one.
    #[verifier::type_invariant]
    pub closed spec fn well_formed(&self) -> bool {
        &&& self.map.well_formed()
        &&& self.i <= self.map.size_spec().0
        &&& self.map.size_spec().1 == 0 ==> self.i == 0 && self.j == 0
        &&& self.map.size_spec().1 > 0 && self.i < self.map.size_spec().0 ==> self.j
            < self.map.size_spec().1
        &&& self.i == self.map.size_spec().0 ==> self.j == 0
    }

    /// The map that is walked.
    pub closed spec fn map_spec(&self) -> TaxicabMap<T> {
        *self.map
    }

    /// How many cells have been produced.
    pub closed spec fn index_spec(&self) -> int {
        self.i * self.map.size_spec().1 + self.j
    }

    /// The next cell with its logical coordinate, or `None` when all
    /// cells have been produced.
    pub fn next(&mut self) -> (r: Option<(isize, isize, &'i T)>)
        ensures
            final(self).map_spec() == old(self).map_spec(),
            0 <= old(self).index_spec() <= old(self).map_spec().cells_spec().len(),
            old(self).index_spec() == old(self).map_spec().cells_spec().len() ==> r is None
                && final(self).index_spec() == old(self).index_spec(),
            old(self).index_spec() < old(self).map_spec().cells_spec().len() ==> ({
                &&& final(self).index_spec() == old(self).index_spec() + 1
                &&& r matches Some(e)
                &&& entry_view(e) == point_spec(old(self).map_spec(), old(self).index_spec())
            }),
    {
        proof {
            use_type_invariant(&*self);
            self.map.lemma_well_formed();
        }
        let (w, h) = self.map.get_size();
        let (ox, oy) = self.map.get_origin();
        if self.i >= w || h == 0 {
            assert(self.index_spec() == w * h) by (nonlinear_arith)
                requires
                    self.index_spec() == self.i * h + self.j,
                    self.j == 0,
                    self.i == w || (h == 0 && self.i == 0),
            ;
            return None;
        }
        proof {
            lemma_cell_position(self.i as int, self.j as int, w as int, h as int);
        }
        let value = self.map.cell(self.i, self.j);
        let x = (self.i as i128 + ox as i128) as isize;
        let y = (self.j as i128 + oy as i128) as isize;
        let ghost before = self.index_spec();
        if self.j + 1 < h {
            self.j = self.j + 1;
        } else {
            proof {
                assert((self.i + 1) * h == self.i * h + h) by (nonlinear_arith);
            }
            self.j = 0;
            self.i = self.i + 1;
        }
        Some((x, y, value))
    }

    /// All the cells still to come, in order.
    pub fn collect_vec(self) -> (r: Vec<(isize, isize, &'i T)>)
        ensures
            r@.len() == self.map_spec().cells_spec().len() - self.index_spec(),
            forall|k: int|
                0 <= k < r@.len() ==> entry_view(#[trigger] r@[k]) == point_spec(
                    self.map_spec(),
                    self.index_spec() + k,
                ),
    {
        let ghost start = self.index_spec();
        let ghost total = self.map_spec().cells_spec().len() as int;
        proof {
            use_type_invariant(&self);
            self.map.lemma_well_formed();
            let w = self.map.size_spec().0 as int;
            let h = self.map.size_spec().1 as int;
            if h > 0 && self.i < w {
                lemma_cell_position(self.i as int, self.j as int, w, h);
            }
            assert(start <= total) by (nonlinear_arith)
                requires
                    start == self.i * h + self.j,
                    total == w * h,
                    0 <= w,
                    (h == 0 && self.i == 0 && self.j == 0) || (self.i == w && self.j == 0) || (
                    self.i * h + self.j < w * h),
            ;
        }
        let mut points = self;
        let mut out: Vec<(isize, isize, &'i T)> = Vec::new();
        loop
            invariant
                points.map_spec() == self.map_spec(),
                points.index_spec() == start + out@.len(),
                points.index_spec() <= total,
                total == self.map_spec().cells_spec().len(),
                forall|k: int|
                    0 <= k < out@.len() ==> entry_view(#[trigger] out@[k]) == point_spec(
                        self.map_spec(),
                        start + k,
                    ),
            ensures
                out@.len() == total - start,
                forall|k: int|
                    0 <= k < out@.len() ==> entry_view(#[trigger] out@[k]) == point_spec(
                        self.map_spec(),
                        start + k,
                    ),
            decreases total - points.index_spec(),
        {
            match points.next() {
                Some(e) => {
                    out.push(e);
                },
                None => {
                    break ;
                },
            }
        }
        out
    }
}

/// The storage offset of the `line`-th line of an axis of extent `extent`,
/// counted upwards when `ascending`, downwards from the far end otherwise.
pub open spec fn line_offset(extent: int, line: int, ascending: bool) -> int {
    if ascending {
        line
    } else {
        extent - line - 1
    }
}

/// The cells of one line of a map. For `Y` the line is a row, all cells
/// with one second coordinate; for `X` a column, all cells with one first
/// coordinate. The cells come in ascending order of the other coordinate.
pub open spec fn line_spec<T>(map: TaxicabMap<T>, direction: Direction, line: int) -> Seq<
    (int, int, T),
> {
    match direction {
        Direction::Y(ascending) => Seq::new(
            map.size_spec().0 as nat,
            |i: int| cell_entry(map, i, line_offset(map.size_spec().1 as int, line, ascending)),
        ),
        Direction::X(ascending) => Seq::new(
            map.size_spec().1 as nat,
            |j: int| cell_entry(map, line_offset(map.size_spec().0 as int, line, ascending), j),
        ),
    }
}

/// How many lines a map has across the axis of `direction`.
pub open spec fn line_count<T>(map: TaxicabMap<T>, direction: Direction) -> int {
    match direction {
        Direction::Y(_) => map.size_spec().1 as int,
        Direction::X(_) => map.size_spec().0 as int,
    }
}

/// The rows or the columns of a map, produced one after another.
pub struct GetTaxicabLine<'i, T> {
    map: &'i TaxicabMap<T>,
    direction: Direction,
    line: usize,
}

impl<'i, T> GetTaxicabLine<'i, T> {
    /// The map that is walked.
    pub closed spec fn map_spec(&self) -> TaxicabMap<T> {
        *self.map
    }

    /// The axis across which the lines are counted, and the sense.
    pub closed spec fn direction_spec(&self) -> Direction {
        self.direction
    }

    /// How many lines have been produced.
    pub closed spec fn line_index_spec(&self) -> int {
        self.line as int
    }

    /// The axis across which the lines are counted, and the sense.
    pub fn get_direction(&self) -> (r: Direction)
        ensures
            r == self.direction_spec(),
    {
        self.direction
    }

    /// How many lines have been produced.
    pub fn get_line(&self) -> (r: usize)
        ensures
            r == self.line_index_spec(),
    {
        self.line
    }

    /// The next line with the logical coordinates of its cells, or `None`
    /// when all lines have been produced.
    pub fn next(&mut self) -> (r: Option<Vec<(isize, isize, &'i T)>>)
        ensures
            final(self).map_spec() == old(self).map_spec(),
            final(self).direction_spec() == old(self).direction_spec(),
            old(self).line_index_spec() >= line_count(old(self).map_spec(), old(self).direction_spec())
                ==> r is None && final(self).line_index_spec() == old(self).line_index_spec(),
            old(self).line_index_spec() < line_count(old(self).map_spec(), old(self).direction_spec())
                ==> ({
                &&& final(self).line_index_spec() == old(self).line_index_spec() + 1
                &&& r matches Some(cells)
                &&& cells@.map_values(|e: (isize, isize, &T)| entry_view(e)) == line_spec(
                    old(self).map_spec(),
                    old(self).direction_spec(),
                    old(self).line_index_spec(),
                )
            }),
    {
        let (w, h) = self.map.get_size();
        let (ox, oy) = self.map.get_origin();
        proof {
            self.map.lemma_well_formed();
        }
        let ghost want = line_spec(*self.map, self.direction, self.line as int);
        let mut out: Vec<(isize, isize, &'i T)> = Vec::new();
        match self.direction {
            Direction::Y(ascending) => {
                if self.line >= h {
                    return None;
                }
                let j = if ascending {
                    self.line
                } else {
                    h - self.line - 1
                };
                let y = (j as i128 + oy as i128) as isize;
                let mut i: usize = 0;
                while i < w
                    invariant
                        i <= w,
                        j < h,
                        (w, h) == self.map.size_spec(),
                        (ox, oy) == self.map.origin_spec(),
                        ox + w <= isize::MAX,
                        y == j + oy,
                        out@.len() == i,
                        want.len() == w,
                        forall|k: int| 0 <= k < w ==> #[trigger] want[k] == cell_entry(*self.map, k, j as int),
                        forall|k: int| 0 <= k < i ==> entry_view(#[trigger] out@[k]) == want[k],
                    decreases w - i,
                {
                    let x = (i as i128 + ox as i128) as isize;
                    out.push((x, y, self.map.cell(i, j)));
                    i = i + 1;
                }
            },
            Direction::X(ascending) => {
                if self.line >= w {
                    return None;
                }
                let i = if ascending {
                    self.line
                } else {
                    w - self.line - 1
                };
                let x = (i as i128 + ox as i128) as isize;
                let mut j: usize = 0;
                while j < h
                    invariant
                        j <= h,
                        i < w,
                        (w, h) == self.map.size_spec(),
                        (ox, oy) == self.map.origin_spec(),
                        oy + h <= isize::MAX,
                        x == i + ox,
                        out@.len() == j,
                        want.len() == h,
                        forall|k: int| 0 <= k < h ==> #[trigger] want[k] == cell_entry(*self.map, i as int, k),
                        forall|k: int| 0 <= k < j ==> entry_view(#[trigger] out@[k]) == want[k],
                    decreases h - j,
                {
                    let y = (j as i128 + oy as i128) as isize;
                    out.push((x, y, self.map.cell(i, j)));
                    j = j + 1;
                }
            },
        }
        assert(out@.map_values(|e: (isize, isize, &T)| entry_view(e)) =~= want);
        self.line = self.line + 1;
        Some(out)
    }
}

impl<T> TaxicabMap<T> {
    /// All the cells of the map with their logical coordinates, along the
    /// second axis first, then along the first.
    pub fn points_all(&self) -> (r: GetTaxicabPoints<'_, T>)
        ensures
            r.map_spec() == *self,
            r.index_spec() == 0,
    {
        let _ = self.get_size();
        GetTaxicabPoints { map: self, i: 0, j: 0 }
    }

    /// The rows of the map: in ascending order of the second coordinate
    /// when `reverse` is set, in descending order otherwise.
    pub fn rows(&self, reverse: bool) -> (r: GetTaxicabLine<'_, T>)
        ensures
            r.map_spec() == *self,
            r.direction_spec() == Direction::Y(reverse),
            r.line_index_spec() == 0,
    {
        GetTaxicabLine { map: self, direction: Direction::Y(reverse), line: 0 }
    }

    /// The columns of the map: in ascending order of the first coordinate
    /// when `reverse` is set, in descending order otherwise.
    pub fn columns(&self, reverse: bool) -> (r: GetTaxicabLine<'_, T>)
        ensures
            r.map_spec() == *self,
            r.direction_spec() == Direction::X(reverse),
            r.line_index_spec() == 0,
    {
        GetTaxicabLine { map: self, direction: Direction::X(reverse), line: 0 }
    }
}

/// The position in storage of the cell that `c` addresses in `map`, if it
/// addresses one.
pub open spec fn position_spec<T>(map: TaxicabMap<T>, c: (int, int)) -> Option<int> {
    match map.offsets_of(c.0, c.1) {
        Some(p) => Some(p.0 * map.size_spec().1 + p.1),
        None => None,
    }
}

/// Two coordinates address the same storage cell exactly when they have
/// the same position.
pub proof fn lemma_position_injective<T>(map: TaxicabMap<T>, a: (int, int), b: (int, int))
    ensures
        (position_spec(map, a) == position_spec(map, b)) == (map.offsets_of(a.0, a.1)
            == map.offsets_of(b.0, b.1)),
        position_spec(map, a) matches Some(k) ==> 0 <= k < map.size_spec().0 * map.size_spec().1,
{
    let w = map.size_spec().0 as int;
    let h = map.size_spec().1 as int;
    let (ox, oy) = (map.origin_spec().0 as int, map.origin_spec().1 as int);
    lemma_normalize_bound(a.0, ox, w, map.cycle_spec().0);
    lemma_normalize_bound(a.1, oy, h, map.cycle_spec().1);
    lemma_normalize_bound(b.0, ox, w, map.cycle_spec().0);
    lemma_normalize_bound(b.1, oy, h, map.cycle_spec().1);
    if let Some(p) = map.offsets_of(a.0, a.1) {
        lemma_cell_position(p.0, p.1, w, h);
    }
    if let Some(q) = map.offsets_of(b.0, b.1) {
        lemma_cell_position(q.0, q.1, w, h);
    }
}

/// Every reported cell is a cell of the ring that belongs to the map, and
/// no more cells are reported than the ring has.
pub proof fn lemma_around_members<T>(map: TaxicabMap<T>, ring: Seq<(int, int)>, upto: int)
    requires
        0 <= upto <= ring.len(),
    ensures
        around_spec(map, ring, upto).len() <= upto,
        forall|k: int|
            0 <= k < around_spec(map, ring, upto).len() ==> ring.contains(
                #[trigger] around_spec(map, ring, upto)[k],
            ) && map.contains_spec(
                around_spec(map, ring, upto)[k].0,
                around_spec(map, ring, upto)[k].1,
            ),
    decreases upto,
{
    if upto > 0 {
        lemma_around_members(map, ring, upto - 1);
        assert(ring.contains(ring[upto - 1]));
    }
}

/// Whether `k` occurs in `seen`.
fn seen_before(seen: &Vec<usize>, k: usize) -> (r: bool)
    ensures
        r == seen@.contains(k),
{
    let mut m: usize = 0;
    while m < seen.len()
        invariant
            m <= seen@.len(),
            forall|s: int| 0 <= s < m ==> seen@[s] != k,
        decreases seen@.len() - m,
    {
        if seen[m] == k {
            return true;
        }
        m = m + 1;
    }
    false
}

/// The cells within taxicab distance `n` of `(x, y)`: the rings of radius
/// zero up to `n`, one after another.
pub open spec fn disk(x: int, y: int, n: int) -> Seq<(int, int)>
    decreases n,
{
    if n < 0 {
        Seq::empty()
    } else if n == 0 {
        ring(x, y, 0)
    } else {
        disk(x, y, n - 1) + ring(x, y, n)
    }
}

/// Whether `seen` holds the positions of exactly those of the first
/// `upto` cells that belong to the map.
pub open spec fn seen_spec<T>(map: TaxicabMap<T>, cells: Seq<(int, int)>, upto: int, seen: Seq<usize>) -> bool {
    &&& forall|m: int|
        0 <= m < upto && position_spec(map, cells[m]) is Some ==> seen.contains(
            (#[trigger] position_spec(map, cells[m])).unwrap() as usize,
        )
    &&& forall|s: int| 0 <= s < seen.len() ==> placed(map, cells, upto, #[trigger] seen[s] as int)
}

/// Whether one of the first `upto` cells stands at position `k`.
pub open spec fn placed<T>(map: TaxicabMap<T>, cells: Seq<(int, int)>, upto: int, k: int) -> bool {
    exists|m: int| 0 <= m < upto && #[trigger] position_spec(map, cells[m]) == Some(k)
}

/// What is reported of the first cells of a sequence does not depend on
/// the cells behind them.
pub proof fn lemma_around_prefix<T>(
    map: TaxicabMap<T>,
    a: Seq<(int, int)>,
    b: Seq<(int, int)>,
    upto: int,
)
    requires
        0 <= upto <= a.len(),
        upto <= b.len(),
        forall|i: int| 0 <= i < upto ==> a[i] == b[i],
    ensures
        around_spec(map, a, upto) == around_spec(map, b, upto),
    decreases upto,
{
    if upto > 0 {
        lemma_around_prefix(map, a, b, upto - 1);
        assert(ring_kept(map, a, upto - 1) == ring_kept(map, b, upto - 1)) by {
            if ring_kept(map, a, upto - 1) {
                assert forall|m: int| 0 <= m < upto - 1 implies map.offsets_of(
                    #[trigger] b[m].0,
                    b[m].1,
                ) != map.offsets_of(b[upto - 1].0, b[upto - 1].1) by {
                    assert(map.offsets_of(a[m].0, a[m].1) != map.offsets_of(
                        a[upto - 1].0,
                        a[upto - 1].1,
                    ));
                }
            }
            if ring_kept(map, b, upto - 1) {
                assert forall|m: int| 0 <= m < upto - 1 implies map.offsets_of(
                    #[trigger] a[m].0,
                    a[m].1,
                ) != map.offsets_of(a[upto - 1].0, a[upto - 1].1) by {
                    assert(map.offsets_of(b[m].0, b[m].1) != map.offsets_of(
                        b[upto - 1].0,
                        b[upto - 1].1,
                    ));
                }
            }
        }
    }
}

/// Reports the cells of the ring of radius `n` around `(x, y)` behind the
/// cells `before`, which have been reported into `items`.
fn gather_ring<T>(
    map: &TaxicabMap<T>,
    x: isize,
    y: isize,
    n: usize,
    items: &mut Vec<(isize, isize)>,
    seen: &mut Vec<usize>,
    Ghost(before): Ghost<Seq<(int, int)>>,
)
    requires
        ring_fits(x as int, y as int, n as int),
        as_ints(old(items)@) == around_spec(*map, before, before.len() as int),
        seen_spec(*map, before, before.len() as int, old(seen)@),
    ensures
        as_ints(final(items)@) == around_spec(
            *map,
            before + ring(x as int, y as int, n as int),
            (before + ring(x as int, y as int, n as int)).len() as int,
        ),
        seen_spec(
            *map,
            before + ring(x as int, y as int, n as int),
            (before + ring(x as int, y as int, n as int)).len() as int,
            final(seen)@,
        ),
{
    let ghost cells = before + ring(x as int, y as int, n as int);
    let ghost base = before.len() as int;
    let mut points = DiamondPoints::new(x, y, n as isize);
    proof {
        lemma_around_prefix(*map, before, cells, base);
        assert forall|m: int| 0 <= m < base implies cells[m] == before[m] by {}
        lemma_seen_prefix(*map, before, cells, base, seen@);
    }
    loop
        invariant
            cells == before + ring(x as int, y as int, n as int),
            base == before.len(),
            points.ring_spec() == ring(x as int, y as int, n as int),
            0 <= points.index_spec() <= points.ring_spec().len(),
            points.remaining_spec() == points.ring_spec().subrange(
                points.index_spec(),
                points.ring_spec().len() as int,
            ),
            as_ints(items@) == around_spec(*map, cells, base + points.index_spec()),
            seen_spec(*map, cells, base + points.index_spec(), seen@),
        ensures
            as_ints(items@) == around_spec(*map, cells, cells.len() as int),
            seen_spec(*map, cells, cells.len() as int, seen@),
        decreases points.ring_spec().len() - points.index_spec(),
    {
        let ghost at = base + points.index_spec();
        let ghost items_before = items@;
        let ghost seen_old = seen@;
        match points.next() {
            None => {
                break ;
            },
            Some(p) => {
                let ghost c = (p.0 as int, p.1 as int);
                assert(c == cells[at]);
                match map.position(p.0, p.1) {
                    None => {
                        assert(!ring_kept(*map, cells, at));
                        assert(seen_spec(*map, cells, at + 1, seen@)) by {
                            lemma_seen_more(*map, cells, at, seen@);
                        }
                    },
                    Some(k) => {
                        assert(position_spec(*map, c) == Some(k as int));
                        if !seen_before(seen, k) {
                            proof {
                                assert forall|m: int| 0 <= m < at implies map.offsets_of(
                                    #[trigger] cells[m].0,
                                    cells[m].1,
                                ) != map.offsets_of(c.0, c.1) by {
                                    lemma_position_injective(*map, cells[m], c);
                                    if position_spec(*map, cells[m]) is Some {
                                        assert(seen@.contains(
                                            position_spec(*map, cells[m]).unwrap() as usize,
                                        ));
                                    }
                                }
                                assert(ring_kept(*map, cells, at));
                            }
                            items.push(p);
                            seen.push(k);
                            proof {
                                assert(as_ints(items@) =~= as_ints(items_before).push(c));
                                assert forall|s: int| 0 <= s < seen@.len() implies placed(
                                    *map,
                                    cells,
                                    at + 1,
                                    #[trigger] seen@[s] as int,
                                ) by {
                                    if s < seen_old.len() {
                                        assert(seen@[s] == seen_old[s]);
                                        assert(placed(*map, cells, at, seen_old[s] as int));
                                        let m = choose|m: int|
                                            0 <= m < at && #[trigger] position_spec(
                                                *map,
                                                cells[m],
                                            ) == Some(seen_old[s] as int);
                                        assert(position_spec(*map, cells[m]) == Some(
                                            seen@[s] as int,
                                        ));
                                    } else {
                                        assert(position_spec(*map, cells[at]) == Some(
                                            seen@[s] as int,
                                        ));
                                    }
                                }
                                assert forall|m: int|
                                    0 <= m < at + 1 && position_spec(*map, cells[m]) is Some
                                        implies seen@.contains(
                                    (#[trigger] position_spec(*map, cells[m])).unwrap() as usize,
                                ) by {
                                    if m < at {
                                        let v = position_spec(*map, cells[m]).unwrap() as usize;
                                        assert(seen_old.contains(v));
                                        let s = choose|s: int|
                                            0 <= s < seen_old.len() && seen_old[s] == v;
                                        assert(seen@[s] == v);
                                    } else {
                                        assert(seen@[seen@.len() - 1] == k);
                                    }
                                }
                            }
                        } else {
                            proof {
                                let s = choose|s: int| 0 <= s < seen@.len() && seen@[s] == k;
                                assert(placed(*map, cells, at, seen@[s] as int));
                                let m = choose|m: int|
                                    0 <= m < at && #[trigger] position_spec(*map, cells[m])
                                        == Some(seen@[s] as int);
                                lemma_position_injective(*map, cells[m], c);
                                assert(!ring_kept(*map, cells, at));
                                lemma_seen_more(*map, cells, at, seen@);
                            }
                        }
                    },
                }
            },
        }
    }
}

/// What is seen of the first cells of a sequence does not depend on the
/// cells behind them.
proof fn lemma_seen_prefix<T>(
    map: TaxicabMap<T>,
    a: Seq<(int, int)>,
    b: Seq<(int, int)>,
    upto: int,
    seen: Seq<usize>,
)
    requires
        0 <= upto <= a.len(),
        upto <= b.len(),
        forall|i: int| 0 <= i < upto ==> a[i] == b[i],
        seen_spec(map, a, upto, seen),
    ensures
        seen_spec(map, b, upto, seen),
{
    assert forall|s: int| 0 <= s < seen.len() implies placed(
        map,
        b,
        upto,
        #[trigger] seen[s] as int,
    ) by {
        assert(placed(map, a, upto, seen[s] as int));
        let m = choose|m: int|
            0 <= m < upto && #[trigger] position_spec(map, a[m]) == Some(seen[s] as int);
        assert(a[m] == b[m]);
        assert(position_spec(map, b[m]) == Some(seen[s] as int));
    }
    assert forall|m: int|
        0 <= m < upto && position_spec(map, b[m]) is Some implies seen.contains(
        (#[trigger] position_spec(map, b[m])).unwrap() as usize,
    ) by {
        assert(a[m] == b[m]);
        assert(seen.contains(position_spec(map, a[m]).unwrap() as usize));
    }
}

/// A cell whose position is in `seen`, or that has none, leaves `seen` as
/// it is.
proof fn lemma_seen_more<T>(map: TaxicabMap<T>, cells: Seq<(int, int)>, at: int, seen: Seq<usize>)
    requires
        0 <= at < cells.len(),
        seen_spec(map, cells, at, seen),
        position_spec(map, cells[at]) matches Some(k) ==> seen.contains(k as usize),
    ensures
        seen_spec(map, cells, at + 1, seen),
{
    assert forall|s: int| 0 <= s < seen.len() implies placed(
        map,
        cells,
        at + 1,
        #[trigger] seen[s] as int,
    ) by {
        assert(placed(map, cells, at, seen[s] as int));
        let m = choose|m: int|
            0 <= m < at && #[trigger] position_spec(map, cells[m]) == Some(seen[s] as int);
        assert(position_spec(map, cells[m]) == Some(seen[s] as int));
    }
}

impl<T> TaxicabMap<T> {
    /// The cells at taxicab distance `steps` from `(x, y)` that belong to
    /// the map, in the order of the ring.
    ///
    /// Where the map wraps around and several cells of the ring address
    /// the same storage cell, only the first of them is reported.
    pub fn points_around(&self, x: isize, y: isize, steps: usize) -> (r: GetTaxicabPointsAround)
        requires
            ring_fits(x as int, y as int, steps as int),
        ensures
            as_ints(r.remaining_spec()) == around_spec(
                *self,
                ring(x as int, y as int, steps as int),
                ring_len(steps as int) as int,
            ),
    {
        let ghost cells = ring(x as int, y as int, steps as int);
        let mut items: Vec<(isize, isize)> = Vec::new();
        let mut seen: Vec<usize> = Vec::new();
        assert(as_ints(items@) =~= around_spec(*self, Seq::empty(), 0));
        gather_ring(self, x, y, steps, &mut items, &mut seen, Ghost(Seq::empty()));
        assert(Seq::<(int, int)>::empty() + cells =~= cells);
        let r = GetTaxicabPointsAround { items, index: 0 };
        assert(r.remaining_spec() =~= items@);
        r
    }

    /// The cells within taxicab distance `steps` of `(x, y)` that belong
    /// to the map: the centre, then ring after ring.
    ///
    /// Where the map wraps around and several cells address the same
    /// storage cell, only the first of them is reported.
    pub fn points_within(&self, x: isize, y: isize, steps: usize) -> (r: GetTaxicabPointsAround)
        requires
            ring_fits(x as int, y as int, steps as int),
        ensures
            as_ints(r.remaining_spec()) == around_spec(
                *self,
                disk(x as int, y as int, steps as int),
                disk(x as int, y as int, steps as int).len() as int,
            ),
    {
        let mut items: Vec<(isize, isize)> = Vec::new();
        let mut seen: Vec<usize> = Vec::new();
        assert(as_ints(items@) =~= around_spec(*self, Seq::empty(), 0));
        assert(disk(x as int, y as int, -1) =~= Seq::empty());
        let mut n: usize = 0;
        while n <= steps
            invariant
                n <= steps + 1,
                ring_fits(x as int, y as int, steps as int),
                as_ints(items@) == around_spec(
                    *self,
                    disk(x as int, y as int, n - 1),
                    disk(x as int, y as int, n - 1).len() as int,
                ),
                seen_spec(
                    *self,
                    disk(x as int, y as int, n - 1),
                    disk(x as int, y as int, n - 1).len() as int,
                    seen@,
                ),
            decreases steps + 1 - n,
        {
            gather_ring(
                self,
                x,
                y,
                n,
                &mut items,
                &mut seen,
                Ghost(disk(x as int, y as int, n - 1)),
            );
            assert(disk(x as int, y as int, n - 1) + ring(x as int, y as int, n as int) =~= disk(
                x as int,
                y as int,
                n as int,
            ));
            if n == steps {
                let r = GetTaxicabPointsAround { items, index: 0 };
                assert(r.remaining_spec() =~= items@);
                return r;
            }
            n = n + 1;
        }
        let r = GetTaxicabPointsAround { items, index: 0 };
        assert(r.remaining_spec() =~= items@);
        r
    }

    /// The neighbours of `(x, y)` that belong to the map: at most four
    /// cells, in the order east, north, west, south.
    pub fn points_nearby(&self, x: isize, y: isize) -> (r: GetTaxicabPointsAround)
        requires
            ring_fits(x as int, y as int, 1),
        ensures
            as_ints(r.remaining_spec()) == around_spec(*self, ring(x as int, y as int, 1), 4),
            r.remaining_spec().len() <= 4,
    {
        proof {
            lemma_around_members(*self, ring(x as int, y as int, 1), 4);
        }
        self.points_around(x, y, 1)
    }

    /// The joints that lead from `(x, y)` to its neighbours in the map, in
    /// the order of `points_nearby`.
    pub fn joints_nearby(&self, x: isize, y: isize) -> (r: Vec<Joint>)
        requires
            ring_fits(x as int, y as int, 1),
        ensures
            r@.len() == around_spec(*self, ring(x as int, y as int, 1), 4).len(),
            forall|k: int|
                0 <= k < r@.len() ==> (#[trigger] r@[k]).source_spec() == (x, y)
                    && r@[k].target_spec() == around_spec(*self, ring(x as int, y as int, 1), 4)[k],
    {
        let ghost cells = ring(x as int, y as int, 1);
        let ghost near = around_spec(*self, cells, 4);
        let points = self.points_nearby(x, y).collect_vec();
        let mut out: Vec<Joint> = Vec::new();
        let mut k: usize = 0;
        proof {
            lemma_around_members(*self, cells, 4);
        }
        while k < points.len()
            invariant
                k <= points@.len(),
                as_ints(points@) == near,
                cells == ring(x as int, y as int, 1),
                out@.len() == k,
                forall|m: int| 0 <= m < near.len() ==> cells.contains(#[trigger] near[m]),
                forall|m: int|
                    0 <= m < k ==> (#[trigger] out@[m]).source_spec() == (x, y)
                        && out@[m].target_spec() == near[m],
            decreases points@.len() - k,
        {
            let p = points[k];
            proof {
                assert(as_ints(points@)[k as int] == (p.0 as int, p.1 as int));
                assert(cells.contains(near[k as int]));
                let m = choose|m: int| 0 <= m < cells.len() && cells[m] == near[k as int];
                let d = if m == 0 {
                    Direction::X(true)
                } else if m == 1 {
                    Direction::Y(true)
                } else if m == 2 {
                    Direction::X(false)
                } else {
                    Direction::Y(false)
                };
                assert(step_spec((x, y), d) == (p.0 as int, p.1 as int));
            }
            match Joint::from_point((x, y), p) {
                Ok(j) => {
                    out.push(j);
                },
                Err(_) => {
                    assert(false);
                },
            }
            k = k + 1;
        }
        out
    }
}

/// All the cells of a map, produced one after another for change.
pub struct MutGetTaxicabPoints<'i, T> {
    /// The map that is walked.
    pub map: &'i mut TaxicabMap<T>,
    /// The first storage offset of the cell that comes next.
    pub i: usize,
    /// The second storage offset of the cell that comes next.
    pub j: usize,
}

impl<'i, T> MutGetTaxicabPoints<'i, T> {
    /// The map that is walked, as it stands.
    pub open spec fn map_spec(&self) -> TaxicabMap<T> {
        *self.map
    }

    /// The storage offsets of the cell that comes next.
    pub open spec fn cursor_spec(&self) -> (usize, usize) {
        (self.i, self.j)
    }

    /// Whether a cell is still to come.
    pub open spec fn pending(&self) -> bool {
        self.cursor_spec().0 < self.map_spec().size_spec().0 && self.cursor_spec().1
            < self.map_spec().size_spec().1
    }

    /// The next cell with its logical coordinate, or `None` when all
    /// cells have been produced. What is written through the reference
    /// lands in that cell alone.
    pub fn next(&mut self) -> (r: Option<(isize, isize, &mut T)>)
        ensures
            final(self).map_spec().size_spec() == old(self).map_spec().size_spec(),
            final(self).map_spec().cycle_spec() == old(self).map_spec().cycle_spec(),
            final(self).map_spec().origin_spec() == old(self).map_spec().origin_spec(),
            !old(self).pending() ==> ({
                &&& r is None
                &&& final(self).map_spec().cells_spec() == old(self).map_spec().cells_spec()
                &&& final(self).cursor_spec() == old(self).cursor_spec()
            }),
            old(self).pending() ==> ({
                let i = old(self).cursor_spec().0 as int;
                let j = old(self).cursor_spec().1 as int;
                let h = old(self).map_spec().size_spec().1 as int;
                &&& r matches Some(e)
                &&& (e.0 as int, e.1 as int, *e.2) == cell_entry(old(self).map_spec(), i, j)
                &&& final(self).map_spec().cells_spec() == old(self).map_spec().cells_spec().update(
                    i * h + j,
                    *final(e.2),
                )
                &&& final(self).cursor_spec() == (if j + 1 < h {
                    (i as usize, (j + 1) as usize)
                } else {
                    ((i + 1) as usize, 0usize)
                })
            }),
    {
        let (w, h) = self.map.get_size();
        let (ox, oy) = self.map.get_origin();
        proof {
            self.map.lemma_well_formed();
        }
        if self.i >= w || self.j >= h {
            return None;
        }
        let i = self.i;
        let j = self.j;
        let x = (i as i128 + ox as i128) as isize;
        let y = (j as i128 + oy as i128) as isize;
        proof {
            let map = *self.map;
            map.lemma_window(x as int, y as int);
            lemma_normalize_bound(x as int, ox as int, w as int, map.cycle_spec().0);
            lemma_normalize_bound(y as int, oy as int, h as int, map.cycle_spec().1);
        }
        if j + 1 < h {
            self.j = j + 1;
        } else {
            self.j = 0;
            self.i = i + 1;
        }
        match self.map.mut_point(x, y) {
            Some(v) => Some((x, y, v)),
            None => None,
        }
    }
}

impl<T> TaxicabMap<T> {
    /// All the cells of the map with their logical coordinates, for
    /// change, along the second axis first, then along the first.
    pub fn points_mut(&mut self) -> (r: MutGetTaxicabPoints<'_, T>)
        ensures
            r.map_spec() == *old(self),
            r.cursor_spec() == (0usize, 0usize),
            *final(self) == *final(r.map),
    {
        MutGetTaxicabPoints { map: self, i: 0, j: 0 }
    }
}

} // verus!
