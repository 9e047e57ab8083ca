use crate::taxicab::direction::Direction;
use vstd::arithmetic::div_mod::lemma_fundamental_div_mod_converse;
use vstd::prelude::*;

verus! {

/// Where a coordinate falls along one axis of a dense map: its 0-based
/// offset in storage, if it has one.
///
/// The coordinate is first moved by the origin. On a wrapping axis it is
/// then reduced modulo the extent; on a plain axis it must lie inside the
/// extent. An axis of extent zero holds nothing.
pub open spec fn normalize(v: int, origin: int, extent: int, cycle: bool) -> Option<int> {
    let d = v - origin;
    if extent <= 0 {
        None
    } else if cycle {
        Some(d % extent)
    } else if 0 <= d < extent {
        Some(d)
    } else {
        None
    }
}

/// The storage offsets of the coordinate `(x, y)` in a map of extent
/// `w` by `h`, if the coordinate belongs to it.
pub open spec fn relative_spec(
    x: int,
    y: int,
    origin_x: int,
    origin_y: int,
    w: int,
    h: int,
    cycle_x: bool,
    cycle_y: bool,
) -> Option<(int, int)> {
    match (normalize(x, origin_x, w, cycle_x), normalize(y, origin_y, h, cycle_y)) {
        (Some(i), Some(j)) => Some((i, j)),
        _ => None,
    }
}

/// A storage offset is inside the extent, and an offset inside the extent
/// is the offset of its coordinate.
pub proof fn lemma_normalize_bound(v: int, origin: int, extent: int, cycle: bool)
    ensures
        normalize(v, origin, extent, cycle) matches Some(i) ==> 0 <= i < extent,
        0 <= v - origin < extent ==> normalize(v, origin, extent, cycle) == Some(v - origin),
{
    if extent > 0 && cycle {
        vstd::arithmetic::div_mod::lemma_mod_bound(v - origin, extent);
        if 0 <= v - origin < extent {
            vstd::arithmetic::div_mod::lemma_small_mod((v - origin) as nat, extent as nat);
        }
    }
}

/// The position of cell `(i, j)` in row-major storage of height `h` is
/// inside a storage of `w` times `h` cells, and determines the cell.
pub proof fn lemma_cell_position(i: int, j: int, w: int, h: int)
    requires
        0 <= i < w,
        0 <= j < h,
    ensures
        0 <= i * h + j < w * h,
        (i * h + j) / h == i,
        (i * h + j) % h == j,
{
    assert(i * h + j < w * h) by (nonlinear_arith)
        requires
            0 <= i < w,
            0 <= j < h,
    {
        assert((i + 1) * h <= w * h);
        assert((i + 1) * h == i * h + h);
    }
    assert(0 <= i * h) by (nonlinear_arith)
        requires
            0 <= i,
            0 <= h,
    ;
    lemma_fundamental_div_mod_converse(i * h + j, h, i, j);
}

/// The nonnegative remainder of a signed value by a positive extent.
fn euclid_rem(d: i128, extent: usize) -> (r: usize)
    requires
        extent > 0,
        d > i128::MIN,
    ensures
        r == (d as int) % (extent as int),
        r < extent,
{
    let e: u128 = extent as u128;
    if d >= 0 {
        let r: u128 = (d as u128) % e;
        r as usize
    } else {
        let n: u128 = (-(d + 1)) as u128;
        let q: u128 = n / e;
        let r: u128 = n % e;
        proof {
            let back: int = e - 1 - r;
            assert(n == q * e + r) by {
                vstd::arithmetic::div_mod::lemma_fundamental_div_mod(n as int, e as int);
                assert(e * q == q * e) by (nonlinear_arith);
            }
            assert(d as int == (-(q + 1)) * e + back) by (nonlinear_arith)
                requires
                    d as int == -(n + 1),
                    n == q * e + r,
                    back == e - 1 - r,
            ;
            lemma_fundamental_div_mod_converse(d as int, e as int, -(q + 1), back);
        }
        (e - 1 - r) as usize
    }
}

/// The storage offset of `v` along one axis.
fn normalize_axis(v: isize, origin: isize, extent: usize, cycle: bool) -> (r: Option<usize>)
    ensures
        r matches Some(i) ==> normalize(v as int, origin as int, extent as int, cycle) == Some(
            i as int,
        ),
        r is None ==> normalize(v as int, origin as int, extent as int, cycle) is None,
{
    let d: i128 = v as i128 - origin as i128;
    if extent == 0 {
        None
    } else if cycle {
        Some(euclid_rem(d, extent))
    } else if 0 <= d && d < extent as i128 {
        Some(d as usize)
    } else {
        None
    }
}

/// Turns the logical coordinate `(x, y)` into the storage offsets of
/// a map of extent `w` by `h` with the given origin and wraparound.
///
/// Returns `None` when the coordinate does not belong to the map.
pub fn absolute_to_relative(
    x: isize,
    y: isize,
    origin_x: isize,
    origin_y: isize,
    w: usize,
    h: usize,
    cycle_x: bool,
    cycle_y: bool,
) -> (r: Option<(usize, usize)>)
    ensures
        r matches Some(p) ==> relative_spec(
            x as int,
            y as int,
            origin_x as int,
            origin_y as int,
            w as int,
            h as int,
            cycle_x,
            cycle_y,
        ) == Some((p.0 as int, p.1 as int)) && p.0 < w && p.1 < h,
        r is None ==> relative_spec(
            x as int,
            y as int,
            origin_x as int,
            origin_y as int,
            w as int,
            h as int,
            cycle_x,
            cycle_y,
        ) is None,
{
    proof {
        lemma_normalize_bound(x as int, origin_x as int, w as int, cycle_x);
        lemma_normalize_bound(y as int, origin_y as int, h as int, cycle_y);
    }
    match normalize_axis(x, origin_x, w, cycle_x) {
        Some(i) => match normalize_axis(y, origin_y, h, cycle_y) {
            Some(j) => Some((i, j)),
            None => None,
        },
        None => None,
    }
}

/// Turns storage offsets into the logical coordinate of the cell.
pub fn relative_to_absolute(x: usize, y: usize, origin_x: isize, origin_y: isize) -> (r: (
    isize,
    isize,
))
    requires
        x + origin_x <= isize::MAX,
        y + origin_y <= isize::MAX,
    ensures
        r.0 == x + origin_x,
        r.1 == y + origin_y,
{
    ((x as i128 + origin_x as i128) as isize, (y as i128 + origin_y as i128) as isize)
}

/// A dense rectangular map of the rectilinear grid.
///
/// The map stores one value for each cell of a `width` by `height`
/// extent. A logical coordinate is moved by the origin to find its cell,
/// and on a wrapping axis it is reduced modulo the extent first.
pub struct TaxicabMap<T> {
    cells: Vec<T>,
    width: usize,
    height: usize,
    cycle_x: bool,
    cycle_y: bool,
    origin_x: isize,
    origin_y: isize,
}

impl<T> TaxicabMap<T> {
    /// The storage holds one value per cell, and every cell has a logical
    /// coordinate that fits the machine integers.
    #[verifier::type_invariant]
    pub closed spec fn well_formed(&self) -> bool {
        &&& self.cells.len() == self.width * self.height
        &&& self.origin_x + self.width <= isize::MAX
        &&& self.origin_y + self.height <= isize::MAX
    }

    /// The extent of the map: width, then height.
    pub closed spec fn size_spec(&self) -> (usize, usize) {
        (self.width, self.height)
    }

    /// Whether the first and the second axis wrap around.
    pub closed spec fn cycle_spec(&self) -> (bool, bool) {
        (self.cycle_x, self.cycle_y)
    }

    /// The logical coordinate of the cell at storage offsets `(0, 0)`.
    pub closed spec fn origin_spec(&self) -> (isize, isize) {
        (self.origin_x, self.origin_y)
    }

    /// The stored values, row by row along the first axis: the cell at
    /// offsets `(i, j)` stands at position `i * height + j`.
    pub closed spec fn cells_spec(&self) -> Seq<T> {
        self.cells@
    }

    /// The storage offsets of the logical coordinate `(x, y)`, if it
    /// belongs to the map.
    pub open spec fn offsets_of(&self, x: int, y: int) -> Option<(int, int)> {
        relative_spec(
            x,
            y,
            self.origin_spec().0 as int,
            self.origin_spec().1 as int,
            self.size_spec().0 as int,
            self.size_spec().1 as int,
            self.cycle_spec().0,
            self.cycle_spec().1,
        )
    }

    /// Whether the logical coordinate `(x, y)` belongs to the map.
    pub open spec fn contains_spec(&self, x: int, y: int) -> bool {
        self.offsets_of(x, y) is Some
    }

    /// The value stored at offsets `(i, j)`.
    pub open spec fn cell_spec(&self, i: int, j: int) -> T {
        self.cells_spec()[i * self.size_spec().1 + j]
    }

    /// The value at the logical coordinate `(x, y)`, if it belongs to the
    /// map.
    pub open spec fn value_at(&self, x: int, y: int) -> Option<T> {
        match self.offsets_of(x, y) {
            Some((i, j)) => Some(self.cell_spec(i, j)),
            None => None,
        }
    }

    /// What the invariant says, over the public model.
    pub proof fn lemma_well_formed(self)
        requires
            self.well_formed(),
        ensures
            self.cells_spec().len() == self.size_spec().0 * self.size_spec().1,
            self.origin_spec().0 + self.size_spec().0 <= isize::MAX,
            self.origin_spec().1 + self.size_spec().1 <= isize::MAX,
    {
    }

    /// Sets the wraparound of both axes and hands the map back.
    pub fn with_cycle(self, cycle_x: bool, cycle_y: bool) -> (r: Self)
        ensures
            r.cycle_spec() == (cycle_x, cycle_y),
            r.size_spec() == self.size_spec(),
            r.origin_spec() == self.origin_spec(),
            r.cells_spec() == self.cells_spec(),
    {
        proof {
            use_type_invariant(&self);
        }
        let mut map = self;
        map.cycle_x = cycle_x;
        map.cycle_y = cycle_y;
        map
    }

    /// Whether the first and the second axis wrap around.
    pub fn get_cycle(&self) -> (r: (bool, bool))
        ensures
            r == self.cycle_spec(),
    {
        (self.cycle_x, self.cycle_y)
    }

    /// Sets the wraparound of both axes.
    pub fn set_cycle(&mut self, cycle_x: bool, cycle_y: bool)
        ensures
            final(self).cycle_spec() == (cycle_x, cycle_y),
            final(self).size_spec() == old(self).size_spec(),
            final(self).origin_spec() == old(self).origin_spec(),
            final(self).cells_spec() == old(self).cells_spec(),
    {
        proof {
            use_type_invariant(&*self);
        }
        self.cycle_x = cycle_x;
        self.cycle_y = cycle_y;
    }

    /// Moves the origin by `(x, y)`: the value that was found at
    /// `(a, b)` is afterwards found at `(a + x, b + y)`.
    pub fn shift_origin(&mut self, x: isize, y: isize)
        requires
            isize::MIN <= old(self).origin_spec().0 + x,
            old(self).origin_spec().0 + x + old(self).size_spec().0 <= isize::MAX,
            isize::MIN <= old(self).origin_spec().1 + y,
            old(self).origin_spec().1 + y + old(self).size_spec().1 <= isize::MAX,
        ensures
            final(self).origin_spec().0 == old(self).origin_spec().0 + x,
            final(self).origin_spec().1 == old(self).origin_spec().1 + y,
            final(self).size_spec() == old(self).size_spec(),
            final(self).cycle_spec() == old(self).cycle_spec(),
            final(self).cells_spec() == old(self).cells_spec(),
            forall|a: int, b: int| #[trigger]
                final(self).value_at(a + x, b + y) == old(self).value_at(a, b),
    {
        proof {
            use_type_invariant(&*self);
        }
        self.origin_x = self.origin_x + x;
        self.origin_y = self.origin_y + y;
    }

    /// The extent of the map: width, then height.
    pub fn get_size(&self) -> (r: (usize, usize))
        ensures
            r == self.size_spec(),
            self.well_formed(),
    {
        proof {
            use_type_invariant(self);
        }
        (self.width, self.height)
    }

    /// The position in storage of the logical coordinate `(x, y)`.
    pub(crate) fn position(&self, x: isize, y: isize) -> (r: Option<usize>)
        ensures
            r matches Some(k) ==> self.offsets_of(x as int, y as int) matches Some(p) && k
                == p.0 * self.size_spec().1 + p.1 && k < self.cells_spec().len() && p.0
                < self.size_spec().0 && p.1 < self.size_spec().1,
            r is None ==> self.offsets_of(x as int, y as int) is None,
    {
        proof {
            use_type_invariant(self);
        }
        match absolute_to_relative(
            x,
            y,
            self.origin_x,
            self.origin_y,
            self.width,
            self.height,
            self.cycle_x,
            self.cycle_y,
        ) {
            Some((i, j)) => {
                proof {
                    lemma_cell_position(i as int, j as int, self.width as int, self.height as int);
                }
                Some(i * self.height + j)
            },
            None => None,
        }
    }

    /// The value stored at offsets `(i, j)`.
    pub(crate) fn cell(&self, i: usize, j: usize) -> (r: &T)
        requires
            i < self.size_spec().0,
            j < self.size_spec().1,
        ensures
            *r == self.cell_spec(i as int, j as int),
    {
        proof {
            use_type_invariant(self);
            lemma_cell_position(i as int, j as int, self.width as int, self.height as int);
        }
        &self.cells[i * self.height + j]
    }

    /// The origin of the map: the logical coordinate of the cell at
    /// storage offsets `(0, 0)`.
    pub fn get_origin(&self) -> (r: (isize, isize))
        ensures
            r == self.origin_spec(),
    {
        (self.origin_x, self.origin_y)
    }

    /// Whether the logical coordinate `(x, y)` belongs to the map.
    pub fn has_point(&self, x: isize, y: isize) -> (r: bool)
        ensures
            r == self.contains_spec(x as int, y as int),
    {
        self.position(x, y).is_some()
    }

    /// The value at the logical coordinate `(x, y)`, or `None` when the
    /// coordinate does not belong to the map.
    pub fn get_point(&self, x: isize, y: isize) -> (r: Option<&T>)
        ensures
            r matches Some(v) ==> self.value_at(x as int, y as int) == Some(*v),
            r is None ==> self.value_at(x as int, y as int) is None,
    {
        match self.position(x, y) {
            Some(k) => Some(&self.cells[k]),
            None => None,
        }
    }

    /// Stores `value` at the logical coordinate `(x, y)` and returns the
    /// value that was there, or `None` when the coordinate does not belong
    /// to the map. No other cell changes, and a coordinate outside the map
    /// changes nothing.
    pub fn set_point(&mut self, x: isize, y: isize, value: T) -> (r: Option<T>)
        ensures
            r == old(self).value_at(x as int, y as int),
            final(self).size_spec() == old(self).size_spec(),
            final(self).cycle_spec() == old(self).cycle_spec(),
            final(self).origin_spec() == old(self).origin_spec(),
            old(self).offsets_of(x as int, y as int) matches Some(p) ==> final(self).cells_spec()
                == old(self).cells_spec().update(p.0 * old(self).size_spec().1 + p.1, value),
            r is None ==> final(self).cells_spec() == old(self).cells_spec(),
            r is Some ==> final(self).value_at(x as int, y as int) == Some(value),
            forall|a: int, b: int|
                old(self).offsets_of(a, b) != old(self).offsets_of(x as int, y as int)
                    ==> #[trigger] final(self).value_at(a, b) == old(self).value_at(a, b),
    {
        proof {
            use_type_invariant(&*self);
        }
        match self.position(x, y) {
            Some(k) => {
                let mut held = value;
                std::mem::swap(&mut self.cells[k], &mut held);
                proof {
                    let h = self.height as int;
                    let w = self.width as int;
                    assert(self.cells@ == old(self).cells@.update(k as int, value));
                    assert forall|a: int, b: int|
                        old(self).offsets_of(a, b) != old(self).offsets_of(
                            x as int,
                            y as int,
                        ) implies #[trigger] self.value_at(a, b) == old(self).value_at(a, b) by {
                        if let Some(q) = old(self).offsets_of(a, b) {
                            let p = old(self).offsets_of(x as int, y as int).unwrap();
                            lemma_normalize_bound(a, self.origin_x as int, w, self.cycle_x);
                            lemma_normalize_bound(b, self.origin_y as int, h, self.cycle_y);
                            lemma_cell_position(q.0, q.1, w, h);
                            lemma_cell_position(p.0, p.1, w, h);
                        }
                    }
                }
                Some(held)
            },
            None => None,
        }
    }

    /// The number of cells of the map.
    pub fn count_points(&self) -> (r: usize)
        ensures
            r == self.size_spec().0 * self.size_spec().1,
            r == self.cells_spec().len(),
    {
        proof {
            use_type_invariant(self);
        }
        self.cells.len()
    }

    /// Whether `(x, y)` lies in the window of coordinates that address the
    /// cells without wraparound: from the origin up to the extent.
    pub open spec fn in_window(&self, x: int, y: int) -> bool {
        &&& 0 <= x - self.origin_spec().0 < self.size_spec().0
        &&& 0 <= y - self.origin_spec().1 < self.size_spec().1
    }

    /// On a map without wraparound the coordinates of the window are all
    /// that belong to the map.
    pub proof fn lemma_window(self, x: int, y: int)
        ensures
            self.in_window(x, y) ==> self.contains_spec(x, y),
            self.cycle_spec() == (false, false) && self.contains_spec(x, y) ==> self.in_window(
                x,
                y,
            ),
    {
        lemma_normalize_bound(
            x,
            self.origin_spec().0 as int,
            self.size_spec().0 as int,
            self.cycle_spec().0,
        );
        lemma_normalize_bound(
            y,
            self.origin_spec().1 as int,
            self.size_spec().1 as int,
            self.cycle_spec().1,
        );
    }

    /// A mutable reference to the value at the logical coordinate
    /// `(x, y)`, or `None` when the coordinate does not belong to the map.
    /// What is written through the reference lands in that cell alone.
    pub fn mut_point(&mut self, x: isize, y: isize) -> (r: Option<&mut T>)
        ensures
            final(self).size_spec() == old(self).size_spec(),
            final(self).cycle_spec() == old(self).cycle_spec(),
            final(self).origin_spec() == old(self).origin_spec(),
            r is Some == old(self).contains_spec(x as int, y as int),
            r is None ==> final(self).cells_spec() == old(self).cells_spec(),
            r matches Some(cell) ==> ({
                &&& old(self).offsets_of(x as int, y as int) matches Some(p)
                &&& *cell == old(self).cell_spec(p.0, p.1)
                &&& final(self).cells_spec() == old(self).cells_spec().update(
                    p.0 * old(self).size_spec().1 + p.1,
                    *final(cell),
                )
            }),
    {
        proof {
            use_type_invariant(&*self);
        }
        match self.position(x, y) {
            Some(k) => Some(&mut self.cells[k]),
            None => None,
        }
    }

    /// The value at a coordinate that is known to belong to the map.
    ///
    /// This is the unchecked entry: the caller vouches for the coordinate.
    /// `get_point` is the checked one.
    pub fn index(&self, absolute: (isize, isize)) -> (r: &T)
        requires
            self.contains_spec(absolute.0 as int, absolute.1 as int),
        ensures
            self.value_at(absolute.0 as int, absolute.1 as int) == Some(*r),
    {
        match self.position(absolute.0, absolute.1) {
            Some(k) => &self.cells[k],
            None => {
                proof {
                    assert(false);
                }
                vstd::pervasive::unreached()
            },
        }
    }

    /// A mutable reference to the value at a coordinate that is known to
    /// belong to the map.
    ///
    /// This is the unchecked entry: the caller vouches for the coordinate.
    /// `mut_point` is the checked one.
    pub fn index_mut(&mut self, absolute: (isize, isize)) -> (r: &mut T)
        requires
            old(self).contains_spec(absolute.0 as int, absolute.1 as int),
        ensures
            final(self).size_spec() == old(self).size_spec(),
            final(self).cycle_spec() == old(self).cycle_spec(),
            final(self).origin_spec() == old(self).origin_spec(),
            ({
                &&& old(self).offsets_of(absolute.0 as int, absolute.1 as int) matches Some(p)
                &&& *r == old(self).cell_spec(p.0, p.1)
                &&& final(self).cells_spec() == old(self).cells_spec().update(
                    p.0 * old(self).size_spec().1 + p.1,
                    *final(r),
                )
            }),
    {
        proof {
            use_type_invariant(&*self);
        }
        match self.position(absolute.0, absolute.1) {
            Some(k) => &mut self.cells[k],
            None => {
                proof {
                    assert(false);
                }
                vstd::pervasive::unreached()
            },
        }
    }
}

/// How far `extend` moves the stored cells along each axis: growing in a
/// positive direction puts the new cells below the old ones.
pub open spec fn extend_shift(direction: Direction, size: int) -> (int, int) {
    match direction {
        Direction::X(true) => (size, 0),
        Direction::Y(true) => (0, size),
        _ => (0, 0),
    }
}

/// The extent of a `w` by `h` map after `extend`.
pub open spec fn extend_size(direction: Direction, size: int, w: int, h: int) -> (int, int) {
    match direction {
        Direction::X(_) => (w + size, h),
        Direction::Y(_) => (w, h + size),
    }
}

/// Whether `after` is the map `before` grown by `size` cells along the
/// axis of `direction`: the extent has grown, the origin has moved with
/// the new cells, and every old cell stands where the shift puts it.
pub open spec fn grown<T>(
    before: TaxicabMap<T>,
    after: TaxicabMap<T>,
    direction: Direction,
    size: int,
) -> bool {
    let shift = extend_shift(direction, size);
    &&& (after.size_spec().0 as int, after.size_spec().1 as int) == extend_size(
        direction,
        size,
        before.size_spec().0 as int,
        before.size_spec().1 as int,
    )
    &&& after.cycle_spec() == before.cycle_spec()
    &&& after.origin_spec().0 == before.origin_spec().0 - shift.0
    &&& after.origin_spec().1 == before.origin_spec().1 - shift.1
    &&& forall|i: int, j: int|
        0 <= i < before.size_spec().0 && 0 <= j < before.size_spec().1 ==> after.cell_spec(
            i + shift.0,
            j + shift.1,
        ) == #[trigger] before.cell_spec(i, j)
}

/// Growing a map keeps the value of every coordinate of its window, and
/// so, on a map without wraparound, the value of every coordinate that
/// belonged to it.
pub proof fn lemma_grown_keeps<T>(
    before: TaxicabMap<T>,
    after: TaxicabMap<T>,
    direction: Direction,
    size: int,
    x: int,
    y: int,
)
    requires
        grown(before, after, direction, size),
        size >= 0,
        before.in_window(x, y) || (before.cycle_spec() == (false, false) && before.contains_spec(
            x,
            y,
        )),
    ensures
        after.contains_spec(x, y),
        after.value_at(x, y) == before.value_at(x, y),
{
    before.lemma_window(x, y);
    let shift = extend_shift(direction, size);
    let i = x - before.origin_spec().0;
    let j = y - before.origin_spec().1;
    lemma_normalize_bound(
        x,
        before.origin_spec().0 as int,
        before.size_spec().0 as int,
        before.cycle_spec().0,
    );
    lemma_normalize_bound(
        y,
        before.origin_spec().1 as int,
        before.size_spec().1 as int,
        before.cycle_spec().1,
    );
    lemma_normalize_bound(
        x,
        after.origin_spec().0 as int,
        after.size_spec().0 as int,
        after.cycle_spec().0,
    );
    lemma_normalize_bound(
        y,
        after.origin_spec().1 as int,
        after.size_spec().1 as int,
        after.cycle_spec().1,
    );
    assert(after.cell_spec(i + shift.0, j + shift.1) == before.cell_spec(i, j));
}

impl<T: Clone> TaxicabMap<T> {
    /// A map of `width` by `width` cells, each a clone of `fill`.
    pub fn square(width: usize, fill: &T) -> (r: Self)
        requires
            width * width <= usize::MAX,
            width <= isize::MAX,
        ensures
            r.size_spec() == (width, width),
            r.cycle_spec() == (false, false),
            r.origin_spec() == (0isize, 0isize),
            r.cells_spec().len() == width * width,
            forall|k: int| 0 <= k < r.cells_spec().len() ==> cloned(*fill, #[trigger] r.cells_spec()[k]),
    {
        Self::rectangle(width, width, fill)
    }

    /// A map of `width` by `height` cells, each a clone of `fill`, with
    /// the origin at `(0, 0)` and no wraparound.
    pub fn rectangle(width: usize, height: usize, fill: &T) -> (r: Self)
        requires
            width * height <= usize::MAX,
            width <= isize::MAX,
            height <= isize::MAX,
        ensures
            r.size_spec() == (width, height),
            r.cycle_spec() == (false, false),
            r.origin_spec() == (0isize, 0isize),
            r.cells_spec().len() == width * height,
            forall|k: int| 0 <= k < r.cells_spec().len() ==> cloned(*fill, #[trigger] r.cells_spec()[k]),
    {
        let cells = filled(width * height, fill);
        TaxicabMap { cells, width, height, cycle_x: false, cycle_y: false, origin_x: 0, origin_y: 0 }
    }

    /// A map of `width` by `height` cells, each a clone of `fill`, with
    /// the origin at `origin` and no wraparound.
    pub fn rectangle_at(origin: (isize, isize), width: usize, height: usize, fill: &T) -> (r: Self)
        requires
            width * height <= usize::MAX,
            origin.0 + width <= isize::MAX,
            origin.1 + height <= isize::MAX,
        ensures
            r.size_spec() == (width, height),
            r.cycle_spec() == (false, false),
            r.origin_spec() == origin,
            r.cells_spec().len() == width * height,
            r.well_formed(),
            forall|k: int| 0 <= k < r.cells_spec().len() ==> cloned(*fill, #[trigger] r.cells_spec()[k]),
    {
        let cells = filled(width * height, fill);
        TaxicabMap {
            cells,
            width,
            height,
            cycle_x: false,
            cycle_y: false,
            origin_x: origin.0,
            origin_y: origin.1,
        }
    }

    /// Grows the map by `size` cells along the axis of `direction`; the
    /// new cells are clones of `fill`.
    ///
    /// Towards `X(false)` or `Y(false)` the new cells follow the old ones
    /// in storage and the origin stays. Towards `X(true)` or `Y(true)`
    /// they precede the old ones, and the origin moves down by `size`, so
    /// that every coordinate of the old window still finds its value.
    pub fn extend(&mut self, direction: Direction, size: usize, fill: &T)
        requires
            extend_size(
                direction,
                size as int,
                old(self).size_spec().0 as int,
                old(self).size_spec().1 as int,
            ).0 * extend_size(
                direction,
                size as int,
                old(self).size_spec().0 as int,
                old(self).size_spec().1 as int,
            ).1 <= usize::MAX,
            old(self).size_spec().0 + size <= usize::MAX,
            old(self).size_spec().1 + size <= usize::MAX,
            direction == Direction::X(true) ==> old(self).origin_spec().0 - size >= isize::MIN,
            direction == Direction::Y(true) ==> old(self).origin_spec().1 - size >= isize::MIN,
            direction == Direction::X(false) ==> old(self).origin_spec().0 + old(
                self
            ).size_spec().0 + size <= isize::MAX,
            direction == Direction::Y(false) ==> old(self).origin_spec().1 + old(
                self
            ).size_spec().1 + size <= isize::MAX,
        ensures
            grown(*old(self), *final(self), direction, size as int),
            (final(self).size_spec().0 as int, final(self).size_spec().1 as int) == extend_size(
                direction,
                size as int,
                old(self).size_spec().0 as int,
                old(self).size_spec().1 as int,
            ),
            final(self).cycle_spec() == old(self).cycle_spec(),
            final(self).origin_spec().0 == old(self).origin_spec().0 - extend_shift(
                direction,
                size as int,
            ).0,
            final(self).origin_spec().1 == old(self).origin_spec().1 - extend_shift(
                direction,
                size as int,
            ).1,
            final(self).cells_spec().len() == final(self).size_spec().0 * final(self).size_spec().1,
            forall|i: int, j: int|
                0 <= i < old(self).size_spec().0 && 0 <= j < old(self).size_spec().1
                    ==> final(self).cell_spec(
                    i + extend_shift(direction, size as int).0,
                    j + extend_shift(direction, size as int).1,
                ) == #[trigger] old(self).cell_spec(i, j),
            forall|a: int, b: int|
                0 <= a < final(self).size_spec().0 && 0 <= b < final(self).size_spec().1 && !(0
                    <= a - extend_shift(direction, size as int).0 < old(self).size_spec().0 && 0
                    <= b - extend_shift(direction, size as int).1 < old(self).size_spec().1)
                    ==> cloned(*fill, #[trigger] final(self).cell_spec(a, b)),
            forall|x: int, y: int|
                old(self).in_window(x, y) ==> #[trigger] final(self).value_at(x, y) == old(self).value_at(x, y),
    {
        proof {
            use_type_invariant(&*self);
        }
        let w = self.width;
        let h = self.height;
        let (nw, nh, sx, sy) = match direction {
            Direction::X(true) => (w + size, h, size, 0),
            Direction::X(false) => (w + size, h, 0, 0),
            Direction::Y(true) => (w, h + size, 0, size),
            Direction::Y(false) => (w, h + size, 0, 0),
        };
        let mut fresh = filled(nw * nh, fill);
        let ghost before = self.cells@;
        proof {
            assert forall|a: int, b: int| 0 <= a < nw && 0 <= b < nh implies cloned(
                *fill,
                #[trigger] fresh@[a * nh + b],
            ) by {
                lemma_cell_position(a, b, nw as int, nh as int);
            }
        }
        let mut i: usize = 0;
        while i < w
            invariant
                i <= w,
                w * h <= usize::MAX,
                nw * nh <= usize::MAX,
                self.well_formed(),
                self.origin_x == old(self).origin_x,
                self.origin_y == old(self).origin_y,
                self.cycle_x == old(self).cycle_x,
                self.cycle_y == old(self).cycle_y,
                w == self.width,
                h == self.height,
                self.cells@.len() == w * h,
                before.len() == w * h,
                fresh@.len() == nw * nh,
                sx + w <= nw,
                sy + h <= nh,
                forall|a: int, b: int|
                    0 <= a < i && 0 <= b < h ==> #[trigger] fresh@[(a + sx) * nh + (b + sy)]
                        == before[a * h + b],
                forall|a: int, b: int|
                    0 <= a < nw && 0 <= b < nh && !(0 <= a - sx < i && 0 <= b - sy < h)
                        ==> cloned(*fill, #[trigger] fresh@[a * nh + b]),
                forall|a: int, b: int|
                    i <= a < w && 0 <= b < h ==> #[trigger] self.cells@[a * h + b] == before[a * h
                        + b],
            decreases w - i,
        {
            let mut j: usize = 0;
            while j < h
                invariant
                    i < w,
                    j <= h,
                    w * h <= usize::MAX,
                    nw * nh <= usize::MAX,
                    self.well_formed(),
                    self.origin_x == old(self).origin_x,
                    self.origin_y == old(self).origin_y,
                    self.cycle_x == old(self).cycle_x,
                    self.cycle_y == old(self).cycle_y,
                    w == self.width,
                    h == self.height,
                    self.cells@.len() == w * h,
                    before.len() == w * h,
                    fresh@.len() == nw * nh,
                    sx + w <= nw,
                    sy + h <= nh,
                    forall|a: int, b: int|
                        (0 <= a < i && 0 <= b < h) || (a == i && 0 <= b < j) ==> #[trigger] fresh@[(
                        a + sx) * nh + (b + sy)] == before[a * h + b],
                    forall|a: int, b: int|
                        0 <= a < nw && 0 <= b < nh && !((0 <= a - sx < i && 0 <= b - sy < h) || (a
                            - sx == i && 0 <= b - sy < j)) ==> cloned(
                            *fill,
                            #[trigger] fresh@[a * nh + b],
                        ),
                    forall|a: int, b: int|
                        ((i < a < w && 0 <= b < h) || (a == i && j <= b < h))
                            ==> #[trigger] self.cells@[a * h + b] == before[a * h + b],
                decreases h - j,
            {
                proof {
                    lemma_cell_position(i as int, j as int, w as int, h as int);
                    lemma_cell_position((i + sx) as int, (j + sy) as int, nw as int, nh as int);
                }
                let from = i * h + j;
                let to = (i + sx) * nh + (j + sy);
                let ghost fresh_before = fresh@;
                let ghost cells_before = self.cells@;
                std::mem::swap(&mut fresh[to], &mut self.cells[from]);
                proof {
                    assert(fresh@ == fresh_before.update(to as int, cells_before[from as int]));
                    assert(self.cells@ == cells_before.update(from as int, fresh_before[to as int]));
                    assert forall|a: int, b: int|
                        (0 <= a < i && 0 <= b < h) || (a == i && 0 <= b < j + 1) implies #[trigger] fresh@[(
                    a + sx) * nh + (b + sy)] == before[a * h + b] by {
                        lemma_cell_position(a, b, w as int, h as int);
                        lemma_cell_position(a + sx, b + sy, nw as int, nh as int);
                    }
                    assert forall|a: int, b: int|
                        0 <= a < nw && 0 <= b < nh && !((0 <= a - sx < i && 0 <= b - sy < h) || (a
                            - sx == i && 0 <= b - sy < j + 1)) implies cloned(
                        *fill,
                        #[trigger] fresh@[a * nh + b],
                    ) by {
                        lemma_cell_position(a, b, nw as int, nh as int);
                    }
                    assert forall|a: int, b: int|
                        ((i < a < w && 0 <= b < h) || (a == i && j + 1 <= b < h))
                            implies #[trigger] self.cells@[a * h + b] == before[a * h + b] by {
                        lemma_cell_position(a, b, w as int, h as int);
                    }
                }
                j = j + 1;
            }
            i = i + 1;
        }
        let ghost shift = extend_shift(direction, size as int);
        assert(shift == (sx as int, sy as int));
        let origin_x = (self.origin_x as i128 - sx as i128) as isize;
        let origin_y = (self.origin_y as i128 - sy as i128) as isize;
        *self = TaxicabMap {
            cells: fresh,
            width: nw,
            height: nh,
            cycle_x: self.cycle_x,
            cycle_y: self.cycle_y,
            origin_x,
            origin_y,
        };
        proof {
            assert forall|x: int, y: int| old(self).in_window(x, y) implies #[trigger] self.value_at(
                x,
                y,
            ) == old(self).value_at(x, y) by {
                let a = x - old(self).origin_x;
                let b = y - old(self).origin_y;
                lemma_normalize_bound(x, old(self).origin_x as int, w as int, self.cycle_x);
                lemma_normalize_bound(y, old(self).origin_y as int, h as int, self.cycle_y);
                lemma_normalize_bound(x, origin_x as int, nw as int, self.cycle_x);
                lemma_normalize_bound(y, origin_y as int, nh as int, self.cycle_y);
                assert(fresh@[(a + sx) * nh + (b + sy)] == before[a * h + b]);
            }
        }
    }
}

/// A vector of `count` clones of `fill`.
fn filled<T: Clone>(count: usize, fill: &T) -> (r: Vec<T>)
    ensures
        r@.len() == count,
        forall|k: int| 0 <= k < count ==> cloned(*fill, #[trigger] r@[k]),
{
    let mut cells: Vec<T> = Vec::new();
    let mut k: usize = 0;
    while k < count
        invariant
            k <= count,
            cells@.len() == k,
            forall|m: int| 0 <= m < k ==> cloned(*fill, #[trigger] cells@[m]),
        decreases count - k,
    {
        cells.push(fill.clone());
        k = k + 1;
    }
    cells
}

} // verus!
