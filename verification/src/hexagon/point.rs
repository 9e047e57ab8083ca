use std::ops::{Neg, Not};
use vstd::prelude::*;
use vstd::std_specs::convert::FromSpecImpl;
use vstd::std_specs::ops::{NegSpecImpl, NotSpecImpl};

verus! {

/// A cell of the hexagonal grid in axial coordinates. The third cube
/// coordinate is the negated sum of the two.
#[derive(Copy, Clone, Debug, Ord, PartialOrd, Eq, PartialEq, Hash, Structural)]
pub struct Point {
    /// The first axial coordinate.
    pub x: isize,
    /// The second axial coordinate.
    pub y: isize,
}

/// The canonical coordinate of the hexagonal grid.
pub type AxialPoint = Point;

/// One of the six unit steps of the hexagonal grid: three axes, each in
/// two senses.
#[derive(Copy, Clone, Debug, Ord, PartialOrd, Eq, PartialEq, Hash, Structural)]
pub enum Direction {
    /// Along the diagonal: `true` steps by `(1, -1)`, `false` by `(-1, 1)`.
    X(bool),
    /// Along the first axis: `true` steps by `(1, 0)`, `false` by `(-1, 0)`.
    Y(bool),
    /// Along the second axis: `true` steps by `(0, -1)`, `false` by `(0, 1)`.
    Q(bool),
}

impl Direction {
    /// The change of the first coordinate under one step.
    pub open spec fn dx(self) -> int {
        match self {
            Direction::X(true) => 1,
            Direction::X(false) => -1,
            Direction::Y(true) => 1,
            Direction::Y(false) => -1,
            Direction::Q(_) => 0,
        }
    }

    /// The change of the second coordinate under one step.
    pub open spec fn dy(self) -> int {
        match self {
            Direction::X(true) => -1,
            Direction::X(false) => 1,
            Direction::Y(_) => 0,
            Direction::Q(true) => -1,
            Direction::Q(false) => 1,
        }
    }

    /// The direction that undoes this one.
    pub open spec fn reversed(self) -> Direction {
        match self {
            Direction::X(s) => Direction::X(!s),
            Direction::Y(s) => Direction::Y(!s),
            Direction::Q(s) => Direction::Q(!s),
        }
    }

    /// The six directions in their fixed order.
    pub open spec fn all_spec() -> Seq<Direction> {
        seq![
            Direction::X(true),
            Direction::X(false),
            Direction::Y(true),
            Direction::Y(false),
            Direction::Q(true),
            Direction::Q(false),
        ]
    }

    /// All six directions of the hexagonal grid.
    pub fn all() -> (r: [Direction; 6])
        ensures
            r@ == Direction::all_spec(),
    {
        let r = [
            Direction::X(true),
            Direction::X(false),
            Direction::Y(true),
            Direction::Y(false),
            Direction::Q(true),
            Direction::Q(false),
        ];
        assert(r@ =~= Direction::all_spec());
        r
    }
}

impl Not for Direction {
    type Output = Direction;

    fn not(self) -> (r: Direction) {
        match self {
            Direction::X(s) => Direction::X(!s),
            Direction::Y(s) => Direction::Y(!s),
            Direction::Q(s) => Direction::Q(!s),
        }
    }
}

impl NotSpecImpl for Direction {
    open spec fn obeys_not_spec() -> bool {
        true
    }

    open spec fn not_req(self) -> bool {
        true
    }

    open spec fn not_spec(self) -> Direction {
        self.reversed()
    }
}

impl Neg for Direction {
    type Output = Direction;

    fn neg(self) -> (r: Direction) {
        self.not()
    }
}

impl NegSpecImpl for Direction {
    open spec fn obeys_neg_spec() -> bool {
        true
    }

    open spec fn neg_req(self) -> bool {
        true
    }

    open spec fn neg_spec(self) -> Direction {
        self.reversed()
    }
}

/// The absolute value of an integer.
pub open spec fn abs(v: int) -> int {
    if v >= 0 {
        v
    } else {
        -v
    }
}

/// The sum of the absolute differences of the axial coordinates.
pub open spec fn manhattan_spec(a: (int, int), b: (int, int)) -> int {
    abs(a.0 - b.0) + abs(a.1 - b.1)
}

/// The distance of two cells in steps of the hexagonal grid: half the
/// sum of the absolute differences of the three cube coordinates.
pub open spec fn hex_distance_spec(a: (int, int), b: (int, int)) -> int {
    (abs(a.0 - b.0) + abs(a.1 - b.1) + abs((a.0 + a.1) - (b.0 + b.1))) / 2
}

impl Point {
    /// The coordinates as unbounded integers.
    pub open spec fn view(&self) -> (int, int) {
        (self.x as int, self.y as int)
    }

    /// The cell one step away in `direction`, as unbounded integers.
    pub open spec fn go_spec(&self, direction: Direction) -> (int, int) {
        (self.x + direction.dx(), self.y + direction.dy())
    }

    /// Whether the cell one step away in `direction` fits the machine
    /// integers.
    pub open spec fn can_go(&self, direction: Direction) -> bool {
        &&& isize::MIN <= self.x + direction.dx() <= isize::MAX
        &&& isize::MIN <= self.y + direction.dy() <= isize::MAX
    }

    /// Whether all six neighbours fit the machine integers.
    pub open spec fn inner(&self) -> bool {
        &&& isize::MIN < self.x < isize::MAX
        &&& isize::MIN < self.y < isize::MAX
    }

    /// The cell with axial coordinates `(q, r)`.
    pub fn new(q: isize, r: isize) -> (p: Self)
        ensures
            p.x == q,
            p.y == r,
    {
        Self { x: q, y: r }
    }

    /// The six neighbours, in the order of `Direction::all`.
    pub fn nearby(&self) -> (r: Vec<Self>)
        requires
            self.inner(),
        ensures
            r@.len() == 6,
            forall|k: int|
                0 <= k < 6 ==> (#[trigger] r@[k])@ == self.go_spec(Direction::all_spec()[k]),
    {
        let all = Direction::all();
        let mut out: Vec<Self> = Vec::new();
        let mut k: usize = 0;
        while k < 6
            invariant
                k <= 6,
                self.inner(),
                all@ == Direction::all_spec(),
                out@.len() == k,
                forall|m: int|
                    0 <= m < k ==> (#[trigger] out@[m])@ == self.go_spec(Direction::all_spec()[m]),
            decreases 6 - k,
        {
            out.push(self.go(all[k]));
            k = k + 1;
        }
        out
    }

    /// The cell one step away in `direction`.
    pub fn go(&self, direction: Direction) -> (r: Self)
        requires
            self.can_go(direction),
        ensures
            r@ == self.go_spec(direction),
    {
        match direction {
            Direction::X(true) => Self::new(self.x + 1, self.y - 1),
            Direction::X(false) => Self::new(self.x - 1, self.y + 1),
            Direction::Y(true) => Self::new(self.x + 1, self.y),
            Direction::Y(false) => Self::new(self.x - 1, self.y),
            Direction::Q(true) => Self::new(self.x, self.y - 1),
            Direction::Q(false) => Self::new(self.x, self.y + 1),
        }
    }

    /// The sum of the absolute differences of the two axial coordinates.
    ///
    /// This counts steps along the two axes only and so never falls
    /// below `hex_distance`, which also uses the diagonal.
    pub fn manhattan_distance(&self, other: &Self) -> (r: usize)
        requires
            manhattan_spec(self@, other@) <= usize::MAX,
        ensures
            r == manhattan_spec(self@, other@),
    {
        let dx = abs_diff(self.x, other.x);
        let dy = abs_diff(self.y, other.y);
        (dx + dy) as usize
    }

    /// The number of steps of the hexagonal grid between two cells.
    pub fn hex_distance(&self, other: &Self) -> (r: usize)
        requires
            hex_distance_spec(self@, other@) <= usize::MAX,
        ensures
            r == hex_distance_spec(self@, other@),
    {
        hex_steps(*self, *other) as usize
    }
}

/// The absolute difference of two coordinates.
pub(crate) fn abs_diff(a: isize, b: isize) -> (r: u128)
    ensures
        r == abs(a - b),
        r <= usize::MAX,
{
    let d: i128 = a as i128 - b as i128;
    if d >= 0 {
        d as u128
    } else {
        (-d) as u128
    }
}

/// The number of steps of the hexagonal grid between two cells.
pub(crate) fn hex_steps(a: Point, b: Point) -> (r: u128)
    ensures
        r == hex_distance_spec(a@, b@),
{
    let dx: i128 = a.x as i128 - b.x as i128;
    let dy: i128 = a.y as i128 - b.y as i128;
    let ds: i128 = dx + dy;
    let ax: u128 = if dx >= 0 {
        dx as u128
    } else {
        (-dx) as u128
    };
    let ay: u128 = if dy >= 0 {
        dy as u128
    } else {
        (-dy) as u128
    };
    let az: u128 = if ds >= 0 {
        ds as u128
    } else {
        (-ds) as u128
    };
    (ax + ay + az) / 2
}

/// The distance in steps is the largest of the three absolute cube
/// differences, and never more than the sum of the two axial ones.
pub proof fn lemma_hex_distance_max(a: (int, int), b: (int, int))
    ensures
        hex_distance_spec(a, b) >= abs(a.0 - b.0),
        hex_distance_spec(a, b) >= abs(a.1 - b.1),
        hex_distance_spec(a, b) >= abs((a.0 + a.1) - (b.0 + b.1)),
        hex_distance_spec(a, b) == abs(a.0 - b.0) || hex_distance_spec(a, b) == abs(a.1 - b.1)
            || hex_distance_spec(a, b) == abs((a.0 + a.1) - (b.0 + b.1)),
        hex_distance_spec(a, b) <= manhattan_spec(a, b),
        hex_distance_spec(a, b) == hex_distance_spec(b, a),
        hex_distance_spec(a, b) == 0 <==> a == b,
{
}

/// Every direction occurs in `all`, and exactly once.
pub proof fn lemma_all_directions_once(d: Direction)
    ensures
        Direction::all_spec().contains(d),
        Direction::all_spec().no_duplicates(),
        Direction::all_spec().len() == 6,
{
    let all = Direction::all_spec();
    match d {
        Direction::X(true) => assert(all[0] == d),
        Direction::X(false) => assert(all[1] == d),
        Direction::Y(true) => assert(all[2] == d),
        Direction::Y(false) => assert(all[3] == d),
        Direction::Q(true) => assert(all[4] == d),
        Direction::Q(false) => assert(all[5] == d),
    }
}

/// Stepping along a direction and then along its reverse leads back.
pub proof fn lemma_go_inverse(p: Point, d: Direction)
    requires
        p.can_go(d),
    ensures
        d.reversed().reversed() == d,
        ({
            let there = Point { x: p.go_spec(d).0 as isize, y: p.go_spec(d).1 as isize };
            there.can_go(d.reversed()) && there.go_spec(d.reversed()) == p@
        }),
{
}

/// The six steps lead to six different cells, each at distance one, and
/// every cell at distance one is reached by exactly one of them.
pub proof fn lemma_six_neighbours(p: (int, int), q: (int, int))
    ensures
        hex_distance_spec(p, q) == 1 <==> exists|d: Direction|
            q == (p.0 + #[trigger] d.dx(), p.1 + d.dy()),
        forall|d: Direction, e: Direction|
            (p.0 + d.dx(), p.1 + d.dy()) == (p.0 + e.dx(), p.1 + e.dy()) ==> d == e,
{
    if hex_distance_spec(p, q) == 1 {
        let dx = q.0 - p.0;
        let dy = q.1 - p.1;
        let d = if dx == 1 && dy == -1 {
            Direction::X(true)
        } else if dx == -1 && dy == 1 {
            Direction::X(false)
        } else if dx == 1 {
            Direction::Y(true)
        } else if dx == -1 {
            Direction::Y(false)
        } else if dy == -1 {
            Direction::Q(true)
        } else {
            Direction::Q(false)
        };
        assert(q == (p.0 + d.dx(), p.1 + d.dy()));
    }
}

/// A cell in the same axial coordinates as `Point`, under another name
/// for its axes.
#[derive(Copy, Clone, Debug, Ord, PartialOrd, Eq, PartialEq, Hash, Structural)]
pub struct HPoint {
    /// The second axial coordinate.
    pub y: isize,
    /// The first axial coordinate.
    pub x: isize,
}

impl HPoint {
    /// The same cell as an axial point.
    pub open spec fn axial(&self) -> Point {
        Point { x: self.x, y: self.y }
    }

    /// The cell with the coordinates `(x, y)`.
    pub fn new(x: isize, y: isize) -> (p: Self)
        ensures
            p.x == x,
            p.y == y,
    {
        Self { x, y }
    }

    /// The cell one step away in `direction`.
    pub fn go(&self, direction: Direction) -> (r: Self)
        requires
            self.axial().can_go(direction),
        ensures
            r.axial()@ == self.axial().go_spec(direction),
    {
        let there = Point::new(self.x, self.y).go(direction);
        HPoint::new(there.x, there.y)
    }
}

impl From<Point> for HPoint {
    fn from(point: Point) -> (r: HPoint) {
        HPoint { x: point.x, y: point.y }
    }
}

impl FromSpecImpl<Point> for HPoint {
    open spec fn obeys_from_spec() -> bool {
        true
    }

    open spec fn from_spec(point: Point) -> HPoint {
        HPoint { x: point.x, y: point.y }
    }
}

impl From<HPoint> for Point {
    fn from(point: HPoint) -> (r: Point) {
        Point { x: point.x, y: point.y }
    }
}

impl FromSpecImpl<HPoint> for Point {
    open spec fn obeys_from_spec() -> bool {
        true
    }

    open spec fn from_spec(point: HPoint) -> Point {
        Point { x: point.x, y: point.y }
    }
}

/// A cell in the same axial coordinates as `Point`, under another name
/// for its axes.
#[derive(Copy, Clone, Debug, Ord, PartialOrd, Eq, PartialEq, Hash, Structural)]
pub struct WPoint {
    /// The first axial coordinate.
    pub x: isize,
    /// The second axial coordinate.
    pub y: isize,
}

impl WPoint {
    /// The same cell as an axial point.
    pub open spec fn axial(&self) -> Point {
        Point { x: self.x, y: self.y }
    }

    /// The cell with the coordinates `(x, y)`.
    pub fn new(x: isize, y: isize) -> (p: Self)
        ensures
            p.x == x,
            p.y == y,
    {
        Self { x, y }
    }

    /// The cell one step away in `direction`.
    pub fn go(&self, direction: Direction) -> (r: Self)
        requires
            self.axial().can_go(direction),
        ensures
            r.axial()@ == self.axial().go_spec(direction),
    {
        let there = Point::new(self.x, self.y).go(direction);
        WPoint::new(there.x, there.y)
    }
}

impl From<Point> for WPoint {
    fn from(point: Point) -> (r: WPoint) {
        WPoint { x: point.x, y: point.y }
    }
}

impl FromSpecImpl<Point> for WPoint {
    open spec fn obeys_from_spec() -> bool {
        true
    }

    open spec fn from_spec(point: Point) -> WPoint {
        WPoint { x: point.x, y: point.y }
    }
}

impl From<WPoint> for Point {
    fn from(point: WPoint) -> (r: Point) {
        Point { x: point.x, y: point.y }
    }
}

impl FromSpecImpl<WPoint> for Point {
    open spec fn obeys_from_spec() -> bool {
        true
    }

    open spec fn from_spec(point: WPoint) -> Point {
        Point { x: point.x, y: point.y }
    }
}

/// A cell in cube coordinates: the two axial coordinates `q` and `r`, and
/// between them `s`, which is the negated sum of the two.
#[derive(Copy, Clone, Debug, Ord, PartialOrd, Eq, PartialEq, Hash, Structural)]
pub struct SPoint {
    /// The first axial coordinate.
    pub q: isize,
    /// The third cube coordinate.
    pub s: isize,
    /// The second axial coordinate.
    pub r: isize,
}

impl SPoint {
    /// The same cell as an axial point.
    pub open spec fn axial(&self) -> Point {
        Point { x: self.q, y: self.r }
    }

    /// Whether the three coordinates sum to zero, as those of a cell do.
    pub open spec fn balanced(&self) -> bool {
        self.q + self.s + self.r == 0
    }

    /// The cell with the cube coordinates `(q, s, r)`.
    pub fn new(q: isize, s: isize, r: isize) -> (p: Self)
        ensures
            p.q == q,
            p.s == s,
            p.r == r,
    {
        Self { q, s, r }
    }

    /// The cube coordinates of an axial cell.
    pub fn from_axial(point: Point) -> (p: Self)
        requires
            isize::MIN <= -point.x - point.y <= isize::MAX,
        ensures
            p.q == point.x,
            p.r == point.y,
            p.balanced(),
    {
        SPoint::new(point.x, (-(point.x as i128) - point.y as i128) as isize, point.y)
    }

    /// The cell one step away in `direction`.
    pub fn go(&self, direction: Direction) -> (r: Self)
        requires
            self.axial().can_go(direction),
            isize::MIN <= -(self.q + direction.dx()) - (self.r + direction.dy()) <= isize::MAX,
        ensures
            r.axial()@ == self.axial().go_spec(direction),
            r.balanced(),
    {
        let there = Point::new(self.q, self.r).go(direction);
        SPoint::from_axial(there)
    }
}

impl From<SPoint> for Point {
    fn from(point: SPoint) -> (r: Point) {
        Point { x: point.q, y: point.r }
    }
}

impl FromSpecImpl<SPoint> for Point {
    open spec fn obeys_from_spec() -> bool {
        true
    }

    open spec fn from_spec(point: SPoint) -> Point {
        Point { x: point.q, y: point.r }
    }
}

} // verus!
