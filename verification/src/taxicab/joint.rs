use crate::taxicab::direction::Direction;
use std::ops::{Neg, Not};
use vstd::prelude::*;
use vstd::std_specs::ops::{NegSpecImpl, NotSpecImpl};

verus! {

/// A directed edge of the grid: a cell together with the direction in
/// which the edge leaves it.
#[derive(Copy, Clone, Debug, Ord, PartialOrd, Eq, PartialEq, Hash, Structural)]
pub struct Joint {
    x: isize,
    y: isize,
    direction: Direction,
}

/// The failure of building a joint from two cells that do not touch.
#[derive(Copy, Clone, Debug, Eq, PartialEq)]
pub struct InvalidAdjacency {
    /// The cell the joint was meant to leave.
    pub from: (isize, isize),
    /// The cell the joint was meant to reach.
    pub to: (isize, isize),
}

/// Whether one unit step leads from `a` to `b`.
pub open spec fn adjacent(a: (isize, isize), b: (isize, isize)) -> bool {
    exists|d: Direction| #[trigger] step_spec(a, d) == (b.0 as int, b.1 as int)
}

/// The cell one step from `a` in direction `d`, as unbounded integers.
pub open spec fn step_spec(a: (isize, isize), d: Direction) -> (int, int) {
    (a.0 + d.dx(), a.1 + d.dy())
}

/// Whether the cell one step from `a` in direction `d` fits the machine
/// integers.
pub open spec fn step_fits(a: (isize, isize), d: Direction) -> bool {
    &&& isize::MIN <= step_spec(a, d).0 <= isize::MAX
    &&& isize::MIN <= step_spec(a, d).1 <= isize::MAX
}

/// The cell one step from `a` in direction `d`, as machine integers.
pub open spec fn step_to(a: (isize, isize), d: Direction) -> (isize, isize) {
    (step_spec(a, d).0 as isize, step_spec(a, d).1 as isize)
}

impl Joint {
    /// The cell the joint leaves.
    pub closed spec fn source_spec(self) -> (isize, isize) {
        (self.x, self.y)
    }

    /// The direction in which the joint leaves its source.
    pub closed spec fn direction_spec(self) -> Direction {
        self.direction
    }

    /// The cell the joint reaches, as unbounded integers.
    pub open spec fn target_spec(self) -> (int, int) {
        step_spec(self.source_spec(), self.direction_spec())
    }

    /// Whether the target's coordinates fit the machine integers.
    pub open spec fn target_fits(self) -> bool {
        step_fits(self.source_spec(), self.direction_spec())
    }

    /// The joint that leaves `(x, y)` in `direction`.
    pub fn new(x: isize, y: isize, direction: Direction) -> (r: Self)
        ensures
            r.source_spec() == (x, y),
            r.direction_spec() == direction,
    {
        Self { x, y, direction }
    }

    /// The joint that leads from `from` to `to`.
    ///
    /// Fails when the two cells are not one step apart.
    pub fn from_point(from: (isize, isize), to: (isize, isize)) -> (r: Result<Self, InvalidAdjacency>)
        ensures
            r is Ok <==> adjacent(from, to),
            r matches Ok(j) ==> j.source_spec() == from && j.target_spec() == (
                to.0 as int,
                to.1 as int,
            ),
            r matches Err(e) ==> e.from == from && e.to == to,
    {
        let (x1, y1) = from;
        let (x2, y2) = to;
        let found = if x1 == x2 {
            if y2 < isize::MAX && y1 == y2 + 1 {
                Some(Direction::Y(false))
            } else if y2 > isize::MIN && y1 == y2 - 1 {
                Some(Direction::Y(true))
            } else {
                None
            }
        } else if y1 == y2 {
            if x2 < isize::MAX && x1 == x2 + 1 {
                Some(Direction::X(false))
            } else if x2 > isize::MIN && x1 == x2 - 1 {
                Some(Direction::X(true))
            } else {
                None
            }
        } else {
            None
        };
        match found {
            Some(d) => {
                assert(step_spec(from, d) == (to.0 as int, to.1 as int));
                Ok(Self::new(x1, y1, d))
            },
            None => {
                assert forall|d: Direction| #[trigger] step_spec(from, d) != (to.0 as int, to.1 as int) by {
                    match d {
                        Direction::X(true) => {},
                        Direction::X(false) => {},
                        Direction::Y(true) => {},
                        Direction::Y(false) => {},
                    }
                }
                Err(InvalidAdjacency { from, to })
            },
        }
    }

    /// The direction of the joint.
    pub fn get_direction(&self) -> (r: Direction)
        ensures
            r == self.direction_spec(),
    {
        self.direction
    }

    /// Replaces the direction of the joint; the source stays.
    pub fn set_direction(&mut self, direction: Direction)
        ensures
            final(self).source_spec() == old(self).source_spec(),
            final(self).direction_spec() == direction,
    {
        self.direction = direction;
    }

    /// The cell the joint leaves.
    pub fn source(&self) -> (r: (isize, isize))
        ensures
            r == self.source_spec(),
    {
        (self.x, self.y)
    }

    /// The cell the joint reaches.
    pub fn target(&self) -> (r: (isize, isize))
        requires
            self.target_fits(),
        ensures
            r == step_to(self.source_spec(), self.direction_spec()),
    {
        match self.direction {
            Direction::X(true) => (self.x + 1, self.y),
            Direction::X(false) => (self.x - 1, self.y),
            Direction::Y(true) => (self.x, self.y + 1),
            Direction::Y(false) => (self.x, self.y - 1),
        }
    }

    /// The joint from the same source in the opposite direction.
    pub closed spec fn flipped(self) -> Joint {
        Joint { x: self.x, y: self.y, direction: self.direction.reversed() }
    }

    /// A flipped joint keeps its source and reverses its direction.
    pub proof fn lemma_flipped(self)
        ensures
            self.flipped().source_spec() == self.source_spec(),
            self.flipped().direction_spec() == self.direction_spec().reversed(),
            self.flipped().flipped() == self,
    {
    }
}

impl Not for Joint {
    type Output = Joint;

    fn not(self) -> (r: Joint)
        ensures
            r.source_spec() == self.source_spec(),
            r.direction_spec() == self.direction_spec().reversed(),
    {
        Joint { x: self.x, y: self.y, direction: self.direction.not() }
    }
}

impl NotSpecImpl for Joint {
    open spec fn obeys_not_spec() -> bool {
        true
    }

    open spec fn not_req(self) -> bool {
        true
    }

    open spec fn not_spec(self) -> Joint {
        self.flipped()
    }
}

impl Neg for Joint {
    type Output = Joint;

    fn neg(self) -> (r: Joint)
        ensures
            r.source_spec() == self.source_spec(),
            r.direction_spec() == self.direction_spec().reversed(),
    {
        self.not()
    }
}

impl NegSpecImpl for Joint {
    open spec fn obeys_neg_spec() -> bool {
        true
    }

    open spec fn neg_req(self) -> bool {
        true
    }

    open spec fn neg_spec(self) -> Joint {
        self.flipped()
    }
}

/// Stepping along a direction and then along its reverse leads back.
pub proof fn lemma_step_inverse(x: isize, y: isize, d: Direction)
    requires
        step_fits((x, y), d),
    ensures
        step_spec(step_to((x, y), d), d.reversed()) == (x as int, y as int),
{
}

} // verus!
