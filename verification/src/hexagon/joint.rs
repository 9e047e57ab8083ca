use crate::hexagon::point::{Direction, Point};
use vstd::prelude::*;

verus! {

/// A directed edge of the grid: a cell together with the direction in
/// which the edge leaves it.
#[derive(Copy, Clone, Debug, Ord, PartialOrd, Eq, PartialEq, Hash, Structural)]
pub struct Joint {
    /// The cell the joint leaves.
    pub point: Point,
    /// The direction in which it leaves.
    pub direction: Direction,
}

/// The failure of building a joint from two cells that do not touch.
#[derive(Copy, Clone, Debug, Eq, PartialEq, Structural)]
pub struct InvalidAdjacency {
    /// The cell the joint was meant to leave.
    pub from: Point,
    /// The cell the joint was meant to reach.
    pub to: Point,
}

/// Whether one step of the grid leads from `a` to `b`.
pub open spec fn adjacent(a: Point, b: Point) -> bool {
    exists|d: Direction| #[trigger] a.go_spec(d) == b@
}

impl Joint {
    /// The joint that leaves `point` in `direction`.
    pub fn new(point: &Point, direction: Direction) -> (r: Self)
        ensures
            r.point == *point,
            r.direction == direction,
    {
        Self { point: *point, direction }
    }

    /// The joint that leads from `from` to `to`.
    ///
    /// Fails when the two cells are not one step apart.
    pub fn from_points(from: Point, to: Point) -> (r: Result<Self, InvalidAdjacency>)
        ensures
            r is Ok <==> adjacent(from, to),
            r matches Ok(j) ==> j.point == from && from.go_spec(j.direction) == to@,
            r matches Err(e) ==> e.from == from && e.to == to,
    {
        let dx: i128 = to.x as i128 - from.x as i128;
        let dy: i128 = to.y as i128 - from.y as i128;
        let found = if dx == 1 && dy == -1 {
            Some(Direction::X(true))
        } else if dx == -1 && dy == 1 {
            Some(Direction::X(false))
        } else if dx == 1 && dy == 0 {
            Some(Direction::Y(true))
        } else if dx == -1 && dy == 0 {
            Some(Direction::Y(false))
        } else if dx == 0 && dy == -1 {
            Some(Direction::Q(true))
        } else if dx == 0 && dy == 1 {
            Some(Direction::Q(false))
        } else {
            None
        };
        match found {
            Some(d) => {
                assert(from.go_spec(d) == to@);
                Ok(Joint { point: from, direction: d })
            },
            None => {
                assert forall|d: Direction| #[trigger] from.go_spec(d) != to@ by {
                    match d {
                        Direction::X(true) => {},
                        Direction::X(false) => {},
                        Direction::Y(true) => {},
                        Direction::Y(false) => {},
                        Direction::Q(true) => {},
                        Direction::Q(false) => {},
                    }
                }
                Err(InvalidAdjacency { from, to })
            },
        }
    }

    /// The cell the joint leaves.
    pub fn source(&self) -> (r: Point)
        ensures
            r == self.point,
    {
        self.point
    }

    /// The cell the joint reaches.
    pub fn target(&self) -> (r: Point)
        requires
            self.point.can_go(self.direction),
        ensures
            r@ == self.point.go_spec(self.direction),
    {
        self.point.go(self.direction)
    }
}

} // verus!
