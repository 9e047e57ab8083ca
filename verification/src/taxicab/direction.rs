use crate::taxicab::joint::Joint;
use std::ops::{Neg, Not};
use vstd::prelude::*;
use vstd::std_specs::ops::{NegSpecImpl, NotSpecImpl};

verus! {

/// One of the four unit steps of the rectilinear grid.
#[derive(Copy, Clone, Debug, Ord, PartialOrd, Eq, PartialEq, Hash, Structural)]
pub enum Direction {
    /// Along the first axis: `true` steps towards larger `x`, `false` towards smaller.
    X(bool),
    /// Along the second axis: `true` steps towards larger `y`, `false` towards smaller.
    Y(bool),
}

impl Direction {
    /// The change of the first coordinate under one step.
    pub open spec fn dx(self) -> int {
        match self {
            Direction::X(true) => 1,
            Direction::X(false) => -1,
            Direction::Y(_) => 0,
        }
    }

    /// The change of the second coordinate under one step.
    pub open spec fn dy(self) -> int {
        match self {
            Direction::X(_) => 0,
            Direction::Y(true) => 1,
            Direction::Y(false) => -1,
        }
    }

    /// The direction that undoes this one.
    pub open spec fn reversed(self) -> Direction {
        match self {
            Direction::X(s) => Direction::X(!s),
            Direction::Y(s) => Direction::Y(!s),
        }
    }

    /// The four directions, in the fixed order east, west, north, south.
    pub open spec fn all_spec() -> Seq<Direction> {
        seq![Direction::X(true), Direction::X(false), Direction::Y(true), Direction::Y(false)]
    }

    /// All four directions of the rectilinear grid.
    pub fn all() -> (r: [Direction; 4])
        ensures
            r@ == Direction::all_spec(),
    {
        let r = [Direction::X(true), Direction::X(false), Direction::Y(true), Direction::Y(false)];
        assert(r@ =~= Direction::all_spec());
        r
    }

    /// The joint that leaves `(x, y)` in this direction.
    pub fn as_joint(&self, x: isize, y: isize) -> (r: Joint)
        ensures
            r.source_spec() == (x, y),
            r.direction_spec() == *self,
    {
        Joint::new(x, y, *self)
    }
}

impl Not for Direction {
    type Output = Direction;

    fn not(self) -> (r: Direction) {
        match self {
            Direction::X(s) => Direction::X(!s),
            Direction::Y(s) => Direction::Y(!s),
        }
    }
}

impl NotSpecImpl for Direction {
    open spec fn obeys_not_spec() -> bool {
        true
    }

    open spec fn not_req(self) -> bool {
        true
    }

    open spec fn not_spec(self) -> Direction {
        self.reversed()
    }
}

impl Neg for Direction {
    type Output = Direction;

    fn neg(self) -> (r: Direction) {
        self.not()
    }
}

impl NegSpecImpl for Direction {
    open spec fn obeys_neg_spec() -> bool {
        true
    }

    open spec fn neg_req(self) -> bool {
        true
    }

    open spec fn neg_spec(self) -> Direction {
        self.reversed()
    }
}

/// Every direction occurs in `all`, and exactly once.
pub proof fn lemma_all_directions_once(d: Direction)
    ensures
        Direction::all_spec().contains(d),
        Direction::all_spec().no_duplicates(),
        Direction::all_spec().len() == 4,
{
    let all = Direction::all_spec();
    match d {
        Direction::X(true) => assert(all[0] == d),
        Direction::X(false) => assert(all[1] == d),
        Direction::Y(true) => assert(all[2] == d),
        Direction::Y(false) => assert(all[3] == d),
    }
}

/// Reversing twice gives the direction back, and a reversed step is the
/// negated step.
pub proof fn lemma_reverse_involution(d: Direction)
    ensures
        d.reversed().reversed() == d,
        d.reversed().dx() == -d.dx(),
        d.reversed().dy() == -d.dy(),
{
}

} // verus!
