//! The rectilinear grid: four directions, a dense rectangular map with an
//! origin offset and optional wraparound on each axis.

pub mod action_field;
pub mod direction;
pub mod estimate;
pub mod iters;
pub mod joint;
pub mod map;
pub mod path_finder;
pub mod paths;
pub mod ring;
pub mod terrain;
pub mod tracks;
pub mod unit;
pub mod windings;

pub use crate::taxicab::direction::Direction;
pub use crate::taxicab::joint::{InvalidAdjacency, Joint};
pub use crate::taxicab::map::{absolute_to_relative, relative_to_absolute, TaxicabMap};
pub use crate::taxicab::ring::{manhattan_distance, DiamondPoints};
pub use crate::taxicab::iters::{
    GetTaxicabLine, GetTaxicabPoints, GetTaxicabPointsAround, MutGetTaxicabPoints,
};
pub use crate::taxicab::path_finder::PathFinder;
pub use crate::taxicab::action_field::ActionFieldSolver;
