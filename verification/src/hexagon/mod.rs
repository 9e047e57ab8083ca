//! The hexagonal grid in axial coordinates: six directions and a sparse
//! map that holds the cells that were added to it.

pub mod action_field;
pub mod joint;
pub mod map;
pub mod path_finder;
pub mod paths;
pub mod point;
pub mod ring;
pub mod terrain;
pub mod unit;

pub use crate::hexagon::joint::{InvalidAdjacency, Joint};
pub use crate::hexagon::point::{AxialPoint, Direction, HPoint, Point, SPoint, WPoint};
pub use crate::hexagon::map::HexagonMap;
pub use crate::hexagon::path_finder::PathFinder;
pub use crate::hexagon::action_field::ActionFieldSolver;
