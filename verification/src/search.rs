//! Shortest routes in a graph of numbered cells.
//!
//! The maps of both topologies hand their cells to this module as a
//! `CostGraph`: every cell has a number, a list of the cells it links to,
//! a flag that says whether it may be entered, and the cost of entering
//! it. The solvers of the maps are built on the two searches of this
//! module.

pub mod astar;
pub mod explore;
pub mod order;
pub mod routes;
pub mod walks;

pub use crate::search::walks::CostGraph;
pub use crate::search::routes::{reachable_within, shortest_route, shortest_route_within};
