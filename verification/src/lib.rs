//! Grid maps for turn-based and tactical games, over two topologies:
//! a rectilinear (taxicab) grid with four neighbours per cell and a
//! hexagonal grid in axial coordinates with six.
//!
//! Each topology offers its coordinate and direction algebra, a map that
//! stores one value per cell, enumeration of neighbours and rings, a
//! shortest-path finder and a cost-bounded reachability solver.

pub mod hexagon;
pub mod search;
pub mod taxicab;
