//! Fuel-aware route planning over a universe of star systems.
//!
//! A catalogue of systems and waypoints is reduced to a graph of routable
//! locations ([`graph::L2Graph`]); routes between two locations are then searched
//! over pairs of location and remaining fuel, and annotated leg by leg.

pub mod geometry;
pub mod systems;
pub mod travel;
pub mod graph;
pub mod search;
pub mod route;
pub mod test_models;
