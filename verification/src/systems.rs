//! The catalogue of star systems that a graph is built from.

use vstd::prelude::*;

verus! {

/// A trait of a waypoint, such as the presence of a marketplace.
#[derive(Clone, Debug, PartialEq, Eq)]
pub struct Trait {
    pub name: String,
    pub description: String,
    pub symbol: String,
}

/// A point of interest within a system.
#[derive(Clone, Debug, PartialEq, Eq)]
pub struct Waypoint {
    pub symbol: String,
    /// Position within the system.
    pub x: i32,
    pub y: i32,
    pub waypoint_type: String,
    pub traits: Option<Vec<Trait>>,
}

/// A star system and its waypoints.
#[derive(Clone, Debug, PartialEq, Eq)]
pub struct System {
    pub symbol: String,
    pub system_type: String,
    /// Position in the universe.
    pub x: i32,
    pub y: i32,
    pub waypoints: Vec<Waypoint>,
}

impl Waypoint {
    /// The waypoint is a jump gate.
    pub open spec fn is_jump_gate(self) -> bool {
        self.waypoint_type@ == "JUMP_GATE"@
    }

    /// One of the waypoint's traits is a marketplace, where ships refuel.
    pub open spec fn has_marketplace(self) -> bool {
        match self.traits {
            Some(traits) => exists|k: int|
                0 <= k < traits@.len() && (#[trigger] traits@[k]).symbol@ == "MARKETPLACE"@,
            None => false,
        }
    }
}

} // verus!
