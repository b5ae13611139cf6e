//! The records of a suite of routing cases: a ship, the systems that it flies
//! in, and for each case the route that is expected.

use vstd::prelude::*;

verus! {

#[derive(Clone, Debug, PartialEq, Eq)]
pub struct Ship {
    pub speed: i32,
    pub fuel_capacity: i32,
    pub intial_fuel: i32,
}

#[derive(Clone, Debug, PartialEq, Eq)]
pub struct Waypoint {
    pub symbol: String,
    pub x: i32,
    pub y: i32,
    pub sells_fuel: bool,
}

#[derive(Clone, Debug, PartialEq, Eq)]
pub struct System {
    pub symbol: String,
    pub waypoints: Vec<Waypoint>,
}

#[derive(Clone, Debug, PartialEq, Eq)]
pub struct Action {
    pub action: String,
    pub start: String,
    pub end: String,
}

#[derive(Clone, Debug, PartialEq, Eq)]
pub struct Expected {
    pub route: Vec<Action>,
    pub fuel_used: i32,
    pub time: i32,
}

#[derive(Clone, Debug, PartialEq, Eq)]
pub struct Test {
    pub start: String,
    pub end: String,
    pub expect: Expected,
}

#[derive(Clone, Debug, PartialEq, Eq)]
pub struct TestSuite {
    pub ship: Ship,
    pub systems: Vec<System>,
    pub tests: Vec<Test>,
}

/// `to` is the waypoint `from` as a catalogue holds it: a planet without traits,
/// under the same symbol and at the same place.
pub open spec fn charts_waypoint(from: Waypoint, to: crate::systems::Waypoint) -> bool {
    &&& to.symbol@ == from.symbol@
    &&& to.x == from.x
    &&& to.y == from.y
    &&& to.waypoint_type@ == "PLANET"@
    &&& to.traits is None
}

/// `to` is the system `from` as a catalogue holds it: a star at the origin,
/// under the same symbol and with the same waypoints.
pub open spec fn charts_system(from: System, to: crate::systems::System) -> bool {
    &&& to.symbol@ == from.symbol@
    &&& to.system_type@ == "STAR"@
    &&& to.x == 0
    &&& to.y == 0
    &&& to.waypoints@.len() == from.waypoints@.len()
    &&& forall|k: int|
        0 <= k < from.waypoints@.len() ==> charts_waypoint(from.waypoints@[k], #[trigger] to.waypoints@[k])
}

impl System {
    /// The system as a catalogue holds it.
    pub fn charted(&self) -> (system: crate::systems::System)
        ensures
            charts_system(*self, system),
    {
        let mut waypoints: Vec<crate::systems::Waypoint> = Vec::new();
        let mut k: usize = 0;
        while k < self.waypoints.len()
            invariant
                k <= self.waypoints@.len(),
                waypoints@.len() == k,
                forall|j: int| 0 <= j < k ==> charts_waypoint(self.waypoints@[j], #[trigger] waypoints@[j]),
            decreases self.waypoints.len() - k,
        {
            let from = &self.waypoints[k];
            waypoints.push(
                crate::systems::Waypoint {
                    symbol: from.symbol.clone(),
                    x: from.x,
                    y: from.y,
                    waypoint_type: "PLANET".to_owned(),
                    traits: None,
                },
            );
            k += 1;
        }
        crate::systems::System {
            symbol: self.symbol.clone(),
            system_type: "STAR".to_owned(),
            x: 0,
            y: 0,
            waypoints,
        }
    }
}

impl TestSuite {
    /// The systems of the suite as a catalogue holds them, in order.
    pub fn charted_systems(&self) -> (systems: Vec<crate::systems::System>)
        ensures
            systems@.len() == self.systems@.len(),
            forall|k: int| 0 <= k < self.systems@.len() ==> charts_system(self.systems@[k], #[trigger] systems@[k]),
    {
        let mut systems: Vec<crate::systems::System> = Vec::new();
        let mut k: usize = 0;
        while k < self.systems.len()
            invariant
                k <= self.systems@.len(),
                systems@.len() == k,
                forall|j: int| 0 <= j < k ==> charts_system(self.systems@[j], #[trigger] systems@[j]),
            decreases self.systems.len() - k,
        {
            systems.push(self.systems[k].charted());
            k += 1;
        }
        systems
    }
}

} // verus!
