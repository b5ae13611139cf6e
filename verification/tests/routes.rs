use spacetraders_pathfinding_rs::graph::{L2Graph, LookupError};
use spacetraders_pathfinding_rs::route::{pick_link, Leg, Route};
use spacetraders_pathfinding_rs::systems::{System, Trait, Waypoint};
use spacetraders_pathfinding_rs::travel::{Edge, FlightMode, Link};

fn waypoint(symbol: &str, x: i32, y: i32, kind: &str, traits: &[&str]) -> Waypoint {
    Waypoint {
        symbol: symbol.to_string(),
        x,
        y,
        waypoint_type: kind.to_string(),
        traits: Some(
            traits
                .iter()
                .map(|t| Trait { name: t.to_string(), description: String::new(), symbol: t.to_string() })
                .collect(),
        ),
    }
}

fn system(symbol: &str, x: i32, y: i32, waypoints: Vec<Waypoint>) -> System {
    System { symbol: symbol.to_string(), system_type: "STAR".to_string(), x, y, waypoints }
}

fn two_systems() -> Vec<System> {
    vec![
        system(
            "S1",
            0,
            0,
            vec![
                waypoint("J1", 0, 0, "JUMP_GATE", &[]),
                waypoint("M1", 30, 40, "PLANET", &["MARKETPLACE"]),
            ],
        ),
        system("S2", 300, 400, vec![waypoint("J2", 5, 5, "JUMP_GATE", &[])]),
    ]
}

fn three_in_a_row() -> Vec<System> {
    vec![
        system("X", 0, 0, vec![waypoint("x1", 1, 1, "PLANET", &[])]),
        system("Y", 0, 60, vec![waypoint("y1", 1, 1, "PLANET", &[])]),
        system("Z", 0, 760, vec![waypoint("z1", 0, 0, "MOON", &["SHIPYARD"])]),
    ]
}

fn leg(mode: Edge, origin: &str, destination: &str, duration: i64, elapsed: i128, fuel_cost: i64, fuel_left: i64, refuel: bool) -> Leg {
    Leg {
        mode,
        origin: origin.to_string(),
        destination: destination.to_string(),
        duration,
        elapsed,
        fuel_cost,
        fuel_left,
        refuel,
    }
}

#[test]
fn market_to_remote_gate_goes_by_the_local_gate() {
    let graph = L2Graph::from_systems(&two_systems());
    let route = graph.astar("M1", "J2").unwrap().unwrap();
    assert_eq!(route.legs.len(), 2);
    let first = &route.legs[0];
    assert_eq!(first.mode, Edge::Nav(FlightMode::BURN));
    assert_eq!(first.origin, "M1");
    assert_eq!(first.destination, "J1");
    assert_eq!(first.duration, 28);
    assert_eq!(first.elapsed, 28);
    assert_eq!(first.fuel_cost, 100);
    assert_eq!(first.fuel_left, 1350);
    assert!(!first.refuel);
    let second = &route.legs[1];
    assert_eq!(second.mode, Edge::Jumpgate);
    assert_eq!(second.origin, "J1");
    assert_eq!(second.destination, "J2");
    assert_eq!(second.duration, 60);
    assert_eq!(second.elapsed, 88);
    assert_eq!(second.fuel_cost, 0);
    assert_eq!(second.fuel_left, 1350);
    assert!(!second.refuel);
    assert_eq!(route.total_duration, 88);
    assert_eq!(route.total_duration, (first.duration + second.duration) as i128);
}

#[test]
fn unknown_symbols_are_lookup_errors() {
    let graph = L2Graph::from_systems(&two_systems());
    assert_eq!(graph.astar("nowhere", "J2"), Err(LookupError::UnknownSource));
    assert_eq!(graph.astar("M1", "nowhere"), Err(LookupError::UnknownDestination));
    assert_eq!(graph.astar("nowhere", "nowhere"), Err(LookupError::UnknownSource));
    assert_eq!(graph.astar("S1", "J2"), Err(LookupError::UnknownSource));
}

#[test]
fn a_ship_refuels_on_arrival_at_a_market() {
    let graph = L2Graph::from_systems(&two_systems());
    let route = graph.astar("J2", "M1").unwrap().unwrap();
    assert_eq!(
        route,
        Route {
            legs: vec![
                leg(Edge::Jumpgate, "J2", "J1", 60, 60, 0, 1500, false),
                leg(Edge::Nav(FlightMode::BURN), "J1", "M1", 28, 88, 100, 1350, true),
            ],
            total_duration: 88,
        }
    );
}

#[test]
fn the_route_from_a_node_to_itself_is_empty() {
    let graph = L2Graph::from_systems(&two_systems());
    for name in ["J1", "M1", "J2"] {
        assert_eq!(graph.astar(name, name), Ok(Some(Route { legs: vec![], total_duration: 0 })));
    }
}

#[test]
fn there_is_no_route_between_systems_too_far_apart() {
    let graph = L2Graph::from_systems(&vec![
        system("A", 0, 0, vec![waypoint("a", 0, 0, "PLANET", &[])]),
        system("B", 0, 20000, vec![waypoint("b", 0, 0, "PLANET", &[])]),
    ]);
    assert_eq!(graph.astar("A", "B"), Ok(None));
    assert_eq!(graph.astar("B", "A"), Ok(None));
    assert_eq!(graph.dijkstra("A"), Ok(vec![]));
}

#[test]
fn a_far_system_is_reached_by_way_of_a_near_one() {
    let graph = L2Graph::from_systems(&vec![
        system("A", 0, 0, vec![waypoint("a", 0, 0, "PLANET", &[])]),
        system("B", 0, 10000, vec![waypoint("b", 0, 0, "PLANET", &[])]),
        system("C", 0, 20000, vec![waypoint("c", 0, 0, "PLANET", &[])]),
    ]);
    assert_eq!(
        graph.astar("A", "C"),
        Ok(Some(Route {
            legs: vec![
                leg(Edge::Warp(FlightMode::DRIFT), "A", "B", 66682, 66682, 1, 1350, false),
                leg(Edge::Warp(FlightMode::DRIFT), "B", "C", 66682, 133364, 1, 1200, false),
            ],
            total_duration: 133364,
        }))
    );
}

#[test]
fn asking_twice_gives_the_same_route() {
    let graph = L2Graph::from_systems(&two_systems());
    for (from, to) in [("M1", "J2"), ("J2", "M1"), ("J1", "J1"), ("J1", "nowhere")] {
        assert_eq!(graph.astar(from, to), graph.astar(from, to));
    }
    let other = L2Graph::from_systems(&two_systems());
    assert_eq!(graph.astar("M1", "J2"), other.astar("M1", "J2"));
}

#[test]
fn fuel_in_whole_segments_can_cost_time() {
    // With 1440 left at "Y" a burn to "Z" would take the ship there in 303
    // seconds; 1440 counts as 1350, which is less than the burn takes.
    let graph = L2Graph::from_systems(&three_in_a_row());
    let route = graph.astar("X", "Z").unwrap().unwrap();
    assert_eq!(
        route,
        Route {
            legs: vec![
                leg(Edge::Warp(FlightMode::BURN), "X", "Y", 35, 35, 120, 1350, false),
                leg(Edge::Warp(FlightMode::CRUISE), "Y", "Z", 482, 517, 700, 600, false),
            ],
            total_duration: 517,
        }
    );
    assert!(route.total_duration >= 303);
}

#[test]
fn a_path_is_told_leg_by_leg() {
    let graph = L2Graph::from_systems(&two_systems());
    assert_eq!(
        graph.annotate(1, 2, &vec![(1, 1500), (0, 1350), (2, 1350)], 88),
        Some(Route {
            legs: vec![
                leg(Edge::Nav(FlightMode::BURN), "M1", "J1", 28, 28, 100, 1350, false),
                leg(Edge::Jumpgate, "J1", "J2", 60, 88, 0, 1350, false),
            ],
            total_duration: 88,
        })
    );
    // The cost is taken as given, the legs from the graph.
    assert_eq!(
        graph.annotate(1, 2, &vec![(1, 1500), (2, 900)], 1000),
        Some(Route {
            legs: vec![leg(Edge::Warp(FlightMode::CRUISE), "M1", "J2", 348, 348, 500, 900, false)],
            total_duration: 1000,
        })
    );
    assert_eq!(graph.annotate(1, 1, &vec![(1, 1500)], 0), Some(Route { legs: vec![], total_duration: 0 }));
}

#[test]
fn a_path_that_the_graph_does_not_hold_tells_no_route() {
    let graph = L2Graph::from_systems(&two_systems());
    // No path at all.
    assert_eq!(graph.annotate(1, 2, &vec![], 0), None);
    // Not from the source, not with the fuel that a ship sets out with, not to the destination.
    assert_eq!(graph.annotate(0, 2, &vec![(1, 1500), (0, 1350), (2, 1350)], 88), None);
    assert_eq!(graph.annotate(1, 2, &vec![(1, 1350), (0, 1200), (2, 1200)], 88), None);
    assert_eq!(graph.annotate(1, 0, &vec![(1, 1500), (0, 1350), (2, 1350)], 88), None);
    // No link leaves that fuel.
    assert_eq!(graph.annotate(1, 2, &vec![(1, 1500), (0, 1400), (2, 1400)], 88), None);
    assert_eq!(graph.annotate(1, 2, &vec![(1, 1500), (0, 1350), (2, 1349)], 88), None);
    // No link from a node to itself, and none from a node off the graph.
    assert_eq!(graph.annotate(1, 1, &vec![(1, 1500), (1, 1500)], 0), None);
    assert_eq!(graph.annotate(1, 2, &vec![(1, 1500), (7, 1350), (2, 1350)], 88), None);
    assert_eq!(graph.annotate(7, 2, &vec![(7, 1500), (2, 1350)], 88), None);
}

#[test]
fn the_fastest_link_that_fits_is_picked() {
    let graph = L2Graph::from_systems(&two_systems());
    let row = graph.links(1).unwrap();
    // Cruise, burn and drift all leave 1350 on arrival; burn is fastest.
    assert_eq!(pick_link(row, (1, 1500), (0, 1350)), Some(1));
    // With 200 the burn leaves nothing, the cruise and the drift 150.
    assert_eq!(pick_link(row, (1, 200), (0, 150)), Some(0));
    assert_eq!(pick_link(row, (1, 200), (0, 0)), Some(1));
    assert_eq!(pick_link(row, (1, 49), (0, 0)), Some(2));
    assert_eq!(pick_link(row, (1, 1500), (0, 1500)), None);
    assert_eq!(pick_link(row, (1, 0), (0, 0)), None);
    assert_eq!(pick_link(row, (1, 1500), (2, 900)), Some(4));
    assert_eq!(pick_link(&vec![], (1, 1500), (2, 900)), None);
}

#[test]
fn of_two_links_as_fast_the_first_is_picked() {
    let twin = |kind: Edge, duration: i64| Link { to: 3, kind, duration, fuel: 10, refuel: false };
    let row = vec![
        twin(Edge::Warp(FlightMode::DRIFT), 50),
        twin(Edge::Warp(FlightMode::CRUISE), 40),
        twin(Edge::Warp(FlightMode::BURN), 40),
        Link { to: 3, kind: Edge::Jumpgate, duration: 10, fuel: 500, refuel: false },
    ];
    assert_eq!(pick_link(&row, (0, 300), (3, 150)), Some(1));
    assert_eq!(pick_link(&row, (0, 500), (3, 0)), Some(3));
    // A market fills the tank whatever the link took.
    let market = vec![Link { to: 3, kind: Edge::Jumpgate, duration: 10, fuel: 500, refuel: true }];
    assert_eq!(pick_link(&market, (0, 500), (3, 1500)), Some(0));
    assert_eq!(pick_link(&market, (0, 500), (3, 0)), None);
    assert_eq!(pick_link(&market, (0, 499), (3, 1500)), None);
}

#[test]
fn a_chain_of_long_jumps_is_found_though_the_estimate_is_too_high() {
    // Each jump covers 1004 and takes 100 seconds; the ends are 3013 apart,
    // for which the estimate is 301 seconds.
    let lone = |symbol: &str, x: i32, y: i32| system(symbol, x, y, vec![waypoint(symbol, 0, 0, "JUMP_GATE", &[])]);
    let graph = L2Graph::from_systems(&vec![
        lone("A", 0, 0),
        lone("B", 1004, 30),
        lone("C", 2008, 60),
        lone("D", 3012, 90),
    ]);
    assert_eq!(
        graph.astar("A", "D"),
        Ok(Some(Route {
            legs: vec![
                leg(Edge::Jumpgate, "A", "B", 100, 100, 0, 1500, false),
                leg(Edge::Jumpgate, "B", "C", 100, 200, 0, 1500, false),
                leg(Edge::Jumpgate, "C", "D", 100, 300, 0, 1500, false),
            ],
            total_duration: 300,
        }))
    );
}
