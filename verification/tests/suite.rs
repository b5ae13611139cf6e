use spacetraders_pathfinding_rs::graph::L2Graph;
use spacetraders_pathfinding_rs::systems;
use spacetraders_pathfinding_rs::test_models::{Action, Expected, Ship, System, Test, TestSuite, Waypoint};
use spacetraders_pathfinding_rs::travel::{Node, SystemPoint};

fn suite() -> TestSuite {
    TestSuite {
        ship: Ship { speed: 30, fuel_capacity: 1500, intial_fuel: 1500 },
        systems: vec![
            System {
                symbol: "X1-A".to_string(),
                waypoints: vec![
                    Waypoint { symbol: "X1-A-1".to_string(), x: 3, y: -4, sells_fuel: true },
                    Waypoint { symbol: "X1-A-2".to_string(), x: 10, y: 0, sells_fuel: false },
                ],
            },
            System { symbol: "X1-B".to_string(), waypoints: vec![] },
        ],
        tests: vec![Test {
            start: "X1-A-1".to_string(),
            end: "X1-A-2".to_string(),
            expect: Expected {
                route: vec![Action {
                    action: "NAV".to_string(),
                    start: "X1-A-1".to_string(),
                    end: "X1-A-2".to_string(),
                }],
                fuel_used: 8,
                time: 20,
            },
        }],
    }
}

#[test]
fn a_suite_system_is_charted_as_a_star_at_the_origin() {
    let charted = suite().charted_systems();
    assert_eq!(
        charted,
        vec![
            systems::System {
                symbol: "X1-A".to_string(),
                system_type: "STAR".to_string(),
                x: 0,
                y: 0,
                waypoints: vec![
                    systems::Waypoint {
                        symbol: "X1-A-1".to_string(),
                        x: 3,
                        y: -4,
                        waypoint_type: "PLANET".to_string(),
                        traits: None,
                    },
                    systems::Waypoint {
                        symbol: "X1-A-2".to_string(),
                        x: 10,
                        y: 0,
                        waypoint_type: "PLANET".to_string(),
                        traits: None,
                    },
                ],
            },
            systems::System {
                symbol: "X1-B".to_string(),
                system_type: "STAR".to_string(),
                x: 0,
                y: 0,
                waypoints: vec![],
            },
        ]
    );
}

#[test]
fn a_single_suite_system_is_charted_alone() {
    let one = suite().systems[0].charted();
    assert_eq!(one, suite().charted_systems()[0]);
}

#[test]
fn the_graph_of_a_suite_has_one_node_for_each_system_with_waypoints() {
    let graph = L2Graph::from_systems(&suite().charted_systems());
    assert_eq!(graph.node_count(), 1);
    assert_eq!(graph.node(0), Some(Node::System(SystemPoint(0, 0))));
    assert_eq!(graph.name(0).unwrap(), "X1-A");
    assert!(graph.links(0).unwrap().is_empty());
}
