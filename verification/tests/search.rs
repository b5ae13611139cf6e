use spacetraders_pathfinding_rs::graph::{L2Graph, LookupError};
use spacetraders_pathfinding_rs::search::Reached;
use spacetraders_pathfinding_rs::systems::{System, Trait, Waypoint};
use spacetraders_pathfinding_rs::travel::{FUEL_SEGMENT, MAX_FUEL, START_FUEL};

fn spot(symbol: &str, x: i32, y: i32, kind: &str, traits: &[&str]) -> Waypoint {
    Waypoint {
        symbol: symbol.to_string(),
        x,
        y,
        waypoint_type: kind.to_string(),
        traits: Some(
            traits
                .iter()
                .map(|t| Trait { name: t.to_string(), description: String::new(), symbol: t.to_string() })
                .collect(),
        ),
    }
}

fn pair_of_systems() -> L2Graph {
    L2Graph::from_systems(&vec![
        System {
            symbol: "S1".to_string(),
            system_type: "STAR".to_string(),
            x: 0,
            y: 0,
            waypoints: vec![spot("J1", 0, 0, "JUMP_GATE", &[]), spot("M1", 30, 40, "PLANET", &["MARKETPLACE"])],
        },
        System {
            symbol: "S2".to_string(),
            system_type: "STAR".to_string(),
            x: 300,
            y: 400,
            waypoints: vec![spot("J2", 5, 5, "JUMP_GATE", &[])],
        },
    ])
}

#[test]
fn the_tank_and_its_segments() {
    assert_eq!(MAX_FUEL, 1500);
    assert_eq!(START_FUEL, 1500);
    assert_eq!(FUEL_SEGMENT, 150);
}

#[test]
fn moves_with_a_full_tank() {
    let graph = pair_of_systems();
    assert_eq!(
        graph.successors((0, 1500)),
        vec![
            ((1, 1500), 40),
            ((1, 1500), 28),
            ((1, 1500), 265),
            ((2, 1500), 60),
            ((2, 450), 182),
            ((2, 900), 348),
            ((2, 1350), 3348),
        ]
    );
}

#[test]
fn moves_leave_out_links_that_take_too_much_fuel() {
    let graph = pair_of_systems();
    assert_eq!(
        graph.successors((0, 100)),
        vec![((1, 1500), 40), ((1, 1500), 28), ((1, 1500), 265), ((2, 0), 60), ((2, 0), 3348)]
    );
    assert_eq!(graph.successors((0, 0)), vec![((2, 0), 60)]);
    assert_eq!(graph.successors((0, -1)), vec![]);
}

#[test]
fn fuel_left_is_rounded_down_to_a_segment() {
    let graph = pair_of_systems();
    // Setting out from the market: 1500 less 50, 100 and 1 all leave 1350.
    assert_eq!(graph.successors((1, 1500))[0], ((0, 1350), 40));
    assert_eq!(graph.successors((1, 1500))[1], ((0, 1350), 28));
    assert_eq!(graph.successors((1, 1500))[2], ((0, 1350), 265));
    assert_eq!(graph.successors((1, 150))[0], ((0, 0), 40));
    assert_eq!(graph.successors((1, 200))[0], ((0, 150), 40));
    assert_eq!(graph.successors((1, 200))[1], ((0, 0), 28));
    assert_eq!(graph.successors((1, 50))[0], ((0, 0), 40));
    assert_eq!(graph.successors((1, 49)), vec![((0, 0), 265), ((2, 0), 3348)]);
}

#[test]
fn a_state_off_the_graph_has_no_moves() {
    let graph = pair_of_systems();
    assert_eq!(graph.successors((3, 1500)), vec![]);
    assert_eq!(graph.successors((usize::MAX, 1500)), vec![]);
}

#[test]
fn dijkstra_lists_every_state_reached() {
    let graph = pair_of_systems();
    let reached = graph.dijkstra("M1").unwrap();
    assert_eq!(reached.len(), 20);
    assert!(reached.iter().all(|r| r.state != (1, 1500)));
    let cost_of = |state: (usize, i64)| -> Vec<Reached> {
        reached.iter().filter(|r| r.state == state).cloned().collect()
    };
    assert_eq!(cost_of((0, 1350)), vec![Reached { state: (0, 1350), parent: (1, 1500), cost: 28 }]);
    assert_eq!(cost_of((2, 1350)), vec![Reached { state: (2, 1350), parent: (0, 1350), cost: 88 }]);
    assert_eq!(cost_of((2, 450)), vec![Reached { state: (2, 450), parent: (1, 1500), cost: 182 }]);
    assert_eq!(cost_of((2, 900)), vec![Reached { state: (2, 900), parent: (1, 1500), cost: 348 }]);
    assert_eq!(cost_of((0, 450)), vec![Reached { state: (0, 450), parent: (2, 450), cost: 242 }]);
    assert_eq!(cost_of((2, 0)), vec![Reached { state: (2, 0), parent: (0, 150), cost: 4072 }]);
    assert_eq!(cost_of((0, 1500)), vec![]);
}

#[test]
fn dijkstra_lists_each_state_once() {
    let graph = pair_of_systems();
    let reached = graph.dijkstra("J2").unwrap();
    for a in 0..reached.len() {
        for b in a + 1..reached.len() {
            assert!(reached[a].state != reached[b].state);
        }
    }
    assert!(reached.iter().all(|r| r.state != (2, 1500)));
    assert!(reached.iter().any(|r| r.state == (1, 1500) && r.cost == 88));
}

#[test]
fn dijkstra_from_an_unknown_symbol_is_a_lookup_error() {
    let graph = pair_of_systems();
    assert_eq!(graph.dijkstra("S1"), Err(LookupError::UnknownSource));
}

#[test]
fn dijkstra_from_a_lone_node_reaches_nothing() {
    let graph = L2Graph::from_systems(&vec![System {
        symbol: "S".to_string(),
        system_type: "STAR".to_string(),
        x: 0,
        y: 0,
        waypoints: vec![spot("J", 0, 0, "JUMP_GATE", &[])],
    }]);
    assert_eq!(graph.dijkstra("J"), Ok(vec![]));
}
