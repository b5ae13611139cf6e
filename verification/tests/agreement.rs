use std::collections::{BinaryHeap, HashMap};

use spacetraders_pathfinding_rs::geometry::dist;
use spacetraders_pathfinding_rs::graph::L2Graph;
use spacetraders_pathfinding_rs::systems::{System, Trait, Waypoint};
use spacetraders_pathfinding_rs::travel::{Node, MAX_FUEL, START_FUEL};

type State = (usize, i64);

struct Dice(u64);

impl Dice {
    fn roll(&mut self, sides: u64) -> u64 {
        self.0 = self.0.wrapping_mul(6364136223846793005).wrapping_add(1442695040888963407);
        (self.0 >> 33) % sides
    }
}

fn random_catalogue(dice: &mut Dice, spread: u64) -> Vec<System> {
    let mut systems = Vec::new();
    for s in 0..2 + dice.roll(4) {
        let mut waypoints = Vec::new();
        for w in 0..dice.roll(4) {
            let kind = dice.roll(4);
            waypoints.push(Waypoint {
                symbol: format!("w{}-{}", s, w),
                x: dice.roll(1600) as i32 - 800,
                y: dice.roll(200) as i32,
                waypoint_type: if kind == 0 { "JUMP_GATE" } else { "PLANET" }.to_string(),
                traits: match kind {
                    1 => Some(vec![Trait {
                        name: String::new(),
                        description: String::new(),
                        symbol: "MARKETPLACE".to_string(),
                    }]),
                    2 => Some(vec![]),
                    _ => None,
                },
            });
        }
        systems.push(System {
            symbol: format!("s{}", s),
            system_type: "STAR".to_string(),
            x: dice.roll(spread) as i32,
            y: dice.roll(spread / 4 + 1) as i32,
            waypoints,
        });
    }
    systems
}

/// The least seconds to every state in reach of `start`, found by relaxing the
/// moves of the library.
fn least_seconds(graph: &L2Graph, start: State) -> HashMap<State, i128> {
    let mut best: HashMap<State, i128> = HashMap::new();
    let mut open = BinaryHeap::new();
    best.insert(start, 0);
    open.push((0i128, start));
    while let Some((negated, state)) = open.pop() {
        if -negated > best[&state] {
            continue;
        }
        for (next, seconds) in graph.successors(state) {
            let total = -negated + seconds;
            if best.get(&next).map_or(true, |known| total < *known) {
                best.insert(next, total);
                open.push((-total, next));
            }
        }
    }
    best
}

fn system_of(graph: &L2Graph, node: usize) -> (i32, i32) {
    match graph.node(node).unwrap() {
        Node::JumpgateWaypoint(s, _) | Node::MarketWaypoint(s, _) | Node::System(s) => (s.0, s.1),
    }
}

/// No estimate from a state in reach is more than the least seconds from there
/// to the destination.
fn estimates_are_admissible(graph: &L2Graph, in_reach: &HashMap<State, i128>, dest: usize) -> bool {
    in_reach.keys().all(|state| {
        let estimate = (dist(system_of(graph, state.0), system_of(graph, dest)) / 10) as i128;
        least_seconds(graph, *state)
            .iter()
            .filter(|(end, _)| end.0 == dest)
            .all(|(_, seconds)| estimate <= *seconds)
    })
}

fn agree_on(systems: &Vec<System>) -> (usize, usize) {
    let graph = L2Graph::from_systems(systems);
    let (mut routes, mut fastest) = (0, 0);
    for src in 0..graph.node_count() {
        let from = graph.name(src).unwrap().clone();
        let expected = least_seconds(&graph, (src, MAX_FUEL));

        let reached = graph.dijkstra(&from).unwrap();
        assert_eq!(reached.len(), expected.len() - 1);
        for entry in &reached {
            assert!(entry.state != (src, MAX_FUEL));
            assert_eq!(expected[&entry.state], entry.cost);
            let before = expected[&entry.parent];
            assert!(graph
                .successors(entry.parent)
                .iter()
                .any(|(next, seconds)| *next == entry.state && before + seconds == entry.cost));
        }

        for dest in 0..graph.node_count() {
            let to = graph.name(dest).unwrap().clone();
            let least = expected.iter().filter(|(state, _)| state.0 == dest).map(|(_, seconds)| *seconds).min();
            let route = graph.astar(&from, &to).unwrap();
            assert_eq!(route.is_some(), least.is_some());
            let Some(route) = route else { continue };
            routes += 1;
            assert!(route.total_duration >= least.unwrap());
            let mut elapsed = 0;
            let mut at = from.clone();
            let mut fuel = START_FUEL;
            for leg in &route.legs {
                assert_eq!(leg.origin, at);
                assert!(leg.fuel_cost <= fuel);
                assert_eq!(leg.fuel_left, (fuel - leg.fuel_cost) / 150 * 150);
                elapsed += leg.duration as i128;
                assert_eq!(leg.elapsed, elapsed);
                fuel = if leg.refuel { MAX_FUEL } else { leg.fuel_left };
                at = leg.destination.clone();
            }
            assert_eq!(at, to);
            assert!(elapsed >= least.unwrap());
            if src == dest {
                assert!(route.legs.is_empty());
                assert_eq!(route.total_duration, 0);
            }
            if estimates_are_admissible(&graph, &expected, dest) {
                fastest += 1;
                assert_eq!(route.total_duration, least.unwrap());
                assert_eq!(route.total_duration, elapsed);
            }
        }
    }
    (routes, fastest)
}

#[test]
fn searches_agree_with_relaxation_on_near_systems() {
    let mut dice = Dice(7);
    let (mut routes, mut fastest) = (0, 0);
    for _ in 0..60 {
        let (r, f) = agree_on(&random_catalogue(&mut dice, 1200));
        routes += r;
        fastest += f;
    }
    assert!(routes > 100);
    assert!(fastest > 100);
}

#[test]
fn searches_agree_with_relaxation_on_far_systems() {
    let mut dice = Dice(11);
    let (mut routes, mut fastest) = (0, 0);
    for _ in 0..60 {
        let (r, f) = agree_on(&random_catalogue(&mut dice, 30000));
        routes += r;
        fastest += f;
    }
    assert!(routes > 100);
    assert!(fastest > 50);
}
